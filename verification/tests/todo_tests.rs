use todo0::todo::{ActionResult, Error, Position, Task, TaskId, TodoList};

fn get_tasks<'a>(list: &'a TodoList) -> Vec<&'a str> {
    list.items.iter().map(|x| x.title.as_str()).collect()
}

#[test]
fn add_task() {
    let mut list = TodoList::new();

    let task = Task::new("A");
    let task_id = task.id;
    let res = list.add(None, task);
    assert_eq!(ActionResult::Inserted(task_id), res.unwrap());
    assert_eq!(get_tasks(&list), vec!["A"],);

    let task = Task::new("B");
    let task_id = task.id;
    let res = list.add(Some(Position::AtIndex(0)), task);
    assert_eq!(ActionResult::Inserted(task_id), res.unwrap());
    assert_eq!(get_tasks(&list), vec!["B", "A"],);

    let task = Task::new("C");
    let task_id = task.id;
    let res = list.add(Some(Position::AtIndex(1)), task);
    assert_eq!(ActionResult::Inserted(task_id), res.unwrap());
    assert_eq!(get_tasks(&list), vec!["B", "C", "A"],);

    let task = Task::new("D");
    let task_id = task.id;
    let res = list.add(None, task);
    assert_eq!(ActionResult::Inserted(task_id), res.unwrap());
    assert_eq!(get_tasks(&list), vec!["B", "C", "A", "D"],);

    let task = Task::new("E");
    let task_id = task.id;
    let pos = Some(Position::ById(list.items[1].id));
    let res = list.add(pos, task);
    assert_eq!(ActionResult::Inserted(task_id), res.unwrap());
    assert_eq!(get_tasks(&list), vec!["B", "C", "E", "A", "D"],);
}

#[test]
fn edit_task() {
    let mut list = TodoList::new();
    list.add(None, Task::new("A")).unwrap();
    list.add(None, Task::new("B")).unwrap();
    list.add(None, Task::new("C")).unwrap();
    assert_eq!(get_tasks(&list), vec!["A", "B", "C"],);

    // update non existent item
    let task = Task::new("not exist");
    let res = list.edit(None, task);
    assert_eq!(res.unwrap_err(), Error::NotFound);

    // update by task id
    let task_id = list.items[1].id;
    let task = Task {
        id: task_id,
        title: String::from("B0"),
        done: true,
    };
    let res = list.edit(None, task);
    assert_eq!(res.unwrap(), ActionResult::Updated(task_id));
    assert_eq!(get_tasks(&list), vec!["A", "B0", "C"]);
    assert_eq!(
        list.items[1],
        Task {
            id: task_id,
            title: String::from("B0"),
            done: true
        }
    );

    // update by index
    let task_id = list.items[2].id;
    let mut task = Task::new("C0");
    task.done = true;

    let res = list.edit(Some(Position::AtIndex(2)), task);
    assert_eq!(res.unwrap(), ActionResult::Updated(task_id));
    assert_eq!(get_tasks(&list), vec!["A", "B0", "C0"]);
    assert_eq!(
        list.items[2],
        Task {
            id: task_id,
            title: String::from("C0"),
            done: true
        }
    );
}

#[test]
fn delete_task() {
    let mut list = TodoList::new();
    list.add(None, Task::new("A")).unwrap();
    list.add(None, Task::new("B")).unwrap();
    list.add(None, Task::new("C")).unwrap();
    list.add(None, Task::new("D")).unwrap();
    assert_eq!(get_tasks(&list), vec!["A", "B", "C", "D"],);

    // delete by id
    let task_id = list.items[1].id;
    let res = list.delete(Some(Position::ById(task_id)));
    assert_eq!(res.unwrap(), ActionResult::Deleted(task_id));
    assert_eq!(get_tasks(&list), vec!["A", "C", "D"]);

    // delete by index
    let task_id = list.items[1].id;
    let res = list.delete(Some(Position::AtIndex(1)));
    assert_eq!(res.unwrap(), ActionResult::Deleted(task_id));
    assert_eq!(get_tasks(&list), vec!["A", "D"]);
}

#[test]
fn add_fresh_appends_distinct_id() {
    let mut list = TodoList::new();
    list.add(None, Task::new("first")).unwrap();
    list.add(None, Task::new("second")).unwrap();

    let task = Task::new("third");
    let res = list.add(None, task).unwrap();
    let last = list.items.last().unwrap();
    assert_eq!(last.title, "third");
    assert_eq!(last.done, false);
    assert_ne!(last.id.0, 0);
    assert_eq!(res, ActionResult::Inserted(last.id));
    for i in 0..list.items.len() - 1 {
        assert_ne!(list.items[i].id, last.id);
    }
}

#[test]
fn add_same_id_updates_in_place() {
    let mut list = TodoList::new();
    list.add(None, Task::new("A")).unwrap();
    list.add(None, Task::new("B")).unwrap();

    let existing_id = list.items[0].id;
    let changed = Task {
        id: existing_id,
        title: String::from("A-changed"),
        done: true,
    };
    let res = list.add(None, changed).unwrap();
    assert_eq!(res, ActionResult::Updated(existing_id));
    assert_eq!(list.items.len(), 2);
    assert_eq!(list.items[0].title, "A-changed");
    assert_eq!(list.items[0].id, existing_id);
    assert!(list.items[0].done);
}

#[test]
fn edit_at_index_keeps_existing_id() {
    let mut list = TodoList::new();
    list.add(None, Task::new("A")).unwrap();
    list.add(None, Task::new("B")).unwrap();

    let kept_id = list.items[1].id;
    let candidate = Task {
        id: TaskId(987654321),
        title: String::from("B-new"),
        done: false,
    };
    let res = list.edit(Some(Position::AtIndex(1)), candidate).unwrap();
    assert_eq!(res, ActionResult::Updated(kept_id));
    assert_eq!(list.items[1].id, kept_id);
    assert_eq!(list.items[1].title, "B-new");
}

#[test]
fn edit_by_missing_id_never_inserts() {
    let mut list = TodoList::new();
    list.add(None, Task::new("A")).unwrap();

    let absent = TaskId(42);
    assert_ne!(list.items[0].id, absent);
    let res = list.edit(Some(Position::ById(absent)), Task::new("ghost"));
    assert_eq!(res.unwrap_err(), Error::NotFound);
    assert_eq!(list.items.len(), 1);
    assert_eq!(list.items[0].title, "A");
}

#[test]
fn delete_out_of_range_leaves_list_unchanged() {
    let mut empty = TodoList::new();
    let res = empty.delete(Some(Position::AtIndex(0)));
    assert_eq!(res.unwrap_err(), Error::NotFound);
    assert_eq!(empty.items.len(), 0);

    let mut list = TodoList::new();
    list.add(None, Task::new("A")).unwrap();
    list.add(None, Task::new("B")).unwrap();
    let res = list.delete(Some(Position::AtIndex(2)));
    assert_eq!(res.unwrap_err(), Error::NotFound);
    assert_eq!(get_tasks(&list), vec!["A", "B"]);
}

#[test]
fn delete_without_position_is_invalid() {
    let mut list = TodoList::new();
    list.add(None, Task::new("A")).unwrap();
    let err = list.delete(None).unwrap_err();
    assert_eq!(err, Error::Validation(String::from("invalid position")));
    assert_eq!(list.items.len(), 1);
}

#[test]
fn validate_rejects_blank_title() {
    let blank = Task {
        id: TaskId(0),
        title: String::from("  \t "),
        done: false,
    };
    let err = Task::validate(&blank).unwrap_err();
    assert_eq!(err, Error::Validation(String::from("title is empty")));

    let mut list = TodoList::new();
    let err = list.add(None, Task::new(" ")).unwrap_err();
    assert_eq!(err, Error::Validation(String::from("title is empty")));
    assert_eq!(list.items.len(), 0);
}

#[test]
fn validate_assigns_fresh_id_for_sentinel() {
    let sentinel = Task {
        id: TaskId(0),
        title: String::from("needs id"),
        done: true,
    };
    let v = Task::validate(&sentinel).unwrap();
    assert_ne!(v.id.0, 0);
    assert_eq!(v.title, "needs id");
    assert!(v.done);

    let fixed = Task {
        id: TaskId(7),
        title: String::from("  keeps id  "),
        done: false,
    };
    let v = Task::validate(&fixed).unwrap();
    assert_eq!(v.id, TaskId(7));
    assert_eq!(v.title, "  keeps id  ");
}

#[test]
fn task_id_new_is_never_zero() {
    for _ in 0..64 {
        assert_ne!(TaskId::new().0, 0);
    }
}

#[test]
fn add_at_index_equal_to_length_appends() {
    let mut list = TodoList::new();
    list.add(None, Task::new("A")).unwrap();
    list.add(Some(Position::AtIndex(1)), Task::new("B")).unwrap();
    assert_eq!(get_tasks(&list), vec!["A", "B"]);
}

#[test]
fn add_beyond_length_clamps_to_append() {
    let mut list = TodoList::new();
    list.add(None, Task::new("A")).unwrap();
    list.add(Some(Position::AtIndex(99)), Task::new("B")).unwrap();
    assert_eq!(get_tasks(&list), vec!["A", "B"]);
}

#[test]
fn add_after_missing_anchor_appends() {
    let mut list = TodoList::new();
    list.add(None, Task::new("A")).unwrap();
    let absent = TaskId(12345);
    assert_ne!(list.items[0].id, absent);
    list.add(Some(Position::ById(absent)), Task::new("B")).unwrap();
    assert_eq!(get_tasks(&list), vec!["A", "B"]);
}

#[test]
fn scenario_three_records() {
    let mut list = TodoList::new();
    list.add(None, Task::new("A")).unwrap();
    list.add(None, Task::new("B")).unwrap();
    list.add(None, Task::new("C")).unwrap();
    let a2 = list.items[1].id;
    let a3 = list.items[2].id;

    let x = Task::new("X");
    let x_id = x.id;
    let res = list.add(Some(Position::AtIndex(0)), x).unwrap();
    assert_eq!(res, ActionResult::Inserted(x_id));
    assert_eq!(get_tasks(&list), vec!["X", "A", "B", "C"]);

    let res = list.edit(Some(Position::AtIndex(2)), Task::new("B2")).unwrap();
    assert_eq!(res, ActionResult::Updated(a2));
    assert_eq!(get_tasks(&list), vec!["X", "A", "B2", "C"]);
    assert_eq!(list.items[2].id, a2);

    let res = list.delete(Some(Position::ById(a3))).unwrap();
    assert_eq!(res, ActionResult::Deleted(a3));
    assert_eq!(get_tasks(&list), vec!["X", "A", "B2"]);

    let res = list.delete(Some(Position::AtIndex(5)));
    assert_eq!(res.unwrap_err(), Error::NotFound);
    assert_eq!(get_tasks(&list), vec!["X", "A", "B2"]);
}

#[test]
fn batch_delete_uses_snapshot_indexes() {
    let mut list = TodoList::new();
    list.add(None, Task::new("A")).unwrap();
    list.add(None, Task::new("B")).unwrap();
    list.add(None, Task::new("C")).unwrap();
    list.add(None, Task::new("D")).unwrap();
    let id_a = list.items[0].id;
    let id_c = list.items[2].id;

    // Both indexes name the original order: 0 is "A", 2 is "C".
    let positions = vec![
        Some(Position::AtIndex(0)),
        Some(Position::AtIndex(2)),
    ];
    let results = list.delete_batch(&positions);
    assert_eq!(results.len(), 2);
    assert_eq!(results[0], Ok(ActionResult::Deleted(id_a)));
    assert_eq!(results[1], Ok(ActionResult::Deleted(id_c)));
    assert_eq!(get_tasks(&list), vec!["B", "D"]);
}

#[test]
fn batch_delete_counts_duplicates_once() {
    let mut list = TodoList::new();
    list.add(None, Task::new("A")).unwrap();
    list.add(None, Task::new("B")).unwrap();
    let id_b = list.items[1].id;

    let positions = vec![
        Some(Position::AtIndex(1)),
        Some(Position::ById(id_b)),
        None,
        Some(Position::AtIndex(9)),
    ];
    let results = list.delete_batch(&positions);
    assert_eq!(results[0], Ok(ActionResult::Deleted(id_b)));
    assert_eq!(results[1], Ok(ActionResult::Deleted(id_b)));
    assert_eq!(
        results[2],
        Err(Error::Validation(String::from("invalid position")))
    );
    assert_eq!(results[3], Err(Error::NotFound));
    assert_eq!(get_tasks(&list), vec!["A"]);
}
