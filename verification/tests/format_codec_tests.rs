use todo0::cmd::{cmd_add, cmd_check, cmd_del, cmd_edit, cmd_uncheck, map_result, parse_args_as_indexes, parse_task};
use todo0::codec::{decode, encode};
use todo0::help::short_help;
use todo0::text::{parse_u64, str_is_blank, u64_to_string};
use todo0::todo::{ActionResult, Error, Task, TaskId, TodoList};

fn args(words: &[&str]) -> Vec<String> {
    words.iter().map(|w| w.to_string()).collect()
}

fn list_of(titles: &[&str]) -> TodoList {
    let mut list = TodoList::new();
    for t in titles {
        list.add(None, Task::new(t)).unwrap();
    }
    list
}

#[test]
fn format_empty_list() {
    let list = TodoList::new();
    assert_eq!(list.format(), "no items");
}

#[test]
fn format_numbers_and_titles() {
    let list = list_of(&["A", "B"]);
    assert_eq!(list.format(), "  1. A\n  2. B");
}

#[test]
fn format_pads_two_digit_positions() {
    let titles: Vec<String> = (1..=10).map(|i| format!("t{}", i)).collect();
    let title_refs: Vec<&str> = titles.iter().map(|s| s.as_str()).collect();
    let list = list_of(&title_refs);
    let out = list.format();
    let lines: Vec<&str> = out.split('\n').collect();
    assert_eq!(lines.len(), 10);
    assert_eq!(lines[0], "  1. t1");
    assert_eq!(lines[8], "  9. t9");
    assert_eq!(lines[9], " 10. t10");
}

#[test]
fn encode_is_exact() {
    let list = TodoList {
        items: vec![
            Task {
                id: TaskId(5),
                title: String::from("A"),
                done: false,
            },
            Task {
                id: TaskId(12),
                title: String::from("b c"),
                done: true,
            },
        ],
    };
    assert_eq!(encode(&list), "5 0 1 A\n12 1 3 b c\n");
}

#[test]
fn decode_is_exact() {
    let list = decode("5 1 2 hi\n9 0 3 x y\n").unwrap();
    assert_eq!(list.items.len(), 2);
    assert_eq!(list.items[0].id, TaskId(5));
    assert_eq!(list.items[0].title, "hi");
    assert!(list.items[0].done);
    assert_eq!(list.items[1].id, TaskId(9));
    assert_eq!(list.items[1].title, "x y");
    assert!(!list.items[1].done);
}

#[test]
fn round_trip_reproduces_every_field() {
    let mut list = list_of(&["plain", "with  spaces", "tab\tand\nnewline"]);
    let id = list.items[1].id;
    list.edit(
        None,
        Task {
            id,
            title: String::from("with  spaces"),
            done: true,
        },
    )
    .unwrap();

    let encoded = encode(&list);
    let back = decode(encoded.as_str()).unwrap();
    assert_eq!(back.items.len(), list.items.len());
    for i in 0..list.items.len() {
        assert_eq!(back.items[i].id, list.items[i].id);
        assert_eq!(back.items[i].title, list.items[i].title);
        assert_eq!(back.items[i].done, list.items[i].done);
    }
}

#[test]
fn codec_handles_the_empty_list() {
    let empty = TodoList::new();
    assert_eq!(encode(&empty), "");
    let back = decode("").unwrap();
    assert_eq!(back.items.len(), 0);
}

#[test]
fn decode_rejects_broken_input() {
    assert!(decode("not a list").is_none());
    assert!(decode("5 0 1 A\nx").is_none()); // trailing garbage
    assert!(decode("5 0 1 A").is_none()); // missing newline
    assert!(decode("5 2 1 A\n").is_none()); // bad done flag
    assert!(decode("5 0 9 A\n").is_none()); // length beyond the text
}

#[test]
fn decode_rejects_invalid_collections() {
    // A sentinel identifier.
    assert!(decode("0 0 1 A\n").is_none());
    // A duplicated identifier.
    assert!(decode("5 0 1 A\n5 0 1 B\n").is_none());
    // A title that trims to nothing.
    assert!(decode("5 0 1  \n").is_none());
}

#[test]
fn wf_check_spots_duplicates() {
    let good = list_of(&["A", "B"]);
    assert!(good.is_wf());
    let dup = TodoList {
        items: vec![
            Task {
                id: TaskId(5),
                title: String::from("A"),
                done: false,
            },
            Task {
                id: TaskId(5),
                title: String::from("B"),
                done: false,
            },
        ],
    };
    assert!(!dup.is_wf());
}

#[test]
fn u64_rendering_is_decimal() {
    assert_eq!(u64_to_string(0), "0");
    assert_eq!(u64_to_string(7), "7");
    assert_eq!(u64_to_string(12345), "12345");
    assert_eq!(u64_to_string(u64::MAX), "18446744073709551615");
}

#[test]
fn u64_parsing_is_exact() {
    assert_eq!(parse_u64("0"), Some(0));
    assert_eq!(parse_u64("0012"), Some(12));
    assert_eq!(parse_u64("18446744073709551615"), Some(u64::MAX));
    assert_eq!(parse_u64("18446744073709551616"), None);
    assert_eq!(parse_u64(""), None);
    assert_eq!(parse_u64("12a"), None);
    assert_eq!(parse_u64("+3"), None);
}

#[test]
fn blank_detection_follows_trimming() {
    assert!(str_is_blank(""));
    assert!(str_is_blank(" \t\r\n"));
    assert!(str_is_blank("\u{a0}\u{3000}"));
    assert!(!str_is_blank(" a "));
}

#[test]
fn short_help_names_the_program() {
    assert_eq!(
        short_help(),
        "Use \"todo0 help\" or \"todo0 --help\" to see the usage."
    );
}

#[test]
fn error_messages_render_as_one_line() {
    assert_eq!(Error::NotFound.message(), "task not found");
    assert_eq!(
        Error::Validation(String::from("title is empty")).message(),
        "title is empty"
    );
    assert_eq!(map_result(Ok(ActionResult::Deleted(TaskId(1)))), Ok(()));
    assert_eq!(
        map_result(Err(Error::NotFound)),
        Err(String::from("task not found"))
    );
}

#[test]
fn parse_task_joins_words() {
    let t = parse_task(&args(&["hello", "foo"])).unwrap();
    assert_eq!(t.title, "hello foo");
    assert_eq!(t.done, false);
    assert_ne!(t.id.0, 0);

    let err = parse_task(&args(&[])).unwrap_err();
    assert_eq!(
        err,
        "Missing task title. Use \"todo0 help\" or \"todo0 --help\" to see the usage."
    );
}

#[test]
fn indexes_accept_a_leading_plus() {
    // The same positions that machine-word parsing accepts.
    assert_eq!(parse_args_as_indexes(5, &args(&["+2"])), Ok(vec![2]));
    assert_eq!(parse_args_as_indexes(5, &args(&["+2", "1"])), Ok(vec![2, 1]));
    let invalid = "Invalid arguments. Use \"todo0 help\" or \"todo0 --help\" to see the usage.";
    assert_eq!(
        parse_args_as_indexes(5, &args(&["+"])),
        Err(String::from(invalid))
    );
    assert_eq!(
        parse_args_as_indexes(5, &args(&["++2"])),
        Err(String::from(invalid))
    );

    let mut list = list_of(&["A", "B"]);
    let msg = cmd_add(&mut list, &args(&["+2", "foo"])).unwrap();
    assert_eq!(msg, "added 1 task");
    let titles: Vec<&str> = list.items.iter().map(|t| t.title.as_str()).collect();
    assert_eq!(titles, vec!["A", "foo", "B"]);

    let msg = cmd_edit(&mut list, &args(&["+2", "x"])).unwrap();
    assert_eq!(msg, "edited 1 task");
    let titles: Vec<&str> = list.items.iter().map(|t| t.title.as_str()).collect();
    assert_eq!(titles, vec!["A", "x", "B"]);
}

#[test]
fn indexes_are_one_based_and_bounded() {
    assert_eq!(parse_args_as_indexes(3, &args(&["1", "3"])), Ok(vec![1, 3]));
    assert_eq!(
        parse_args_as_indexes(2, &args(&["5"])),
        Err(String::from("index 5 is out of range (max 2)"))
    );
    assert_eq!(
        parse_args_as_indexes(2, &args(&["0"])),
        Err(String::from("index 0 is out of range (max 2)"))
    );
    assert_eq!(
        parse_args_as_indexes(2, &args(&["x"])),
        Err(String::from(
            "Invalid arguments. Use \"todo0 help\" or \"todo0 --help\" to see the usage."
        ))
    );
}

#[test]
fn cmd_add_appends_or_inserts() {
    let mut list = TodoList::new();
    let msg = cmd_add(&mut list, &args(&["hello", "foo"])).unwrap();
    assert_eq!(msg, "added 1 task");
    assert_eq!(list.items[0].title, "hello foo");

    let msg = cmd_add(&mut list, &args(&["1", "first"])).unwrap();
    assert_eq!(msg, "added 1 task");
    assert_eq!(list.items[0].title, "first");
    assert_eq!(list.items[1].title, "hello foo");

    let err = cmd_add(&mut list, &args(&[])).unwrap_err();
    assert_eq!(
        err,
        "Invalid arguments. Use \"todo0 help\" or \"todo0 --help\" to see the usage."
    );
    let err = cmd_add(&mut list, &args(&["2"])).unwrap_err();
    assert_eq!(
        err,
        "Missing task title. Use \"todo0 help\" or \"todo0 --help\" to see the usage."
    );
    let err = cmd_add(&mut list, &args(&["0", "zero"])).unwrap_err();
    assert_eq!(
        err,
        "Invalid arguments. Use \"todo0 help\" or \"todo0 --help\" to see the usage."
    );
}

#[test]
fn cmd_edit_targets_last_or_index() {
    let mut list = list_of(&["A", "B"]);
    let id_b = list.items[1].id;
    let msg = cmd_edit(&mut list, &args(&["bar"])).unwrap();
    assert_eq!(msg, "edited 1 task");
    assert_eq!(list.items[1].title, "bar");
    assert_eq!(list.items[1].id, id_b);

    let id_a = list.items[0].id;
    let msg = cmd_edit(&mut list, &args(&["1", "foo", "baz"])).unwrap();
    assert_eq!(msg, "edited 1 task");
    assert_eq!(list.items[0].title, "foo baz");
    assert_eq!(list.items[0].id, id_a);

    let mut empty = TodoList::new();
    let err = cmd_edit(&mut empty, &args(&["bar"])).unwrap_err();
    assert_eq!(err, "task not found");
}

#[test]
fn cmd_del_reports_distinct_deletions() {
    let mut list = list_of(&["A", "B", "C"]);
    let msg = cmd_del(&mut list, &args(&["2", "1", "2"])).unwrap();
    assert_eq!(msg, "deleted 2 tasks");
    assert_eq!(list.items.len(), 1);
    assert_eq!(list.items[0].title, "C");

    let err = cmd_del(&mut list, &args(&["4"])).unwrap_err();
    assert_eq!(err, "index 4 is out of range (max 1)");
    assert_eq!(list.items.len(), 1);
}

#[test]
fn cmd_check_and_uncheck_flip_done_flags() {
    let mut list = list_of(&["A", "B", "C"]);
    let msg = cmd_check(&mut list, &args(&["1", "2"])).unwrap();
    assert_eq!(msg, "marked 2 tasks as done");
    assert!(list.items[0].done);
    assert!(list.items[1].done);
    assert!(!list.items[2].done);

    // Already done: nothing newly marked.
    let msg = cmd_check(&mut list, &args(&["1"])).unwrap();
    assert_eq!(msg, "marked 0 tasks as done");

    let msg = cmd_uncheck(&mut list, &args(&["1"])).unwrap();
    assert_eq!(msg, "marked 1 task as not done");
    assert!(!list.items[0].done);
    assert!(list.items[1].done);
}
