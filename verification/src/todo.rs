//! The task record, its identifier, and the ordered collection engine:
//! positional and identity-based insert, update and delete over an
//! insertion-ordered list of uniquely identified tasks.

use vstd::prelude::*;

use crate::text::dec_str;
use crate::text::is_blank;
use crate::text::str_is_blank;
use crate::text::u64_to_string;

verus! {

/// An opaque task identifier, compared only for equality.
/// The value zero is reserved as the "not yet assigned" sentinel and is
/// never produced by [`TaskId::new`].
#[derive(Copy, Clone, PartialEq, Eq, Structural, Debug, Hash)]
pub struct TaskId(pub u64);

/// A single task record: an identifier, a title and a done flag.
#[derive(Clone, PartialEq, Debug)]
pub struct Task {
    pub id: TaskId,
    pub title: String,
    pub done: bool,
}

/// The outcome of a successful mutating operation, carrying the identifier
/// of the record that was placed, overwritten or removed.
#[derive(Copy, Clone, PartialEq, Eq, Structural, Debug)]
pub enum ActionResult {
    Inserted(TaskId),
    Updated(TaskId),
    Deleted(TaskId),
}

/// The two recoverable failures: a locator that resolves to no record, and
/// a candidate record that breaks a content rule.
#[derive(Clone, PartialEq, Debug)]
pub enum Error {
    NotFound,
    Validation(String),
}

impl Error {
    /// A single human-readable line for this error, what a caller prints.
    pub fn message(&self) -> (r: String)
        ensures
            match self {
                Error::NotFound => r@ == "task not found"@,
                Error::Validation(m) => r@ == m@,
            },
    {
        match self {
            Error::NotFound => "task not found".to_owned(),
            Error::Validation(m) => m.clone(),
        }
    }
}

/// A locator for an existing record: a zero-based position in the current
/// order, or an identity looked up anywhere in the list.
pub enum Position {
    AtIndex(usize),
    ById(TaskId),
}

/// The ordered, insertion-order-significant collection of tasks.
#[derive(Debug)]
pub struct TodoList {
    pub items: Vec<Task>,
}

/// The mathematical model of a [`Task`]: the raw identifier, the title as a
/// sequence of characters, and the done flag.
#[verifier::ext_equal]
pub ghost struct TaskView {
    pub id: u64,
    pub title: Seq<char>,
    pub done: bool,
}

impl View for Task {
    type V = TaskView;

    open spec fn view(&self) -> TaskView {
        TaskView { id: self.id.0, title: self.title@, done: self.done }
    }
}

/// The model of a whole list: its tasks, in order.
pub open spec fn tasks_view(s: Seq<Task>) -> Seq<TaskView> {
    Seq::new(s.len(), |i: int| s[i]@)
}

impl View for TodoList {
    type V = Seq<TaskView>;

    open spec fn view(&self) -> Seq<TaskView> {
        tasks_view(self.items@)
    }
}

/// Some record in `s` carries the identifier `id`.
pub open spec fn has_id(s: Seq<TaskView>, id: u64) -> bool {
    exists|i: int| 0 <= i < s.len() && (#[trigger] s[i]).id == id
}

/// The position of the record carrying `id`; meaningful only when
/// `has_id(s, id)` holds, and unique once identifiers are distinct.
pub open spec fn id_index(s: Seq<TaskView>, id: u64) -> int {
    choose|i: int| 0 <= i < s.len() && (#[trigger] s[i]).id == id
}

/// The collection invariant: every record has a non-sentinel identifier,
/// no two records share one, and every title survives trimming.
pub open spec fn wf_seq(s: Seq<TaskView>) -> bool {
    &&& forall|i: int| 0 <= i < s.len() ==> (#[trigger] s[i]).id != 0
    &&& forall|i: int, j: int|
        0 <= i < j < s.len() ==> (#[trigger] s[i]).id != (#[trigger] s[j]).id
    &&& forall|i: int| 0 <= i < s.len() ==> !is_blank((#[trigger] s[i]).title)
}

/// The same record with another identifier.
pub open spec fn with_id(t: TaskView, v: u64) -> TaskView {
    TaskView { id: v, ..t }
}

/// Where an insert lands: at the end when no position is given, at a
/// clamped index, or right after the record an anchor identifies (at the
/// end when the anchor is absent).
pub open spec fn insert_index(s: Seq<TaskView>, pos: Option<Position>) -> int {
    match pos {
        None => s.len() as int,
        Some(Position::AtIndex(i)) => if i <= s.len() {
            i as int
        } else {
            s.len() as int
        },
        Some(Position::ById(anchor)) => if has_id(s, anchor.0) {
            id_index(s, anchor.0) + 1
        } else {
            s.len() as int
        },
    }
}

/// What `add` does with a validated candidate `t`: overwrite the record
/// that already carries `t`'s identifier, or insert `t` at the requested
/// position.
pub open spec fn spec_add(s: Seq<TaskView>, pos: Option<Position>, t: TaskView) -> (Seq<
    TaskView,
>, ActionResult) {
    if has_id(s, t.id) {
        (s.update(id_index(s, t.id), t), ActionResult::Updated(TaskId(t.id)))
    } else {
        (s.insert(insert_index(s, pos), t), ActionResult::Inserted(TaskId(t.id)))
    }
}

/// What `edit` does with a validated candidate `t`: identity match first,
/// then the supplied position; `None` when nothing resolves. An edit never
/// inserts and never changes the identifier already at a position.
pub open spec fn spec_edit(s: Seq<TaskView>, pos: Option<Position>, t: TaskView) -> Option<
    (Seq<TaskView>, ActionResult),
> {
    if has_id(s, t.id) {
        Some((s.update(id_index(s, t.id), t), ActionResult::Updated(TaskId(t.id))))
    } else {
        match pos {
            None => None,
            Some(Position::ById(anchor)) => if has_id(s, anchor.0) {
                Some(
                    (
                        s.update(id_index(s, anchor.0), with_id(t, anchor.0)),
                        ActionResult::Updated(anchor),
                    ),
                )
            } else {
                None
            },
            Some(Position::AtIndex(i)) => if (i as int) < s.len() {
                Some(
                    (
                        s.update(i as int, with_id(t, s[i as int].id)),
                        ActionResult::Updated(TaskId(s[i as int].id)),
                    ),
                )
            } else {
                None
            },
        }
    }
}

/// What `delete` does with a position: the shrunken list and the removed
/// identifier, or `None` when the position resolves to no record.
pub open spec fn spec_delete(s: Seq<TaskView>, pos: Position) -> Option<(Seq<TaskView>, TaskId)> {
    match pos {
        Position::AtIndex(i) => if (i as int) < s.len() {
            Some((s.remove(i as int), TaskId(s[i as int].id)))
        } else {
            None
        },
        Position::ById(anchor) => if has_id(s, anchor.0) {
            Some((s.remove(id_index(s, anchor.0)), anchor))
        } else {
            None
        },
    }
}

/// Under distinct identifiers, any position that carries `id` is the
/// position `id_index` picks.
pub proof fn lemma_id_index_unique(s: Seq<TaskView>, id: u64, i: int)
    requires
        wf_seq(s),
        0 <= i < s.len(),
        s[i].id == id,
    ensures
        has_id(s, id),
        id_index(s, id) == i,
{
    assert(has_id(s, id));
    let j = id_index(s, id);
    assert(0 <= j < s.len() && s[j].id == id);
    if i < j {
        assert(s[i].id != s[j].id);
    } else if j < i {
        assert(s[j].id != s[i].id);
    }
}

/// Overwriting a record in place, keeping its identifier and a non-blank
/// title, preserves the collection invariant.
pub proof fn lemma_wf_update(s: Seq<TaskView>, i: int, t: TaskView)
    requires
        wf_seq(s),
        0 <= i < s.len(),
        t.id == s[i].id,
        !is_blank(t.title),
    ensures
        wf_seq(s.update(i, t)),
{
    let s2 = s.update(i, t);
    assert(forall|k: int| 0 <= k < s2.len() ==> (#[trigger] s2[k]).id == s[k].id);
}

/// Inserting a fresh, valid record preserves the collection invariant.
pub proof fn lemma_wf_insert(s: Seq<TaskView>, k: int, t: TaskView)
    requires
        wf_seq(s),
        0 <= k <= s.len(),
        t.id != 0,
        !has_id(s, t.id),
        !is_blank(t.title),
    ensures
        wf_seq(s.insert(k, t)),
{
    let s2 = s.insert(k, t);
    s.insert_ensures(k, t);
    assert(forall|i: int|
        0 <= i < s2.len() ==> (#[trigger] s2[i]) == if i < k {
            s[i]
        } else if i == k {
            t
        } else {
            s[i - 1]
        });
    assert forall|i: int, j: int| 0 <= i < j < s2.len() implies (#[trigger] s2[i]).id != (
    #[trigger] s2[j]).id by {
        if i != k && j != k {
            let i0 = if i < k {
                i
            } else {
                i - 1
            };
            let j0 = if j < k {
                j
            } else {
                j - 1
            };
            assert(s2[i] == s[i0] && s2[j] == s[j0]);
            assert(s[i0].id != s[j0].id);
        } else if i == k {
            assert(s2[j] == s[j - 1]);
            assert(!has_id(s, t.id) ==> s[j - 1].id != t.id);
        } else {
            assert(s2[i] == s[i]);
            assert(!has_id(s, t.id) ==> s[i].id != t.id);
        }
    }
}

/// Removing a record preserves the collection invariant.
pub proof fn lemma_wf_remove(s: Seq<TaskView>, i: int)
    requires
        wf_seq(s),
        0 <= i < s.len(),
    ensures
        wf_seq(s.remove(i)),
{
    let s2 = s.remove(i);
    s.remove_ensures(i);
    assert(forall|k: int|
        0 <= k < s2.len() ==> (#[trigger] s2[k]) == if k < i {
            s[k]
        } else {
            s[k + 1]
        });
    assert forall|a: int, b: int| 0 <= a < b < s2.len() implies (#[trigger] s2[a]).id != (
    #[trigger] s2[b]).id by {
        let a0 = if a < i {
            a
        } else {
            a + 1
        };
        let b0 = if b < i {
            b
        } else {
            b + 1
        };
        assert(s2[a] == s[a0] && s2[b] == s[b0]);
        assert(s[a0].id != s[b0].id);
    }
}

/// The model of an updated vector is the updated model.
proof fn lemma_view_update(s: Seq<Task>, i: int, t: Task)
    requires
        0 <= i < s.len(),
    ensures
        tasks_view(s.update(i, t)) == tasks_view(s).update(i, t@),
{
    assert(tasks_view(s.update(i, t)) =~= tasks_view(s).update(i, t@));
}

/// The model of a vector with one task inserted is the model with that
/// task's view inserted.
proof fn lemma_view_insert(s: Seq<Task>, k: int, t: Task)
    requires
        0 <= k <= s.len(),
    ensures
        tasks_view(s.insert(k, t)) == tasks_view(s).insert(k, t@),
{
    s.insert_ensures(k, t);
    tasks_view(s).insert_ensures(k, t@);
    assert(tasks_view(s.insert(k, t)) =~= tasks_view(s).insert(k, t@));
}

/// The model of a vector with one task removed is the model with that
/// position removed.
proof fn lemma_view_remove(s: Seq<Task>, i: int)
    requires
        0 <= i < s.len(),
    ensures
        tasks_view(s.remove(i)) == tasks_view(s).remove(i),
{
    s.remove_ensures(i);
    tasks_view(s).remove_ensures(i);
    assert(tasks_view(s.remove(i)) =~= tasks_view(s).remove(i));
}

/// A number rendered right-aligned in a field of three characters, the
/// column width of the printed listing.
pub open spec fn pad3(s: Seq<char>) -> Seq<char> {
    if s.len() >= 3 {
        s
    } else if s.len() == 2 {
        " "@ + s
    } else {
        "  "@ + s
    }
}

/// One printed line: the one-based position right-aligned to three
/// characters, a dot, a space, and the title.
pub open spec fn render_line(idx1: nat, title: Seq<char>) -> Seq<char> {
    pad3(dec_str(idx1)) + ". "@ + title
}

/// The printed listing of a non-empty list: one line per task, joined by
/// newlines, positions counted from one.
pub open spec fn render_lines(m: Seq<TaskView>) -> Seq<char>
    decreases m.len(),
{
    if m.len() == 0 {
        Seq::empty()
    } else if m.len() == 1 {
        render_line(1, m[0].title)
    } else {
        render_lines(m.drop_last()) + "\n"@ + render_line(m.len() as nat, m.last().title)
    }
}

/// What `format` prints: a fixed line for an empty list, the listing
/// otherwise.
pub open spec fn format_spec(m: Seq<TaskView>) -> Seq<char> {
    if m.len() == 0 {
        "no items"@
    } else {
        render_lines(m)
    }
}

/// The length of a decimal rendering, what decides the padding.
proof fn lemma_dec_str_len(n: nat)
    ensures
        n < 10 ==> dec_str(n).len() == 1,
        10 <= n < 100 ==> dec_str(n).len() == 2,
        n >= 100 ==> dec_str(n).len() >= 3,
    decreases n,
{
    if n >= 10 {
        lemma_dec_str_len(n / 10);
    }
}

/// Relies on `rand::Rng::gen_range`: a uniformly distributed value in the
/// given non-empty range, here `1..=u64::MAX`, so the draw is never zero.
#[verifier::external_body]
fn random_nonzero_u64() -> (r: u64)
    ensures
        r != 0,
{
    rand::Rng::gen_range(&mut rand::thread_rng(), 1..=u64::MAX)
}

impl TaskId {
    /// Draws a fresh identifier: a uniformly random 64-bit value drawn from
    /// the non-zero range, so the sentinel is never handed out.
    pub fn new() -> (id: TaskId)
        ensures
            id.0 != 0,
    {
        TaskId(random_nonzero_u64())
    }
}

impl Task {
    /// A new task with the given title, a freshly drawn identifier, and the
    /// done flag clear.
    pub fn new(title: &str) -> (t: Task)
        ensures
            t@.title == title@,
            t@.done == false,
            t@.id != 0,
    {
        Task { id: TaskId::new(), title: title.to_owned(), done: false }
    }

    /// Checks the content rules for a candidate record: the title must not
    /// trim to nothing, and a sentinel identifier is replaced by a freshly
    /// drawn one. The caller-supplied identifier is otherwise preserved, and
    /// title and done flag are never changed.
    pub fn validate(task: &Self) -> (r: Result<Self, Error>)
        ensures
            match r {
                Ok(v) => !is_blank(task@.title) && v@.title == task@.title && v@.done
                    == task@.done && v@.id != 0 && (task@.id != 0 ==> v@.id == task@.id),
                Err(e) => is_blank(task@.title) && (e matches Error::Validation(m) && m@
                    == "title is empty"@),
            },
    {
        if str_is_blank(task.title.as_str()) {
            return Err(Error::Validation("title is empty".to_owned()));
        }
        let id = if task.id.0 == 0 {
            TaskId::new()
        } else {
            task.id
        };
        Ok(Task { id, title: task.title.clone(), done: task.done })
    }
}

impl TodoList {
    /// The collection invariant, carried by every engine operation.
    pub open spec fn wf(&self) -> bool {
        wf_seq(self@)
    }

    /// An empty list.
    pub fn new() -> (l: TodoList)
        ensures
            l@ == Seq::<TaskView>::empty(),
            l.wf(),
    {
        let l = TodoList { items: Vec::new() };
        proof {
            assert(l@ =~= Seq::<TaskView>::empty());
        }
        l
    }

    /// The position of the record carrying `id`, if any.
    fn find_index(&self, id: u64) -> (r: Option<usize>)
        ensures
            match r {
                Some(i) => i < self@.len() && self@[i as int].id == id,
                None => !has_id(self@, id),
            },
    {
        let n = self.items.len();
        let mut i: usize = 0;
        while i < n
            invariant
                0 <= i <= n,
                n == self.items@.len(),
                self@.len() == self.items@.len(),
                forall|j: int| 0 <= j < i ==> (#[trigger] self@[j]).id != id,
                forall|j: int| 0 <= j < self@.len() ==> self@[j] == self.items@[j]@,
            decreases n - i,
        {
            if self.items[i].id.0 == id {
                return Some(i);
            }
            i = i + 1;
        }
        None
    }

    /// Decides the collection invariant at run time: no sentinel or
    /// duplicated identifier, no blank title. What the engine maintains,
    /// a decoded list must be checked for.
    pub fn is_wf(&self) -> (r: bool)
        ensures
            r == self.wf(),
    {
        let n = self.items.len();
        let mut i: usize = 0;
        while i < n
            invariant
                0 <= i <= n,
                n == self.items@.len(),
                n == self@.len(),
                forall|k: int| 0 <= k < i ==> (#[trigger] self@[k]).id != 0,
                forall|k: int| 0 <= k < i ==> !is_blank((#[trigger] self@[k]).title),
                forall|a: int, b: int|
                    0 <= a < b < i ==> (#[trigger] self@[a]).id != (#[trigger] self@[b]).id,
            decreases n - i,
        {
            let id = self.items[i].id.0;
            proof {
                assert(self@[i as int] == self.items@[i as int]@);
            }
            if id == 0 {
                assert(self@[i as int].id == 0);
                return false;
            }
            if str_is_blank(self.items[i].title.as_str()) {
                assert(is_blank(self@[i as int].title));
                return false;
            }
            let mut j: usize = 0;
            while j < i
                invariant
                    0 <= j <= i < n,
                    n == self.items@.len(),
                    n == self@.len(),
                    id == self@[i as int].id,
                    forall|a: int| 0 <= a < j ==> (#[trigger] self@[a]).id != id,
                decreases i - j,
            {
                if self.items[j].id.0 == id {
                    assert(self@[j as int].id == self@[i as int].id);
                    return false;
                }
                j = j + 1;
            }
            i = i + 1;
        }
        true
    }

    /// Renders the list for display: a fixed line when empty, otherwise one
    /// line per task with its one-based position and title.
    pub fn format(&self) -> (r: String)
        ensures
            r@ == format_spec(self@),
    {
        let n = self.items.len();
        if n == 0 {
            return "no items".to_owned();
        }
        let mut buf = String::new();
        let mut i: usize = 0;
        while i < n
            invariant
                0 <= i <= n,
                n == self.items@.len(),
                n == self@.len(),
                buf@ == render_lines(self@.take(i as int)),
            decreases n - i,
        {
            proof {
                assert(self@.take(i + 1).drop_last() =~= self@.take(i as int));
                assert(self@.take(i + 1).last() == self@[i as int]);
                assert(self@[i as int].title == self.items@[i as int]@.title);
                lemma_dec_str_len((i + 1) as nat);
            }
            if i > 0 {
                buf.append("\n");
            }
            let idx1: u64 = (i as u64) + 1;
            if idx1 < 10 {
                buf.append("  ");
            } else if idx1 < 100 {
                buf.append(" ");
            }
            let num = u64_to_string(idx1);
            buf.append(num.as_str());
            buf.append(". ");
            buf.append(self.items[i].title.as_str());
            proof {
                if i == 0 {
                    assert(render_lines(self@.take(1)) == render_line(
                        1,
                        self@.take(1)[0].title,
                    ));
                    assert(self@.take(1)[0] == self@[0]);
                }
                assert(buf@ == render_lines(self@.take(i + 1)));
            }
            i = i + 1;
        }
        proof {
            assert(self@.take(n as int) =~= self@);
        }
        buf
    }

    /// Inserts the candidate, or overwrites the record that already carries
    /// its identifier, so `add` never duplicates an identity. With a
    /// sentinel identifier, the same outcome holds for some freshly drawn
    /// non-zero identifier.
    pub fn add(&mut self, pos: Option<Position>, task: Task) -> (r: Result<ActionResult, Error>)
        requires
            old(self).wf(),
        ensures
            final(self).wf(),
            is_blank(task@.title) ==> final(self)@ == old(self)@ && (r matches Err(
                Error::Validation(m),
            ) && m@ == "title is empty"@),
            !is_blank(task@.title) && task@.id != 0 ==> final(self)@ == spec_add(
                old(self)@,
                pos,
                task@,
            ).0 && r == Ok::<ActionResult, Error>(spec_add(old(self)@, pos, task@).1),
            !is_blank(task@.title) && task@.id == 0 ==> exists|v: u64|
                v != 0 && final(self)@ == spec_add(old(self)@, pos, with_id(task@, v)).0 && r
                    == Ok::<ActionResult, Error>(spec_add(old(self)@, pos, with_id(task@, v)).1),
    {
        let validated = match Task::validate(&task) {
            Err(e) => {
                return Err(e);
            },
            Ok(v) => v,
        };
        let ghost v: u64 = validated@.id;
        let ghost t: TaskView = validated@;
        proof {
            assert(t =~= with_id(task@, v));
        }

        // Upsert by identity first: a record with the same identifier is
        // overwritten in place.
        let copy = Task {
            id: validated.id,
            title: validated.title.clone(),
            done: validated.done,
        };
        proof {
            assert(copy@ =~= t);
        }
        match self.edit(None, copy) {
            Ok(res) => {
                return Ok(res);
            },
            Err(_) => (),
        }

        // No identity match: insert at the requested position.
        let id = validated.id;
        let len = self.items.len();
        let idx: usize = match &pos {
            None => len,
            Some(Position::AtIndex(i)) => if *i <= len {
                *i
            } else {
                len
            },
            Some(Position::ById(anchor)) => match self.find_index(anchor.0) {
                Some(i) => {
                    proof {
                        lemma_id_index_unique(self@, anchor.0, i as int);
                    }
                    i + 1
                },
                None => len,
            },
        };
        proof {
            assert(idx as int == insert_index(self@, pos));
        }
        let ghost s0 = self@;
        let ghost items0 = self.items@;
        let ghost gv: Task = validated;
        self.items.insert(idx, validated);
        proof {
            lemma_view_insert(items0, idx as int, gv);
            lemma_wf_insert(s0, idx as int, t);
        }
        Ok(ActionResult::Inserted(id))
    }

    /// Overwrites the record the candidate's identity or the supplied
    /// position resolves to. An edit never inserts, never removes, and
    /// never changes the identifier stored at a position.
    pub fn edit(&mut self, pos: Option<Position>, task: Task) -> (r: Result<ActionResult, Error>)
        requires
            old(self).wf(),
        ensures
            final(self).wf(),
            final(self)@.len() == old(self)@.len(),
            is_blank(task@.title) ==> final(self)@ == old(self)@ && (r matches Err(
                Error::Validation(m),
            ) && m@ == "title is empty"@),
            !is_blank(task@.title) ==> match spec_edit(old(self)@, pos, task@) {
                Some((s2, ar)) => final(self)@ == s2 && r == Ok::<ActionResult, Error>(ar),
                None => final(self)@ == old(self)@ && r == Err::<ActionResult, Error>(
                    Error::NotFound,
                ),
            },
    {
        if str_is_blank(task.title.as_str()) {
            return Err(Error::Validation("title is empty".to_owned()));
        }

        let ghost s0 = self@;

        // Identity match takes precedence over the supplied position.
        match self.find_index(task.id.0) {
            Some(i) => {
                let id = task.id;
                let ghost gt: Task = task;
                proof {
                    lemma_id_index_unique(s0, task.id.0, i as int);
                    lemma_wf_update(s0, i as int, task@);
                    lemma_view_update(self.items@, i as int, gt);
                }
                self.items.set(i, task);
                return Ok(ActionResult::Updated(id));
            },
            None => (),
        }

        match pos {
            None => Err(Error::NotFound),
            Some(Position::ById(anchor)) => {
                match self.find_index(anchor.0) {
                    Some(i) => {
                        proof {
                            lemma_id_index_unique(s0, anchor.0, i as int);
                        }
                        let replacement = Task { id: anchor, title: task.title, done: task.done };
                        proof {
                            assert(replacement@ =~= with_id(task@, anchor.0));
                            lemma_wf_update(s0, i as int, replacement@);
                            lemma_view_update(self.items@, i as int, replacement);
                        }
                        self.items.set(i, replacement);
                        Ok(ActionResult::Updated(anchor))
                    },
                    None => Err(Error::NotFound),
                }
            },
            Some(Position::AtIndex(i)) => {
                if i < self.items.len() {
                    let existing = self.items[i].id;
                    let replacement = Task { id: existing, title: task.title, done: task.done };
                    proof {
                        assert(replacement@ =~= with_id(task@, s0[i as int].id));
                        lemma_wf_update(s0, i as int, replacement@);
                        lemma_view_update(self.items@, i as int, replacement);
                    }
                    self.items.set(i, replacement);
                    Ok(ActionResult::Updated(existing))
                } else {
                    Err(Error::NotFound)
                }
            },
        }
    }

    /// Removes the record the position resolves to; a missing position is a
    /// validation failure, an unresolved one leaves the list unchanged.
    pub fn delete(&mut self, pos: Option<Position>) -> (r: Result<ActionResult, Error>)
        requires
            old(self).wf(),
        ensures
            final(self).wf(),
            match pos {
                None => final(self)@ == old(self)@ && (r matches Err(Error::Validation(m)) && m@
                    == "invalid position"@),
                Some(p) => match spec_delete(old(self)@, p) {
                    Some((s2, id)) => final(self)@ == s2 && r == Ok::<ActionResult, Error>(
                        ActionResult::Deleted(id),
                    ),
                    None => final(self)@ == old(self)@ && r == Err::<ActionResult, Error>(
                        Error::NotFound,
                    ),
                },
            },
    {
        let ghost s0 = self@;
        match pos {
            None => Err(Error::Validation("invalid position".to_owned())),
            Some(Position::AtIndex(i)) => {
                if i >= self.items.len() {
                    return Err(Error::NotFound);
                }
                let id = self.items[i].id;
                proof {
                    lemma_wf_remove(s0, i as int);
                    lemma_view_remove(self.items@, i as int);
                }
                self.items.remove(i);
                Ok(ActionResult::Deleted(id))
            },
            Some(Position::ById(anchor)) => {
                match self.find_index(anchor.0) {
                    None => Err(Error::NotFound),
                    Some(i) => {
                        proof {
                            lemma_id_index_unique(s0, anchor.0, i as int);
                            lemma_wf_remove(s0, i as int);
                            lemma_view_remove(self.items@, i as int);
                        }
                        self.items.remove(i);
                        Ok(ActionResult::Deleted(anchor))
                    },
                }
            },
        }
    }
}

/// Where a position of a batch resolves against a snapshot of the list:
/// the index of the record it names, or nothing.
pub open spec fn resolved_ix(s: Seq<TaskView>, p: Option<Position>) -> Option<int> {
    match p {
        None => None,
        Some(Position::AtIndex(i)) => if (i as int) < s.len() {
            Some(i as int)
        } else {
            None
        },
        Some(Position::ById(anchor)) => if has_id(s, anchor.0) {
            Some(id_index(s, anchor.0))
        } else {
            None
        },
    }
}

/// The set of snapshot indexes that a batch of positions resolves to.
pub open spec fn resolved_set(s: Seq<TaskView>, ps: Seq<Option<Position>>) -> Set<int> {
    Set::new(
        |ix: int| exists|k: int| 0 <= k < ps.len() && resolved_ix(s, #[trigger] ps[k]) == Some(ix),
    )
}

/// The records that survive deleting a set of snapshot indexes, in their
/// original order.
pub open spec fn keep_positions(s: Seq<TaskView>, dead: Set<int>) -> Seq<TaskView>
    decreases s.len(),
{
    if s.len() == 0 {
        Seq::empty()
    } else {
        keep_positions(s.drop_last(), dead) + (if dead.contains(s.len() - 1) {
            Seq::empty()
        } else {
            seq![s.last()]
        })
    }
}

/// What one batch entry reports: the removed identifier resolved against
/// the snapshot, or the error the single delete would give.
pub open spec fn batch_item(s: Seq<TaskView>, p: Option<Position>, r: Result<
    ActionResult,
    Error,
>) -> bool {
    match p {
        None => r matches Err(Error::Validation(m)) && m@ == "invalid position"@,
        Some(Position::AtIndex(i)) => if (i as int) < s.len() {
            r == Ok::<ActionResult, Error>(ActionResult::Deleted(TaskId(s[i as int].id)))
        } else {
            r == Err::<ActionResult, Error>(Error::NotFound)
        },
        Some(Position::ById(anchor)) => if has_id(s, anchor.0) {
            r == Ok::<ActionResult, Error>(ActionResult::Deleted(anchor))
        } else {
            r == Err::<ActionResult, Error>(Error::NotFound)
        },
    }
}

/// Surviving records keep the invariant, come from the original list, and
/// are never more numerous than it.
pub proof fn lemma_wf_keep(s: Seq<TaskView>, dead: Set<int>)
    requires
        wf_seq(s),
    ensures
        wf_seq(keep_positions(s, dead)),
        keep_positions(s, dead).len() <= s.len(),
        forall|a: int|
            0 <= a < keep_positions(s, dead).len() ==> s.contains(
                #[trigger] keep_positions(s, dead)[a],
            ),
    decreases s.len(),
{
    if s.len() == 0 {
    } else {
        let p = s.drop_last();
        assert(wf_seq(p));
        lemma_wf_keep(p, dead);
        let kp = keep_positions(p, dead);
        let k = keep_positions(s, dead);
        assert(forall|a: int| 0 <= a < p.len() ==> p[a] == s[a]);
        assert(forall|a: int| 0 <= a < kp.len() ==> s.contains(#[trigger] kp[a])) by {
            assert forall|a: int| 0 <= a < kp.len() implies s.contains(#[trigger] kp[a]) by {
                let i = choose|i: int| 0 <= i < p.len() && p[i] == kp[a];
                assert(s[i] == kp[a]);
            }
        }
        if dead.contains(s.len() - 1) {
            assert(k =~= kp);
        } else {
            assert(k =~= kp.push(s.last()));
            assert forall|a: int, b: int| 0 <= a < b < k.len() implies (#[trigger] k[a]).id != (
            #[trigger] k[b]).id by {
                if b == k.len() - 1 {
                    let i = choose|i: int| 0 <= i < p.len() && p[i] == kp[a];
                    assert(s[i] == k[a]);
                    assert(s[i].id != s[s.len() - 1].id);
                } else {
                    assert(k[a] == kp[a] && k[b] == kp[b]);
                }
            }
            assert(s.contains(s.last()));
        }
    }
}

impl TodoList {
    /// Applies one delete for each position of a batch, every position
    /// resolved against a snapshot of the list taken before any deletion,
    /// so index positions are immune to the shrinking list. Duplicate
    /// positions resolving to the same record remove it once.
    pub fn delete_batch(&mut self, positions: &Vec<Option<Position>>) -> (results: Vec<
        Result<ActionResult, Error>,
    >)
        requires
            old(self).wf(),
        ensures
            final(self).wf(),
            results@.len() == positions@.len(),
            forall|k: int|
                0 <= k < positions@.len() ==> batch_item(
                    old(self)@,
                    positions@[k],
                    #[trigger] results@[k],
                ),
            final(self)@ == keep_positions(
                old(self)@,
                resolved_set(old(self)@, positions@),
            ),
    {
        let ghost s0 = self@;
        let n = self.items.len();
        let m = positions.len();

        // Resolve every position against the snapshot, marking the indexes
        // to remove.
        let mut dead: Vec<bool> = Vec::new();
        let mut z: usize = 0;
        while z < n
            invariant
                0 <= z <= n,
                dead@.len() == z,
                forall|ix: int| 0 <= ix < z ==> !(#[trigger] dead@[ix]),
            decreases n - z,
        {
            dead.push(false);
            z = z + 1;
        }

        let mut results: Vec<Result<ActionResult, Error>> = Vec::new();
        let mut k: usize = 0;
        proof {
            assert(resolved_set(s0, positions@.take(0)) =~= Set::<int>::empty());
        }
        while k < m
            invariant
                0 <= k <= m,
                self@ == s0,
                self.wf(),
                n == self.items@.len(),
                n == s0.len(),
                m == positions@.len(),
                results@.len() == k,
                dead@.len() == n,
                forall|j: int|
                    0 <= j < k ==> batch_item(s0, positions@[j], #[trigger] results@[j]),
                forall|ix: int|
                    0 <= ix < n ==> ((#[trigger] dead@[ix]) == resolved_set(
                        s0,
                        positions@.take(k as int),
                    ).contains(ix)),
            decreases m - k,
        {
            let ghost pre_dead = dead@;
            let ghost pk = positions@.take(k as int);
            let ghost pk1 = positions@.take(k + 1);
            proof {
                assert(pk1.drop_last() =~= pk);
                assert(pk1.last() == positions@[k as int]);
                assert(forall|j: int| 0 <= j < k ==> pk1[j] == positions@[j]);
            }
            match &positions[k] {
                None => {
                    results.push(Err(Error::Validation("invalid position".to_owned())));
                },
                Some(Position::AtIndex(i)) => {
                    if *i < n {
                        let id = self.items[*i].id;
                        dead.set(*i, true);
                        results.push(Ok(ActionResult::Deleted(id)));
                    } else {
                        results.push(Err(Error::NotFound));
                    }
                },
                Some(Position::ById(anchor)) => {
                    match self.find_index(anchor.0) {
                        Some(i) => {
                            proof {
                                lemma_id_index_unique(s0, anchor.0, i as int);
                            }
                            dead.set(i, true);
                            results.push(Ok(ActionResult::Deleted(*anchor)));
                        },
                        None => {
                            results.push(Err(Error::NotFound));
                        },
                    }
                },
            }
            proof {
                let rix = resolved_ix(s0, positions@[k as int]);
                assert forall|ix: int| 0 <= ix < n implies ((#[trigger] dead@[ix])
                    == resolved_set(s0, pk1).contains(ix)) by {
                    if resolved_set(s0, pk1).contains(ix) {
                        let j = choose|j: int|
                            0 <= j < pk1.len() && resolved_ix(s0, #[trigger] pk1[j]) == Some(ix);
                        if j < k {
                            assert(resolved_set(s0, pk).contains(ix));
                            assert(pre_dead[ix]);
                        } else {
                            assert(rix == Some(ix));
                        }
                    } else {
                        assert(!resolved_set(s0, pk).contains(ix));
                        assert(!pre_dead[ix]);
                        assert(resolved_ix(s0, pk1[k as int]) != Some(ix));
                    }
                }
            }
            k = k + 1;
        }

        // Rebuild the list without the marked records.
        let ghost dset = resolved_set(s0, positions@);
        proof {
            assert(positions@.take(m as int) =~= positions@);
        }
        let mut kept: Vec<Task> = Vec::new();
        let mut i: usize = 0;
        proof {
            assert(tasks_view(kept@) =~= Seq::<TaskView>::empty());
            assert(keep_positions(s0.take(0), dset) =~= Seq::<TaskView>::empty());
        }
        while i < n
            invariant
                0 <= i <= n,
                self@ == s0,
                n == self.items@.len(),
                n == s0.len(),
                dead@.len() == n,
                forall|ix: int| 0 <= ix < n ==> ((#[trigger] dead@[ix]) == dset.contains(ix)),
                tasks_view(kept@) == keep_positions(s0.take(i as int), dset),
            decreases n - i,
        {
            let ghost kv = tasks_view(kept@);
            proof {
                assert(s0.take(i + 1).drop_last() =~= s0.take(i as int));
                assert(s0.take(i + 1).last() == s0[i as int]);
            }
            if !dead[i] {
                let t = &self.items[i];
                let copy = Task { id: t.id, title: t.title.clone(), done: t.done };
                proof {
                    assert(copy@ =~= s0[i as int]);
                }
                kept.push(copy);
                proof {
                    assert(tasks_view(kept@) =~= kv.push(s0[i as int]));
                    assert(keep_positions(s0.take(i + 1), dset) =~= kv.push(s0[i as int]));
                }
            } else {
                proof {
                    assert(keep_positions(s0.take(i + 1), dset) =~= kv);
                }
            }
            i = i + 1;
        }
        proof {
            assert(s0.take(n as int) =~= s0);
            lemma_wf_keep(s0, dset);
        }
        self.items = kept;
        results
    }
}

} // verus!
