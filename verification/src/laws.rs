//! The laws of the collection engine, stated over the same model
//! functions that the engine's contracts use.

use vstd::prelude::*;

use crate::text::is_blank;
use crate::todo::ActionResult;
use crate::todo::Position;
use crate::todo::TaskId;
use crate::todo::TaskView;
use crate::todo::has_id;
use crate::todo::id_index;
use crate::todo::insert_index;
use crate::todo::spec_add;
use crate::todo::spec_delete;
use crate::todo::spec_edit;
use crate::todo::wf_seq;

verus! {

/// Adding a task whose identifier is fresh appends it: the tail of the
/// list carries the given title, a clear done flag, and a non-zero
/// identifier distinct from every other identifier in the list.
pub proof fn lemma_add_fresh_appends(s: Seq<TaskView>, t: TaskView)
    requires
        wf_seq(s),
        !is_blank(t.title),
        t.id != 0,
        !has_id(s, t.id),
        t.done == false,
    ensures
        spec_add(s, None, t).0 == s.push(t),
        spec_add(s, None, t).1 == ActionResult::Inserted(TaskId(t.id)),
        spec_add(s, None, t).0.len() == s.len() + 1,
        spec_add(s, None, t).0.last().title == t.title,
        spec_add(s, None, t).0.last().done == false,
        spec_add(s, None, t).0.last().id != 0,
        forall|i: int|
            0 <= i < s.len() ==> (#[trigger] spec_add(s, None, t).0[i]).id != t.id,
{
    let s2 = spec_add(s, None, t).0;
    assert(insert_index(s, None) == s.len());
    assert(s.insert(s.len() as int, t) =~= s.push(t));
    s.insert_ensures(s.len() as int, t);
    assert(forall|i: int| 0 <= i < s.len() ==> #[trigger] s2[i] == s[i]);
}

/// Adding a candidate whose identifier is already present overwrites that
/// record in place: no duplicate appears and the length does not change.
pub proof fn lemma_add_existing_updates(s: Seq<TaskView>, t: TaskView)
    requires
        wf_seq(s),
        !is_blank(t.title),
        has_id(s, t.id),
    ensures
        spec_add(s, None, t).0 == s.update(id_index(s, t.id), t),
        spec_add(s, None, t).1 == ActionResult::Updated(TaskId(t.id)),
        spec_add(s, None, t).0.len() == s.len(),
        spec_add(s, None, t).0[id_index(s, t.id)] == t,
{
    let j = id_index(s, t.id);
    assert(0 <= j < s.len() && s[j].id == t.id);
}

/// An edit at a position never changes the identifier stored at any
/// position, whatever identifier the candidate carries; on a valid index
/// it always succeeds and keeps the length.
pub proof fn lemma_edit_keeps_position_ids(s: Seq<TaskView>, i: usize, t: TaskView)
    requires
        wf_seq(s),
        (i as int) < s.len(),
        !is_blank(t.title),
    ensures
        spec_edit(s, Some(Position::AtIndex(i)), t) is Some,
        ({
            let (s2, ar) = spec_edit(s, Some(Position::AtIndex(i)), t)->Some_0;
            s2.len() == s.len() && forall|k: int|
                0 <= k < s.len() ==> (#[trigger] s2[k]).id == s[k].id
        }),
{
    if has_id(s, t.id) {
        let j = id_index(s, t.id);
        assert(0 <= j < s.len() && s[j].id == t.id);
    }
}

/// An edit that locates its target by an identity not present in the list
/// fails, provided the candidate's own identity matches nothing either:
/// it never creates a record.
pub proof fn lemma_edit_missing_id_fails(s: Seq<TaskView>, anchor: TaskId, t: TaskView)
    requires
        wf_seq(s),
        !has_id(s, anchor.0),
        !has_id(s, t.id),
    ensures
        spec_edit(s, Some(Position::ById(anchor)), t) is None,
{
}

/// A positional delete beyond the end of the list, in particular any
/// delete on an empty list, resolves to nothing, so the engine reports
/// the record as not found and leaves the list unchanged.
pub proof fn lemma_delete_out_of_range(s: Seq<TaskView>, i: usize)
    requires
        (i as int) >= s.len(),
    ensures
        spec_delete(s, Position::AtIndex(i)) is None,
{
}

} // verus!
