//! The command layer: turns raw argument strings into engine operations
//! and a one-line outcome message. The caller only prints.

use vstd::prelude::*;

use crate::help::short_help;
use crate::help::short_help_text;
use crate::text::all_digits;
use crate::text::dec_str;
use crate::text::digits_val;
use crate::text::is_blank;
use crate::text::parse_u64;
use crate::text::u64_to_string;
use crate::todo::ActionResult;
use crate::todo::Error;
use crate::todo::Position;
use crate::todo::Task;
use crate::todo::TaskView;
use crate::todo::TodoList;
use crate::todo::has_id;
use crate::todo::keep_positions;
use crate::todo::lemma_id_index_unique;
use crate::todo::lemma_wf_keep;
use crate::todo::resolved_ix;
use crate::todo::resolved_set;
use crate::todo::spec_add;
use crate::todo::spec_edit;

verus! {

/// The titles of a sequence of argument strings.
pub open spec fn strs_view(s: Seq<String>) -> Seq<Seq<char>> {
    Seq::new(s.len(), |i: int| s[i]@)
}

/// Argument words joined by single spaces, the way a title is assembled
/// from the command line.
pub open spec fn join_spaced(xs: Seq<Seq<char>>) -> Seq<char>
    decreases xs.len(),
{
    if xs.len() == 0 {
        Seq::empty()
    } else if xs.len() == 1 {
        xs[0]
    } else {
        join_spaced(xs.drop_last()) + " "@ + xs.last()
    }
}

/// The message for arguments that are not usable at all.
pub open spec fn invalid_args_text() -> Seq<char> {
    "Invalid arguments. "@ + short_help_text()
}

/// The message for a command that needs a title and got none.
pub open spec fn missing_title_text() -> Seq<char> {
    "Missing task title. "@ + short_help_text()
}

/// The message for a one-based position outside the list.
pub open spec fn range_error_text(n: nat, max: nat) -> Seq<char> {
    "index "@ + dec_str(n) + " is out of range (max "@ + dec_str(max) + ")"@
}

/// An argument read as a one-based position, the way unsigned machine-word
/// parsing reads it: an optional leading plus, then decimal digits, with a
/// value a machine word can hold.
pub open spec fn parsed_index(s: Seq<char>) -> Option<nat> {
    let digits = if s.len() > 0 && s[0] == '+' {
        s.drop_first()
    } else {
        s
    };
    if digits.len() > 0 && all_digits(digits) && digits_val(digits) <= usize::MAX as nat {
        Some(digits_val(digits))
    } else {
        None
    }
}

/// An argument that names a position within a list of length `max`.
pub open spec fn arg_ok(s: Seq<char>, max: nat) -> bool {
    match parsed_index(s) {
        Some(n) => 1 <= n <= max,
        None => false,
    }
}

fn parse_index(a: &String) -> (r: Option<usize>)
    ensures
        match r {
            Some(v) => parsed_index(a@) == Some(v as nat),
            None => parsed_index(a@) is None,
        },
{
    proof {
        assert(usize::MAX <= u64::MAX);
    }
    let s = a.as_str();
    let n = s.unicode_len();
    let parsed: Option<u64> = if n > 0 && s.get_char(0) == '+' {
        let rest = s.substring_char(1, n);
        proof {
            assert(rest@ =~= a@.drop_first());
        }
        parse_u64(rest)
    } else {
        parse_u64(s)
    };
    match parsed {
        None => None,
        Some(v) => if v > usize::MAX as u64 {
            None
        } else {
            Some(v as usize)
        },
    }
}

fn invalid_args_msg() -> (r: String)
    ensures
        r@ == invalid_args_text(),
{
    let mut m = "Invalid arguments. ".to_owned();
    m.append(short_help().as_str());
    m
}

fn missing_title_msg() -> (r: String)
    ensures
        r@ == missing_title_text(),
{
    let mut m = "Missing task title. ".to_owned();
    m.append(short_help().as_str());
    m
}

fn range_error_msg(n: usize, max: usize) -> (r: String)
    ensures
        r@ == range_error_text(n as nat, max as nat),
{
    let mut m = "index ".to_owned();
    let ns = u64_to_string(n as u64);
    m.append(ns.as_str());
    m.append(" is out of range (max ");
    let ms = u64_to_string(max as u64);
    m.append(ms.as_str());
    m.append(")");
    m
}

/// Joins the argument words from position `from` on into one title.
fn join_from(args: &Vec<String>, from: usize) -> (r: String)
    requires
        from < args@.len(),
    ensures
        r@ == join_spaced(strs_view(args@).skip(from as int)),
{
    let n = args.len();
    let ghost sv = strs_view(args@).skip(from as int);
    let mut buf = String::new();
    let mut i: usize = from;
    while i < n
        invariant
            from <= i <= n,
            n == args@.len(),
            sv == strs_view(args@).skip(from as int),
            buf@ == join_spaced(sv.take(i - from)),
        decreases n - i,
    {
        proof {
            assert(sv.take(i + 1 - from).drop_last() =~= sv.take(i - from));
            assert(sv.take(i + 1 - from).last() == args@[i as int]@);
            if i == from {
                assert(sv.take(1)[0] == args@[i as int]@);
            }
        }
        if i > from {
            buf.append(" ");
        }
        buf.append(args[i].as_str());
        i = i + 1;
    }
    proof {
        assert(sv.take(n - from) =~= sv);
    }
    buf
}

/// Builds a fresh task whose title is the argument words joined by
/// spaces; fails only when there are no words at all.
pub fn parse_task(args: &Vec<String>) -> (r: Result<Task, String>)
    ensures
        match r {
            Ok(t) => args@.len() > 0 && t@.title == join_spaced(strs_view(args@)) && t@.done
                == false && t@.id != 0,
            Err(m) => args@.len() == 0 && m@ == missing_title_text(),
        },
{
    if args.len() == 0 {
        Err(missing_title_msg())
    } else {
        let title = join_from(args, 0);
        proof {
            assert(strs_view(args@).skip(0) =~= strs_view(args@));
        }
        Ok(Task::new(title.as_str()))
    }
}

/// Reduces an engine outcome to what the command line reports: nothing on
/// success, the error's single line otherwise.
pub fn map_result(res: Result<ActionResult, Error>) -> (r: Result<(), String>)
    ensures
        match res {
            Ok(_) => r is Ok,
            Err(e) => r matches Err(m) && (match e {
                Error::NotFound => m@ == "task not found"@,
                Error::Validation(v) => m@ == v@,
            }),
        },
{
    match res {
        Ok(_) => Ok(()),
        Err(err) => Err(err.message()),
    }
}

/// Reads every argument as a one-based position into a list of length
/// `max`, rejecting the first argument that is not a number or is out of
/// range.
pub fn parse_args_as_indexes(max: usize, args: &Vec<String>) -> (r: Result<Vec<usize>, String>)
    ensures
        match r {
            Ok(v) => v@.len() == args@.len() && forall|j: int|
                0 <= j < args@.len() ==> parsed_index(strs_view(args@)[j]) == Some(
                    (#[trigger] v@[j]) as nat,
                ) && 1 <= v@[j] <= max,
            Err(m) => exists|j: int|
                #![trigger strs_view(args@)[j]]
                {
                    &&& 0 <= j < args@.len()
                    &&& forall|q: int|
                        0 <= q < j ==> arg_ok(#[trigger] strs_view(args@)[q], max as nat)
                    &&& match parsed_index(strs_view(args@)[j]) {
                        None => m@ == invalid_args_text(),
                        Some(n) => !(1 <= n <= max) && m@ == range_error_text(n, max as nat),
                    }
                },
        },
{
    let n = args.len();
    let mut out: Vec<usize> = Vec::new();
    let mut k: usize = 0;
    while k < n
        invariant
            0 <= k <= n,
            n == args@.len(),
            out@.len() == k,
            forall|j: int|
                0 <= j < k ==> parsed_index(strs_view(args@)[j]) == Some(
                    (#[trigger] out@[j]) as nat,
                ) && 1 <= out@[j] <= max,
            forall|q: int| 0 <= q < k ==> arg_ok(#[trigger] strs_view(args@)[q], max as nat),
        decreases n - k,
    {
        let ghost j = k as int;
        match parse_index(&args[k]) {
            None => {
                proof {
                    assert(strs_view(args@)[j] == args@[j]@);
                }
                return Err(invalid_args_msg());
            },
            Some(v) => {
                if v < 1 || v > max {
                    proof {
                        assert(strs_view(args@)[j] == args@[j]@);
                    }
                    return Err(range_error_msg(v, max));
                }
                out.push(v);
            },
        }
        k = k + 1;
    }
    Ok(out)
}

/// The outcome of handing a freshly built task with the given title to
/// `add` at the given position: the candidate's identifier is a fresh
/// draw, so the statement holds for some non-zero value of it.
pub open spec fn add_title_outcome(
    s0: Seq<TaskView>,
    sf: Seq<TaskView>,
    pos: Option<Position>,
    title: Seq<char>,
    r: Result<String, String>,
) -> bool {
    if is_blank(title) {
        sf == s0 && (r matches Err(m) && m@ == "title is empty"@)
    } else {
        exists|v: u64|
            v != 0 && sf == spec_add(
                s0,
                pos,
                TaskView { id: v, title, done: false },
            ).0 && (r matches Ok(m) && m@ == "added 1 task"@)
    }
}

/// The outcome of handing a freshly built task with the given title to
/// `edit` at the given position.
pub open spec fn edit_title_outcome(
    s0: Seq<TaskView>,
    sf: Seq<TaskView>,
    pos: Option<Position>,
    title: Seq<char>,
    r: Result<String, String>,
) -> bool {
    if is_blank(title) {
        sf == s0 && (r matches Err(m) && m@ == "title is empty"@)
    } else {
        exists|v: u64|
            #![trigger spec_edit(s0, pos, TaskView { id: v, title, done: false })]
            {
                &&& v != 0
                &&& match spec_edit(s0, pos, TaskView { id: v, title, done: false }) {
                    Some((s2, _ar)) => sf == s2 && (r matches Ok(m) && m@ == "edited 1 task"@),
                    None => sf == s0 && (r matches Err(m) && m@ == "task not found"@),
                }
            }
    }
}

/// Adds one task built from the arguments: a leading number is the
/// one-based position to insert at, the remaining words are the title.
/// A leading position of zero is rejected rather than accepted.
pub fn cmd_add(todo_list: &mut TodoList, args: &Vec<String>) -> (r: Result<String, String>)
    requires
        old(todo_list).wf(),
    ensures
        final(todo_list).wf(),
        args@.len() == 0 ==> final(todo_list)@ == old(todo_list)@ && (r matches Err(m) && m@
            == invalid_args_text()),
        args@.len() > 0 ==> match parsed_index(strs_view(args@)[0]) {
            None => add_title_outcome(
                old(todo_list)@,
                final(todo_list)@,
                None,
                join_spaced(strs_view(args@)),
                r,
            ),
            Some(n) => if n == 0 {
                final(todo_list)@ == old(todo_list)@ && (r matches Err(m) && m@
                    == invalid_args_text())
            } else if args@.len() == 1 {
                final(todo_list)@ == old(todo_list)@ && (r matches Err(m) && m@
                    == missing_title_text())
            } else {
                add_title_outcome(
                    old(todo_list)@,
                    final(todo_list)@,
                    Some(Position::AtIndex((n - 1) as usize)),
                    join_spaced(strs_view(args@).skip(1)),
                    r,
                )
            },
        },
{
    if args.len() == 0 {
        return Err(invalid_args_msg());
    }
    match parse_index(&args[0]) {
        None => {
            let title = join_from(args, 0);
            proof {
                assert(strs_view(args@).skip(0) =~= strs_view(args@));
            }
            let task = Task::new(title.as_str());
            let ghost v = task@.id;
            match todo_list.add(None, task) {
                Ok(_) => Ok("added 1 task".to_owned()),
                Err(e) => Err(e.message()),
            }
        },
        Some(n) => {
            if n == 0 {
                return Err(invalid_args_msg());
            }
            if args.len() == 1 {
                return Err(missing_title_msg());
            }
            let title = join_from(args, 1);
            let task = Task::new(title.as_str());
            let ghost v = task@.id;
            match todo_list.add(Some(Position::AtIndex(n - 1)), task) {
                Ok(_) => Ok("added 1 task".to_owned()),
                Err(e) => Err(e.message()),
            }
        },
    }
}

/// Edits one task: a leading number is the one-based position, the
/// remaining words the new title; without a number the last task is
/// edited. A leading position of zero is rejected rather than accepted.
pub fn cmd_edit(todo_list: &mut TodoList, args: &Vec<String>) -> (r: Result<String, String>)
    requires
        old(todo_list).wf(),
    ensures
        final(todo_list).wf(),
        args@.len() == 0 ==> final(todo_list)@ == old(todo_list)@ && (r matches Err(m) && m@
            == invalid_args_text()),
        args@.len() > 0 ==> match parsed_index(strs_view(args@)[0]) {
            None => edit_title_outcome(
                old(todo_list)@,
                final(todo_list)@,
                Some(
                    Position::AtIndex(
                        if old(todo_list)@.len() > 0 {
                            (old(todo_list)@.len() - 1) as usize
                        } else {
                            0
                        },
                    ),
                ),
                join_spaced(strs_view(args@)),
                r,
            ),
            Some(n) => if n == 0 {
                final(todo_list)@ == old(todo_list)@ && (r matches Err(m) && m@
                    == invalid_args_text())
            } else if args@.len() == 1 {
                final(todo_list)@ == old(todo_list)@ && (r matches Err(m) && m@
                    == missing_title_text())
            } else {
                edit_title_outcome(
                    old(todo_list)@,
                    final(todo_list)@,
                    Some(Position::AtIndex((n - 1) as usize)),
                    join_spaced(strs_view(args@).skip(1)),
                    r,
                )
            },
        },
{
    if args.len() == 0 {
        return Err(invalid_args_msg());
    }
    match parse_index(&args[0]) {
        None => {
            let title = join_from(args, 0);
            proof {
                assert(strs_view(args@).skip(0) =~= strs_view(args@));
            }
            let task = Task::new(title.as_str());
            let len = todo_list.items.len();
            let index = if len > 0 {
                len
            } else {
                1
            };
            match todo_list.edit(Some(Position::AtIndex(index - 1)), task) {
                Ok(_) => Ok("edited 1 task".to_owned()),
                Err(e) => Err(e.message()),
            }
        },
        Some(n) => {
            if n == 0 {
                return Err(invalid_args_msg());
            }
            if args.len() == 1 {
                return Err(missing_title_msg());
            }
            let title = join_from(args, 1);
            let task = Task::new(title.as_str());
            match todo_list.edit(Some(Position::AtIndex(n - 1)), task) {
                Ok(_) => Ok("edited 1 task".to_owned()),
                Err(e) => Err(e.message()),
            }
        },
    }
}

/// The snapshot indexes that a list of one-based argument positions
/// names.
pub open spec fn arg_ix_set(dv: Seq<Seq<char>>) -> Set<int> {
    Set::new(
        |ix: int|
            exists|k: int|
                0 <= k < dv.len() && match parsed_index(#[trigger] dv[k]) {
                    Some(n) => ix == n - 1,
                    None => false,
                },
    )
}

/// Deletes the tasks at the given one-based positions, all read against
/// the list as it stood before any deletion; repeated positions remove
/// one task and are counted once.
pub fn cmd_del(todo_list: &mut TodoList, args: &Vec<String>) -> (r: Result<String, String>)
    requires
        old(todo_list).wf(),
    ensures
        final(todo_list).wf(),
        args@.len() == 0 ==> final(todo_list)@ == old(todo_list)@ && (r matches Err(m) && m@
            == invalid_args_text()),
        args@.len() > 0 ==> match r {
            Ok(m) => {
                &&& forall|q: int|
                    0 <= q < args@.len() ==> arg_ok(
                        #[trigger] strs_view(args@)[q],
                        old(todo_list)@.len(),
                    )
                &&& final(todo_list)@ == keep_positions(
                    old(todo_list)@,
                    arg_ix_set(strs_view(args@)),
                )
                &&& m@ == "deleted "@ + dec_str(
                    (old(todo_list)@.len() - final(todo_list)@.len()) as nat,
                ) + " tasks"@
            },
            Err(m) => final(todo_list)@ == old(todo_list)@ && exists|j: int|
                #![trigger strs_view(args@)[j]]
                {
                    &&& 0 <= j < args@.len()
                    &&& match parsed_index(strs_view(args@)[j]) {
                        None => m@ == invalid_args_text(),
                        Some(n) => !(1 <= n <= old(todo_list)@.len()) && m@ == range_error_text(
                            n,
                            old(todo_list)@.len(),
                        ),
                    }
                },
        },
{
    if args.len() == 0 {
        return Err(invalid_args_msg());
    }
    let ghost s0 = todo_list@;
    let len = todo_list.items.len();
    let indexes = match parse_args_as_indexes(len, args) {
        Err(m) => {
            return Err(m);
        },
        Ok(v) => v,
    };
    let mut positions: Vec<Option<Position>> = Vec::new();
    let mut k: usize = 0;
    let n_idx = indexes.len();
    while k < n_idx
        invariant
            0 <= k <= n_idx,
            n_idx == indexes@.len(),
            positions@.len() == k,
            forall|j: int|
                0 <= j < k ==> ((#[trigger] positions@[j]) matches Some(Position::AtIndex(i))
                    && i == indexes@[j] - 1),
            forall|j: int| 0 <= j < n_idx ==> 1 <= #[trigger] indexes@[j],
        decreases n_idx - k,
    {
        positions.push(Some(Position::AtIndex(indexes[k] - 1)));
        k = k + 1;
    }
    todo_list.delete_batch(&positions);
    proof {
        let dv = strs_view(args@);
        assert forall|ix: int| resolved_set(s0, positions@).contains(ix) implies arg_ix_set(
            dv,
        ).contains(ix) by {
            let j = choose|j: int|
                0 <= j < positions@.len() && resolved_ix(s0, #[trigger] positions@[j]) == Some(
                    ix,
                );
            assert(parsed_index(dv[j]) == Some((indexes@[j]) as nat));
        }
        assert forall|ix: int| arg_ix_set(dv).contains(ix) implies resolved_set(
            s0,
            positions@,
        ).contains(ix) by {
            let j = choose|k0: int|
                0 <= k0 < dv.len() && match parsed_index(#[trigger] dv[k0]) {
                    Some(n) => ix == n - 1,
                    None => false,
                };
            assert(parsed_index(dv[j]) == Some((indexes@[j]) as nat));
            assert(indexes@[j] <= len);
            assert(resolved_ix(s0, positions@[j]) == Some(indexes@[j] - 1));
        }
        assert(resolved_set(s0, positions@) =~= arg_ix_set(dv));
        lemma_wf_keep(s0, resolved_set(s0, positions@));
        assert forall|q: int| 0 <= q < args@.len() implies arg_ok(
            #[trigger] dv[q],
            s0.len(),
        ) by {
            assert(parsed_index(dv[q]) == Some((indexes@[q]) as nat));
        }
    }
    let after = todo_list.items.len();
    let count = len - after;
    let mut m = "deleted ".to_owned();
    let cs = u64_to_string(count as u64);
    m.append(cs.as_str());
    m.append(" tasks");
    proof {
        assert(count as nat == (s0.len() - todo_list@.len()) as nat);
        assert(m@ =~= "deleted "@ + dec_str(count as nat) + " tasks"@);
    }
    Ok(m)
}

/// What repeatedly marking the listed snapshot indexes does: every
/// targeted record takes the new done flag, and the count is how many
/// actually changed.
pub open spec fn mark_fold(s: Seq<TaskView>, idxs: Seq<int>, target: bool) -> (Seq<TaskView>, nat)
    decreases idxs.len(),
{
    if idxs.len() == 0 {
        (s, 0)
    } else {
        let i = idxs[0];
        let hit = 0 <= i < s.len();
        let flip: nat = if hit && s[i].done != target {
            1
        } else {
            0
        };
        let s1 = if hit {
            s.update(i, TaskView { done: target, ..s[i] })
        } else {
            s
        };
        let rec = mark_fold(s1, idxs.drop_first(), target);
        (rec.0, (flip + rec.1) as nat)
    }
}

/// The zero-based positions that a sequence of valid one-based argument
/// words names, in order.
pub open spec fn arg_indexes(dv: Seq<Seq<char>>) -> Seq<int> {
    Seq::new(
        dv.len(),
        |k: int|
            match parsed_index(dv[k]) {
                Some(n) => n - 1,
                None => -1,
            },
    )
}

/// The message reporting how many tasks changed their done flag.
pub open spec fn marked_msg(c: nat, target: bool) -> Seq<char> {
    "marked "@ + dec_str(c) + " task"@ + (if c != 1 {
        "s"@
    } else {
        Seq::<char>::empty()
    }) + (if target {
        " as done"@
    } else {
        " as not done"@
    })
}

fn mark_tasks(todo_list: &mut TodoList, indexes: &Vec<usize>, target: bool) -> (count: usize)
    requires
        old(todo_list).wf(),
        forall|j: int|
            0 <= j < indexes@.len() ==> 1 <= #[trigger] indexes@[j] <= old(todo_list)@.len(),
    ensures
        final(todo_list).wf(),
        ({
            let zidx = Seq::new(indexes@.len(), |k: int| indexes@[k] - 1);
            final(todo_list)@ == mark_fold(old(todo_list)@, zidx, target).0 && count as nat
                == mark_fold(old(todo_list)@, zidx, target).1
        }),
{
    let ghost s0 = todo_list@;
    let ghost zidx = Seq::new(indexes@.len(), |k: int| indexes@[k] - 1);
    let m = indexes.len();
    let mut count: usize = 0;
    let mut k: usize = 0;
    proof {
        assert(zidx.skip(0) =~= zidx);
    }
    while k < m
        invariant
            0 <= k <= m,
            count <= k,
            m == indexes@.len(),
            zidx == Seq::new(indexes@.len(), |k0: int| indexes@[k0] - 1),
            forall|j: int| 0 <= j < m ==> 1 <= #[trigger] indexes@[j] <= s0.len(),
            todo_list.wf(),
            todo_list@.len() == s0.len(),
            mark_fold(s0, zidx, target).0 == mark_fold(todo_list@, zidx.skip(k as int), target).0,
            mark_fold(s0, zidx, target).1 == count + mark_fold(
                todo_list@,
                zidx.skip(k as int),
                target,
            ).1,
        decreases m - k,
    {
        let ghost cur = todo_list@;
        let ghost rest = zidx.skip(k as int);
        proof {
            assert(rest[0] == zidx[k as int]);
            assert(rest.drop_first() =~= zidx.skip(k + 1));
        }
        let i = indexes[k] - 1;
        let flipped = todo_list.items[i].done != target;
        if flipped {
            let t = &todo_list.items[i];
            let candidate = Task { id: t.id, title: t.title.clone(), done: target };
            proof {
                assert(candidate@ =~= TaskView { done: target, ..cur[i as int] });
                assert(has_id(cur, candidate@.id)) by {
                    assert(cur[i as int].id == candidate@.id);
                }
                lemma_id_index_unique(cur, candidate@.id, i as int);
                assert(!is_blank(candidate@.title));
            }
            let res = todo_list.edit(Some(Position::AtIndex(i)), candidate);
            proof {
                assert(todo_list@ == cur.update(i as int, TaskView { done: target, ..cur[
                    i as int] }));
            }
            count = count + 1;
        } else {
            proof {
                assert(cur.update(i as int, TaskView { done: target, ..cur[i as int] })
                    =~= cur);
            }
        }
        k = k + 1;
    }
    proof {
        assert(zidx.skip(m as int) =~= Seq::<int>::empty());
    }
    count
}

/// Marks the tasks at the given one-based positions as done, reporting
/// how many were not done before.
pub fn cmd_check(todo_list: &mut TodoList, args: &Vec<String>) -> (r: Result<String, String>)
    requires
        old(todo_list).wf(),
    ensures
        final(todo_list).wf(),
        args@.len() == 0 ==> final(todo_list)@ == old(todo_list)@ && (r matches Err(m) && m@
            == invalid_args_text()),
        args@.len() > 0 ==> match r {
            Ok(m) => {
                let fold = mark_fold(old(todo_list)@, arg_indexes(strs_view(args@)), true);
                final(todo_list)@ == fold.0 && m@ == marked_msg(fold.1, true)
            },
            Err(m) => final(todo_list)@ == old(todo_list)@ && exists|j: int|
                #![trigger strs_view(args@)[j]]
                {
                    &&& 0 <= j < args@.len()
                    &&& match parsed_index(strs_view(args@)[j]) {
                        None => m@ == invalid_args_text(),
                        Some(n) => !(1 <= n <= old(todo_list)@.len()) && m@ == range_error_text(
                            n,
                            old(todo_list)@.len(),
                        ),
                    }
                },
        },
{
    cmd_mark(todo_list, args, true)
}

/// Marks the tasks at the given one-based positions as not done,
/// reporting how many were done before.
pub fn cmd_uncheck(todo_list: &mut TodoList, args: &Vec<String>) -> (r: Result<String, String>)
    requires
        old(todo_list).wf(),
    ensures
        final(todo_list).wf(),
        args@.len() == 0 ==> final(todo_list)@ == old(todo_list)@ && (r matches Err(m) && m@
            == invalid_args_text()),
        args@.len() > 0 ==> match r {
            Ok(m) => {
                let fold = mark_fold(old(todo_list)@, arg_indexes(strs_view(args@)), false);
                final(todo_list)@ == fold.0 && m@ == marked_msg(fold.1, false)
            },
            Err(m) => final(todo_list)@ == old(todo_list)@ && exists|j: int|
                #![trigger strs_view(args@)[j]]
                {
                    &&& 0 <= j < args@.len()
                    &&& match parsed_index(strs_view(args@)[j]) {
                        None => m@ == invalid_args_text(),
                        Some(n) => !(1 <= n <= old(todo_list)@.len()) && m@ == range_error_text(
                            n,
                            old(todo_list)@.len(),
                        ),
                    }
                },
        },
{
    cmd_mark(todo_list, args, false)
}

fn cmd_mark(todo_list: &mut TodoList, args: &Vec<String>, target: bool) -> (r: Result<
    String,
    String,
>)
    requires
        old(todo_list).wf(),
    ensures
        final(todo_list).wf(),
        args@.len() == 0 ==> final(todo_list)@ == old(todo_list)@ && (r matches Err(m) && m@
            == invalid_args_text()),
        args@.len() > 0 ==> match r {
            Ok(m) => {
                let fold = mark_fold(old(todo_list)@, arg_indexes(strs_view(args@)), target);
                final(todo_list)@ == fold.0 && m@ == marked_msg(fold.1, target)
            },
            Err(m) => final(todo_list)@ == old(todo_list)@ && exists|j: int|
                #![trigger strs_view(args@)[j]]
                {
                    &&& 0 <= j < args@.len()
                    &&& match parsed_index(strs_view(args@)[j]) {
                        None => m@ == invalid_args_text(),
                        Some(n) => !(1 <= n <= old(todo_list)@.len()) && m@ == range_error_text(
                            n,
                            old(todo_list)@.len(),
                        ),
                    }
                },
        },
{
    if args.len() == 0 {
        return Err(invalid_args_msg());
    }
    let ghost s0 = todo_list@;
    let len = todo_list.items.len();
    let indexes = match parse_args_as_indexes(len, args) {
        Err(m) => {
            return Err(m);
        },
        Ok(v) => v,
    };
    let count = mark_tasks(todo_list, &indexes, target);
    proof {
        let zidx = Seq::new(indexes@.len(), |k: int| indexes@[k] - 1);
        assert(zidx =~= arg_indexes(strs_view(args@)));
    }
    let mut m = "marked ".to_owned();
    let cs = u64_to_string(count as u64);
    m.append(cs.as_str());
    m.append(" task");
    if count != 1 {
        m.append("s");
    }
    if target {
        m.append(" as done");
    } else {
        m.append(" as not done");
    }
    proof {
        assert(m@ =~= marked_msg(count as nat, target));
    }
    Ok(m)
}

} // verus!
