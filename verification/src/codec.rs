//! The flat persisted form of a task list, and its exact round trip:
//! one line per record, holding the identifier, the done flag and the
//! length-prefixed title, so that every field is reproduced verbatim.

use vstd::prelude::*;

use crate::text::all_digits;
use crate::text::dec_str;
use crate::text::digits_val;
use crate::text::is_digit;
use crate::text::lemma_dec_str_val;
use crate::text::lemma_parse_digits_exact;
use crate::text::parse_digits;
use crate::text::parse_u64;
use crate::todo::Task;
use crate::todo::TaskId;
use crate::todo::TaskView;
use crate::todo::TodoList;
use crate::todo::tasks_view;
use crate::todo::wf_seq;
use crate::text::u64_to_string;

verus! {

/// One encoded record: the identifier in decimal, a space, `1` or `0` for
/// the done flag, a space, the title length in decimal, a space, the title
/// itself, and a newline. The length prefix makes any title unambiguous.
pub open spec fn encode_task(t: TaskView) -> Seq<char> {
    dec_str(t.id as nat) + seq![' '] + (if t.done {
        seq!['1']
    } else {
        seq!['0']
    }) + seq![' '] + dec_str(t.title.len()) + seq![' '] + t.title + seq!['\n']
}

/// The encoded list: the records in order.
pub open spec fn encode_list(m: Seq<TaskView>) -> Seq<char>
    decreases m.len(),
{
    if m.len() == 0 {
        Seq::empty()
    } else {
        encode_task(m[0]) + encode_list(m.drop_first())
    }
}

/// Reads one encoded record off the front of `s`: the record and the
/// remainder, or nothing when the bytes ahead are not a record.
pub open spec fn parse_task_chars(s: Seq<char>) -> Option<(TaskView, Seq<char>)> {
    let idp = parse_digits(s).0;
    let r1 = parse_digits(s).1;
    if idp.len() == 0 || digits_val(idp) > u64::MAX {
        None
    } else if r1.len() == 0 || r1[0] != ' ' {
        None
    } else {
        let r2 = r1.drop_first();
        if r2.len() == 0 || (r2[0] != '0' && r2[0] != '1') {
            None
        } else {
            let done = r2[0] == '1';
            let r3 = r2.drop_first();
            if r3.len() == 0 || r3[0] != ' ' {
                None
            } else {
                let r4 = r3.drop_first();
                let lenp = parse_digits(r4).0;
                let r5 = parse_digits(r4).1;
                if lenp.len() == 0 {
                    None
                } else {
                    let tl = digits_val(lenp) as int;
                    if r5.len() == 0 || r5[0] != ' ' {
                        None
                    } else {
                        let r6 = r5.drop_first();
                        if r6.len() < tl + 1 {
                            None
                        } else if r6[tl] != '\n' {
                            None
                        } else {
                            Some(
                                (
                                    TaskView {
                                        id: digits_val(idp) as u64,
                                        title: r6.take(tl),
                                        done,
                                    },
                                    r6.skip(tl + 1),
                                ),
                            )
                        }
                    }
                }
            }
        }
    }
}

/// Reads a whole encoded list: every record in order, with nothing left
/// over.
pub open spec fn parse_list_chars(s: Seq<char>) -> Option<Seq<TaskView>>
    decreases s.len(),
{
    if s.len() == 0 {
        Some(Seq::empty())
    } else {
        match parse_task_chars(s) {
            None => None,
            Some((t, rest)) => if rest.len() < s.len() {
                match parse_list_chars(rest) {
                    None => None,
                    Some(m) => Some(seq![t] + m),
                }
            } else {
                None
            },
        }
    }
}

/// Encoding one more record extends the encoded list at its end.
proof fn lemma_encode_append_one(p: Seq<TaskView>, t: TaskView)
    ensures
        encode_list(p.push(t)) == encode_list(p) + encode_task(t),
    decreases p.len(),
{
    if p.len() == 0 {
        assert(p.push(t)[0] == t);
        assert(p.push(t).drop_first() =~= Seq::<TaskView>::empty());
        assert(encode_list(Seq::<TaskView>::empty()) == Seq::<char>::empty());
        assert(encode_list(p.push(t)) == encode_task(t) + encode_list(p.push(t).drop_first()));
        assert(encode_task(t) + Seq::<char>::empty() =~= encode_task(t));
        assert(encode_list(p) =~= Seq::<char>::empty());
        assert(encode_list(p) + encode_task(t) =~= encode_task(t));
    } else {
        assert(p.push(t)[0] == p[0]);
        assert(p.push(t).drop_first() =~= p.drop_first().push(t));
        lemma_encode_append_one(p.drop_first(), t);
        assert(encode_list(p.push(t)) == encode_task(p.push(t)[0]) + encode_list(
            p.push(t).drop_first(),
        ));
        assert(encode_list(p.push(t).drop_first()) == encode_list(p.drop_first().push(t)));
        assert(encode_list(p.push(t)) == encode_task(p[0]) + (encode_list(p.drop_first())
            + encode_task(t)));
        assert(encode_task(p[0]) + (encode_list(p.drop_first()) + encode_task(t)) =~= (
        encode_task(p[0]) + encode_list(p.drop_first())) + encode_task(t));
        assert(encode_list(p) == encode_task(p[0]) + encode_list(p.drop_first()));
    }
}

/// Reading an encoded record off any continuation recovers exactly the
/// record and the continuation.
proof fn lemma_parse_task_encode(t: TaskView, rest: Seq<char>)
    ensures
        parse_task_chars(encode_task(t) + rest) == Some((t, rest)),
{
    let id_s = dec_str(t.id as nat);
    let db = if t.done {
        seq!['1']
    } else {
        seq!['0']
    };
    let len_s = dec_str(t.title.len());
    let s = encode_task(t) + rest;

    lemma_dec_str_val(t.id as nat);
    lemma_dec_str_val(t.title.len());

    let rest1 = seq![' '] + db + seq![' '] + len_s + seq![' '] + t.title + seq!['\n'] + rest;
    assert(s =~= id_s + rest1);
    assert(rest1[0] == ' ');
    lemma_parse_digits_exact(id_s, rest1);
    assert(parse_digits(s).0 == id_s && parse_digits(s).1 == rest1);
    assert(digits_val(id_s) == t.id as nat);

    let rest2 = db + seq![' '] + len_s + seq![' '] + t.title + seq!['\n'] + rest;
    assert(rest1.drop_first() =~= rest2);
    assert(rest2[0] == db[0]);
    assert((rest2[0] == '1') == t.done);

    let rest3 = seq![' '] + len_s + seq![' '] + t.title + seq!['\n'] + rest;
    assert(rest2.drop_first() =~= rest3);
    assert(rest3[0] == ' ');

    let rest4 = seq![' '] + t.title + seq!['\n'] + rest;
    assert(rest3.drop_first() =~= len_s + rest4);
    assert(rest4[0] == ' ');
    lemma_parse_digits_exact(len_s, rest4);
    assert(parse_digits(rest3.drop_first()).0 == len_s && parse_digits(rest3.drop_first()).1
        == rest4);
    assert(digits_val(len_s) == t.title.len());
    let tl = digits_val(len_s) as int;

    let rest6 = t.title + seq!['\n'] + rest;
    assert(rest4.drop_first() =~= rest6);
    assert(rest6.len() == t.title.len() + 1 + rest.len());
    assert(rest6[tl] == '\n');
    assert(rest6.take(tl) =~= t.title);
    assert(rest6.skip(tl + 1) =~= rest);

    assert(digits_val(id_s) as u64 == t.id);
    assert(TaskView { id: digits_val(id_s) as u64, title: rest6.take(tl), done: (rest2[0]
        == '1') } =~= t);
}

/// Decoding what was encoded reproduces the exact ordered sequence of
/// identifiers, titles and done flags: the round trip of the persisted
/// form is the identity.
pub proof fn lemma_encode_decode(m: Seq<TaskView>)
    ensures
        parse_list_chars(encode_list(m)) == Some(m),
    decreases m.len(),
{
    let s = encode_list(m);
    if m.len() == 0 {
        assert(s.len() == 0);
        assert(m =~= Seq::<TaskView>::empty());
    } else {
        let t = m[0];
        let enc_rest = encode_list(m.drop_first());
        assert(s == encode_task(t) + enc_rest);
        lemma_parse_task_encode(t, enc_rest);
        assert(encode_task(t).len() >= 1);
        assert(s.len() == encode_task(t).len() + enc_rest.len());
        lemma_encode_decode(m.drop_first());
        assert(seq![t] + m.drop_first() =~= m);
    }
}

/// Encodes the list into its flat persisted form.
pub fn encode(list: &TodoList) -> (r: String)
    ensures
        r@ == encode_list(list@),
{
    let n = list.items.len();
    let mut buf = String::new();
    let mut i: usize = 0;
    while i < n
        invariant
            0 <= i <= n,
            n == list.items@.len(),
            n == list@.len(),
            buf@ == encode_list(list@.take(i as int)),
        decreases n - i,
    {
        let ghost pre = buf@;
        let task = &list.items[i];
        let num = u64_to_string(task.id.0);
        buf.append(num.as_str());
        buf.append(" ");
        if task.done {
            buf.append("1");
        } else {
            buf.append("0");
        }
        buf.append(" ");
        let tlen = task.title.as_str().unicode_len();
        let lnum = u64_to_string(tlen as u64);
        buf.append(lnum.as_str());
        buf.append(" ");
        buf.append(task.title.as_str());
        buf.append("\n");
        proof {
            reveal_strlit(" ");
            reveal_strlit("0");
            reveal_strlit("1");
            reveal_strlit("\n");
            assert(" "@ =~= seq![' ']);
            assert("0"@ =~= seq!['0']);
            assert("1"@ =~= seq!['1']);
            assert("\n"@ =~= seq!['\n']);
            let t = list@[i as int];
            assert(t.title == list.items@[i as int]@.title);
            assert(buf@ =~= pre + encode_task(t));
            assert(list@.take(i + 1) =~= list@.take(i as int).push(t));
            lemma_encode_append_one(list@.take(i as int), t);
        }
        i = i + 1;
    }
    proof {
        assert(list@.take(n as int) =~= list@);
    }
    buf
}

fn scan_digits(s: &str, from: usize, n: usize) -> (end: usize)
    requires
        n == s@.len(),
        from <= n,
    ensures
        from <= end <= n,
        forall|j: int| from <= j < end ==> is_digit(#[trigger] s@[j]),
        end == n || !is_digit(s@[end as int]),
{
    let mut i: usize = from;
    while i < n
        invariant
            from <= i <= n,
            n == s@.len(),
            forall|j: int| from <= j < i ==> is_digit(#[trigger] s@[j]),
        decreases n - i,
    {
        let c = s.get_char(i);
        let u = c as u32;
        if u < 0x30 || u > 0x39 {
            assert(!is_digit(s@[i as int]));
            return i;
        }
        i = i + 1;
    }
    i
}

/// Reads one encoded record starting at character position `pos`,
/// returning the record and the position just past it.
fn parse_one(s: &str, pos: usize, n: usize) -> (r: Option<(Task, usize)>)
    requires
        n == s@.len(),
        pos <= n,
    ensures
        match r {
            Some(p) => pos < p.1 <= n && parse_task_chars(s@.skip(pos as int)) == Some(
                (p.0@, s@.skip(p.1 as int)),
            ),
            None => parse_task_chars(s@.skip(pos as int)) is None,
        },
{
    let ghost ss = s@.skip(pos as int);

    // The identifier digits.
    let end = scan_digits(s, pos, n);
    proof {
        assert(all_digits(s@.subrange(pos as int, end as int)));
        assert(ss =~= s@.subrange(pos as int, end as int) + s@.skip(end as int));
        lemma_parse_digits_exact(s@.subrange(pos as int, end as int), s@.skip(end as int));
    }
    if end == pos {
        return None;
    }
    let idsub = s.substring_char(pos, end);
    let idv = match parse_u64(idsub) {
        None => {
            return None;
        },
        Some(v) => v,
    };

    // The space after the identifier.
    if end >= n {
        return None;
    }
    if s.get_char(end) != ' ' {
        return None;
    }
    proof {
        assert(s@.skip(end as int).drop_first() =~= s@.skip(end + 1));
    }

    // The done flag.
    if end + 1 >= n {
        return None;
    }
    let c2 = s.get_char(end + 1);
    let done: bool = if c2 == '1' {
        true
    } else if c2 == '0' {
        false
    } else {
        return None;
    };
    proof {
        assert(s@.skip(end + 1).drop_first() =~= s@.skip(end + 2));
    }

    // The space after the flag.
    if end + 2 >= n {
        return None;
    }
    if s.get_char(end + 2) != ' ' {
        return None;
    }
    proof {
        assert(s@.skip(end + 2).drop_first() =~= s@.skip(end + 3));
    }

    // The title length digits.
    let end2 = scan_digits(s, end + 3, n);
    proof {
        assert(all_digits(s@.subrange(end + 3, end2 as int)));
        assert(s@.skip(end + 3) =~= s@.subrange(end + 3, end2 as int) + s@.skip(end2 as int));
        lemma_parse_digits_exact(s@.subrange(end + 3, end2 as int), s@.skip(end2 as int));
    }
    if end2 == end + 3 {
        return None;
    }
    let lensub = s.substring_char(end + 3, end2);
    let ghost lenp = s@.subrange(end + 3, end2 as int);
    let lv: u64 = match parse_u64(lensub) {
        None => {
            // The declared length does not even fit a machine word, so no
            // remaining suffix can be that long.
            proof {
                assert(digits_val(lenp) > u64::MAX);
                assert(usize::MAX <= u64::MAX);
            }
            return None;
        },
        Some(v) => v,
    };

    // The space after the length.
    if end2 >= n {
        return None;
    }
    if s.get_char(end2) != ' ' {
        return None;
    }
    let start = end2 + 1;
    proof {
        assert(s@.skip(end2 as int).drop_first() =~= s@.skip(start as int));
    }

    // The title itself, then the closing newline.
    let remaining = n - start;
    if (remaining as u64) <= lv {
        return None;
    }
    let tl = lv as usize;
    if s.get_char(start + tl) != '\n' {
        proof {
            assert(s@.skip(start as int)[lv as int] == s@[start + lv]);
        }
        return None;
    }
    let title_slice = s.substring_char(start, start + tl);
    let title = title_slice.to_owned();
    let np = start + tl + 1;
    proof {
        assert(s@.skip(start as int)[lv as int] == s@[start + lv]);
        assert(s@.skip(start as int).take(lv as int) =~= s@.subrange(start as int, start + lv));
        assert(s@.skip(start as int).skip(lv + 1) =~= s@.skip(np as int));
    }
    let t = Task { id: TaskId(idv), title, done };
    proof {
        let parsed = parse_task_chars(ss)->Some_0;
        assert(parsed.0 =~= t@);
        assert(parsed.1 == s@.skip(np as int));
    }
    Some((t, np))
}

/// Decodes a flat persisted form back into a list, refusing text that is
/// not an encoded list and lists that break the collection invariant.
pub fn decode(s: &str) -> (r: Option<TodoList>)
    ensures
        match r {
            Some(l) => parse_list_chars(s@) == Some(l@) && l.wf(),
            None => parse_list_chars(s@) is None || !wf_seq(parse_list_chars(s@)->Some_0),
        },
{
    let n = s.unicode_len();
    let mut items: Vec<Task> = Vec::new();
    let mut pos: usize = 0;
    proof {
        assert(s@.skip(0) =~= s@);
        assert(tasks_view(items@) =~= Seq::<TaskView>::empty());
        assert(tasks_view(items@) + parse_list_chars(s@)->Some_0 =~= parse_list_chars(
            s@,
        )->Some_0);
    }
    while pos < n
        invariant
            0 <= pos <= n,
            n == s@.len(),
            match parse_list_chars(s@.skip(pos as int)) {
                Some(m2) => parse_list_chars(s@) == Some(tasks_view(items@) + m2),
                None => parse_list_chars(s@) is None,
            },
        decreases n - pos,
    {
        let ghost suffix = s@.skip(pos as int);
        match parse_one(s, pos, n) {
            None => {
                proof {
                    assert(suffix.len() > 0);
                    assert(parse_list_chars(suffix) is None);
                }
                return None;
            },
            Some(pair) => {
                let (task, np) = pair;
                let ghost gt: Task = task;
                proof {
                    let m2 = parse_list_chars(s@.skip(np as int));
                    assert(s@.skip(np as int).len() < suffix.len());
                    assert(parse_list_chars(suffix) == match m2 {
                        None => None::<Seq<TaskView>>,
                        Some(m) => Some(seq![gt@] + m),
                    });
                    assert(tasks_view(items@.push(gt)) =~= tasks_view(items@).push(gt@));
                    if m2 is Some {
                        assert(tasks_view(items@) + (seq![gt@] + m2->Some_0) =~= tasks_view(
                            items@,
                        ).push(gt@) + m2->Some_0);
                    }
                }
                items.push(task);
                pos = np;
            },
        }
    }
    proof {
        assert(s@.skip(pos as int) =~= Seq::<char>::empty());
        assert(parse_list_chars(Seq::<char>::empty()) == Some(Seq::<TaskView>::empty()));
        assert(tasks_view(items@) + Seq::<TaskView>::empty() =~= tasks_view(items@));
    }
    let list = TodoList { items };
    if list.is_wf() {
        Some(list)
    } else {
        None
    }
}

} // verus!
