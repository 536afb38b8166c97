//! Splitting script lines into trigger key and entry, and grouping entries by key.
use vstd::prelude::*;
use crate::text::{trim, find, find_exec, trim_range, copy_range, starts_at, starts_at_exec,
    append_chars, chars_of, string_of};
use crate::condition::{transformed, transform_chars};

verus! {

pub open spec fn plus_sep() -> Seq<char> {
    seq!['+', '=', '/']
}

pub open spec fn eq_sep() -> Seq<char> {
    seq!['=']
}

pub open spec fn if_sep() -> Seq<char> {
    seq![',', 'i', 'f', '=']
}

pub open spec fn actions_prefix() -> Seq<char> {
    seq!['a', 'c', 't', 'i', 'o', 'n', 's', '.']
}

/// The key with a leading `actions.` removed.
pub open spec fn strip_actions(k: Seq<char>) -> Seq<char> {
    if starts_at(k, 0, actions_prefix()) {
        k.skip(actions_prefix().len() as int)
    } else {
        k
    }
}

/// The entry for the text right of the separator: the action alone, or the
/// action, `:`, a line break and the rendered condition after `,if=`.
pub open spec fn action_entry(right: Seq<char>) -> Seq<char> {
    let body = trim(right);
    let c = find(body, if_sep());
    if c >= 0 {
        trim(body.take(c)) + seq![':', '\n'] + transformed(trim(body.skip(c + if_sep().len())))
    } else {
        trim(body)
    }
}

/// The key and entry of a script line: split at the first `+=/`, else at the
/// first `=`; no result when neither occurs.
pub open spec fn line_entry(s: Seq<char>) -> Option<(Seq<char>, Seq<char>)> {
    let a = find(s, plus_sep());
    let b = find(s, eq_sep());
    if a >= 0 {
        Some((strip_actions(trim(s.take(a))), action_entry(s.skip(a + plus_sep().len()))))
    } else if b >= 0 {
        Some((strip_actions(trim(s.take(b))), action_entry(s.skip(b + eq_sep().len()))))
    } else {
        None
    }
}

fn entry_exec(s: &Vec<char>, start: usize) -> (r: Vec<char>)
    requires
        start <= s@.len(),
    ensures
        r@ == action_entry(s@.skip(start as int)),
{
    assert(s@.subrange(start as int, s@.len() as int) =~= s@.skip(start as int));
    let body = trim_range(s, start, s.len());
    let sep = vec![',', 'i', 'f', '='];
    assert(sep@ =~= if_sep());
    let n = body.len();
    match find_exec(&body, &sep) {
        Some(c) => {
            assert(body@.subrange(0, c as int) =~= body@.take(c as int));
            assert(body@.subrange(c + 4, body@.len() as int) =~= body@.skip(c + 4));
            let mut r = trim_range(&body, 0, c);
            let cond = trim_range(&body, c + 4, body.len());
            let text = transform_chars(&cond);
            let ghost before = r@;
            r.push(':');
            r.push('\n');
            append_chars(&mut r, &text);
            assert(r@ =~= before + seq![':', '\n'] + text@);
            r
        },
        None => {
            assert(body@.subrange(0, body@.len() as int) =~= body@);
            trim_range(&body, 0, body.len())
        },
    }
}

fn key_exec(s: &Vec<char>, end: usize) -> (r: Vec<char>)
    requires
        end <= s@.len(),
    ensures
        r@ == strip_actions(trim(s@.take(end as int))),
{
    assert(s@.subrange(0, end as int) =~= s@.take(end as int));
    let k = trim_range(s, 0, end);
    let prefix = vec!['a', 'c', 't', 'i', 'o', 'n', 's', '.'];
    assert(prefix@ =~= actions_prefix());
    if starts_at_exec(&k, 0, &prefix) {
        assert(k@.subrange(8, k@.len() as int) =~= k@.skip(8));
        copy_range(&k, 8, k.len())
    } else {
        k
    }
}

/// The key and entry of a script line, as characters.
pub fn line_entry_chars(s: &Vec<char>) -> (r: Option<(Vec<char>, Vec<char>)>)
    ensures
        r is None <==> line_entry(s@) is None,
        r matches Some((k, e)) ==> line_entry(s@) == Some((k@, e@)),
{
    let plus = vec!['+', '=', '/'];
    let eq = vec!['='];
    assert(plus@ =~= plus_sep());
    assert(eq@ =~= eq_sep());
    let n = s.len();
    match find_exec(s, &plus) {
        Some(a) => Some((key_exec(s, a), entry_exec(s, a + 3))),
        None => match find_exec(s, &eq) {
            Some(b) => Some((key_exec(s, b), entry_exec(s, b + 1))),
            None => None,
        },
    }
}

/// The trigger key and formatted entry of one script line, or `None` when the
/// line holds neither `+=/` nor `=`.
pub fn process_line(line: &str) -> (r: Option<(String, String)>)
    ensures
        r is None <==> line_entry(line@) is None,
        r matches Some((k, e)) ==> line_entry(line@) == Some((k@, e@)),
{
    let s = chars_of(line);
    match line_entry_chars(&s) {
        Some((k, e)) => Some((string_of(&k), string_of(&e))),
        None => None,
    }
}

} // verus!
