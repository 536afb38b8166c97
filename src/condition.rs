//! Rewriting a raw condition and driving tokenizer, parser and renderer over it.
use vstd::prelude::*;
use crate::text::{starts_at, starts_at_exec, chars_of, string_of, copy_range, append_chars};
use crate::tokenizer::{tokens, views, tokenize_chars};
use crate::expr::{parse, parse_expr, is_one};
use crate::render::{render, render_level};

verus! {

/// A character of a talent path: ASCII letter or digit, `_` or `.`.
pub open spec fn is_path_char(c: char) -> bool {
    ('a' <= c && c <= 'z') || ('A' <= c && c <= 'Z') || ('0' <= c && c <= '9') || c == '_'
        || c == '.'
}

fn path_char(c: char) -> (r: bool)
    ensures
        r == is_path_char(c),
{
    ('a' <= c && c <= 'z') || ('A' <= c && c <= 'Z') || ('0' <= c && c <= '9') || c == '_'
        || c == '.'
}

/// Length of the run of path characters that starts at `s[i]`.
pub open spec fn path_len(s: Seq<char>, i: int) -> nat
    decreases s.len() - i,
{
    if 0 <= i < s.len() && is_path_char(s[i]) {
        1 + path_len(s, i + 1)
    } else {
        0
    }
}

proof fn lemma_path_len_bound(s: Seq<char>, i: int)
    ensures
        path_len(s, i) == 0 || (0 <= i && i + path_len(s, i) <= s.len()),
    decreases s.len() - i,
{
    if 0 <= i < s.len() && is_path_char(s[i]) {
        lemma_path_len_bound(s, i + 1);
    }
}

/// `s[i..]` with each `pat` followed by a path replaced, left to right, by
/// that path and then `suffix`.
pub open spec fn rewrite_from(s: Seq<char>, i: int, pat: Seq<char>, suffix: Seq<char>) -> Seq<
    char,
>
    decreases s.len() - i,
    via rewrite_from_decreases
{
    if i < 0 || i >= s.len() {
        Seq::empty()
    } else if starts_at(s, i, pat) && path_len(s, i + pat.len()) > 0 {
        let j = i + pat.len();
        let n = path_len(s, j);
        s.subrange(j, j + n) + suffix + rewrite_from(s, j + n, pat, suffix)
    } else {
        seq![s[i]] + rewrite_from(s, i + 1, pat, suffix)
    }
}

#[via_fn]
proof fn rewrite_from_decreases(s: Seq<char>, i: int, pat: Seq<char>, suffix: Seq<char>) {
    lemma_path_len_bound(s, i + pat.len());
}

pub open spec fn rewrite(s: Seq<char>, pat: Seq<char>, suffix: Seq<char>) -> Seq<char> {
    rewrite_from(s, 0, pat, suffix)
}

pub open spec fn not_talent_pat() -> Seq<char> {
    seq!['!', 't', 'a', 'l', 'e', 'n', 't', '.']
}

pub open spec fn talent_pat() -> Seq<char> {
    seq!['t', 'a', 'l', 'e', 'n', 't', '.']
}

pub open spec fn not_talented() -> Seq<char> {
    seq![' ', 'n', 'o', 't', ' ', 't', 'a', 'l', 'e', 'n', 't', 'e', 'd']
}

pub open spec fn talented() -> Seq<char> {
    seq![' ', 't', 'a', 'l', 'e', 'n', 't', 'e', 'd']
}

/// The raw condition with `!talent.<path>` and then `talent.<path>` spelled out.
pub open spec fn talents_spelled(raw: Seq<char>) -> Seq<char> {
    rewrite(rewrite(raw, not_talent_pat(), not_talented()), talent_pat(), talented())
}

fn path_end(s: &Vec<char>, i: usize) -> (j: usize)
    requires
        i <= s@.len(),
    ensures
        j == i + path_len(s@, i as int),
        j <= s@.len(),
{
    let mut j: usize = i;
    while j < s.len() && path_char(s[j])
        invariant
            i <= j <= s@.len(),
            path_len(s@, i as int) == (j - i) + path_len(s@, j as int),
        decreases s@.len() - j,
    {
        j = j + 1;
    }
    j
}

fn rewrite_exec(s: &Vec<char>, pat: &Vec<char>, suffix: &Vec<char>) -> (r: Vec<char>)
    ensures
        r@ == rewrite(s@, pat@, suffix@),
{
    let mut r: Vec<char> = Vec::new();
    let mut i: usize = 0;
    while i < s.len()
        invariant
            i <= s@.len(),
            r@ + rewrite_from(s@, i as int, pat@, suffix@) == rewrite(s@, pat@, suffix@),
        decreases s@.len() - i,
    {
        let ghost before = r@;
        if starts_at_exec(s, i, pat) {
            let j = i + pat.len();
            let k = path_end(s, j);
            if k > j {
                let path = copy_range(s, j, k);
                append_chars(&mut r, &path);
                append_chars(&mut r, suffix);
                assert(r@ =~= before + (s@.subrange(j as int, k as int) + suffix@));
                i = k;
                continue;
            }
        }
        r.push(s[i]);
        assert(r@ =~= before + seq![s@[i as int]]);
        i = i + 1;
    }
    r
}

/// `s[i..]` with every occurrence of `p` removed, left to right.
pub open spec fn remove_from(s: Seq<char>, p: Seq<char>, i: int) -> Seq<char>
    decreases s.len() - i,
{
    if i < 0 || i >= s.len() {
        Seq::empty()
    } else if p.len() > 0 && starts_at(s, i, p) {
        remove_from(s, p, i + p.len())
    } else {
        seq![s[i]] + remove_from(s, p, i + 1)
    }
}

pub open spec fn remove_all(s: Seq<char>, p: Seq<char>) -> Seq<char> {
    remove_from(s, p, 0)
}

fn remove_exec(s: &Vec<char>, p: &Vec<char>) -> (r: Vec<char>)
    ensures
        r@ == remove_all(s@, p@),
{
    let mut r: Vec<char> = Vec::new();
    let mut i: usize = 0;
    while i < s.len()
        invariant
            i <= s@.len(),
            r@ + remove_from(s@, p@, i as int) == remove_all(s@, p@),
        decreases s@.len() - i,
    {
        if p.len() > 0 && starts_at_exec(s, i, p) {
            i = i + p.len();
        } else {
            let ghost before = r@;
            r.push(s[i]);
            assert(r@ =~= before + seq![s@[i as int]]);
            i = i + 1;
        }
    }
    r
}

pub open spec fn debuff_pat() -> Seq<char> {
    seq!['d', 'e', 'b', 'u', 'f', 'f', '.']
}

pub open spec fn buff_pat() -> Seq<char> {
    seq!['b', 'u', 'f', 'f', '.']
}

/// A token as the parser reads it: `&` is `and`, `|` is `or`, `!` is `not`;
/// any other token loses every `debuff.` and then every `buff.`.
pub open spec fn map_token(t: Seq<char>) -> Seq<char> {
    if t == seq!['&'] {
        seq!['a', 'n', 'd']
    } else if t == seq!['|'] {
        seq!['o', 'r']
    } else if t == seq!['!'] {
        seq!['n', 'o', 't']
    } else {
        remove_all(remove_all(t, debuff_pat()), buff_pat())
    }
}

/// The tokens the parser reads for a raw condition.
pub open spec fn condition_tokens(raw: Seq<char>) -> Seq<Seq<char>> {
    tokens(talents_spelled(raw)).map_values(|t: Seq<char>| map_token(t))
}

/// The rendered text of a raw condition, at indentation level 1.
pub open spec fn transformed(raw: Seq<char>) -> Seq<char> {
    render(parse(condition_tokens(raw)), 1)
}

fn map_token_exec(t: &Vec<char>) -> (r: Vec<char>)
    ensures
        r@ == map_token(t@),
{
    if is_one(t, '&') {
        let v = vec!['a', 'n', 'd'];
        assert(v@ =~= seq!['a', 'n', 'd']);
        v
    } else if is_one(t, '|') {
        let v = vec!['o', 'r'];
        assert(v@ =~= seq!['o', 'r']);
        v
    } else if is_one(t, '!') {
        let v = vec!['n', 'o', 't'];
        assert(v@ =~= seq!['n', 'o', 't']);
        v
    } else {
        let debuff = vec!['d', 'e', 'b', 'u', 'f', 'f', '.'];
        let buff = vec!['b', 'u', 'f', 'f', '.'];
        assert(debuff@ =~= debuff_pat());
        assert(buff@ =~= buff_pat());
        let a = remove_exec(t, &debuff);
        remove_exec(&a, &buff)
    }
}

/// The rendered text of a raw condition, as characters.
pub fn transform_chars(raw: &Vec<char>) -> (r: Vec<char>)
    ensures
        r@ == transformed(raw@),
{
    let not_pat = vec!['!', 't', 'a', 'l', 'e', 'n', 't', '.'];
    let pat = vec!['t', 'a', 'l', 'e', 'n', 't', '.'];
    let not_suffix = vec![' ', 'n', 'o', 't', ' ', 't', 'a', 'l', 'e', 'n', 't', 'e', 'd'];
    let suffix = vec![' ', 't', 'a', 'l', 'e', 'n', 't', 'e', 'd'];
    assert(not_pat@ =~= not_talent_pat());
    assert(pat@ =~= talent_pat());
    assert(not_suffix@ =~= not_talented());
    assert(suffix@ =~= talented());
    let once = rewrite_exec(raw, &not_pat, &not_suffix);
    let spelled = rewrite_exec(&once, &pat, &suffix);
    let toks = tokenize_chars(&spelled);
    let ghost want = condition_tokens(raw@);
    let mut mapped: Vec<Vec<char>> = Vec::new();
    let mut k: usize = 0;
    while k < toks.len()
        invariant
            k <= toks@.len(),
            views(toks@) == tokens(talents_spelled(raw@)),
            want == condition_tokens(raw@),
            views(mapped@) == want.take(k as int),
        decreases toks@.len() - k,
    {
        let m = map_token_exec(&toks[k]);
        let ghost before = mapped@;
        mapped.push(m);
        assert(views(mapped@) =~= views(before).push(m@));
        k = k + 1;
        assert(views(mapped@) =~= want.take(k as int));
    }
    assert(views(mapped@) =~= want);
    let e = parse_expr(&mapped);
    render_level(&e, 1)
}

/// The rendered text of a raw condition (the text after `,if=`).
pub fn transform_condition(raw: &str) -> (r: String)
    ensures
        r@ == transformed(raw@),
{
    let v = chars_of(raw);
    let out = transform_chars(&v);
    string_of(&out)
}

} // verus!
