//! Splitting a condition into operator and identifier tokens.
use vstd::prelude::*;
use crate::text::{is_space, space, chars_of, string_of};

verus! {

/// A character that is a one-character operator on its own.
pub open spec fn is_op_char(c: char) -> bool {
    c == '<' || c == '>' || c == '=' || c == '&' || c == '|' || c == '(' || c == ')'
}

/// A character that may stand in an identifier run.
pub open spec fn is_word_char(c: char) -> bool {
    !is_op_char(c) && !is_space(c)
}

/// Length of the identifier run that starts at `s[i]`.
pub open spec fn word_len(s: Seq<char>, i: int) -> nat
    decreases s.len() - i,
{
    if 0 <= i < s.len() && is_word_char(s[i]) {
        1 + word_len(s, i + 1)
    } else {
        0
    }
}

/// The tokens of `s[i..]`, left to right: `<=` and `>=` before `<` and `>`,
/// each other operator character alone, maximal identifier runs otherwise;
/// white space separates and yields nothing.
pub open spec fn tokens_from(s: Seq<char>, i: int) -> Seq<Seq<char>>
    decreases s.len() - i,
    via tokens_from_decreases
{
    if i < 0 || i >= s.len() {
        Seq::empty()
    } else if is_space(s[i]) {
        tokens_from(s, i + 1)
    } else if (s[i] == '<' || s[i] == '>') && i + 1 < s.len() && s[i + 1] == '=' {
        seq![s.subrange(i, i + 2)].add(tokens_from(s, i + 2))
    } else if is_op_char(s[i]) {
        seq![s.subrange(i, i + 1)].add(tokens_from(s, i + 1))
    } else {
        let n = word_len(s, i);
        seq![s.subrange(i, i + n)].add(tokens_from(s, i + n))
    }
}

/// The character sequences held in a vector of tokens.
pub open spec fn views(v: Seq<Vec<char>>) -> Seq<Seq<char>> {
    v.map_values(|t: Vec<char>| t@)
}

/// The tokens of `s`.
pub open spec fn tokens(s: Seq<char>) -> Seq<Seq<char>> {
    tokens_from(s, 0)
}

#[via_fn]
proof fn tokens_from_decreases(s: Seq<char>, i: int) {
    proof_word_len_positive(s, i);
}

pub proof fn proof_word_len_positive(s: Seq<char>, i: int)
    ensures
        0 <= i < s.len() && is_word_char(s[i]) ==> word_len(s, i) >= 1,
        i + word_len(s, i) <= s.len() || word_len(s, i) == 0,
    decreases s.len() - i,
{
    if 0 <= i < s.len() && is_word_char(s[i]) {
        proof_word_len_positive(s, i + 1);
    }
}

fn word_end(s: &Vec<char>, i: usize) -> (j: usize)
    requires
        i <= s@.len(),
    ensures
        j == i + word_len(s@, i as int),
        j <= s@.len(),
{
    let mut j: usize = i;
    while j < s.len() && !is_op(s[j]) && !space(s[j])
        invariant
            i <= j <= s@.len(),
            word_len(s@, i as int) == (j - i) + word_len(s@, j as int),
        decreases s@.len() - j,
    {
        j = j + 1;
    }
    j
}

fn is_op(c: char) -> (r: bool)
    ensures
        r == is_op_char(c),
{
    c == '<' || c == '>' || c == '=' || c == '&' || c == '|' || c == '(' || c == ')'
}

/// The tokens of a character sequence.
pub fn tokenize_chars(s: &Vec<char>) -> (r: Vec<Vec<char>>)
    ensures
        views(r@) == tokens(s@),
{
    let mut r: Vec<Vec<char>> = Vec::new();
    let mut i: usize = 0;
    while i < s.len()
        invariant
            i <= s@.len(),
            views(r@) + tokens_from(s@, i as int) == tokens(s@),
        decreases s@.len() - i,
    {
        let c = s[i];
        let ghost before = r@;
        if space(c) {
            i = i + 1;
        } else if (c == '<' || c == '>') && i + 1 < s.len() && s[i + 1] == '=' {
            let mut t: Vec<char> = Vec::new();
            t.push(c);
            t.push('=');
            assert(t@ =~= s@.subrange(i as int, i + 2));
            r.push(t);
            assert(views(r@) =~= views(before).push(s@.subrange(i as int, i + 2)));
            assert(tokens_from(s@, i as int) =~= seq![s@.subrange(i as int, i + 2)].add(
                tokens_from(s@, i + 2),
            ));
            i = i + 2;
        } else if is_op(c) {
            let mut t: Vec<char> = Vec::new();
            t.push(c);
            assert(t@ =~= s@.subrange(i as int, i + 1));
            r.push(t);
            assert(views(r@) =~= views(before).push(s@.subrange(i as int, i + 1)));
            i = i + 1;
        } else {
            let j = word_end(s, i);
            proof {
                proof_word_len_positive(s@, i as int);
            }
            let t = crate::text::copy_range(s, i, j);
            r.push(t);
            assert(views(r@) =~= views(before).push(s@.subrange(i as int, j as int)));
            i = j;
        }
    }
    r
}

/// The tokens of `line`, as strings.
pub fn tokenize_line(line: &str) -> (r: Vec<String>)
    ensures
        r@.len() == tokens(line@).len(),
        forall|k: int| 0 <= k < r@.len() ==> #[trigger] r@[k]@ == tokens(line@)[k],
{
    let s = chars_of(line);
    let t = tokenize_chars(&s);
    let mut r: Vec<String> = Vec::new();
    let mut k: usize = 0;
    while k < t.len()
        invariant
            k <= t@.len(),
            views(t@) == tokens(line@),
            r@.len() == k,
            forall|m: int| 0 <= m < k ==> #[trigger] r@[m]@ == tokens(line@)[m],
        decreases t@.len() - k,
    {
        r.push(string_of(&t[k]));
        k = k + 1;
    }
    r
}

proof fn lemma_word_len_take(s: Seq<char>, p: int, i: int)
    requires
        0 <= i <= p < s.len(),
        !is_word_char(s[p]),
    ensures
        word_len(s, i) <= p - i,
        word_len(s.take(p), i) == word_len(s, i),
    decreases p - i,
{
    if i < p {
        assert(s.take(p)[i] == s[i]);
        lemma_word_len_take(s, p, i + 1);
    }
}

proof fn lemma_tokens_split(s: Seq<char>, p: int, i: int)
    requires
        0 <= i <= p < s.len(),
        s[p] == '<' || s[p] == '>',
    ensures
        tokens_from(s, i) == tokens_from(s.take(p), i) + tokens_from(s, p),
    decreases p - i,
{
    let t = s.take(p);
    if i == p {
        assert(tokens_from(t, i) == Seq::<Seq<char>>::empty());
        assert(tokens_from(s, i) =~= tokens_from(t, i) + tokens_from(s, p));
    } else {
        assert(t[i] == s[i]);
        if is_space(s[i]) {
            lemma_tokens_split(s, p, i + 1);
        } else if (s[i] == '<' || s[i] == '>') && i + 1 < s.len() && s[i + 1] == '=' {
            assert(t[i + 1] == s[i + 1]);
            assert(t.subrange(i, i + 2) =~= s.subrange(i, i + 2));
            lemma_tokens_split(s, p, i + 2);
            assert(tokens_from(s, i) =~= tokens_from(t, i) + tokens_from(s, p));
        } else if is_op_char(s[i]) {
            assert(t.subrange(i, i + 1) =~= s.subrange(i, i + 1));
            lemma_tokens_split(s, p, i + 1);
            assert(tokens_from(s, i) =~= tokens_from(t, i) + tokens_from(s, p));
        } else {
            lemma_word_len_take(s, p, i);
            proof_word_len_positive(s, i);
            let n = word_len(s, i);
            assert(t.subrange(i, i + n) =~= s.subrange(i, i + n));
            lemma_tokens_split(s, p, i + n);
            assert(tokens_from(s, i) =~= tokens_from(t, i) + tokens_from(s, p));
        }
    }
}

proof fn lemma_word_len_skip(s: Seq<char>, k: int, i: int)
    requires
        0 <= k <= i,
        k <= s.len(),
    ensures
        word_len(s, i) == word_len(s.skip(k), i - k),
    decreases s.len() - i,
{
    if i < s.len() {
        assert(s.skip(k)[i - k] == s[i]);
        lemma_word_len_skip(s, k, i + 1);
    }
}

proof fn lemma_tokens_skip(s: Seq<char>, k: int, i: int)
    requires
        0 <= k <= i,
        k <= s.len(),
    ensures
        tokens_from(s, i) == tokens_from(s.skip(k), i - k),
    decreases s.len() - i,
{
    let u = s.skip(k);
    if i < s.len() {
        assert(u[i - k] == s[i]);
        if is_space(s[i]) {
            lemma_tokens_skip(s, k, i + 1);
        } else if (s[i] == '<' || s[i] == '>') && i + 1 < s.len() && s[i + 1] == '=' {
            assert(u[i - k + 1] == s[i + 1]);
            assert(u.subrange(i - k, i - k + 2) =~= s.subrange(i, i + 2));
            lemma_tokens_skip(s, k, i + 2);
        } else if is_op_char(s[i]) {
            if i + 1 < s.len() {
                assert(u[i - k + 1] == s[i + 1]);
            }
            assert(u.subrange(i - k, i - k + 1) =~= s.subrange(i, i + 1));
            lemma_tokens_skip(s, k, i + 1);
        } else {
            lemma_word_len_skip(s, k, i);
            proof_word_len_positive(s, i);
            let n = word_len(s, i);
            assert(u.subrange(i - k, i - k + n) =~= s.subrange(i, i + n));
            lemma_tokens_skip(s, k, i + n);
        }
    }
}

/// A `<` or `>` directly followed by `=` is never split: the tokens of `s` are
/// the tokens before it, then the two-character operator, then the tokens after it.
pub proof fn lemma_two_char_operator_whole(s: Seq<char>, p: int)
    requires
        0 <= p,
        p + 1 < s.len(),
        s[p] == '<' || s[p] == '>',
        s[p + 1] == '=',
    ensures
        tokens(s) == tokens(s.take(p)) + seq![s.subrange(p, p + 2)] + tokens(s.skip(p + 2)),
{
    lemma_tokens_split(s, p, 0);
    lemma_tokens_skip(s, p + 2, p + 2);
    assert(tokens_from(s, p) == seq![s.subrange(p, p + 2)] + tokens_from(s, p + 2));
    assert(tokens(s) =~= tokens(s.take(p)) + seq![s.subrange(p, p + 2)] + tokens(
        s.skip(p + 2),
    ));
}

} // verus!
