//! Condition trees and the recursive-descent parser that builds them from tokens.
use vstd::prelude::*;
use crate::tokenizer::views;

verus! {

/// The mathematical form of a condition tree.
pub enum Cond {
    Atom(Seq<char>),
    And(Seq<Cond>),
    Or(Seq<Cond>),
}

/// A condition tree: an atom, a conjunction or a disjunction of sub-conditions.
#[derive(Debug, PartialEq, Eq)]
pub enum Expr {
    Atom(Vec<char>),
    And(Vec<Expr>),
    Or(Vec<Expr>),
}

impl Expr {
    /// The tree as a `Cond`.
    pub open spec fn model(&self) -> Cond
        decreases self,
    {
        match self {
            Expr::Atom(v) => Cond::Atom(v@),
            Expr::And(v) => Cond::And(models(v@)),
            Expr::Or(v) => Cond::Or(models(v@)),
        }
    }
}

/// The models of a sequence of trees, in order.
pub open spec fn models(s: Seq<Expr>) -> Seq<Cond>
    decreases s,
{
    if s.len() == 0 {
        Seq::empty()
    } else {
        models(s.subrange(0, s.len() - 1)).push(s[s.len() - 1].model())
    }
}

pub proof fn lemma_models(s: Seq<Expr>)
    ensures
        models(s).len() == s.len(),
        forall|k: int| 0 <= k < s.len() ==> #[trigger] models(s)[k] == s[k].model(),
    decreases s.len(),
{
    if s.len() > 0 {
        lemma_models(s.subrange(0, s.len() - 1));
    }
}

proof fn lemma_models_push(s: Seq<Expr>, e: Expr)
    ensures
        models(s.push(e)) == models(s).push(e.model()),
{
    assert(s.push(e).subrange(0, s.len() as int) =~= s);
}

pub open spec fn open_tok() -> Seq<char> {
    seq!['(']
}

pub open spec fn close_tok() -> Seq<char> {
    seq![')']
}

pub open spec fn or_tok() -> Seq<char> {
    seq!['o', 'r']
}

pub open spec fn and_tok() -> Seq<char> {
    seq!['a', 'n', 'd']
}

/// Change of parenthesis depth across one token.
pub open spec fn delta(tok: Seq<char>) -> int {
    if tok == open_tok() {
        1
    } else if tok == close_tok() {
        -1
    } else {
        0
    }
}

/// Parenthesis depth before the token at index `i`.
pub open spec fn depth(t: Seq<Seq<char>>, i: int) -> int
    decreases i,
{
    if i <= 0 || i > t.len() {
        0
    } else {
        depth(t, i - 1) + delta(t[i - 1])
    }
}

/// Token `i` is the keyword `op` outside all parentheses.
pub open spec fn is_split(t: Seq<Seq<char>>, op: Seq<char>, i: int) -> bool {
    0 <= i < t.len() && t[i] == op && depth(t, i) == 0
}

/// The last split point before index `n`, or -1 when there is none.
pub open spec fn last_split(t: Seq<Seq<char>>, op: Seq<char>, n: int) -> int
    decreases n,
{
    if n <= 0 {
        -1
    } else if is_split(t, op, n - 1) {
        n - 1
    } else {
        last_split(t, op, n - 1)
    }
}

proof fn lemma_last_split_range(t: Seq<Seq<char>>, op: Seq<char>, n: int)
    ensures
        last_split(t, op, n) == -1 || (0 <= last_split(t, op, n) < n && is_split(
            t,
            op,
            last_split(t, op, n),
        )),
    decreases n,
{
    if n > 0 {
        lemma_last_split_range(t, op, n - 1);
    }
}

/// The whole span sits inside one matching pair of outer parentheses.
pub open spec fn wrapped(t: Seq<Seq<char>>) -> bool {
    &&& t.len() >= 2
    &&& t[0] == open_tok()
    &&& t[t.len() - 1] == close_tok()
    &&& balanced(t.subrange(1, t.len() - 1))
}

/// The depth never goes below zero and ends at zero.
pub open spec fn balanced(w: Seq<Seq<char>>) -> bool {
    &&& forall|i: int| 1 <= i <= w.len() ==> #[trigger] depth(w, i) >= 0
    &&& depth(w, w.len() as int) == 0
}

/// The tokens joined with single spaces.
pub open spec fn join(t: Seq<Seq<char>>) -> Seq<char>
    decreases t.len(),
{
    if t.len() == 0 {
        Seq::empty()
    } else if t.len() == 1 {
        t[0]
    } else {
        join(t.drop_last()) + seq![' '] + t.last()
    }
}

/// The tree that a token sequence parses to: split on top-level `or`, else on
/// top-level `and`, else strip one redundant pair of outer parentheses, else an atom.
pub open spec fn parse(t: Seq<Seq<char>>) -> Cond
    decreases t.len(), 1int,
{
    if last_split(t, or_tok(), t.len() as int) >= 0 {
        Cond::Or(parts(t, or_tok()))
    } else if last_split(t, and_tok(), t.len() as int) >= 0 {
        Cond::And(parts(t, and_tok()))
    } else if wrapped(t) {
        parse(t.subrange(1, t.len() - 1))
    } else {
        Cond::Atom(join(t))
    }
}

/// The parses of the spans between top-level occurrences of `op`, left to right.
pub open spec fn parts(t: Seq<Seq<char>>, op: Seq<char>) -> Seq<Cond>
    decreases t.len(), 0int,
{
    let k = last_split(t, op, t.len() as int);
    if k < 0 || k >= t.len() {
        Seq::empty()
    } else {
        let pre = t.take(k);
        let post = t.skip(k + 1);
        if last_split(pre, op, k) >= 0 {
            parts(pre, op).push(parse(post))
        } else {
            seq![parse(pre), parse(post)]
        }
    }
}

/// Whether two character vectors hold the same characters.
pub fn same_chars(a: &Vec<char>, b: &Vec<char>) -> (r: bool)
    ensures
        r == (a@ == b@),
{
    if a.len() != b.len() {
        return false;
    }
    let mut i: usize = 0;
    while i < a.len()
        invariant
            a@.len() == b@.len(),
            i <= a@.len(),
            forall|k: int| 0 <= k < i ==> a@[k] == b@[k],
        decreases a@.len() - i,
    {
        if a[i] != b[i] {
            return false;
        }
        i = i + 1;
    }
    assert(a@ =~= b@);
    true
}

/// Whether `a` is the one-character token `c`.
pub fn is_one(a: &Vec<char>, c: char) -> (r: bool)
    ensures
        r == (a@ == seq![c]),
{
    if a.len() == 1 && a[0] == c {
        assert(a@ =~= seq![c]);
        true
    } else {
        false
    }
}

fn delta_exec(tok: &Vec<char>) -> (r: i8)
    ensures
        r as int == delta(tok@),
{
    if is_one(tok, '(') {
        1
    } else if is_one(tok, ')') {
        -1
    } else {
        0
    }
}

/// The last top-level occurrence of `op` in `t[lo..hi]`, as an index into `t`.
pub fn split_top_level(t: &Vec<Vec<char>>, lo: usize, hi: usize, op: &Vec<char>) -> (r: Option<
    usize,
>)
    requires
        lo <= hi <= t@.len(),
    ensures
        ({
            let u = views(t@).subrange(lo as int, hi as int);
            &&& r is None <==> last_split(u, op@, u.len() as int) == -1
            &&& r matches Some(k) ==> lo <= k < hi && k - lo == last_split(u, op@, u.len() as int)
        }),
{
    let ghost u = views(t@).subrange(lo as int, hi as int);
    let mut d: i128 = 0;
    let mut last: Option<usize> = None;
    let mut i: usize = lo;
    while i < hi
        invariant
            lo <= i <= hi <= t@.len(),
            u == views(t@).subrange(lo as int, hi as int),
            d == depth(u, i - lo),
            -(i - lo) <= d <= i - lo,
            last is None <==> last_split(u, op@, i - lo) == -1,
            last matches Some(k) ==> lo <= k < i && k - lo == last_split(u, op@, i - lo),
        decreases hi - i,
    {
        assert(u[i - lo] == t@[i as int]@);
        if d == 0 && same_chars(&t[i], op) {
            last = Some(i);
        }
        d = d + delta_exec(&t[i]) as i128;
        i = i + 1;
    }
    proof {
        lemma_last_split_range(u, op@, u.len() as int);
    }
    last
}

/// Whether `t[lo..hi]` sits inside one matching pair of outer parentheses.
fn is_wrapped(t: &Vec<Vec<char>>, lo: usize, hi: usize) -> (r: bool)
    requires
        lo <= hi <= t@.len(),
    ensures
        r == wrapped(views(t@).subrange(lo as int, hi as int)),
{
    let ghost u = views(t@).subrange(lo as int, hi as int);
    if hi - lo < 2 {
        return false;
    }
    assert(u[0] == t@[lo as int]@);
    assert(u[u.len() - 1] == t@[hi - 1]@);
    if !is_one(&t[lo], '(') || !is_one(&t[hi - 1], ')') {
        return false;
    }
    let ghost w = u.subrange(1, u.len() - 1);
    assert(w =~= views(t@).subrange(lo + 1, hi - 1));
    assert(wrapped(u) == balanced(w));
    let mut d: i128 = 0;
    let mut i: usize = lo + 1;
    while i < hi - 1
        invariant
            lo + 1 <= i <= hi - 1,
            hi <= t@.len(),
            w == views(t@).subrange(lo + 1, hi - 1),
            u == views(t@).subrange(lo as int, hi as int),
            wrapped(u) == balanced(w),
            d == depth(w, i - (lo + 1)),
            -(i - (lo + 1)) <= d <= i - (lo + 1),
            forall|j: int| 1 <= j <= i - (lo + 1) ==> #[trigger] depth(w, j) >= 0,
        decreases hi - 1 - i,
    {
        assert(w[i - (lo + 1)] == t@[i as int]@);
        d = d + delta_exec(&t[i]) as i128;
        i = i + 1;
        if d < 0 {
            assert(depth(w, i - (lo + 1)) < 0);
            assert(1 <= i - (lo + 1) <= w.len());
            assert(!balanced(w));
            return false;
        }
    }
    d == 0
}

/// The tokens of `t[lo..hi]` joined with single spaces.
fn join_range(t: &Vec<Vec<char>>, lo: usize, hi: usize) -> (r: Vec<char>)
    requires
        lo <= hi <= t@.len(),
    ensures
        r@ == join(views(t@).subrange(lo as int, hi as int)),
{
    let ghost u = views(t@).subrange(lo as int, hi as int);
    let mut r: Vec<char> = Vec::new();
    let mut k: usize = lo;
    while k < hi
        invariant
            lo <= k <= hi <= t@.len(),
            u == views(t@).subrange(lo as int, hi as int),
            r@ == join(u.take(k - lo)),
        decreases hi - k,
    {
        assert(u.take(k + 1 - lo).drop_last() =~= u.take(k - lo));
        assert(u.take(k + 1 - lo).last() == t@[k as int]@);
        if k > lo {
            r.push(' ');
        }
        crate::text::append_chars(&mut r, &t[k]);
        k = k + 1;
    }
    assert(u.take(hi - lo) =~= u);
    r
}

/// The tree that `t[lo..hi]` parses to.
pub fn parse_range(t: &Vec<Vec<char>>, lo: usize, hi: usize) -> (r: Expr)
    requires
        lo <= hi <= t@.len(),
    ensures
        r.model() == parse(views(t@).subrange(lo as int, hi as int)),
    decreases hi - lo, 1int,
{
    let ghost u = views(t@).subrange(lo as int, hi as int);
    let or_v: Vec<char> = vec!['o', 'r'];
    let and_v: Vec<char> = vec!['a', 'n', 'd'];
    assert(or_v@ =~= or_tok());
    assert(and_v@ =~= and_tok());
    if split_top_level(t, lo, hi, &or_v).is_some() {
        return Expr::Or(parse_parts(t, lo, hi, &or_v));
    }
    if split_top_level(t, lo, hi, &and_v).is_some() {
        return Expr::And(parse_parts(t, lo, hi, &and_v));
    }
    if is_wrapped(t, lo, hi) {
        assert(u.subrange(1, u.len() - 1) =~= views(t@).subrange(lo + 1, hi - 1));
        return parse_range(t, lo + 1, hi - 1);
    }
    Expr::Atom(join_range(t, lo, hi))
}

/// The trees of the spans of `t[lo..hi]` between top-level occurrences of `op`.
fn parse_parts(t: &Vec<Vec<char>>, lo: usize, hi: usize, op: &Vec<char>) -> (r: Vec<Expr>)
    requires
        lo <= hi <= t@.len(),
        last_split(views(t@).subrange(lo as int, hi as int), op@, hi - lo) >= 0,
    ensures
        models(r@) == parts(views(t@).subrange(lo as int, hi as int), op@),
    decreases hi - lo, 0int,
{
    let ghost u = views(t@).subrange(lo as int, hi as int);
    match split_top_level(t, lo, hi, op) {
        None => {
            assert(false);
            Vec::new()
        },
        Some(k) => {
            assert(u.take(k - lo) =~= views(t@).subrange(lo as int, k as int));
            assert(u.skip(k - lo + 1) =~= views(t@).subrange(k + 1, hi as int));
            let last = parse_range(t, k + 1, hi);
            let mut r: Vec<Expr>;
            if split_top_level(t, lo, k, op).is_some() {
                r = parse_parts(t, lo, k, op);
            } else {
                let first = parse_range(t, lo, k);
                r = Vec::new();
                proof {
                    lemma_models_push(r@, first);
                }
                r.push(first);
            }
            proof {
                lemma_models_push(r@, last);
            }
            r.push(last);
            r
        },
    }
}

/// The tree that a token sequence parses to.
pub fn parse_expr(t: &Vec<Vec<char>>) -> (r: Expr)
    ensures
        r.model() == parse(views(t@)),
{
    assert(views(t@).subrange(0, t@.len() as int) =~= views(t@));
    parse_range(t, 0, t.len())
}

proof fn lemma_depth_wrapped(t: Seq<Seq<char>>, i: int)
    requires
        1 <= i <= t.len() + 1,
    ensures
        depth(seq![open_tok()] + t + seq![close_tok()], i) == 1 + depth(t, i - 1),
    decreases i,
{
    let w = seq![open_tok()] + t + seq![close_tok()];
    if i > 1 {
        lemma_depth_wrapped(t, i - 1);
        assert(w[i - 1] == t[i - 2]);
    } else {
        assert(w[0] == open_tok());
        assert(depth(w, 0) == 0);
    }
}

proof fn lemma_no_split_wrapped(t: Seq<Seq<char>>, op: Seq<char>, n: int)
    requires
        balanced(t),
        op.len() > 1,
        n <= t.len() + 2,
    ensures
        last_split(seq![open_tok()] + t + seq![close_tok()], op, n) == -1,
    decreases n,
{
    let w = seq![open_tok()] + t + seq![close_tok()];
    if n > 0 {
        lemma_no_split_wrapped(t, op, n - 1);
        let i = n - 1;
        if i == 0 {
            assert(w[0] == open_tok());
            assert(w[0].len() == 1);
        } else if i <= t.len() {
            lemma_depth_wrapped(t, i);
            if i - 1 >= 1 {
                assert(depth(t, i - 1) >= 0);
            }
        } else {
            assert(w[i] == close_tok());
            assert(w[i].len() == 1);
        }
    }
}

/// Redundant outer parentheses do not change a parse: a balanced token
/// sequence wrapped in `(` and `)` parses as the sequence itself.
pub proof fn lemma_parentheses_stripped(t: Seq<Seq<char>>)
    requires
        balanced(t),
    ensures
        parse(seq![open_tok()] + t + seq![close_tok()]) == parse(t),
{
    let w = seq![open_tok()] + t + seq![close_tok()];
    lemma_no_split_wrapped(t, or_tok(), w.len() as int);
    lemma_no_split_wrapped(t, and_tok(), w.len() as int);
    assert(w.subrange(1, w.len() - 1) =~= t);
    assert(w[0] == open_tok());
    assert(w[w.len() - 1] == close_tok());
}

} // verus!
