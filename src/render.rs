//! Rendering a condition tree as indented, multi-line text.
use vstd::prelude::*;
use crate::expr::{Cond, Expr, models, lemma_models};
use crate::text::{trim, trim_range, append_chars, string_of};

verus! {

/// Four spaces per level.
pub open spec fn indent(n: nat) -> Seq<char>
    decreases n,
{
    if n == 0 {
        Seq::empty()
    } else {
        indent((n - 1) as nat) + seq![' ', ' ', ' ', ' ']
    }
}

pub open spec fn and_sep() -> Seq<char> {
    seq![' ', 'A', 'N', 'D', ' ']
}

pub open spec fn or_prefix() -> Seq<char> {
    seq!['O', 'R', ' ']
}

/// A disjunction of two or more children, which renders as a block.
pub open spec fn is_or_block(e: Cond) -> bool {
    match e {
        Cond::Or(ps) => ps.len() > 1,
        _ => false,
    }
}

/// `s` with `pad` inserted after every line break.
pub open spec fn reindent(s: Seq<char>, pad: Seq<char>) -> Seq<char>
    decreases s.len(),
{
    if s.len() == 0 {
        Seq::empty()
    } else {
        reindent(s.drop_last(), pad) + if s.last() == '\n' {
            seq!['\n'] + pad
        } else {
            seq![s.last()]
        }
    }
}

/// The text of `e` at indentation level `n`.
pub open spec fn render(e: Cond, n: nat) -> Seq<char>
    decreases e,
{
    match e {
        Cond::Atom(s) => indent(n) + s,
        Cond::And(ps) => if ps.len() == 0 {
            Seq::empty()
        } else if ps.len() == 1 {
            render(ps[0], n)
        } else {
            indent(n) + and_line(ps, n)
        },
        Cond::Or(ps) => if ps.len() == 0 {
            Seq::empty()
        } else if ps.len() == 1 {
            render(ps[0], n)
        } else {
            or_block(ps, n)
        },
    }
}

/// The children of a conjunction on one line, joined by ` AND `: a
/// disjunction block in parentheses one level deeper, any other child trimmed.
pub open spec fn and_line(ps: Seq<Cond>, n: nat) -> Seq<char>
    decreases ps,
{
    if ps.len() == 0 {
        Seq::empty()
    } else {
        let e = ps[ps.len() - 1];
        let frag = if is_or_block(e) {
            seq!['(', '\n'] + render(e, n + 1) + seq!['\n'] + indent(n) + seq![')']
        } else {
            trim(render(e, 0))
        };
        if ps.len() == 1 {
            frag
        } else {
            and_line(ps.subrange(0, ps.len() - 1), n) + and_sep() + frag
        }
    }
}

/// The children of a disjunction: the first as it renders, each later one on a
/// new line that starts with `OR `, all at level `n`.
pub open spec fn or_block(ps: Seq<Cond>, n: nat) -> Seq<char>
    decreases ps,
{
    if ps.len() == 0 {
        Seq::empty()
    } else if ps.len() == 1 {
        render(ps[0], n)
    } else {
        or_block(ps.subrange(0, ps.len() - 1), n) + seq!['\n'] + indent(n) + or_prefix()
            + reindent(trim(render(ps[ps.len() - 1], 0)), indent(n))
    }
}

fn push_all(dst: &mut Vec<char>, src: Vec<char>)
    ensures
        final(dst)@ == old(dst)@ + src@,
{
    append_chars(dst, &src);
}

fn trimmed(s: &Vec<char>) -> (r: Vec<char>)
    ensures
        r@ == trim(s@),
{
    assert(s@.subrange(0, s@.len() as int) =~= s@);
    trim_range(s, 0, s.len())
}

/// `s` with `pad` inserted after every line break.
pub fn reindent_exec(s: &Vec<char>, pad: &Vec<char>) -> (r: Vec<char>)
    ensures
        r@ == reindent(s@, pad@),
{
    let mut r: Vec<char> = Vec::new();
    let mut i: usize = 0;
    while i < s.len()
        invariant
            i <= s@.len(),
            r@ == reindent(s@.take(i as int), pad@),
        decreases s@.len() - i,
    {
        assert(s@.take(i + 1).drop_last() =~= s@.take(i as int));
        assert(s@.take(i + 1).last() == s@[i as int]);
        if s[i] == '\n' {
            r.push('\n');
            append_chars(&mut r, pad);
        } else {
            r.push(s[i]);
        }
        i = i + 1;
        assert(r@ =~= reindent(s@.take(i as int), pad@));
    }
    assert(s@.take(i as int) =~= s@);
    r
}

fn is_or_block_exec(e: &Expr) -> (r: bool)
    ensures
        r == is_or_block(e.model()),
{
    match e {
        Expr::Or(qs) => {
            proof {
                lemma_models(qs@);
            }
            qs.len() > 1
        },
        _ => false,
    }
}

/// The text of `e` at the level whose indentation is `pad`.
fn render_at(e: &Expr, pad: &Vec<char>, Ghost(n): Ghost<nat>) -> (r: Vec<char>)
    requires
        pad@ == indent(n),
    ensures
        r@ == render(e.model(), n),
    decreases e,
{
    let empty: Vec<char> = Vec::new();
    assert(empty@ =~= indent(0));
    match e {
        Expr::Atom(s) => {
            let mut r = crate::text::copy_range(pad, 0, pad.len());
            assert(pad@.subrange(0, pad@.len() as int) =~= pad@);
            append_chars(&mut r, s);
            r
        },
        Expr::And(ps) => {
            let ghost m = models(ps@);
            proof {
                lemma_models(ps@);
            }
            if ps.len() == 0 {
                return Vec::new();
            }
            if ps.len() == 1 {
                return render_at(&ps[0], pad, Ghost(n));
            }
            let mut deeper = crate::text::copy_range(pad, 0, pad.len());
            assert(pad@.subrange(0, pad@.len() as int) =~= pad@);
            push_all(&mut deeper, vec![' ', ' ', ' ', ' ']);
            assert(deeper@ =~= indent(n + 1));
            let mut r: Vec<char> = Vec::new();
            let mut k: usize = 0;
            while k < ps.len()
                invariant
                    k <= ps@.len(),
                    *e == Expr::And(*ps),
                    m == models(ps@),
                    m.len() == ps@.len(),
                    forall|j: int| 0 <= j < ps@.len() ==> #[trigger] m[j] == ps@[j].model(),
                    pad@ == indent(n),
                    deeper@ == indent(n + 1),
                    empty@ == indent(0),
                    r@ == and_line(m.take(k as int), n),
                decreases ps@.len() - k,
            {
                assert(m.take(k + 1).subrange(0, k as int) =~= m.take(k as int));
                assert(m.take(k + 1)[k as int] == m[k as int]);
                if k > 0 {
                    push_all(&mut r, vec![' ', 'A', 'N', 'D', ' ']);
                }
                if is_or_block_exec(&ps[k]) {
                    push_all(&mut r, vec!['(', '\n']);
                    assert(decreases_to!(*e => e->And_0));
                    assert(decreases_to!(*ps => ps[k as int]));
                    assert(decreases_to!(*e => ps@[k as int]));
                    let inner = render_at(&ps[k], &deeper, Ghost(n + 1));
                    append_chars(&mut r, &inner);
                    push_all(&mut r, vec!['\n']);
                    append_chars(&mut r, pad);
                    push_all(&mut r, vec![')']);
                } else {
                    assert(decreases_to!(*e => e->And_0));
                    assert(decreases_to!(*ps => ps[k as int]));
                    assert(decreases_to!(*e => ps@[k as int]));
                    let flat = render_at(&ps[k], &empty, Ghost(0));
                    let t = trimmed(&flat);
                    append_chars(&mut r, &t);
                }
                k = k + 1;
                assert(r@ =~= and_line(m.take(k as int), n));
            }
            assert(m.take(k as int) =~= m);
            let mut out = crate::text::copy_range(pad, 0, pad.len());
            append_chars(&mut out, &r);
            out
        },
        Expr::Or(ps) => {
            let ghost m = models(ps@);
            proof {
                lemma_models(ps@);
            }
            if ps.len() == 0 {
                return Vec::new();
            }
            if ps.len() == 1 {
                return render_at(&ps[0], pad, Ghost(n));
            }
            let mut r = render_at(&ps[0], pad, Ghost(n));
            assert(m.take(1).subrange(0, 0) =~= Seq::<Cond>::empty());
            let mut k: usize = 1;
            while k < ps.len()
                invariant
                    1 <= k <= ps@.len(),
                    *e == Expr::Or(*ps),
                    m == models(ps@),
                    m.len() == ps@.len(),
                    forall|j: int| 0 <= j < ps@.len() ==> #[trigger] m[j] == ps@[j].model(),
                    pad@ == indent(n),
                    empty@ == indent(0),
                    r@ == or_block(m.take(k as int), n),
                decreases ps@.len() - k,
            {
                assert(m.take(k + 1).subrange(0, k as int) =~= m.take(k as int));
                assert(m.take(k + 1)[k as int] == m[k as int]);
                push_all(&mut r, vec!['\n']);
                append_chars(&mut r, pad);
                push_all(&mut r, vec!['O', 'R', ' ']);
                assert(decreases_to!(*e => e->Or_0));
                assert(decreases_to!(*ps => ps[k as int]));
                assert(decreases_to!(*e => ps@[k as int]));
                let flat = render_at(&ps[k], &empty, Ghost(0));
                let t = trimmed(&flat);
                let moved = reindent_exec(&t, pad);
                append_chars(&mut r, &moved);
                k = k + 1;
                assert(r@ =~= or_block(m.take(k as int), n));
            }
            assert(m.take(k as int) =~= m);
            r
        },
    }
}

/// The text of `e` at indentation level `level`.
pub fn pretty_format_condition(e: &Expr, level: usize) -> (r: String)
    ensures
        r@ == render(e.model(), level as nat),
{
    let v = render_level(e, level);
    string_of(&v)
}

/// The characters of `e` rendered at indentation level `level`.
pub fn render_level(e: &Expr, level: usize) -> (r: Vec<char>)
    ensures
        r@ == render(e.model(), level as nat),
{
    let mut pad: Vec<char> = Vec::new();
    let mut k: usize = 0;
    while k < level
        invariant
            k <= level,
            pad@ == indent(k as nat),
        decreases level - k,
    {
        push_all(&mut pad, vec![' ', ' ', ' ', ' ']);
        k = k + 1;
    }
    render_at(e, &pad, Ghost(level as nat))
}

} // verus!
