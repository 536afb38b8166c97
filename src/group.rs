//! Grouping the entries of a whole script by trigger key.
use vstd::prelude::*;
use crate::text::{trim, trim_range, chars_of, string_of};
use crate::tokenizer::views;
use crate::order::{lex_lt, lex_less, lemma_lex_irreflexive, lemma_lex_total, lemma_lex_transitive};
use crate::expr::same_chars;
use crate::script::{line_entry, line_entry_chars};

verus! {

/// Index of the first line break at or after `i`, or the length of `s`.
pub open spec fn line_end(s: Seq<char>, i: int) -> int
    decreases s.len() - i,
{
    if i < 0 || i >= s.len() {
        s.len() as int
    } else if s[i] == '\n' {
        i
    } else {
        line_end(s, i + 1)
    }
}

proof fn lemma_line_end(s: Seq<char>, i: int)
    requires
        0 <= i <= s.len(),
    ensures
        i <= line_end(s, i) <= s.len(),
    decreases s.len() - i,
{
    if i < s.len() && s[i] != '\n' {
        lemma_line_end(s, i + 1);
    }
}

/// The lines of `s[i..]`, split at each line break.
pub open spec fn lines_from(s: Seq<char>, i: int) -> Seq<Seq<char>>
    decreases s.len() + 1 - i,
    via lines_from_decreases
{
    if i < 0 || i > s.len() {
        Seq::empty()
    } else {
        let j = line_end(s, i);
        if j < s.len() {
            seq![s.subrange(i, j)] + lines_from(s, j + 1)
        } else {
            seq![s.subrange(i, j)]
        }
    }
}

#[via_fn]
proof fn lines_from_decreases(s: Seq<char>, i: int) {
    if 0 <= i <= s.len() {
        lemma_line_end(s, i);
    }
}

/// What one line contributes: nothing when it is blank or a comment (`#`
/// after trimming), else its key and entry when it has them.
pub open spec fn line_pairs(l: Seq<char>) -> Seq<(Seq<char>, Seq<char>)> {
    let t = trim(l);
    if t.len() == 0 || t[0] == '#' {
        Seq::empty()
    } else {
        match line_entry(t) {
            Some(p) => seq![p],
            None => Seq::empty(),
        }
    }
}

/// The key and entry pairs of a sequence of lines, in order.
pub open spec fn pairs_of(ls: Seq<Seq<char>>) -> Seq<(Seq<char>, Seq<char>)>
    decreases ls.len(),
{
    if ls.len() == 0 {
        Seq::empty()
    } else {
        line_pairs(ls[0]) + pairs_of(ls.drop_first())
    }
}

proof fn lemma_pairs_of_concat(x: Seq<Seq<char>>, y: Seq<Seq<char>>)
    ensures
        pairs_of(x + y) == pairs_of(x) + pairs_of(y),
    decreases x.len(),
{
    if x.len() == 0 {
        assert(x + y =~= y);
        assert(pairs_of(x) + pairs_of(y) =~= pairs_of(y));
    } else {
        lemma_pairs_of_concat(x.drop_first(), y);
        assert((x + y).drop_first() =~= x.drop_first() + y);
        assert((x + y)[0] == x[0]);
        assert(pairs_of(x + y) =~= pairs_of(x) + pairs_of(y));
    }
}

/// A blank line, or a comment line (`#` first after trimming), contributes
/// nothing: inserting one anywhere among the lines leaves the pairs unchanged.
pub proof fn lemma_skipped_line(a: Seq<Seq<char>>, l: Seq<char>, b: Seq<Seq<char>>)
    requires
        trim(l).len() == 0 || trim(l)[0] == '#',
    ensures
        pairs_of(a + seq![l] + b) == pairs_of(a + b),
{
    lemma_pairs_of_concat(a + seq![l], b);
    lemma_pairs_of_concat(a, seq![l]);
    lemma_pairs_of_concat(a, b);
    assert(seq![l].drop_first() =~= Seq::<Seq<char>>::empty());
    assert(seq![l][0] == l);
    assert(line_pairs(l) =~= Seq::<(Seq<char>, Seq<char>)>::empty());
    assert(pairs_of(Seq::<Seq<char>>::empty()) =~= Seq::<(Seq<char>, Seq<char>)>::empty());
    assert(pairs_of(seq![l]) =~= Seq::<(Seq<char>, Seq<char>)>::empty());
    assert(pairs_of(a) + pairs_of(seq![l]) =~= pairs_of(a));
}

/// The key and entry pairs of a whole script, in line order.
pub open spec fn script_pairs(s: Seq<char>) -> Seq<(Seq<char>, Seq<char>)> {
    pairs_of(lines_from(s, 0))
}

/// The entries of the pairs whose key is `k`, in order.
pub open spec fn entries_for(ps: Seq<(Seq<char>, Seq<char>)>, k: Seq<char>) -> Seq<Seq<char>>
    decreases ps.len(),
{
    if ps.len() == 0 {
        Seq::empty()
    } else {
        let last = ps[ps.len() - 1];
        let rest = entries_for(ps.drop_last(), k);
        if last.0 == k {
            rest.push(last.1)
        } else {
            rest
        }
    }
}

/// `keys` and `lists` group the pairs `ps`: keys strictly ascending, each with
/// the non-empty list of its entries in order, and every key of `ps` present.
pub open spec fn is_grouping(
    keys: Seq<Seq<char>>,
    lists: Seq<Seq<Seq<char>>>,
    ps: Seq<(Seq<char>, Seq<char>)>,
) -> bool {
    &&& keys.len() == lists.len()
    &&& forall|i: int, j: int|
        0 <= i < j < keys.len() ==> lex_lt(#[trigger] keys[i], #[trigger] keys[j])
    &&& forall|i: int|
        0 <= i < keys.len() ==> #[trigger] lists[i] == entries_for(ps, keys[i])
            && lists[i].len() > 0
    &&& forall|j: int|
        0 <= j < ps.len() ==> exists|i: int| 0 <= i < keys.len() && #[trigger] keys[i] == (
        #[trigger] ps[j]).0
}

proof fn lemma_entries_for_has_key(ps: Seq<(Seq<char>, Seq<char>)>, k: Seq<char>)
    requires
        entries_for(ps, k).len() > 0,
    ensures
        exists|j: int| 0 <= j < ps.len() && (#[trigger] ps[j]).0 == k,
    decreases ps.len(),
{
    if ps[ps.len() - 1].0 != k {
        lemma_entries_for_has_key(ps.drop_last(), k);
        let j = choose|j: int| 0 <= j < ps.drop_last().len() && (#[trigger] ps.drop_last()[j]).0 == k;
        assert(ps[j] == ps.drop_last()[j]);
    }
}

proof fn lemma_entries_for_push(
    ps: Seq<(Seq<char>, Seq<char>)>,
    p: (Seq<char>, Seq<char>),
    k: Seq<char>,
)
    ensures
        entries_for(ps.push(p), k) == if p.0 == k {
            entries_for(ps, k).push(p.1)
        } else {
            entries_for(ps, k)
        },
{
    assert(ps.push(p).drop_last() =~= ps);
}

pub open spec fn list_views(l: Seq<Vec<Vec<char>>>) -> Seq<Seq<Seq<char>>> {
    l.map_values(|x: Vec<Vec<char>>| views(x@))
}

/// Adds one pair to a grouping.
fn add_pair(
    keys: &mut Vec<Vec<char>>,
    lists: &mut Vec<Vec<Vec<char>>>,
    k: Vec<char>,
    v: Vec<char>,
    Ghost(ps): Ghost<Seq<(Seq<char>, Seq<char>)>>,
)
    requires
        is_grouping(views(old(keys)@), list_views(old(lists)@), ps),
    ensures
        is_grouping(views(final(keys)@), list_views(final(lists)@), ps.push((k@, v@))),
{
    let ghost ps2 = ps.push((k@, v@));
    let ghost ks = views(keys@);
    let ghost ls = list_views(lists@);
    proof {
        assert forall|x: Seq<char>|
            #[trigger] entries_for(ps2, x) == if x == k@ {
                entries_for(ps, x).push(v@)
            } else {
                entries_for(ps, x)
            } by {
            lemma_entries_for_push(ps, (k@, v@), x);
        }
    }
    let mut i: usize = 0;
    while i < keys.len()
        invariant
            i <= keys@.len(),
            ks == views(keys@),
            ls == list_views(lists@),
            ps2 == ps.push((k@, v@)),
            is_grouping(ks, ls, ps),
            forall|x: Seq<char>|
                #[trigger] entries_for(ps2, x) == if x == k@ {
                    entries_for(ps, x).push(v@)
                } else {
                    entries_for(ps, x)
                },
            forall|j: int| 0 <= j < i ==> lex_lt(#[trigger] ks[j], k@),
        ensures
            i <= keys@.len(),
            ks == views(keys@),
            ls == list_views(lists@),
            forall|j: int| 0 <= j < i ==> lex_lt(#[trigger] ks[j], k@),
            i < keys@.len() ==> lex_lt(k@, ks[i as int]),
        decreases keys@.len() - i,
    {
        if same_chars(&keys[i], &k) {
            let mut l = lists.remove(i);
            l.push(v);
            lists.insert(i, l);
            proof {
                assert(views(l@) =~= ls[i as int].push(v@));
                assert(list_views(lists@) =~= ls.update(i as int, ls[i as int].push(v@)));
                assert forall|j: int| 0 <= j < ks.len() && j != i implies ks[j] != k@ by {
                    if j < i {
                        lemma_lex_irreflexive(ks[j]);
                    } else {
                        lemma_lex_irreflexive(ks[i as int]);
                    }
                }
                let ls2 = list_views(lists@);
                assert forall|j: int| 0 <= j < ps2.len() implies exists|m: int|
                    0 <= m < ks.len() && #[trigger] ks[m] == (#[trigger] ps2[j]).0 by {
                    if j < ps.len() {
                        assert(ps2[j] == ps[j]);
                    } else {
                        assert(ks[i as int] == keys@[i as int]@);
                        assert(ks[i as int] == ps2[j].0);
                    }
                }
                assert forall|j: int| 0 <= j < ks.len() implies #[trigger] ls2[j]
                    == entries_for(ps2, ks[j]) && ls2[j].len() > 0 by {
                    assert(entries_for(ps2, ks[j]) == if ks[j] == k@ {
                        entries_for(ps, ks[j]).push(v@)
                    } else {
                        entries_for(ps, ks[j])
                    });
                }
            }
            return;
        }
        if lex_less(&k, &keys[i]) {
            break;
        }
        proof {
            lemma_lex_total(ks[i as int], k@);
        }
        i = i + 1;
    }
    let ghost pos = i as int;
    proof {
        assert forall|j: int| pos <= j < ks.len() implies lex_lt(k@, #[trigger] ks[j]) by {
            if j > pos {
                lemma_lex_transitive(k@, ks[pos], ks[j]);
            }
        }
        if entries_for(ps, k@).len() > 0 {
            lemma_entries_for_has_key(ps, k@);
            let j = choose|j: int| 0 <= j < ps.len() && (#[trigger] ps[j]).0 == k@;
            let m = choose|m: int| 0 <= m < ks.len() && #[trigger] ks[m] == (ps[j]).0;
            if m < pos {
                lemma_lex_irreflexive(k@);
            } else {
                lemma_lex_irreflexive(k@);
            }
        }
        assert(entries_for(ps, k@) =~= Seq::<Seq<char>>::empty());
    }
    let mut l: Vec<Vec<char>> = Vec::new();
    l.push(v);
    keys.insert(i, k);
    lists.insert(i, l);
    proof {
        let ks2 = views(keys@);
        let ls2 = list_views(lists@);
        assert(ks2 =~= ks.insert(pos, k@));
        assert(views(l@) =~= seq![v@]);
        assert(ls2 =~= ls.insert(pos, seq![v@]));
        assert(entries_for(ps2, k@) =~= seq![v@]);
        assert forall|a: int, b: int| 0 <= a < b < ks2.len() implies lex_lt(
            #[trigger] ks2[a],
            #[trigger] ks2[b],
        ) by {
            if b < pos {
                assert(ks2[a] == ks[a] && ks2[b] == ks[b]);
            } else if a < pos && b == pos {
            } else if a < pos && b > pos {
                lemma_lex_transitive(ks[a], k@, ks[b - 1]);
            } else if a == pos {
                assert(ks2[b] == ks[b - 1]);
            } else {
                assert(ks2[a] == ks[a - 1] && ks2[b] == ks[b - 1]);
            }
        }
        assert forall|j: int| 0 <= j < ks2.len() implies #[trigger] ls2[j] == entries_for(
            ps2,
            ks2[j],
        ) && ls2[j].len() > 0 by {
            if j != pos {
                let o = if j < pos { j } else { j - 1 };
                assert(ks2[j] == ks[o]);
                assert(ls2[j] == ls[o]);
                if ks[o] == k@ {
                    lemma_lex_irreflexive(k@);
                }
                assert(entries_for(ps2, ks2[j]) == entries_for(ps, ks[o]));
            }
        }
        assert forall|j: int| 0 <= j < ps2.len() implies exists|m: int|
            0 <= m < ks2.len() && #[trigger] ks2[m] == (#[trigger] ps2[j]).0 by {
            if j < ps.len() {
                assert(ps2[j] == ps[j]);
                let m = choose|m: int| 0 <= m < ks.len() && #[trigger] ks[m] == (ps[j]).0;
                if m < pos {
                    assert(ks2[m] == ks[m]);
                } else {
                    assert(ks2[m + 1] == ks[m]);
                }
            } else {
                assert(ks2[pos] == ps2[j].0);
            }
        }
    }
}

fn line_end_exec(s: &Vec<char>, i: usize) -> (j: usize)
    requires
        i <= s@.len(),
    ensures
        j == line_end(s@, i as int),
{
    let mut j: usize = i;
    while j < s.len() && s[j] != '\n'
        invariant
            i <= j <= s@.len(),
            line_end(s@, i as int) == line_end(s@, j as int),
        decreases s@.len() - j,
    {
        j = j + 1;
    }
    j
}

/// The grouping of a script's entries by key, as characters.
pub fn group_chars(s: &Vec<char>) -> (r: (Vec<Vec<char>>, Vec<Vec<Vec<char>>>))
    ensures
        is_grouping(views(r.0@), list_views(r.1@), script_pairs(s@)),
{
    let mut keys: Vec<Vec<char>> = Vec::new();
    let mut lists: Vec<Vec<Vec<char>>> = Vec::new();
    let ghost mut done: Seq<(Seq<char>, Seq<char>)> = Seq::empty();
    assert(views(keys@) =~= Seq::<Seq<char>>::empty());
    assert(list_views(lists@) =~= Seq::<Seq<Seq<char>>>::empty());
    assert(done + script_pairs(s@) =~= script_pairs(s@));
    let mut i: usize = 0;
    loop
        invariant_except_break
            done + pairs_of(lines_from(s@, i as int)) == script_pairs(s@),
        invariant
            i <= s@.len(),
            is_grouping(views(keys@), list_views(lists@), done),
        ensures
            done == script_pairs(s@),
            is_grouping(views(keys@), list_views(lists@), done),
        decreases s@.len() - i,
    {
        let j = line_end_exec(s, i);
        proof {
            lemma_line_end(s@, i as int);
        }
        let ghost ls = lines_from(s@, i as int);
        let ghost rest = if j < s@.len() {
            lines_from(s@, j + 1)
        } else {
            Seq::empty()
        };
        assert(ls =~= seq![s@.subrange(i as int, j as int)] + rest);
        assert(ls[0] == s@.subrange(i as int, j as int));
        assert(ls.drop_first() =~= rest);
        let ghost before = done;
        let t = trim_range(s, i, j);
        if t.len() > 0 && t[0] != '#' {
            match line_entry_chars(&t) {
                Some((k, e)) => {
                    let ghost p = (k@, e@);
                    add_pair(&mut keys, &mut lists, k, e, Ghost(done));
                    proof {
                        done = done.push(p);
                    }
                },
                None => {},
            }
        }
        assert(done =~= before + line_pairs(ls[0]));
        assert(before + pairs_of(ls) =~= done + pairs_of(rest));
        if j >= s.len() {
            assert(pairs_of(rest) =~= Seq::<(Seq<char>, Seq<char>)>::empty());
            assert(done + pairs_of(rest) =~= done);
            break;
        }
        i = j + 1;
    }
    (keys, lists)
}

/// The character sequences of a vector of strings.
pub open spec fn string_views(r: Seq<String>) -> Seq<Seq<char>> {
    r.map_values(|e: String| e@)
}

/// The keys of a grouping result.
pub open spec fn result_keys(r: Seq<(String, Vec<String>)>) -> Seq<Seq<char>> {
    r.map_values(|p: (String, Vec<String>)| p.0@)
}

/// The entry lists of a grouping result.
pub open spec fn result_lists(r: Seq<(String, Vec<String>)>) -> Seq<Seq<Seq<char>>> {
    r.map_values(|p: (String, Vec<String>)| string_views(p.1@))
}

fn strings_of(v: &Vec<Vec<char>>) -> (r: Vec<String>)
    ensures
        string_views(r@) == views(v@),
{
    let mut r: Vec<String> = Vec::new();
    let mut k: usize = 0;
    while k < v.len()
        invariant
            k <= v@.len(),
            string_views(r@) == views(v@).take(k as int),
        decreases v@.len() - k,
    {
        let ghost prev = r@;
        let one = string_of(&v[k]);
        assert(one@ == views(v@)[k as int]);
        r.push(one);
        assert(r@ =~= prev.push(one));
        assert(string_views(r@) =~= string_views(prev).push(one@));
        k = k + 1;
        assert(string_views(r@) =~= views(v@).take(k as int));
    }
    assert(views(v@).take(k as int) =~= views(v@));
    r
}

/// The entries of a script grouped by trigger key: keys in ascending order,
/// each with its entries in line order; blank and comment lines are skipped.
pub fn process_apl_grouped(apl: &str) -> (r: Vec<(String, Vec<String>)>)
    ensures
        is_grouping(result_keys(r@), result_lists(r@), script_pairs(apl@)),
{
    let s = chars_of(apl);
    let (keys, lists) = group_chars(&s);
    let mut r: Vec<(String, Vec<String>)> = Vec::new();
    let mut k: usize = 0;
    while k < keys.len()
        invariant
            k <= keys@.len(),
            keys@.len() == lists@.len(),
            result_keys(r@) == views(keys@).take(k as int),
            result_lists(r@) == list_views(lists@).take(k as int),
        decreases keys@.len() - k,
    {
        let ghost prev = r@;
        let key = string_of(&keys[k]);
        let entries = strings_of(&lists[k]);
        assert(key@ == views(keys@)[k as int]);
        assert(string_views(entries@) == list_views(lists@)[k as int]);
        r.push((key, entries));
        assert(r@ =~= prev.push((key, entries)));
        assert(result_keys(r@) =~= result_keys(prev).push(key@));
        assert(result_lists(r@) =~= result_lists(prev).push(string_views(entries@)));
        k = k + 1;
        assert(result_keys(r@) =~= views(keys@).take(k as int));
        assert(result_lists(r@) =~= list_views(lists@).take(k as int));
    }
    assert(views(keys@).take(k as int) =~= views(keys@));
    assert(list_views(lists@).take(k as int) =~= list_views(lists@));
    r
}

} // verus!
