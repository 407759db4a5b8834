//! What the plan of fallback groups is as a whole: there is exactly one plan for
//! given stems and keys, and the order in which the candidates are handed in
//! does not matter as long as no two of them share a sort key.

use crate::order::{lemma_lex_asymmetric, lemma_lex_irreflexive, lemma_lex_total, lex_less};
use crate::plan::{
    goes_before, is_group, is_placed, is_plan, lemma_next_group, next_group, stem_of_group,
    PlanView,
};
use vstd::prelude::*;

verus! {

/// The sequence is in the strict order of `before`.
pub open spec fn in_order<A>(s: Seq<A>, before: spec_fn(A, A) -> bool) -> bool {
    forall|i: int, j: int| 0 <= i < j < s.len() ==> before(#[trigger] s[i], #[trigger] s[j])
}

/// Two sequences in the same strict order that hold the same elements are the
/// same sequence.
pub proof fn lemma_order_is_unique<A>(s: Seq<A>, t: Seq<A>, before: spec_fn(A, A) -> bool)
    requires
        in_order(s, before),
        in_order(t, before),
        forall|x: A, y: A| !(#[trigger] before(x, y) && before(y, x)),
        forall|x: A| s.contains(x) <==> t.contains(x),
    ensures
        s == t,
    decreases s.len(),
{
    if s.len() == 0 {
        if t.len() > 0 {
            assert(t.contains(t[0]));
        }
        assert(s =~= t);
    } else {
        assert(s.contains(s[0]));
        let j = choose|j: int| 0 <= j < t.len() && t[j] == s[0];
        assert(t.contains(t[0]));
        let i = choose|i: int| 0 <= i < s.len() && s[i] == t[0];
        if j > 0 && i > 0 {
            assert(before(t[0], t[j]));
            assert(before(s[0], s[i]));
        }
        assert(s[0] == t[0]);
        let s1 = s.skip(1);
        let t1 = t.skip(1);
        assert forall|x: A| s1.contains(x) <==> t1.contains(x) by {
            if s1.contains(x) {
                let a = choose|a: int| 0 <= a < s1.len() && s1[a] == x;
                assert(s[a + 1] == x);
                assert(before(s[0], s[a + 1]));
                assert(s.contains(x));
                let b = choose|b: int| 0 <= b < t.len() && t[b] == x;
                assert(b > 0);
                assert(t1[b - 1] == x);
            }
            if t1.contains(x) {
                let b = choose|b: int| 0 <= b < t1.len() && t1[b] == x;
                assert(t[b + 1] == x);
                assert(before(t[0], t[b + 1]));
                assert(t.contains(x));
                let a = choose|a: int| 0 <= a < s.len() && s[a] == x;
                assert(a > 0);
                assert(s1[a - 1] == x);
            }
        }
        assert(in_order(s1, before)) by {
            assert forall|a: int, b: int| 0 <= a < b < s1.len() implies before(
                #[trigger] s1[a],
                #[trigger] s1[b],
            ) by {
                assert(before(s[a + 1], s[b + 1]));
            }
        }
        assert(in_order(t1, before)) by {
            assert forall|a: int, b: int| 0 <= a < b < t1.len() implies before(
                #[trigger] t1[a],
                #[trigger] t1[b],
            ) by {
                assert(before(t[a + 1], t[b + 1]));
            }
        }
        lemma_order_is_unique(s1, t1, before);
        assert(s =~= seq![s[0]] + s1);
        assert(t =~= seq![t[0]] + t1);
    }
}

/// Of two candidates, at most one goes before the other.
pub proof fn lemma_goes_before_asymmetric(keys: Seq<Seq<char>>, i: int, j: int)
    ensures
        !(goes_before(keys, i, j) && goes_before(keys, j, i)),
{
    if lex_less(keys[j], keys[i]) {
        lemma_lex_asymmetric(keys[j], keys[i]);
    }
    if lex_less(keys[i], keys[j]) {
        lemma_lex_asymmetric(keys[i], keys[j]);
    }
}

/// The stems of the groups, in the order of the groups.
pub open spec fn group_stems(stems: Seq<Seq<char>>, groups: Seq<Seq<usize>>) -> Seq<Seq<char>> {
    Seq::new(groups.len(), |a: int| stem_of_group(stems, groups[a]))
}

/// Every stem of a group of one plan is the stem of a group of the other.
proof fn lemma_stems_shared(
    stems: Seq<Seq<char>>,
    keys: Seq<Seq<char>>,
    g1: Seq<Seq<usize>>,
    g2: Seq<Seq<usize>>,
    x: Seq<char>,
)
    requires
        is_plan(stems, keys, g1),
        is_plan(stems, keys, g2),
        group_stems(stems, g1).contains(x),
    ensures
        group_stems(stems, g2).contains(x),
{
    let s1 = group_stems(stems, g1);
    let a = choose|a: int| 0 <= a < s1.len() && s1[a] == x;
    let group = g1[a];
    assert(group.len() > 0);
    assert(is_group(stems, keys, stem_of_group(stems, group), group));
    let i = group[0] as int;
    assert(i < stems.len());
    assert(is_placed(g2, i));
    let b = choose|b: int| 0 <= b < g2.len() && (#[trigger] g2[b]).contains(i as usize);
    let other = g2[b];
    assert(is_group(stems, keys, stem_of_group(stems, other), other));
    let k = choose|k: int| 0 <= k < other.len() && other[k] == i as usize;
    assert(stems[other[k] as int] == stem_of_group(stems, other));
    assert(group_stems(stems, g2)[b] == x);
}

/// There is one plan only: the clauses of `is_plan` leave nothing open.
pub proof fn lemma_plan_is_unique(
    stems: Seq<Seq<char>>,
    keys: Seq<Seq<char>>,
    g1: Seq<Seq<usize>>,
    g2: Seq<Seq<usize>>,
)
    requires
        is_plan(stems, keys, g1),
        is_plan(stems, keys, g2),
    ensures
        g1 == g2,
{
    let s1 = group_stems(stems, g1);
    let s2 = group_stems(stems, g2);
    let by_stem = |x: Seq<char>, y: Seq<char>| lex_less(x, y);
    assert(in_order(s1, by_stem)) by {
        assert forall|a: int, b: int| 0 <= a < b < s1.len() implies by_stem(
            #[trigger] s1[a],
            #[trigger] s1[b],
        ) by {
            assert(lex_less(stem_of_group(stems, g1[a]), stem_of_group(stems, g1[b])));
        }
    }
    assert(in_order(s2, by_stem)) by {
        assert forall|a: int, b: int| 0 <= a < b < s2.len() implies by_stem(
            #[trigger] s2[a],
            #[trigger] s2[b],
        ) by {
            assert(lex_less(stem_of_group(stems, g2[a]), stem_of_group(stems, g2[b])));
        }
    }
    assert forall|x: Seq<char>, y: Seq<char>| !(#[trigger] by_stem(x, y) && by_stem(y, x)) by {
        if lex_less(x, y) {
            lemma_lex_asymmetric(x, y);
        }
    }
    assert forall|x: Seq<char>| s1.contains(x) <==> s2.contains(x) by {
        if s1.contains(x) {
            lemma_stems_shared(stems, keys, g1, g2, x);
        }
        if s2.contains(x) {
            lemma_stems_shared(stems, keys, g2, g1, x);
        }
    }
    lemma_order_is_unique(s1, s2, by_stem);
    assert(g1.len() == g2.len()) by {
        assert(s1.len() == g1.len() && s2.len() == g2.len());
    }
    let by_key = |x: usize, y: usize| goes_before(keys, x as int, y as int);
    assert forall|x: usize, y: usize| !(#[trigger] by_key(x, y) && by_key(y, x)) by {
        lemma_goes_before_asymmetric(keys, x as int, y as int);
    }
    assert forall|a: int| 0 <= a < g1.len() implies g1[a] == g2[a] by {
        let p = g1[a];
        let q = g2[a];
        assert(s1[a] == s2[a]);
        let stem = stem_of_group(stems, p);
        assert(stem == stem_of_group(stems, q));
        assert(is_group(stems, keys, stem, p));
        assert(is_group(stems, keys, stem, q));
        assert(in_order(p, by_key));
        assert(in_order(q, by_key));
        assert forall|x: usize| p.contains(x) <==> q.contains(x) by {
            if p.contains(x) {
                let k = choose|k: int| 0 <= k < p.len() && p[k] == x;
                assert(stems[p[k] as int] == stem);
                assert(stems[x as int] == stem);
            }
            if q.contains(x) {
                let k = choose|k: int| 0 <= k < q.len() && q[k] == x;
                assert(stems[q[k] as int] == stem);
                assert(stems[x as int] == stem);
            }
        }
        lemma_order_is_unique(p, q, by_key);
    }
    assert(g1 =~= g2);
}

/// Some place is renumbered to `j`.
pub open spec fn has_source(perm: Seq<int>, j: int) -> bool {
    exists|i: int| 0 <= i < perm.len() && #[trigger] perm[i] == j
}

/// `perm` renumbers `n` candidates: it takes each place to a place, no two to
/// the same, and some place to each.
pub open spec fn is_renumbering(perm: Seq<int>, n: nat) -> bool {
    &&& perm.len() == n
    &&& forall|i: int| 0 <= i < n ==> 0 <= #[trigger] perm[i] < n
    &&& forall|i: int, j: int| 0 <= i < j < n ==> #[trigger] perm[i] != #[trigger] perm[j]
    &&& forall|j: int| 0 <= j < n ==> #[trigger] has_source(perm, j)
}

/// The groups with each place renumbered.
pub open spec fn renumbered(groups: Seq<Seq<usize>>, perm: Seq<int>) -> Seq<Seq<usize>> {
    groups.map_values(|g: Seq<usize>| g.map_values(|i: usize| perm[i as int] as usize))
}

/// One group but for the order among candidates with equal keys: it holds
/// exactly the candidates whose stem is `stem`, each once, and none before a
/// candidate with a greater key.
pub open spec fn is_loose_group(
    stems: Seq<Seq<char>>,
    keys: Seq<Seq<char>>,
    stem: Seq<char>,
    group: Seq<usize>,
) -> bool {
    &&& forall|k: int| 0 <= k < group.len() ==> (#[trigger] group[k]) < stems.len()
    &&& forall|k: int| 0 <= k < group.len() ==> stems[(#[trigger] group[k]) as int] == stem
    &&& forall|i: int| 0 <= i < stems.len() && #[trigger] stems[i] == stem ==> group.contains(i as usize)
    &&& forall|k: int, l: int|
        0 <= k < l < group.len() ==> (#[trigger] group[k]) != (#[trigger] group[l])
    &&& forall|k: int, l: int|
        0 <= k < l < group.len() ==> !lex_less(
            keys[(#[trigger] group[k]) as int],
            keys[(#[trigger] group[l]) as int],
        )
}

/// A plan but for the order among candidates with equal keys.
pub open spec fn is_loose_plan(
    stems: Seq<Seq<char>>,
    keys: Seq<Seq<char>>,
    groups: Seq<Seq<usize>>,
) -> bool {
    &&& forall|a: int| 0 <= a < groups.len() ==> (#[trigger] groups[a]).len() > 0
    &&& forall|a: int|
        0 <= a < groups.len() ==> is_loose_group(
            stems,
            keys,
            stem_of_group(stems, #[trigger] groups[a]),
            groups[a],
        )
    &&& forall|i: int| 0 <= i < stems.len() ==> #[trigger] is_placed(groups, i)
    &&& forall|a: int, b: int|
        0 <= a < b < groups.len() ==> lex_less(
            stem_of_group(stems, #[trigger] groups[a]),
            stem_of_group(stems, #[trigger] groups[b]),
        )
}

/// A plan is a plan also when the order among equal keys is left open.
pub proof fn lemma_plan_is_loose(
    stems: Seq<Seq<char>>,
    keys: Seq<Seq<char>>,
    groups: Seq<Seq<usize>>,
)
    requires
        is_plan(stems, keys, groups),
    ensures
        is_loose_plan(stems, keys, groups),
{
    assert forall|a: int| 0 <= a < groups.len() implies is_loose_group(
        stems,
        keys,
        stem_of_group(stems, #[trigger] groups[a]),
        groups[a],
    ) by {
        let group = groups[a];
        assert(is_group(stems, keys, stem_of_group(stems, group), group));
        assert forall|k: int, l: int| 0 <= k < l < group.len() implies (#[trigger] group[k]) != (
        #[trigger] group[l]) && !lex_less(keys[group[k] as int], keys[group[l] as int]) by {
            assert(goes_before(keys, group[k] as int, group[l] as int));
            lemma_goes_before_asymmetric(keys, group[k] as int, group[l] as int);
            lemma_lex_irreflexive(keys[group[k] as int]);
            if lex_less(keys[group[k] as int], keys[group[l] as int]) {
                lemma_lex_asymmetric(keys[group[k] as int], keys[group[l] as int]);
            }
        }
    }
}

/// The loose plan for renumbered candidates, renumbered, is a loose plan for
/// the candidates.
pub proof fn lemma_renumbered_plan(
    stems: Seq<Seq<char>>,
    keys: Seq<Seq<char>>,
    stems_q: Seq<Seq<char>>,
    keys_q: Seq<Seq<char>>,
    perm: Seq<int>,
    gq: Seq<Seq<usize>>,
)
    requires
        stems.len() == keys.len(),
        stems.len() <= usize::MAX,
        stems_q.len() == stems.len(),
        keys_q.len() == stems.len(),
        is_renumbering(perm, stems.len()),
        forall|i: int| 0 <= i < stems.len() ==> #[trigger] stems_q[i] == stems[perm[i]],
        forall|i: int| 0 <= i < stems.len() ==> #[trigger] keys_q[i] == keys[perm[i]],
        is_loose_plan(stems_q, keys_q, gq),
    ensures
        is_loose_plan(stems, keys, renumbered(gq, perm)),
{
    let h = renumbered(gq, perm);
    assert forall|a: int| 0 <= a < h.len() implies (#[trigger] h[a]).len() > 0 && is_loose_group(
        stems,
        keys,
        stem_of_group(stems, h[a]),
        h[a],
    ) && stem_of_group(stems, h[a]) == stem_of_group(stems_q, gq[a]) by {
        let old_group = gq[a];
        let group = h[a];
        assert(old_group.len() > 0);
        let stem = stem_of_group(stems_q, old_group);
        assert(is_loose_group(stems_q, keys_q, stem, old_group));
        assert forall|k: int| 0 <= k < group.len() implies (#[trigger] group[k]) < stems.len()
            && stems[group[k] as int] == stem by {
            let x = old_group[k] as int;
            assert(x < stems_q.len());
            assert(stems_q[x] == stems[perm[x]]);
            assert(group[k] == perm[x] as usize);
        }
        assert(stems[group[0] as int] == stem);
        assert forall|i: int| 0 <= i < stems.len() && #[trigger] stems[i] == stem implies group.contains(
            i as usize,
        ) by {
            assert(has_source(perm, i));
            let j = choose|j: int| 0 <= j < perm.len() && #[trigger] perm[j] == i;
            assert(stems_q[j] == stems[perm[j]]);
            assert(old_group.contains(j as usize));
            let k = choose|k: int| 0 <= k < old_group.len() && old_group[k] == j as usize;
            assert(group[k] == i as usize);
        }
        assert forall|k: int, l: int| 0 <= k < l < group.len() implies (#[trigger] group[k]) != (
        #[trigger] group[l]) && !lex_less(keys[group[k] as int], keys[group[l] as int]) by {
            let x = old_group[k] as int;
            let y = old_group[l] as int;
            assert(x < stems_q.len() && y < stems_q.len());
            assert(old_group[k] != old_group[l]);
            assert(!lex_less(keys_q[x], keys_q[y]));
            assert(keys_q[x] == keys[perm[x]]);
            assert(keys_q[y] == keys[perm[y]]);
            assert(group[k] == perm[x] as usize);
            assert(group[l] == perm[y] as usize);
            if x < y {
                assert(perm[x] != perm[y]);
            } else {
                assert(perm[y] != perm[x]);
            }
        }
    }
    assert forall|i: int| 0 <= i < stems.len() implies #[trigger] is_placed(h, i) by {
        assert(has_source(perm, i));
        let j = choose|j: int| 0 <= j < perm.len() && #[trigger] perm[j] == i;
        assert(is_placed(gq, j));
        let a = choose|a: int| 0 <= a < gq.len() && (#[trigger] gq[a]).contains(j as usize);
        let k = choose|k: int| 0 <= k < gq[a].len() && gq[a][k] == j as usize;
        assert(h[a][k] == i as usize);
        assert(h[a].contains(i as usize));
    }
    assert forall|a: int, b: int| 0 <= a < b < h.len() implies lex_less(
        stem_of_group(stems, #[trigger] h[a]),
        stem_of_group(stems, #[trigger] h[b]),
    ) by {
        assert(lex_less(stem_of_group(stems_q, gq[a]), stem_of_group(stems_q, gq[b])));
    }
}

/// Every stem of a group of one loose plan is the stem of a group of the other.
proof fn lemma_loose_stems_shared(
    stems: Seq<Seq<char>>,
    keys: Seq<Seq<char>>,
    g1: Seq<Seq<usize>>,
    g2: Seq<Seq<usize>>,
    x: Seq<char>,
)
    requires
        is_loose_plan(stems, keys, g1),
        is_loose_plan(stems, keys, g2),
        group_stems(stems, g1).contains(x),
    ensures
        group_stems(stems, g2).contains(x),
{
    let s1 = group_stems(stems, g1);
    let a = choose|a: int| 0 <= a < s1.len() && s1[a] == x;
    let group = g1[a];
    assert(group.len() > 0);
    assert(is_loose_group(stems, keys, stem_of_group(stems, group), group));
    let i = group[0] as int;
    assert(i < stems.len());
    assert(is_placed(g2, i));
    let b = choose|b: int| 0 <= b < g2.len() && (#[trigger] g2[b]).contains(i as usize);
    let other = g2[b];
    assert(is_loose_group(stems, keys, stem_of_group(stems, other), other));
    let k = choose|k: int| 0 <= k < other.len() && other[k] == i as usize;
    assert(stems[other[k] as int] == stem_of_group(stems, other));
    assert(group_stems(stems, g2)[b] == x);
}

/// Two loose plans have the same stems, group by group.
pub proof fn lemma_loose_plans_share_stems(
    stems: Seq<Seq<char>>,
    keys: Seq<Seq<char>>,
    g1: Seq<Seq<usize>>,
    g2: Seq<Seq<usize>>,
)
    requires
        is_loose_plan(stems, keys, g1),
        is_loose_plan(stems, keys, g2),
    ensures
        g1.len() == g2.len(),
        forall|a: int|
            0 <= a < g1.len() ==> stem_of_group(stems, #[trigger] g1[a]) == stem_of_group(
                stems,
                g2[a],
            ),
{
    let s1 = group_stems(stems, g1);
    let s2 = group_stems(stems, g2);
    let by_stem = |x: Seq<char>, y: Seq<char>| lex_less(x, y);
    assert(in_order(s1, by_stem)) by {
        assert forall|a: int, b: int| 0 <= a < b < s1.len() implies by_stem(
            #[trigger] s1[a],
            #[trigger] s1[b],
        ) by {
            assert(lex_less(stem_of_group(stems, g1[a]), stem_of_group(stems, g1[b])));
        }
    }
    assert(in_order(s2, by_stem)) by {
        assert forall|a: int, b: int| 0 <= a < b < s2.len() implies by_stem(
            #[trigger] s2[a],
            #[trigger] s2[b],
        ) by {
            assert(lex_less(stem_of_group(stems, g2[a]), stem_of_group(stems, g2[b])));
        }
    }
    assert forall|x: Seq<char>, y: Seq<char>| !(#[trigger] by_stem(x, y) && by_stem(y, x)) by {
        if lex_less(x, y) {
            lemma_lex_asymmetric(x, y);
        }
    }
    assert forall|x: Seq<char>| s1.contains(x) <==> s2.contains(x) by {
        if s1.contains(x) {
            lemma_loose_stems_shared(stems, keys, g1, g2, x);
        }
        if s2.contains(x) {
            lemma_loose_stems_shared(stems, keys, g2, g1, x);
        }
    }
    lemma_order_is_unique(s1, s2, by_stem);
    assert(s1.len() == g1.len() && s2.len() == g2.len());
    assert forall|a: int| 0 <= a < g1.len() implies stem_of_group(stems, #[trigger] g1[a])
        == stem_of_group(stems, g2[a]) by {
        assert(s1[a] == s2[a]);
    }
}

/// Candidates of one stem with equal keys are the same path.
pub open spec fn ties_are_twins(
    stems: Seq<Seq<char>>,
    keys: Seq<Seq<char>>,
    paths: Seq<Seq<char>>,
) -> bool {
    forall|i: int, j: int|
        0 <= i < paths.len() && 0 <= j < paths.len() && #[trigger] keys[i] == #[trigger] keys[j]
            && stems[i] == stems[j] ==> paths[i] == paths[j]
}

/// The row lists places of candidates of one stem, each at most once, and
/// none before one with a greater key.
pub open spec fn is_row(stems: Seq<Seq<char>>, keys: Seq<Seq<char>>, stem: Seq<char>, row: Seq<usize>) -> bool {
    &&& forall|k: int| 0 <= k < row.len() ==> (#[trigger] row[k]) < stems.len()
    &&& forall|k: int| 0 <= k < row.len() ==> stems[(#[trigger] row[k]) as int] == stem
    &&& forall|k: int, l: int| 0 <= k < l < row.len() ==> (#[trigger] row[k]) != (#[trigger] row[l])
    &&& forall|k: int, l: int|
        0 <= k < l < row.len() ==> !lex_less(
            keys[(#[trigger] row[k]) as int],
            keys[(#[trigger] row[l]) as int],
        )
}

/// Two rows that list the same candidates show the same paths, place by
/// place, where candidates with equal keys are the same path.
pub proof fn lemma_rows_show_the_same(
    stems: Seq<Seq<char>>,
    keys: Seq<Seq<char>>,
    paths: Seq<Seq<char>>,
    stem: Seq<char>,
    x: Seq<usize>,
    y: Seq<usize>,
)
    requires
        stems.len() == paths.len(),
        ties_are_twins(stems, keys, paths),
        is_row(stems, keys, stem, x),
        is_row(stems, keys, stem, y),
        forall|i: usize| x.contains(i) <==> y.contains(i),
    ensures
        x.len() == y.len(),
        forall|k: int| 0 <= k < x.len() ==> paths[(#[trigger] x[k]) as int] == paths[y[k] as int],
    decreases x.len(),
{
    if x.len() == 0 {
        if y.len() > 0 {
            assert(y.contains(y[0]));
        }
    } else {
        let x0 = x[0];
        assert(x.contains(x0));
        let m = choose|m: int| 0 <= m < y.len() && y[m] == x0;
        let key = keys[x0 as int];
        // every place of `y` up to `m` holds a candidate with the key of `x0`
        assert forall|t: int| 0 <= t <= m implies keys[(#[trigger] y[t]) as int] == key by {
            assert(y.contains(y[t]));
            let u = choose|u: int| 0 <= u < x.len() && x[u] == y[t];
            if u > 0 {
                assert(!lex_less(keys[x[0] as int], keys[x[u] as int]));
            }
            if t < m {
                assert(!lex_less(keys[y[t] as int], keys[y[m] as int]));
            }
            lemma_lex_total(key, keys[y[t] as int]);
        }
        let y0 = y[0];
        assert(keys[y0 as int] == key);
        assert(paths[y0 as int] == paths[x0 as int]);
        let swapped = y.update(m, y0).update(0, x0);
        assert(swapped[0] == x0);
        assert forall|t: int| 0 <= t < y.len() implies keys[(#[trigger] swapped[t]) as int]
            == keys[y[t] as int] && paths[swapped[t] as int] == paths[y[t] as int] && stems[swapped[t] as int] == stem && swapped[t] < stems.len() by {
            if t == 0 || t == m {
            } else {
                assert(swapped[t] == y[t]);
            }
        }
        let x1 = x.skip(1);
        let y1 = swapped.skip(1);
        assert(is_row(stems, keys, stem, x1)) by {
            assert forall|k: int| 0 <= k < x1.len() implies (#[trigger] x1[k]) < stems.len()
                && stems[x1[k] as int] == stem by {
                assert(x1[k] == x[k + 1]);
            }
            assert forall|k: int, l: int| 0 <= k < l < x1.len() implies (#[trigger] x1[k]) != (
            #[trigger] x1[l]) && !lex_less(keys[x1[k] as int], keys[x1[l] as int]) by {
                assert(x1[k] == x[k + 1] && x1[l] == x[l + 1]);
            }
        }
        assert(is_row(stems, keys, stem, y1)) by {
            assert forall|k: int| 0 <= k < y1.len() implies (#[trigger] y1[k]) < stems.len()
                && stems[y1[k] as int] == stem by {
                assert(y1[k] == swapped[k + 1]);
            }
            assert forall|k: int, l: int| 0 <= k < l < y1.len() implies (#[trigger] y1[k]) != (
            #[trigger] y1[l]) && !lex_less(keys[y1[k] as int], keys[y1[l] as int]) by {
                assert(y1[k] == swapped[k + 1] && y1[l] == swapped[l + 1]);
                assert(keys[swapped[k + 1] as int] == keys[y[k + 1] as int]);
                assert(keys[swapped[l + 1] as int] == keys[y[l + 1] as int]);
                assert(!lex_less(keys[y[k + 1] as int], keys[y[l + 1] as int]));
                // no place twice: only the places 0 and m changed hands
                if k + 1 == m {
                    assert(swapped[k + 1] == y0);
                    assert(y[0] != y[l + 1]);
                } else if l + 1 == m {
                    assert(swapped[l + 1] == y0);
                    assert(y[0] != y[k + 1]);
                } else {
                    assert(y[k + 1] != y[l + 1]);
                }
            }
        }
        assert forall|i: usize| x1.contains(i) <==> y1.contains(i) by {
            if x1.contains(i) {
                let k = choose|k: int| 0 <= k < x1.len() && x1[k] == i;
                assert(x[k + 1] == i);
                assert(x[0] != x[k + 1]);
                assert(x.contains(i));
                let t = choose|t: int| 0 <= t < y.len() && y[t] == i;
                assert(t != m);
                if t == 0 {
                    assert(m > 0);
                    assert(swapped[m] == i);
                    assert(y1[m - 1] == i);
                } else {
                    assert(swapped[t] == i);
                    assert(y1[t - 1] == i);
                }
            }
            if y1.contains(i) {
                let k = choose|k: int| 0 <= k < y1.len() && y1[k] == i;
                assert(swapped[k + 1] == i);
                let t = if k + 1 == m {
                    0
                } else {
                    k + 1
                };
                assert(y[t] == i);
                assert(t != m);
                if t < m {
                    assert(y[t] != y[m]);
                } else {
                    assert(y[m] != y[t]);
                }
                assert(i != x0);
                assert(y.contains(i));
                let u = choose|u: int| 0 <= u < x.len() && x[u] == i;
                assert(u > 0);
                assert(x1[u - 1] == i);
            }
        }
        lemma_rows_show_the_same(stems, keys, paths, stem, x1, y1);
        assert forall|k: int| 0 <= k < x.len() implies paths[(#[trigger] x[k]) as int]
            == paths[y[k] as int] by {
            if k > 0 {
                assert(x1[k - 1] == x[k]);
                assert(y1[k - 1] == swapped[k]);
                assert(paths[swapped[k] as int] == paths[y[k] as int]);
            }
        }
    }
}

/// The object files of a group that are tried, from the member at `from` on:
/// each in turn up to the first that loads, and all where none loads.
pub open spec fn tried_in(group: Seq<Seq<char>>, loads: spec_fn(Seq<char>) -> bool, from: int) -> Seq<
    Seq<char>,
>
    decreases group.len() - from,
{
    if from < 0 || from >= group.len() {
        Seq::empty()
    } else if loads(group[from]) {
        seq![group[from]]
    } else {
        seq![group[from]] + tried_in(group, loads, from + 1)
    }
}

/// The object files that are tried in the groups from `from` on, group after
/// group.
pub open spec fn tried_from(
    groups: Seq<Seq<Seq<char>>>,
    loads: spec_fn(Seq<char>) -> bool,
    from: int,
) -> Seq<Seq<char>>
    decreases groups.len() - from,
{
    if from < 0 || from >= groups.len() {
        Seq::empty()
    } else {
        tried_in(groups[from], loads, 0) + tried_from(groups, loads, from + 1)
    }
}

/// The object files that a walk tries, one after the other, where `loads`
/// says of each whether it loads; at most `n` of them.
pub open spec fn walk(v: PlanView, loads: spec_fn(Seq<char>) -> bool, n: nat) -> Seq<Seq<char>>
    decreases n,
{
    if n == 0 || v.is_over() {
        Seq::empty()
    } else {
        let path = v.groups[v.group][v.member];
        seq![path] + walk(v.after(loads(path)), loads, (n - 1) as nat)
    }
}

/// How many object files stand in the groups from `from` on.
pub open spec fn members_from(groups: Seq<Seq<Seq<char>>>, from: int) -> int
    decreases groups.len() - from,
{
    if from < 0 || from >= groups.len() {
        0
    } else {
        groups[from].len() + members_from(groups, from + 1)
    }
}

/// Empty groups hold nothing to try and nothing to count.
proof fn lemma_empty_groups_add_nothing(
    groups: Seq<Seq<Seq<char>>>,
    loads: spec_fn(Seq<char>) -> bool,
    from: int,
)
    requires
        0 <= from <= groups.len(),
    ensures
        tried_from(groups, loads, from) == tried_from(groups, loads, next_group(groups, from)),
        members_from(groups, from) == members_from(groups, next_group(groups, from)),
        members_from(groups, from) >= 0,
    decreases groups.len() - from,
{
    if from < groups.len() {
        lemma_empty_groups_add_nothing(groups, loads, from + 1);
        if groups[from].len() == 0 {
            assert(tried_in(groups[from], loads, 0) =~= Seq::<Seq<char>>::empty());
            assert(tried_from(groups, loads, from) =~= tried_from(groups, loads, from + 1));
        }
    }
}

/// A walk tries, in each group from where it stands, the object files in
/// turn up to the first that loads, and then goes on to the next group: no
/// member of a group is tried after one of the group has loaded, and every
/// group gets its turn.
pub proof fn lemma_walk(v: PlanView, loads: spec_fn(Seq<char>) -> bool, n: nat)
    requires
        0 <= v.group,
        !v.is_over() ==> 0 <= v.member < v.groups[v.group].len(),
        !v.is_over() ==> n >= v.groups[v.group].len() - v.member + members_from(
            v.groups,
            v.group + 1,
        ),
    ensures
        walk(v, loads, n) == (if v.is_over() {
            Seq::empty()
        } else {
            tried_in(v.groups[v.group], loads, v.member) + tried_from(v.groups, loads, v.group + 1)
        }),
    decreases n,
{
    if !v.is_over() {
        let group = v.groups[v.group];
        let path = group[v.member];
        let w = v.after(loads(path));
        lemma_next_group(v.groups, v.group + 1);
        lemma_empty_groups_add_nothing(v.groups, loads, v.group + 1);
        assert(n >= 1);
        if !loads(path) && v.member + 1 < group.len() {
            lemma_walk(w, loads, (n - 1) as nat);
            assert(walk(v, loads, n) =~= tried_in(group, loads, v.member) + tried_from(
                v.groups,
                loads,
                v.group + 1,
            ));
        } else {
            let next = next_group(v.groups, v.group + 1);
            assert(tried_in(group, loads, v.member) =~= seq![path]) by {
                if !loads(path) {
                    assert(tried_in(group, loads, v.member + 1) =~= Seq::<Seq<char>>::empty());
                }
            }
            if next < v.groups.len() {
                lemma_empty_groups_add_nothing(v.groups, loads, next + 1);
            }
            lemma_walk(w, loads, (n - 1) as nat);
            assert(walk(v, loads, n) =~= tried_in(group, loads, v.member) + tried_from(
                v.groups,
                loads,
                v.group + 1,
            ));
        }
    }
}

/// A walk from its start tries, group after group, the object files of each
/// group up to the first that loads.
pub proof fn lemma_walk_from_start(
    groups: Seq<Seq<Seq<char>>>,
    loads: spec_fn(Seq<char>) -> bool,
    n: nat,
)
    requires
        n >= members_from(groups, 0),
    ensures
        walk(PlanView { groups, group: next_group(groups, 0), member: 0 }, loads, n) == tried_from(
            groups,
            loads,
            0,
        ),
{
    let v = PlanView { groups, group: next_group(groups, 0), member: 0 };
    lemma_next_group(groups, 0);
    lemma_empty_groups_add_nothing(groups, loads, 0);
    lemma_walk(v, loads, n);
}

} // verus!
