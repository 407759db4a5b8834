//! Fallback groups: candidates that share a stem form one group, ordered by
//! their sort keys from high to low; the groups are ordered by stem.

use crate::order::{lemma_lex_total, lemma_lex_transitive, lex_less, lex_lt, same_text};
use vstd::prelude::*;

verus! {

/// The texts that a sequence of character vectors holds.
pub open spec fn texts(v: Seq<Vec<char>>) -> Seq<Seq<char>> {
    v.map_values(|t: Vec<char>| t@)
}

/// The rows that a sequence of vectors holds.
pub open spec fn rows(v: Seq<Vec<usize>>) -> Seq<Seq<usize>> {
    v.map_values(|r: Vec<usize>| r@)
}

/// Within a group, candidate `i` is tried before candidate `j`: its key is the
/// greater one or, with equal keys, it came first.
pub open spec fn goes_before(keys: Seq<Seq<char>>, i: int, j: int) -> bool {
    lex_less(keys[j], keys[i]) || (keys[i] == keys[j] && i < j)
}

/// One group: it holds exactly the candidates whose stem is `stem`, each once,
/// in the order in which they are tried.
pub open spec fn is_group(
    stems: Seq<Seq<char>>,
    keys: Seq<Seq<char>>,
    stem: Seq<char>,
    group: Seq<usize>,
) -> bool {
    &&& forall|k: int| 0 <= k < group.len() ==> (#[trigger] group[k]) < stems.len()
    &&& forall|k: int| 0 <= k < group.len() ==> stems[(#[trigger] group[k]) as int] == stem
    &&& forall|i: int| 0 <= i < stems.len() && #[trigger] stems[i] == stem ==> group.contains(i as usize)
    &&& forall|k: int, l: int|
        0 <= k < l < group.len() ==> goes_before(
            keys,
            (#[trigger] group[k]) as int,
            (#[trigger] group[l]) as int,
        )
}

/// The stem of a group that is not empty.
pub open spec fn stem_of_group(stems: Seq<Seq<char>>, group: Seq<usize>) -> Seq<char> {
    stems[group[0] as int]
}

/// Candidate `i` stands in one of the groups.
pub open spec fn is_placed(groups: Seq<Seq<usize>>, i: int) -> bool {
    exists|a: int| 0 <= a < groups.len() && (#[trigger] groups[a]).contains(i as usize)
}

/// The whole plan: every candidate stands in exactly one group, a group holds
/// the candidates of one stem in the order in which they are tried, no group is
/// empty, and the groups stand in the dictionary order of their stems.
pub open spec fn is_plan(stems: Seq<Seq<char>>, keys: Seq<Seq<char>>, groups: Seq<Seq<usize>>) -> bool {
    &&& forall|a: int| 0 <= a < groups.len() ==> (#[trigger] groups[a]).len() > 0
    &&& forall|a: int|
        0 <= a < groups.len() ==> is_group(
            stems,
            keys,
            stem_of_group(stems, #[trigger] groups[a]),
            groups[a],
        )
    &&& forall|i: int| 0 <= i < stems.len() ==> #[trigger] is_placed(groups, i)
    &&& forall|a: int, b: int|
        0 <= a < b < groups.len() ==> lex_less(
            stem_of_group(stems, #[trigger] groups[a]),
            stem_of_group(stems, #[trigger] groups[b]),
        )
}

/// Places of candidates, one for each stem, in the dictionary order of the stems.
spec fn is_stem_list(stems: Seq<Seq<char>>, upto: int, reps: Seq<usize>) -> bool {
    &&& forall|a: int| 0 <= a < reps.len() ==> (#[trigger] reps[a]) < upto
    &&& forall|a: int, b: int|
        0 <= a < b < reps.len() ==> lex_less(
            stems[(#[trigger] reps[a]) as int],
            stems[(#[trigger] reps[b]) as int],
        )
    &&& forall|i: int| 0 <= i < upto ==> #[trigger] has_place(stems, reps, i)
}

/// The stem of candidate `i` is that of one of the places in `reps`.
spec fn has_place(stems: Seq<Seq<char>>, reps: Seq<usize>, i: int) -> bool {
    exists|a: int| 0 <= a < reps.len() && stems[(#[trigger] reps[a]) as int] == stems[i]
}

/// One place for each stem that occurs, in the dictionary order of the stems.
fn distinct_stems(stems: &Vec<Vec<char>>) -> (reps: Vec<usize>)
    ensures
        is_stem_list(texts(stems@), stems.len() as int, reps@),
{
    let ghost st = texts(stems@);
    let n = stems.len();
    let mut reps: Vec<usize> = Vec::new();
    let mut i: usize = 0;
    while i < n
        invariant
            i <= n == stems.len(),
            st == texts(stems@),
            is_stem_list(st, i as int, reps@),
        decreases n - i,
    {
        let mut q: usize = 0;
        while q < reps.len() && lex_lt(&stems[reps[q]], &stems[i])
            invariant
                i < n == stems.len(),
                st == texts(stems@),
                q <= reps.len(),
                is_stem_list(st, i as int, reps@),
                forall|a: int| 0 <= a < q ==> lex_less(st[(#[trigger] reps@[a]) as int], st[i as int]),
            decreases reps.len() - q,
        {
            q = q + 1;
        }
        let ghost before = reps@;
        if q < reps.len() && same_text(&stems[reps[q]], &stems[i]) {
            proof {
                assert(st[before[q as int] as int] == st[i as int]);
                assert forall|j: int| 0 <= j < i + 1 implies #[trigger] has_place(
                    st,
                    before,
                    j,
                ) by {
                    if j == i {
                        assert(st[before[q as int] as int] == st[j]);
                    }
                }
            }
        } else {
            reps.insert(q, i);
            proof {
                let after = reps@;
                assert(after == before.insert(q as int, i));
                assert forall|a: int, b: int| 0 <= a < b < after.len() implies lex_less(
                    st[(#[trigger] after[a]) as int],
                    st[(#[trigger] after[b]) as int],
                ) by {
                    if b < q {
                        assert(after[a] == before[a] && after[b] == before[b]);
                    } else if b == q {
                        assert(after[a] == before[a]);
                    } else if a == q {
                        assert(after[b] == before[b - 1]);
                        let first = st[before[q as int] as int];
                        lemma_lex_total(first, st[i as int]);
                        if b - 1 > q {
                            lemma_lex_transitive(st[i as int], first, st[before[b - 1] as int]);
                        }
                    } else if a < q {
                        assert(after[a] == before[a] && after[b] == before[b - 1]);
                    } else {
                        assert(after[a] == before[a - 1] && after[b] == before[b - 1]);
                    }
                }
                assert forall|j: int| 0 <= j < i + 1 implies #[trigger] has_place(
                    st,
                    after,
                    j,
                ) by {
                    if j == i {
                        assert(after[q as int] == i);
                    } else {
                        assert(has_place(st, before, j));
                        let a0 = choose|a: int|
                            0 <= a < before.len() && st[(#[trigger] before[a]) as int] == st[j];
                        if a0 < q {
                            assert(after[a0] == before[a0]);
                        } else {
                            assert(after[a0 + 1] == before[a0]);
                        }
                    }
                }
                assert forall|a: int| 0 <= a < after.len() implies (#[trigger] after[a]) < i
                    + 1 by {
                    if a < q {
                        assert(after[a] == before[a]);
                    } else if a > q {
                        assert(after[a] == before[a - 1]);
                    }
                }
            }
        }
        i = i + 1;
    }
    reps
}

/// The part of a group that the candidates before `upto` make up.
spec fn is_group_upto(
    stems: Seq<Seq<char>>,
    keys: Seq<Seq<char>>,
    stem: Seq<char>,
    upto: int,
    group: Seq<usize>,
) -> bool {
    &&& forall|k: int| 0 <= k < group.len() ==> (#[trigger] group[k]) < upto
    &&& forall|k: int| 0 <= k < group.len() ==> stems[(#[trigger] group[k]) as int] == stem
    &&& forall|i: int| 0 <= i < upto && #[trigger] stems[i] == stem ==> group.contains(i as usize)
    &&& forall|k: int, l: int|
        0 <= k < l < group.len() ==> goes_before(
            keys,
            (#[trigger] group[k]) as int,
            (#[trigger] group[l]) as int,
        )
}

/// The candidates whose stem is that of candidate `rep`, in the order in which
/// they are tried.
fn group_of(stems: &Vec<Vec<char>>, keys: &Vec<Vec<char>>, rep: usize) -> (group: Vec<usize>)
    requires
        stems.len() == keys.len(),
        rep < stems.len(),
    ensures
        is_group(texts(stems@), texts(keys@), texts(stems@)[rep as int], group@),
        group.len() > 0,
{
    let ghost st = texts(stems@);
    let ghost ks = texts(keys@);
    let ghost stem = st[rep as int];
    let n = stems.len();
    let mut group: Vec<usize> = Vec::new();
    let mut j: usize = 0;
    while j < n
        invariant
            j <= n == stems.len() == keys.len(),
            rep < n,
            st == texts(stems@),
            ks == texts(keys@),
            stem == st[rep as int],
            is_group_upto(st, ks, stem, j as int, group@),
        decreases n - j,
    {
        let ghost before = group@;
        if same_text(&stems[j], &stems[rep]) {
            let mut p: usize = 0;
            while p < group.len() && !lex_lt(&keys[group[p]], &keys[j])
                invariant
                    j < n == stems.len() == keys.len(),
                    ks == texts(keys@),
                    st == texts(stems@),
                    p <= group.len(),
                    group@ == before,
                    is_group_upto(st, ks, stem, j as int, group@),
                    forall|k: int|
                        0 <= k < p ==> !lex_less(ks[(#[trigger] group@[k]) as int], ks[j as int]),
                decreases group.len() - p,
            {
                p = p + 1;
            }
            group.insert(p, j);
            proof {
                let after = group@;
                assert(after == before.insert(p as int, j));
                assert forall|k: int, l: int| 0 <= k < l < after.len() implies goes_before(
                    ks,
                    (#[trigger] after[k]) as int,
                    (#[trigger] after[l]) as int,
                ) by {
                    if l < p {
                        assert(after[k] == before[k] && after[l] == before[l]);
                    } else if l == p {
                        assert(after[k] == before[k]);
                        lemma_lex_total(ks[before[k] as int], ks[j as int]);
                    } else if k == p {
                        assert(after[l] == before[l - 1]);
                        if l - 1 > p {
                            assert(goes_before(ks, before[p as int] as int, before[l - 1] as int));
                            if lex_less(ks[before[l - 1] as int], ks[before[p as int] as int]) {
                                lemma_lex_transitive(
                                    ks[before[l - 1] as int],
                                    ks[before[p as int] as int],
                                    ks[j as int],
                                );
                            }
                        }
                    } else if k < p {
                        assert(after[k] == before[k] && after[l] == before[l - 1]);
                    } else {
                        assert(after[k] == before[k - 1] && after[l] == before[l - 1]);
                    }
                }
                assert forall|k: int| 0 <= k < after.len() implies (#[trigger] after[k]) < j + 1
                    && st[after[k] as int] == stem by {
                    if k < p {
                        assert(after[k] == before[k]);
                    } else if k > p {
                        assert(after[k] == before[k - 1]);
                    }
                }
                assert forall|i: int| 0 <= i < j + 1 && #[trigger] st[i] == stem implies after.contains(
                    i as usize,
                ) by {
                    if i == j {
                        assert(after[p as int] == j);
                    } else {
                        assert(before.contains(i as usize));
                        let k0 = choose|k: int| 0 <= k < before.len() && before[k] == i as usize;
                        if k0 < p {
                            assert(after[k0] == before[k0]);
                        } else {
                            assert(after[k0 + 1] == before[k0]);
                        }
                    }
                }
            }
        }
        j = j + 1;
    }
    proof {
        assert(group@.contains(rep));
    }
    group
}

/// Groups candidates by stem. Candidate `i` has the stem `stems[i]` and the
/// sort key `keys[i]`; the result holds the places of the candidates.
pub fn group_by_keys(stems: &Vec<Vec<char>>, keys: &Vec<Vec<char>>) -> (groups: Vec<Vec<usize>>)
    requires
        stems.len() == keys.len(),
    ensures
        is_plan(texts(stems@), texts(keys@), rows(groups@)),
{
    let ghost st = texts(stems@);
    let ghost ks = texts(keys@);
    let reps = distinct_stems(stems);
    let mut groups: Vec<Vec<usize>> = Vec::new();
    let mut t: usize = 0;
    while t < reps.len()
        invariant
            t <= reps.len(),
            stems.len() == keys.len(),
            st == texts(stems@),
            ks == texts(keys@),
            is_stem_list(st, stems.len() as int, reps@),
            groups.len() == t,
            forall|a: int|
                0 <= a < t ==> (#[trigger] rows(groups@)[a]).len() > 0 && is_group(
                    st,
                    ks,
                    st[reps@[a] as int],
                    rows(groups@)[a],
                ),
        decreases reps.len() - t,
    {
        let group = group_of(stems, keys, reps[t]);
        let ghost before = rows(groups@);
        groups.push(group);
        proof {
            let after = rows(groups@);
            assert forall|a: int| 0 <= a < t + 1 implies (#[trigger] after[a]).len() > 0
                && is_group(st, ks, st[reps@[a] as int], after[a]) by {
                if a < t {
                    assert(after[a] == before[a]);
                }
            }
        }
        t = t + 1;
    }
    proof {
        let g = rows(groups@);
        assert forall|a: int| 0 <= a < g.len() implies stem_of_group(st, #[trigger] g[a])
            == st[reps@[a] as int] by {}
        assert forall|i: int| 0 <= i < st.len() implies #[trigger] is_placed(g, i) by {
            assert(has_place(st, reps@, i));
            let a0 = choose|a: int| 0 <= a < reps@.len() && st[(#[trigger] reps@[a]) as int] == st[i];
            assert(is_group(st, ks, st[reps@[a0] as int], g[a0]));
            assert(g[a0].contains(i as usize));
        }
    }
    groups
}

/// The groups of a plan as texts.
pub open spec fn path_rows(groups: Seq<Vec<String>>) -> Seq<Seq<Seq<char>>> {
    groups.map_values(|g: Vec<String>| g@.map_values(|p: String| p@))
}

/// The first group from `from` on that is not empty; the number of groups
/// where there is none.
pub open spec fn next_group(groups: Seq<Seq<Seq<char>>>, from: int) -> int
    decreases groups.len() - from,
{
    if 0 <= from < groups.len() && groups[from].len() == 0 {
        next_group(groups, from + 1)
    } else {
        from
    }
}

/// Where a walk through the groups of a plan stands.
pub struct PlanView {
    pub groups: Seq<Seq<Seq<char>>>,
    pub group: int,
    pub member: int,
}

impl PlanView {
    /// Nothing is left to try.
    pub open spec fn is_over(self) -> bool {
        self.group >= self.groups.len()
    }

    /// The object file to try now.
    pub open spec fn current(self) -> Option<Seq<char>> {
        if self.is_over() {
            None
        } else {
            Some(self.groups[self.group][self.member])
        }
    }

    /// Where the walk stands after the current object file was tried. One that
    /// loaded ends its group. After one that failed the next of its group
    /// follows, and the next group when it was the last.
    pub open spec fn after(self, loaded: bool) -> PlanView {
        if self.is_over() {
            self
        } else if !loaded && self.member + 1 < self.groups[self.group].len() {
            PlanView { member: self.member + 1, ..self }
        } else {
            PlanView { group: next_group(self.groups, self.group + 1), member: 0, ..self }
        }
    }
}

/// The next group that is not empty does not lie before the place from which
/// it is looked for, and there is no group that is not empty between the two.
pub proof fn lemma_next_group(groups: Seq<Seq<Seq<char>>>, from: int)
    requires
        0 <= from <= groups.len(),
    ensures
        from <= next_group(groups, from) <= groups.len(),
        next_group(groups, from) < groups.len() ==> groups[next_group(groups, from)].len() > 0,
        forall|g: int| from <= g < next_group(groups, from) ==> (#[trigger] groups[g]).len() == 0,
    decreases groups.len() - from,
{
    if from < groups.len() && groups[from].len() == 0 {
        lemma_next_group(groups, from + 1);
    }
}

/// An object file that loaded ends its group: what is tried next stands in a
/// later group, so no other member of the group is tried. One that failed is
/// followed by the next member of its group, if there is one.
pub proof fn lemma_first_success_ends_the_group(v: PlanView)
    requires
        0 <= v.group < v.groups.len(),
        0 <= v.member < v.groups[v.group].len(),
    ensures
        v.after(true).group > v.group,
        v.after(true).member == 0,
        v.member + 1 < v.groups[v.group].len() ==> v.after(false).group == v.group && v.after(
            false,
        ).member == v.member + 1,
        v.member + 1 == v.groups[v.group].len() ==> v.after(false).group > v.group,
{
    lemma_next_group(v.groups, v.group + 1);
}

/// A walk through the groups of a plan: within a group the object files are
/// tried in order until one loads, then the next group follows.
#[derive(Debug)]
pub struct LoadPlan {
    groups: Vec<Vec<String>>,
    group: usize,
    member: usize,
}

impl View for LoadPlan {
    type V = PlanView;

    closed spec fn view(&self) -> PlanView {
        PlanView {
            groups: path_rows(self.groups@),
            group: self.group as int,
            member: self.member as int,
        }
    }
}

/// The first group from `from` on that is not empty.
fn skip_empty(groups: &Vec<Vec<String>>, from: usize) -> (r: usize)
    requires
        from <= groups.len(),
    ensures
        r == next_group(path_rows(groups@), from as int),
        from <= r <= groups.len(),
        r < groups.len() ==> groups@[r as int].len() > 0,
{
    let mut g: usize = from;
    while g < groups.len() && groups[g].len() == 0
        invariant
            from <= g <= groups.len(),
            next_group(path_rows(groups@), from as int) == next_group(
                path_rows(groups@),
                g as int,
            ),
        decreases groups.len() - g,
    {
        g = g + 1;
    }
    g
}

impl LoadPlan {
    /// The walk is over or stands on a member of a group.
    #[verifier::type_invariant]
    spec fn stands_on_a_member(&self) -> bool {
        &&& self.group <= self.groups.len()
        &&& self.group < self.groups.len() ==> self.member < self.groups@[self.group as int].len()
    }

    /// The walk at its start: at the first object file of the first group.
    pub fn new(groups: Vec<Vec<String>>) -> (r: LoadPlan)
        ensures
            r@.groups == path_rows(groups@),
            r@.group == next_group(path_rows(groups@), 0),
            r@.member == 0,
    {
        let group = skip_empty(&groups, 0);
        LoadPlan { groups, group, member: 0 }
    }

    /// The object file to try now; `None` when the walk is over.
    pub fn current(&self) -> (r: Option<String>)
        ensures
            match r {
                Some(path) => self@.current() == Some(path@),
                None => self@.current() is None,
            },
    {
        proof {
            use_type_invariant(self);
        }
        if self.group < self.groups.len() {
            Some(self.groups[self.group][self.member].clone())
        } else {
            None
        }
    }

    /// Takes note of what came of the current object file, and moves on.
    pub fn record(&mut self, loaded: bool)
        ensures
            final(self)@ == old(self)@.after(loaded),
    {
        proof {
            use_type_invariant(&*self);
        }
        if self.group >= self.groups.len() {
            return ;
        }
        if !loaded && self.member + 1 < self.groups[self.group].len() {
            self.member = self.member + 1;
        } else {
            let next = skip_empty(&self.groups, self.group + 1);
            self.member = 0;
            self.group = next;
        }
    }
}

} // verus!
