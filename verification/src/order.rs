//! The dictionary order on texts: character by character, a proper prefix
//! before what it is a prefix of.

use vstd::prelude::*;

verus! {

/// `a` and `b` agree on their first `k` characters.
pub open spec fn agree_up_to(a: Seq<char>, b: Seq<char>, k: int) -> bool {
    &&& 0 <= k <= a.len()
    &&& k <= b.len()
    &&& forall|i: int| 0 <= i < k ==> a[i] == b[i]
}

/// `a` parts from `b` at `k` and is the smaller there: it ends where `b` goes
/// on, or it holds the smaller character.
pub open spec fn less_at(a: Seq<char>, b: Seq<char>, k: int) -> bool {
    &&& agree_up_to(a, b, k)
    &&& k < b.len()
    &&& (k == a.len() || a[k] < b[k])
}

/// `a` stands before `b` in the dictionary.
pub open spec fn lex_less(a: Seq<char>, b: Seq<char>) -> bool {
    exists|k: int| less_at(a, b, k)
}

/// Two texts can part at one place only.
pub proof fn lemma_parting_is_unique(a: Seq<char>, b: Seq<char>, j: int, k: int)
    requires
        less_at(a, b, j),
        agree_up_to(a, b, k),
        k == a.len() || k == b.len() || a[k] != b[k],
    ensures
        j == k,
{
    if j < k {
        assert(a[j] == b[j]);
    } else if k < j {
        assert(a[k] == b[k]);
    }
}

/// No text stands before itself.
pub proof fn lemma_lex_irreflexive(a: Seq<char>)
    ensures
        !lex_less(a, a),
{
    if lex_less(a, a) {
        let k = choose|k: int| less_at(a, a, k);
        assert(k < a.len() && a[k] < a[k]);
    }
}

/// Of two texts, one stands before the other or they are the same.
pub proof fn lemma_lex_total(a: Seq<char>, b: Seq<char>)
    ensures
        lex_less(a, b) || lex_less(b, a) || a == b,
    decreases a.len() + b.len(),
{
    let k = first_parting(a, b, 0);
    lemma_first_parting(a, b, 0);
    if k == a.len() && k == b.len() {
        assert(a =~= b);
    } else if k == a.len() {
        assert(less_at(a, b, k));
    } else if k == b.len() {
        assert(less_at(b, a, k));
    } else if a[k] < b[k] {
        assert(less_at(a, b, k));
    } else {
        assert(less_at(b, a, k));
    }
}

/// The first place from `from` on at which `a` and `b` part.
pub open spec fn first_parting(a: Seq<char>, b: Seq<char>, from: int) -> int
    decreases a.len() - from,
{
    if 0 <= from < a.len() && from < b.len() && a[from] == b[from] {
        first_parting(a, b, from + 1)
    } else {
        from
    }
}

/// `first_parting` gives a place up to which the two agree and at which they
/// part or one of them ends.
pub proof fn lemma_first_parting(a: Seq<char>, b: Seq<char>, from: int)
    requires
        agree_up_to(a, b, from),
    ensures
        agree_up_to(a, b, first_parting(a, b, from)),
        ({
            let k = first_parting(a, b, from);
            k == a.len() || k == b.len() || a[k] != b[k]
        }),
    decreases a.len() - from,
{
    if from < a.len() && from < b.len() && a[from] == b[from] {
        lemma_first_parting(a, b, from + 1);
    }
}

/// At most one of the three holds.
pub proof fn lemma_lex_asymmetric(a: Seq<char>, b: Seq<char>)
    requires
        lex_less(a, b),
    ensures
        !lex_less(b, a),
        a != b,
{
    let j = choose|j: int| less_at(a, b, j);
    if lex_less(b, a) {
        let k = choose|k: int| less_at(b, a, k);
        if j < k {
            assert(b[j] == a[j]);
        } else if k < j {
            assert(a[k] == b[k]);
        }
    }
    lemma_lex_irreflexive(a);
}

/// What stands before a text stands before all that the text stands before.
pub proof fn lemma_lex_transitive(a: Seq<char>, b: Seq<char>, c: Seq<char>)
    requires
        lex_less(a, b),
        lex_less(b, c),
    ensures
        lex_less(a, c),
{
    let j = choose|j: int| less_at(a, b, j);
    let k = choose|k: int| less_at(b, c, k);
    if j <= k {
        assert forall|i: int| 0 <= i < j implies a[i] == c[i] by {
            assert(a[i] == b[i]);
            assert(b[i] == c[i]);
        }
        if j < k {
            assert(b[j] == c[j]);
        }
        assert(less_at(a, c, j));
    } else {
        assert forall|i: int| 0 <= i < k implies a[i] == c[i] by {
            assert(a[i] == b[i]);
            assert(b[i] == c[i]);
        }
        assert(a[k] == b[k]);
        assert(less_at(a, c, k));
    }
}

/// Tells whether `a` stands before `b` in the dictionary.
pub fn lex_lt(a: &Vec<char>, b: &Vec<char>) -> (r: bool)
    ensures
        r == lex_less(a@, b@),
{
    let mut k: usize = 0;
    while k < a.len() && k < b.len() && a[k] == b[k]
        invariant
            agree_up_to(a@, b@, k as int),
        decreases a.len() - k,
    {
        k = k + 1;
    }
    let r = k < b.len() && (k == a.len() || a[k] < b[k]);
    proof {
        if r {
            assert(less_at(a@, b@, k as int));
        } else if lex_less(a@, b@) {
            let j = choose|j: int| less_at(a@, b@, j);
            lemma_parting_is_unique(a@, b@, j, k as int);
        }
    }
    r
}

/// Tells whether two texts are the same.
pub fn same_text(a: &Vec<char>, b: &Vec<char>) -> (r: bool)
    ensures
        r == (a@ == b@),
{
    if a.len() != b.len() {
        return false;
    }
    let mut k: usize = 0;
    while k < a.len()
        invariant
            a.len() == b.len(),
            agree_up_to(a@, b@, k as int),
        decreases a.len() - k,
    {
        if a[k] != b[k] {
            return false;
        }
        k = k + 1;
    }
    proof {
        assert(a@ =~= b@);
    }
    true
}

} // verus!
