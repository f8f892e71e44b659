//! Folding of query positions from one domain into the next-smaller one.
//!
//! A position `p` in a domain of size `source` maps to the row index
//! `p % (source / folding_factor)` that must be opened in the next domain.
//! The folded set is returned deduplicated and in ascending order, so it
//! depends only on the set of input positions, never on their order or
//! multiplicity.

use vstd::arithmetic::div_mod::{lemma_fundamental_div_mod, lemma_mod_mod};
use vstd::prelude::*;

verus! {

/// Whether a sequence is strictly increasing (hence duplicate-free).
pub open spec fn strictly_increasing(s: Seq<usize>) -> bool {
    forall|i: int, j: int| 0 <= i < j < s.len() ==> s[i] < s[j]
}

/// The set of row indexes that a set of positions folds to.
pub open spec fn folded_set(ps: Seq<usize>, target: usize) -> Set<usize> {
    Set::new(|x: usize| exists|i: int| 0 <= i < ps.len() && x == ps[i] % target)
}

/// The members of `s` below `m`, in ascending order.
pub open spec fn members_below(s: Set<usize>, m: usize) -> Seq<usize>
    decreases m,
{
    if m == 0 {
        Seq::empty()
    } else if s.contains((m - 1) as usize) {
        members_below(s, (m - 1) as usize).push((m - 1) as usize)
    } else {
        members_below(s, (m - 1) as usize)
    }
}

/// The canonical folding of a position sequence: the ascending enumeration
/// of the row indexes it covers in the target domain.
pub open spec fn canon_fold(ps: Seq<usize>, target: usize) -> Seq<usize> {
    members_below(folded_set(ps, target), target)
}

/// An ascending sequence is determined by which elements it holds below a
/// bound: it is exactly the ascending enumeration of those members.
pub proof fn lemma_increasing_members_unique(a: Seq<usize>, s: Set<usize>, m: usize)
    requires
        strictly_increasing(a),
        forall|x: usize| a.contains(x) <==> (s.contains(x) && x < m),
    ensures
        a == members_below(s, m),
    decreases m,
{
    if m == 0 {
        if a.len() > 0 {
            assert(a.contains(a[0]));
        }
        assert(a =~= members_below(s, 0));
    } else {
        let mm = (m - 1) as usize;
        if s.contains(mm) {
            assert(a.contains(mm));
            let last = a.len() - 1;
            assert(a[last] == mm) by {
                let i = choose|i: int| 0 <= i < a.len() && a[i] == mm;
                if i < last {
                    assert(a.contains(a[last]));
                    assert(a[i] < a[last]);
                }
            }
            let b = a.drop_last();
            assert forall|x: usize| b.contains(x) <==> (s.contains(x) && x < mm) by {
                if b.contains(x) {
                    let i = choose|i: int| 0 <= i < b.len() && b[i] == x;
                    assert(a[i] == x);
                    assert(a.contains(x));
                    assert(a[i] < a[last]);
                }
                if s.contains(x) && x < mm {
                    assert(a.contains(x));
                    let i = choose|i: int| 0 <= i < a.len() && a[i] == x;
                    assert(i < last);
                    assert(b[i] == x);
                    assert(b.contains(x));
                }
            }
            lemma_increasing_members_unique(b, s, mm);
            assert(a =~= b.push(mm));
        } else {
            assert forall|x: usize| a.contains(x) <==> (s.contains(x) && x < mm) by {
                if a.contains(x) {
                    assert(x != mm);
                }
            }
            lemma_increasing_members_unique(a, s, mm);
        }
    }
}

/// Position folding depends on the queried set alone: two position sequences
/// that cover the same set of positions fold to the identical row-index
/// sequence, regardless of order, duplicates, or what else was queried
/// alongside in either run.
pub proof fn lemma_fold_depends_on_set_alone(p1: Seq<usize>, p2: Seq<usize>, target: usize)
    requires
        forall|x: usize| p1.contains(x) <==> p2.contains(x),
    ensures
        canon_fold(p1, target) == canon_fold(p2, target),
{
    assert(folded_set(p1, target) =~= folded_set(p2, target)) by {
        assert forall|x: usize|
            folded_set(p1, target).contains(x) <==> folded_set(p2, target).contains(x) by {
            if folded_set(p1, target).contains(x) {
                let i = choose|i: int| 0 <= i < p1.len() && x == p1[i] % target;
                assert(p1.contains(p1[i]));
                assert(p2.contains(p1[i]));
                let j = choose|j: int| 0 <= j < p2.len() && p2[j] == p1[i];
                assert(x == p2[j] % target);
            }
            if folded_set(p2, target).contains(x) {
                let i = choose|i: int| 0 <= i < p2.len() && x == p2[i] % target;
                assert(p2.contains(p2[i]));
                assert(p1.contains(p2[i]));
                let j = choose|j: int| 0 <= j < p1.len() && p1[j] == p2[i];
                assert(x == p1[j] % target);
            }
        }
    }
}

/// What the ascending enumeration holds: exactly the members of the set
/// below the bound.
pub proof fn lemma_members_below_contains(s: Set<usize>, m: usize)
    ensures
        forall|x: usize| #[trigger] members_below(s, m).contains(x) <==> (s.contains(x) && x < m),
    decreases m,
{
    if m > 0 {
        let mm = (m - 1) as usize;
        lemma_members_below_contains(s, mm);
        let prev = members_below(s, mm);
        assert forall|x: usize|
            #[trigger] members_below(s, m).contains(x) <==> (s.contains(x) && x < m) by {
            if s.contains(mm) {
                if members_below(s, m).contains(x) {
                    let i = choose|i: int|
                        0 <= i < members_below(s, m).len() && members_below(s, m)[i] == x;
                    if i < prev.len() {
                        assert(prev[i] == x);
                        assert(prev.contains(x));
                    }
                }
                if s.contains(x) && x < m {
                    if x < mm {
                        assert(prev.contains(x));
                        let i = choose|i: int| 0 <= i < prev.len() && prev[i] == x;
                        assert(members_below(s, m)[i] == x);
                    } else {
                        assert(members_below(s, m).last() == mm);
                    }
                    assert(members_below(s, m).contains(x));
                }
            } else {
                if s.contains(x) && x < m {
                    assert(x != mm);
                }
            }
        }
    }
}

/// Folding positions that were already folded into a coarser domain gives
/// the rows that folding the original positions straight into the finer
/// domain gives: reducing modulo `t0` and then modulo a divisor `t1` of it
/// is reducing modulo `t1`.
pub proof fn lemma_refold(ps: Seq<usize>, t0: usize, t1: usize)
    requires
        1 <= t1 <= t0,
        t0 % t1 == 0,
    ensures
        canon_fold(canon_fold(ps, t0), t1) == canon_fold(ps, t1),
{
    let a = canon_fold(ps, t0);
    lemma_members_below_contains(folded_set(ps, t0), t0);
    let b = t0 as int / t1 as int;
    lemma_fundamental_div_mod(t0 as int, t1 as int);
    assert(t1 as int * b == t0 as int);
    assert(b > 0) by (nonlinear_arith)
        requires
            t1 as int * b == t0 as int,
            1 <= t1 <= t0,
    ;
    assert forall|x: usize|
        folded_set(a, t1).contains(x) <==> folded_set(ps, t1).contains(x) by {
        if folded_set(a, t1).contains(x) {
            let i = choose|i: int| 0 <= i < a.len() && x == a[i] % t1;
            assert(a.contains(a[i]));
            let q = a[i];
            assert(folded_set(ps, t0).contains(q));
            let j = choose|j: int| 0 <= j < ps.len() && q == ps[j] % t0;
            lemma_mod_mod(ps[j] as int, t1 as int, b);
            assert(x == ps[j] % t1);
            assert(0 <= j < ps.len() && x == ps[j] % t1);
        }
        if folded_set(ps, t1).contains(x) {
            let j = choose|j: int| 0 <= j < ps.len() && x == ps[j] % t1;
            let q = ps[j] % t0;
            assert(0 <= j < ps.len() && q == ps[j] % t0);
            assert(folded_set(ps, t0).contains(q));
            assert(a.contains(q));
            let i = choose|i: int| 0 <= i < a.len() && a[i] == q;
            lemma_mod_mod(ps[j] as int, t1 as int, b);
            assert(x == q % t1);
            assert(0 <= i < a.len() && x == a[i] % t1);
        }
    }
    assert(folded_set(a, t1) =~= folded_set(ps, t1));
}

/// Each position maps to its row independently of the rest: the folded set
/// of two position sequences queried together is the union of their folded
/// sets, and the canonical folding of the join enumerates that union.
pub proof fn lemma_fold_of_join_is_union(p1: Seq<usize>, p2: Seq<usize>, target: usize)
    ensures
        folded_set(p1 + p2, target) == folded_set(p1, target).union(folded_set(p2, target)),
        canon_fold(p1 + p2, target) == members_below(
            folded_set(p1, target).union(folded_set(p2, target)),
            target,
        ),
{
    let joined = p1 + p2;
    assert forall|x: usize|
        folded_set(joined, target).contains(x) <==> (folded_set(p1, target).contains(x)
            || folded_set(p2, target).contains(x)) by {
        if folded_set(joined, target).contains(x) {
            let i = choose|i: int| 0 <= i < joined.len() && x == joined[i] % target;
            if i < p1.len() {
                assert(joined[i] == p1[i]);
                assert(0 <= i < p1.len() && x == p1[i] % target);
            } else {
                let j = i - p1.len();
                assert(joined[i] == p2[j]);
                assert(0 <= j < p2.len() && x == p2[j] % target);
            }
        }
        if folded_set(p1, target).contains(x) {
            let i = choose|i: int| 0 <= i < p1.len() && x == p1[i] % target;
            assert(joined[i] == p1[i]);
            assert(0 <= i < joined.len() && x == joined[i] % target);
        }
        if folded_set(p2, target).contains(x) {
            let j = choose|j: int| 0 <= j < p2.len() && x == p2[j] % target;
            assert(joined[p1.len() + j] == p2[j]);
            assert(0 <= p1.len() + j < joined.len() && x == joined[p1.len() + j] % target);
        }
    }
    assert(folded_set(joined, target) =~= folded_set(p1, target).union(folded_set(p2, target)));
}

/// Folds a set of positions in a domain of size `source_domain_size` into
/// the deduplicated, ascending set of row indexes that covers them in the
/// `folding_factor`-times-smaller domain.
pub fn fold_positions(
    positions: &Vec<usize>,
    source_domain_size: usize,
    folding_factor: usize,
) -> (r: Vec<usize>)
    requires
        1 <= folding_factor <= source_domain_size,
    ensures
        r@ == canon_fold(positions@, (source_domain_size / folding_factor) as usize),
        strictly_increasing(r@),
        forall|i: int|
            0 <= i < r@.len() ==> r@[i] < source_domain_size / folding_factor,
        positions@.len() > 0 ==> r@.len() > 0,
{
    let target = source_domain_size / folding_factor;
    assert(target >= 1) by (nonlinear_arith)
        requires 1 <= folding_factor <= source_domain_size, target == source_domain_size / folding_factor;
    let mut r: Vec<usize> = Vec::new();
    let mut idx: usize = 0;
    while idx < positions.len()
        invariant
            idx <= positions@.len(),
            target >= 1,
            strictly_increasing(r@),
            forall|q: int| 0 <= q < r@.len() ==> r@[q] < target,
            forall|x: usize|
                r@.contains(x) <==> folded_set(positions@.take(idx as int), target).contains(x),
            idx > 0 ==> r@.len() > 0,
        decreases positions@.len() - idx,
    {
        let ghost prev = r@;
        let ghost taken = positions@.take(idx as int);
        let p = positions[idx] % target;
        let mut lo: usize = 0;
        while lo < r.len() && r[lo] < p
            invariant
                lo <= r@.len(),
                forall|q: int| 0 <= q < lo ==> r@[q] < p,
                r@ == prev,
            decreases r@.len() - lo,
        {
            lo = lo + 1;
        }
        if lo == r.len() {
            r.push(p);
        } else if r[lo] > p {
            r.insert(lo, p);
        }
        proof {
            let ps1 = positions@.take(idx + 1);
            assert(ps1 =~= taken.push(positions@[idx as int]));
            // after the update, r holds exactly the old members plus p
            assert forall|x: usize| #[trigger] r@.contains(x) implies prev.contains(x) || x == p by {
                let i = choose|i: int| 0 <= i < r@.len() && r@[i] == x;
                if lo < prev.len() && prev[lo as int] == p {
                    assert(prev[i] == x);
                } else if i < lo {
                    assert(prev[i] == x);
                } else if i == lo {
                    assert(x == p);
                } else {
                    assert(prev[i - 1] == x);
                }
            }
            assert forall|x: usize| prev.contains(x) || x == p implies #[trigger] r@.contains(x) by {
                if x == p {
                    assert(r@[lo as int] == p);
                } else {
                    let i = choose|i: int| 0 <= i < prev.len() && prev[i] == x;
                    if lo < prev.len() && prev[lo as int] == p {
                        assert(r@[i] == x);
                    } else if i < lo {
                        assert(r@[i] == x);
                    } else {
                        assert(r@[i + 1] == x);
                    }
                }
            }
            // the new membership matches the folded set of one more position
            assert forall|x: usize|
                r@.contains(x) <==> folded_set(ps1, target).contains(x) by {
                if r@.contains(x) {
                    if prev.contains(x) {
                        assert(folded_set(taken, target).contains(x));
                        let i = choose|i: int| 0 <= i < taken.len() && x == taken[i] % target;
                        assert(ps1[i] == taken[i]);
                        assert(0 <= i < ps1.len() && x == ps1[i] % target);
                    } else {
                        assert(x == p);
                        assert(ps1[idx as int] == positions@[idx as int]);
                        assert(0 <= idx < ps1.len() && x == ps1[idx as int] % target);
                    }
                }
                if folded_set(ps1, target).contains(x) {
                    let i = choose|i: int| 0 <= i < ps1.len() && x == ps1[i] % target;
                    if i < idx {
                        assert(taken[i] == ps1[i]);
                        assert(0 <= i < taken.len() && x == taken[i] % target);
                        assert(folded_set(taken, target).contains(x));
                        assert(prev.contains(x));
                    } else {
                        assert(x == p);
                    }
                    assert(r@.contains(x));
                }
            }
            // the update kept the sequence strictly increasing
            assert forall|i: int, j: int| 0 <= i < j < r@.len() implies r@[i] < r@[j] by {
                if !(lo < prev.len() && prev[lo as int] == p) {
                    assert(forall|q: int| 0 <= q < lo ==> r@[q] == prev[q]);
                    assert(r@[lo as int] == p);
                    assert(forall|q: int| lo < q < r@.len() ==> r@[q] == prev[q - 1]);
                    if lo < prev.len() {
                        assert(prev[lo as int] > p);
                    }
                }
            }
        }
        idx = idx + 1;
    }
    proof {
        assert(positions@.take(positions@.len() as int) == positions@);
        assert forall|x: usize|
            r@.contains(x) <==> (folded_set(positions@, target).contains(x) && x < target) by {
            if folded_set(positions@, target).contains(x) {
                let i = choose|i: int| 0 <= i < positions@.len() && x == positions@[i] % target;
            }
        }
        lemma_increasing_members_unique(r@, folded_set(positions@, target), target);
        if positions@.len() > 0 {
            assert(folded_set(positions@, target).contains(positions@[0] % target));
            assert(r@.contains(positions@[0] % target));
        }
    }
    r
}

} // verus!
