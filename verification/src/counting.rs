//! Cardinality facts about rectangles of coordinates. The board never holds
//! more occupied cells than its bounding box has room for, and a playable
//! area always has room for a full board; both arguments count cells here.

use vstd::prelude::*;

verus! {

/// All coordinates in the half-open rectangle `[i0, i0 + ni) x [j0, j0 + nj)`.
pub open spec fn rect(i0: int, j0: int, ni: nat, nj: nat) -> Set<(int, int)> {
    Set::new(|p: (int, int)| i0 <= p.0 < i0 + ni && j0 <= p.1 < j0 + nj)
}

/// A disjoint union is as large as its two parts together.
pub proof fn lemma_disjoint_union_len<A>(s1: Set<A>, s2: Set<A>)
    requires
        s1.finite(),
        s2.finite(),
        s1.intersect(s2) == Set::<A>::empty(),
    ensures
        s1.union(s2).finite(),
        s1.union(s2).len() == s1.len() + s2.len(),
    decreases s1.len(),
{
    if s1.is_empty() {
        assert(s1.union(s2) =~= s2);
        assert(s1.len() == 0);
    } else {
        let a = s1.choose();
        assert(s1.contains(a));
        assert(!s2.contains(a)) by {
            if s2.contains(a) {
                assert(s1.intersect(s2).contains(a));
            }
        }
        assert(s1.remove(a).intersect(s2) =~= Set::<A>::empty());
        lemma_disjoint_union_len(s1.remove(a), s2);
        assert(s1.union(s2).remove(a) =~= s1.remove(a).union(s2));
        assert(s1.union(s2) =~= s1.union(s2).remove(a).insert(a));
    }
}

/// One row of `nj` cells has `nj` elements.
pub proof fn lemma_row_len(i0: int, j0: int, nj: nat)
    ensures
        rect(i0, j0, 1, nj).finite(),
        rect(i0, j0, 1, nj).len() == nj,
    decreases nj,
{
    if nj == 0 {
        assert(rect(i0, j0, 1, nj) =~= Set::<(int, int)>::empty());
    } else {
        lemma_row_len(i0, j0, (nj - 1) as nat);
        assert(rect(i0, j0, 1, nj) =~= rect(i0, j0, 1, (nj - 1) as nat).insert(
            (i0, j0 + nj - 1),
        ));
        assert(!rect(i0, j0, 1, (nj - 1) as nat).contains((i0, j0 + nj - 1)));
    }
}

/// A rectangle of `ni` by `nj` cells has `ni * nj` elements.
pub proof fn lemma_rect_len(i0: int, j0: int, ni: nat, nj: nat)
    ensures
        rect(i0, j0, ni, nj).finite(),
        rect(i0, j0, ni, nj).len() == ni * nj,
    decreases ni,
{
    if ni == 0 {
        assert(rect(i0, j0, ni, nj) =~= Set::<(int, int)>::empty());
        assert(ni * nj == 0);
    } else {
        lemma_rect_len(i0, j0, (ni - 1) as nat, nj);
        lemma_row_len(i0 + ni - 1, j0, nj);
        let body = rect(i0, j0, (ni - 1) as nat, nj);
        let row = rect(i0 + ni - 1, j0, 1, nj);
        assert(body.intersect(row) =~= Set::<(int, int)>::empty());
        lemma_disjoint_union_len(body, row);
        assert(rect(i0, j0, ni, nj) =~= body.union(row));
        assert(ni * nj == (ni - 1) * nj + nj) by (nonlinear_arith);
    }
}

} // verus!
