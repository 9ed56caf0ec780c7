//! Reordering the entity array in place by ascending cell id.
//!
//! Entities enter a frame nearly sorted from the previous frame, so an
//! insertion sort runs in near-linear time on small motion; its contract
//! promises a sorted permutation of the input regardless.

use vstd::prelude::*;
use crate::ball::Ball;

verus! {

/// An entity tagged with the id of the grid cell containing it, the unit
/// the bucket builder sorts and groups.
#[derive(Clone, Copy, PartialEq, Eq, Structural, Debug)]
pub struct CellEntity {
    pub cell: u64,
    pub ball: Ball,
}

/// The entity sequence is ordered by ascending cell id.
pub open spec fn sorted_by_cell(s: Seq<CellEntity>) -> bool {
    forall|p: int, q: int| 0 <= p < q < s.len() ==> s[p].cell <= s[q].cell
}

/// The subsequence of entities lying in cell `c`, in their original order.
pub open spec fn entities_in_cell(s: Seq<CellEntity>, c: int) -> Seq<CellEntity> {
    s.filter(|e: CellEntity| e.cell == c)
}

/// Appending an entity extends exactly the subsequence of its own cell and
/// no other.
pub proof fn lemma_in_cell_push(s: Seq<CellEntity>, e: CellEntity, c: int)
    ensures
        entities_in_cell(s.push(e), c) == if e.cell == c {
            entities_in_cell(s, c).push(e)
        } else {
            entities_in_cell(s, c)
        },
{
    reveal(Seq::filter);
    assert(s.push(e).drop_last() =~= s);
    assert(s.push(e).last() == e);
}

/// Every entity of a permutation comes from the original sequence: any
/// property of all the original entities holds of all the permuted ones.
pub proof fn lemma_permutation_members(s1: Seq<CellEntity>, s2: Seq<CellEntity>)
    requires
        s1.to_multiset() == s2.to_multiset(),
    ensures
        forall|k: int| 0 <= k < s1.len() ==> s2.contains(#[trigger] s1[k]),
{
    broadcast use vstd::seq_lib::group_to_multiset_ensures;

    assert forall|k: int| 0 <= k < s1.len() implies s2.contains(#[trigger] s1[k]) by {
        assert(s1.contains(s1[k]));
        assert(s2.to_multiset().count(s1[k]) > 0);
    }
}

/// The empty sequence has no entities in any cell.
pub proof fn lemma_in_cell_empty(c: int)
    ensures
        entities_in_cell(Seq::<CellEntity>::empty(), c) == Seq::<CellEntity>::empty(),
{
    reveal(Seq::filter);
}

/// Filtering a two-entity sequence for a cell does not depend on the
/// order of the two when their cells differ: at most one of them matches.
proof fn lemma_in_cell_pair_swap(a: CellEntity, b: CellEntity, c: int)
    requires
        a.cell != b.cell,
    ensures
        entities_in_cell(seq![a, b], c) == entities_in_cell(seq![b, a], c),
{
    lemma_in_cell_empty(c);
    assert(Seq::<CellEntity>::empty().push(a) =~= seq![a]);
    assert(Seq::<CellEntity>::empty().push(b) =~= seq![b]);
    assert(seq![a].push(b) =~= seq![a, b]);
    assert(seq![b].push(a) =~= seq![b, a]);
    lemma_in_cell_push(Seq::<CellEntity>::empty(), a, c);
    lemma_in_cell_push(Seq::<CellEntity>::empty(), b, c);
    lemma_in_cell_push(seq![a], b, c);
    lemma_in_cell_push(seq![b], a, c);
    if a.cell == c {
        assert(entities_in_cell(seq![a, b], c) =~= entities_in_cell(seq![b, a], c));
    } else if b.cell == c {
        assert(entities_in_cell(seq![a, b], c) =~= entities_in_cell(seq![b, a], c));
    } else {
        assert(entities_in_cell(seq![a, b], c) =~= entities_in_cell(seq![b, a], c));
    }
}

/// Swapping two adjacent entities of different cells leaves every
/// per-cell subsequence unchanged.
proof fn lemma_adjacent_swap_stable(s: Seq<CellEntity>, j: int)
    requires
        1 <= j < s.len(),
        s[j - 1].cell != s[j].cell,
    ensures
        forall|c: int|
            #[trigger] entities_in_cell(s.update(j - 1, s[j]).update(j, s[j - 1]), c)
                == entities_in_cell(s, c),
{
    broadcast use vstd::seq_lib::group_filter_ensures;

    let a = s[j - 1];
    let b = s[j];
    let t = s.update(j - 1, b).update(j, a);
    let pre = s.subrange(0, j - 1);
    let suf = s.subrange(j + 1, s.len() as int);
    assert(s =~= (pre + seq![a, b]) + suf);
    assert(t =~= (pre + seq![b, a]) + suf);
    assert forall|c: int|
        #[trigger] entities_in_cell(t, c) == entities_in_cell(s, c) by {
        lemma_in_cell_pair_swap(a, b, c);
        assert(entities_in_cell((pre + seq![a, b]) + suf, c) == (entities_in_cell(pre, c)
            + entities_in_cell(seq![a, b], c)) + entities_in_cell(suf, c));
        assert(entities_in_cell((pre + seq![b, a]) + suf, c) == (entities_in_cell(pre, c)
            + entities_in_cell(seq![b, a], c)) + entities_in_cell(suf, c));
    }
}

/// Sorts the entity array in place by ascending cell id. The result is a
/// stable permutation of the input: same length, same entities with the
/// same multiplicities, and for every cell the same subsequence of
/// entities in the same order.
pub fn insertion_sort_by_cell(v: &mut Vec<CellEntity>)
    ensures
        final(v)@.len() == old(v)@.len(),
        sorted_by_cell(final(v)@),
        final(v)@.to_multiset() == old(v)@.to_multiset(),
        forall|c: int|
            #[trigger] entities_in_cell(final(v)@, c) == entities_in_cell(old(v)@, c),
{
    let ghost orig = v@;
    let n = v.len();
    if n == 0 {
        return ;
    }
    let mut i: usize = 1;
    while i < n
        invariant
            1 <= i <= n,
            v@.len() == n,
            forall|p: int, q: int| 0 <= p < q < i ==> v@[p].cell <= v@[q].cell,
            v@.to_multiset() == orig.to_multiset(),
            forall|c: int| #[trigger] entities_in_cell(v@, c) == entities_in_cell(orig, c),
        decreases n - i,
    {
        let mut j: usize = i;
        while j > 0 && v[j - 1].cell > v[j].cell
            invariant
                0 <= j <= i < n,
                v@.len() == n,
                v@.to_multiset() == orig.to_multiset(),
                forall|p: int, q: int|
                    0 <= p < q <= i && q != j ==> v@[p].cell <= v@[q].cell,
                forall|q: int| j < q <= i ==> v@[j as int].cell <= v@[q].cell,
                forall|c: int| #[trigger] entities_in_cell(v@, c) == entities_in_cell(orig, c),
            decreases j,
        {
            let ghost before = v@;
            let a = v[j - 1];
            let b = v[j];
            v[j - 1] = b;
            v[j] = a;
            proof {
                broadcast use vstd::seq_lib::to_multiset_update;
                broadcast use vstd::seq_lib::group_to_multiset_ensures;
                broadcast use vstd::multiset::group_multiset_axioms;

                assert(before.contains(a)) by {
                    assert(before[j - 1] == a);
                }
                assert(v@ == before.update(j - 1, b).update(j as int, a));
                assert(v@.to_multiset() =~= before.to_multiset());
                lemma_adjacent_swap_stable(before, j as int);
            }
            j = j - 1;
        }
        i = i + 1;
    }
}

} // verus!
