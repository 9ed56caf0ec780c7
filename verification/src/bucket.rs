//! The bucket table: for each grid cell, where its entities stand in the
//! entity array.
//!
//! Two forms are built every frame and discarded with it:
//!
//! - for a cell-id-sorted array, `find_cell_range` binary-searches the
//!   index range `[start, end]` of one cell, and `build_bucket_table`
//!   collects the ranges of all cells, visiting them in ascending order so
//!   the search window only shrinks; an empty cell yields the sentinel
//!   `(-1, -1)`;
//! - `rebuild_by_cell` regroups an unsorted array cell by cell outright,
//!   and `build_lookup` derives the "first entity index per cell" table of
//!   a sorted array by comparing each entity's cell with its predecessor's.

use vstd::prelude::*;
use crate::sort::{entities_in_cell, lemma_in_cell_empty, lemma_in_cell_push, sorted_by_cell, CellEntity};

verus! {

/// `(start, end)` is the bucket of cell `c` in `s`: either the sentinel
/// `(-1, -1)` and no entity of `s` lies in `c`, or exactly the indices
/// `start..=end` hold the entities of `c`.
pub open spec fn range_describes(s: Seq<CellEntity>, c: int, start: int, end: int) -> bool {
    if start == -1 {
        end == -1 && forall|k: int| 0 <= k < s.len() ==> (#[trigger] s[k]).cell != c
    } else {
        &&& 0 <= start <= end < s.len()
        &&& forall|k: int| 0 <= k < s.len() ==> ((#[trigger] s[k]).cell == c <==> start <= k <= end)
    }
}

/// `l` is the head pointer of cell `c` in `s`: either `-1` and no entity
/// of `s` lies in `c`, or the index of the first entity of `c`.
pub open spec fn lookup_describes(s: Seq<CellEntity>, c: int, l: int) -> bool {
    if l == -1 {
        forall|k: int| 0 <= k < s.len() ==> (#[trigger] s[k]).cell != c
    } else {
        &&& 0 <= l < s.len()
        &&& s[l].cell == c
        &&& forall|k: int| 0 <= k < l ==> (#[trigger] s[k]).cell != c
    }
}

/// The index range of the entities of cell `target` in the sorted array
/// `v`, searching only the suffix from `lo` on; `(-1, -1)` when the cell
/// is empty. A binary search finds some entity of the cell, then linear
/// scans find the first and last, since under duplicate keys the binary
/// search alone lands on an arbitrary one.
pub fn find_cell_range(v: &Vec<CellEntity>, target: u64, lo: usize) -> (r: (i64, i64))
    requires
        sorted_by_cell(v@),
        lo <= v@.len(),
        forall|k: int| 0 <= k < lo ==> (#[trigger] v@[k]).cell < target,
        v@.len() < 0x1000_0000_0000_0000,
    ensures
        range_describes(v@, target as int, r.0 as int, r.1 as int),
{
    let n = v.len();
    let mut low: usize = lo;
    let mut high: usize = n;
    let mut found: i64 = -1;
    while low < high && found < 0
        invariant
            lo <= low <= high <= n,
            n == v@.len() < 0x1000_0000_0000_0000,
            sorted_by_cell(v@),
            forall|k: int| 0 <= k < low ==> (#[trigger] v@[k]).cell < target,
            forall|k: int| high <= k < n ==> (#[trigger] v@[k]).cell > target,
            found >= 0 ==> lo <= found < n && v@[found as int].cell == target,
        decreases high - low, (if found < 0 {
            1int
        } else {
            0int
        }),
    {
        let mid = low + (high - low) / 2;
        if v[mid].cell < target {
            low = mid + 1;
        } else if v[mid].cell > target {
            high = mid;
        } else {
            found = mid as i64;
        }
    }
    if found < 0 {
        return (-1, -1);
    }
    let mut s: usize = found as usize;
    let mut e: usize = found as usize;
    while s > lo && v[s - 1].cell == target
        invariant
            lo <= s <= found,
            found < n == v@.len(),
            sorted_by_cell(v@),
            v@[s as int].cell == target,
            forall|k: int| 0 <= k < lo ==> (#[trigger] v@[k]).cell < target,
        decreases s,
    {
        s = s - 1;
    }
    while e + 1 < n && v[e + 1].cell == target
        invariant
            found <= e < n == v@.len(),
            sorted_by_cell(v@),
            v@[e as int].cell == target,
        decreases n - e,
    {
        e = e + 1;
    }
    proof {
        assert forall|k: int| 0 <= k < v@.len() implies ((#[trigger] v@[k]).cell == target <==> s
            <= k <= e) by {
            if s <= k <= e {
                assert(v@[s as int].cell <= v@[k].cell <= v@[e as int].cell || k == s || k == e);
            } else if k < s {
                if k >= lo {
                    assert(v@[k].cell <= v@[s - 1].cell);
                }
            } else {
                assert(v@[e + 1].cell <= v@[k].cell || k == e + 1);
            }
        }
    }
    (s as i64, e as i64)
}

/// The bucket table of the sorted array `v`: for every cell id below
/// `num_cells`, the index range of its entities, with `(-1, -1)` for an
/// empty cell. Cells are visited in ascending id order, so each search
/// starts where the previous cell's range ended.
pub fn build_bucket_table(v: &Vec<CellEntity>, num_cells: usize) -> (t: Vec<(i64, i64)>)
    requires
        sorted_by_cell(v@),
        forall|k: int| 0 <= k < v@.len() ==> (#[trigger] v@[k]).cell < num_cells,
        v@.len() < 0x1000_0000_0000_0000,
    ensures
        t@.len() == num_cells,
        forall|c: int|
            0 <= c < num_cells ==> range_describes(v@, c, (#[trigger] t@[c]).0 as int, t@[c].1 as int),
{
    let n = v.len();
    let mut t: Vec<(i64, i64)> = Vec::new();
    let mut lo: usize = 0;
    let mut c: usize = 0;
    while c < num_cells
        invariant
            0 <= c <= num_cells,
            n == v@.len(),
            lo <= v@.len() < 0x1000_0000_0000_0000,
            sorted_by_cell(v@),
            forall|k: int| 0 <= k < v@.len() ==> (#[trigger] v@[k]).cell < num_cells,
            t@.len() == c,
            forall|c2: int|
                0 <= c2 < c ==> range_describes(v@, c2, (#[trigger] t@[c2]).0 as int, t@[c2].1 as int),
            forall|k: int| 0 <= k < lo ==> (#[trigger] v@[k]).cell < c,
        decreases num_cells - c,
    {
        let r = find_cell_range(v, c as u64, lo);
        if r.0 >= 0 {
            proof {
                assert(0 <= r.0 <= r.1 < v@.len());
                assert forall|k: int| 0 <= k < r.1 + 1 implies (#[trigger] v@[k]).cell < c + 1 by {
                    if k < r.0 {
                        assert(v@[k].cell <= v@[r.0 as int].cell);
                        assert(v@[r.0 as int].cell == c);
                    }
                }
            }
            lo = (r.1 as usize) + 1;
        }
        t.push(r);
        c = c + 1;
    }
    t
}

/// Bucket completeness: when every entity's cell id is below `num_cells`
/// and the table describes every cell's range, every entity index lies in
/// the range of its own cell and of no other — the ranges partition the
/// indices, so no entity is lost or duplicated.
pub proof fn lemma_buckets_partition(s: Seq<CellEntity>, t: Seq<(i64, i64)>, num_cells: int)
    requires
        t.len() == num_cells,
        forall|c: int|
            0 <= c < num_cells ==> range_describes(s, c, (#[trigger] t[c]).0 as int, t[c].1 as int),
        forall|k: int| 0 <= k < s.len() ==> 0 <= (#[trigger] s[k]).cell < num_cells,
    ensures
        forall|k: int|
            0 <= k < s.len() ==> {
                let c = (#[trigger] s[k]).cell as int;
                t[c].0 <= k <= t[c].1
            },
        forall|k: int, c: int|
            0 <= k < s.len() && 0 <= c < num_cells && c != (#[trigger] s[k]).cell as int ==> !((
            #[trigger] t[c]).0 <= k <= t[c].1),
{
    assert forall|k: int| 0 <= k < s.len() implies {
        let c = (#[trigger] s[k]).cell as int;
        t[c].0 <= k <= t[c].1
    } by {
        let c = s[k].cell as int;
        assert(range_describes(s, c, t[c].0 as int, t[c].1 as int));
    }
    assert forall|k: int, c: int|
        0 <= k < s.len() && 0 <= c < num_cells && c != (#[trigger] s[k]).cell as int implies !((
    #[trigger] t[c]).0 <= k <= t[c].1) by {
        assert(range_describes(s, c, t[c].0 as int, t[c].1 as int));
    }
}

/// Rebuilds the entity array grouped by cell: the entities of cell 0 in
/// their original order, then those of cell 1, and so on, together with
/// the head-pointer lookup table. The grouping is a stable permutation:
/// for every cell, the rebuilt array holds exactly the input's
/// subsequence of that cell.
pub fn rebuild_by_cell(v: &Vec<CellEntity>, num_cells: usize) -> (r: (Vec<CellEntity>, Vec<i64>))
    requires
        forall|k: int| 0 <= k < v@.len() ==> (#[trigger] v@[k]).cell < num_cells,
        v@.len() < 0x1000_0000_0000_0000,
    ensures
        r.0@.len() == v@.len(),
        sorted_by_cell(r.0@),
        forall|c: int| entities_in_cell(r.0@, c) == entities_in_cell(v@, c),
        r.0@.to_multiset() == v@.to_multiset(),
        r.1@.len() == num_cells,
        forall|c: int| 0 <= c < num_cells ==> lookup_describes(r.0@, c, (#[trigger] r.1@[c]) as int),
{
    let n = v.len();
    let mut out: Vec<CellEntity> = Vec::new();
    let mut c: usize = 0;
    while c < num_cells
        invariant
            0 <= c <= num_cells,
            n == v@.len() < 0x1000_0000_0000_0000,
            forall|k: int| 0 <= k < v@.len() ==> (#[trigger] v@[k]).cell < num_cells,
            out@ == grouped_prefix(v@, c as int),
            forall|k: int| 0 <= k < out@.len() ==> (#[trigger] out@[k]).cell < c,
            sorted_by_cell(out@),
        decreases num_cells - c,
    {
        let ghost out_before = out@;
        let mut i: usize = 0;
        proof {
            assert(v@.subrange(0, 0) =~= Seq::<CellEntity>::empty());
            lemma_in_cell_empty(c as int);
            assert(out@ =~= out_before + entities_in_cell(v@.subrange(0, 0), c as int));
        }
        while i < n
            invariant
                0 <= i <= n,
                n == v@.len(),
                out@ == out_before + entities_in_cell(v@.subrange(0, i as int), c as int),
                forall|k: int|
                    out_before.len() <= k < out@.len() ==> (#[trigger] out@[k]).cell == c,
            decreases n - i,
        {
            proof {
                assert(v@.subrange(0, i + 1) =~= v@.subrange(0, i as int).push(v@[i as int]));
                lemma_in_cell_push(v@.subrange(0, i as int), v@[i as int], c as int);
            }
            if v[i].cell == c as u64 {
                out.push(v[i]);
            }
            i = i + 1;
        }
        proof {
            assert(v@.subrange(0, n as int) =~= v@);
            assert(out@ == grouped_prefix(v@, c as int) + entities_in_cell(v@, c as int));
            assert(out@ == grouped_prefix(v@, c + 1));
            assert forall|p: int, q: int| 0 <= p < q < out@.len() implies out@[p].cell
                <= out@[q].cell by {
                if p < out_before.len() && q >= out_before.len() {
                    assert(out@[p].cell < c && out@[q].cell == c);
                }
            }
        }
        c = c + 1;
    }
    proof {
        broadcast use vstd::seq_lib::group_to_multiset_ensures;

        lemma_grouped_prefix_complete(v@, num_cells as int);
        lemma_grouped_prefix_multiset(v@, num_cells as int);
        assert(out@.to_multiset().len() == out@.len());
        assert(v@.to_multiset().len() == v@.len());
    }
    let lookup = build_lookup(&out, num_cells);
    (out, lookup)
}

/// The concatenation of the per-cell subsequences of `s` for all cells
/// below `c`, in ascending cell order.
pub open spec fn grouped_prefix(s: Seq<CellEntity>, c: int) -> Seq<CellEntity>
    decreases c,
{
    if c <= 0 {
        Seq::empty()
    } else {
        grouped_prefix(s, c - 1) + entities_in_cell(s, c - 1)
    }
}

/// A sequence with no entity in cell `c` filters to nothing for `c`.
proof fn lemma_in_cell_none(s: Seq<CellEntity>, c: int)
    requires
        forall|k: int| 0 <= k < s.len() ==> ((#[trigger] s[k]).cell as int) != c,
    ensures
        entities_in_cell(s, c) == Seq::<CellEntity>::empty(),
    decreases s.len(),
{
    reveal(Seq::filter);
    if s.len() == 0 {
        assert(entities_in_cell(s, c) =~= Seq::<CellEntity>::empty());
    } else {
        lemma_in_cell_none(s.drop_last(), c);
        lemma_in_cell_push(s.drop_last(), s.last(), c);
        assert(s.drop_last().push(s.last()) =~= s);
    }
}

/// Every entity of `s` with every cell id below `c` appears in
/// `grouped_prefix(s, c)`: the grouped prefix is all of the groups
/// together, hence a permutation of `s` once `c` covers every cell.
proof fn lemma_grouped_prefix_multiset(s: Seq<CellEntity>, c: int)
    requires
        forall|k: int| 0 <= k < s.len() ==> 0 <= ((#[trigger] s[k]).cell as int) < c,
    ensures
        grouped_prefix(s, c).to_multiset() == s.to_multiset(),
    decreases s.len(),
{
    broadcast use vstd::seq_lib::group_to_multiset_ensures;
    broadcast use vstd::multiset::group_multiset_axioms;

    if s.len() == 0 {
        assert(s =~= Seq::<CellEntity>::empty());
        lemma_grouped_prefix_of_empty(c);
        assert(grouped_prefix(s, c) =~= Seq::<CellEntity>::empty());
        assert(grouped_prefix(s, c).to_multiset() =~= s.to_multiset());
    } else {
        let s0 = s.drop_last();
        let e = s.last();
        assert(s == s0.push(e));
        assert(forall|k: int| 0 <= k < s0.len() ==> 0 <= ((#[trigger] s0[k]).cell as int) < c);
        lemma_grouped_prefix_multiset(s0, c);
        lemma_grouped_prefix_push(s0, e, c);
        assert(s0.push(e).to_multiset() == s0.to_multiset().insert(e));
    }
}

/// Extending the underlying sequence by one entity inserts it into exactly
/// one group of the grouped prefix, as long as its cell lies below `c`.
proof fn lemma_grouped_prefix_push(s: Seq<CellEntity>, e: CellEntity, c: int)
    requires
        0 <= (e.cell as int) < c,
    ensures
        grouped_prefix(s.push(e), c).to_multiset() == grouped_prefix(s, c).to_multiset().insert(e),
    decreases c,
{
    broadcast use vstd::seq_lib::group_to_multiset_ensures;
    broadcast use vstd::multiset::group_multiset_axioms;
    broadcast use vstd::seq_lib::lemma_multiset_commutative;

    if c <= 0 {
    } else {
        lemma_in_cell_push(s, e, c - 1);
        if (e.cell as int) == c - 1 {
            lemma_grouped_prefix_same(s.push(e), s, c - 1);
            assert(grouped_prefix(s.push(e), c).to_multiset() =~= grouped_prefix(
                s,
                c,
            ).to_multiset().insert(e));
        } else {
            lemma_grouped_prefix_push(s, e, c - 1);
            assert(grouped_prefix(s.push(e), c).to_multiset() =~= grouped_prefix(
                s,
                c,
            ).to_multiset().insert(e));
        }
    }
}

/// Groups below `c` ignore an appended entity of a cell at or above `c`.
proof fn lemma_grouped_prefix_same(s_new: Seq<CellEntity>, s: Seq<CellEntity>, c: int)
    requires
        s_new == s.push(s_new.last()),
        s_new.len() == s.len() + 1,
        (s_new.last().cell as int) >= c,
    ensures
        grouped_prefix(s_new, c) == grouped_prefix(s, c),
    decreases c,
{
    if c <= 0 {
    } else {
        lemma_grouped_prefix_same(s_new, s, c - 1);
        lemma_in_cell_push(s, s_new.last(), c - 1);
    }
}

proof fn lemma_grouped_prefix_of_empty(c: int)
    ensures
        grouped_prefix(Seq::<CellEntity>::empty(), c).len() == 0,
    decreases c,
{
    reveal(Seq::filter);
    if c <= 0 {
    } else {
        lemma_grouped_prefix_of_empty(c - 1);
    }
}

/// Once `c` reaches `num_cells`, the grouped prefix of the full array is
/// the array regrouped: sorted by cell and with each cell's subsequence
/// kept in order.
proof fn lemma_grouped_prefix_complete(s: Seq<CellEntity>, num_cells: int)
    requires
        forall|k: int| 0 <= k < s.len() ==> 0 <= ((#[trigger] s[k]).cell as int) < num_cells,
    ensures
        forall|c: int|
            entities_in_cell(#[trigger] grouped_prefix(s, num_cells), c) == entities_in_cell(s, c),
{
    assert forall|c: int|
        entities_in_cell(#[trigger] grouped_prefix(s, num_cells), c) == entities_in_cell(
            s,
            c,
        ) by {
        lemma_grouped_in_cell(s, num_cells, c);
        if !(0 <= c < num_cells) {
            lemma_in_cell_none(s, c);
        }
    }
}

/// The per-cell subsequence of a grouped prefix: the group itself for
/// cells below `c`, empty for the rest.
proof fn lemma_grouped_in_cell(s: Seq<CellEntity>, c: int, target: int)
    ensures
        entities_in_cell(grouped_prefix(s, c), target) == if 0 <= target < c {
            entities_in_cell(s, target)
        } else {
            Seq::<CellEntity>::empty()
        },
    decreases c,
{
    broadcast use vstd::seq_lib::group_filter_ensures;

    if c <= 0 {
        reveal(Seq::filter);
        assert(entities_in_cell(grouped_prefix(s, c), target) =~= Seq::<CellEntity>::empty());
    } else {
        lemma_grouped_in_cell(s, c - 1, target);
        lemma_filter_of_filter(s, c - 1, target);
        if 0 <= target < c {
            assert(entities_in_cell(grouped_prefix(s, c), target) =~= entities_in_cell(s, target));
        } else {
            assert(entities_in_cell(grouped_prefix(s, c), target) =~= Seq::<CellEntity>::empty());
        }
    }
}

/// Filtering one cell's subsequence for another cell yields nothing; for
/// the same cell it is unchanged.
proof fn lemma_filter_of_filter(s: Seq<CellEntity>, c: int, target: int)
    ensures
        entities_in_cell(entities_in_cell(s, c), target) == if c == target {
            entities_in_cell(s, c)
        } else {
            Seq::<CellEntity>::empty()
        },
    decreases s.len(),
{
    reveal(Seq::filter);
    if s.len() == 0 {
    } else {
        lemma_filter_of_filter(s.drop_last(), c, target);
        lemma_in_cell_push(s.drop_last(), s.last(), c);
        assert(s.drop_last().push(s.last()) =~= s);
        if s.last().cell == c {
            lemma_in_cell_push(entities_in_cell(s.drop_last(), c), s.last(), target);
        }
    }
}

/// The head-pointer lookup table of the sorted array `v`: for every cell
/// below `num_cells`, the index of its first entity, or `-1` for an empty
/// cell. An entity is first in its cell exactly when its predecessor's
/// cell differs from its own.
pub fn build_lookup(v: &Vec<CellEntity>, num_cells: usize) -> (lookup: Vec<i64>)
    requires
        sorted_by_cell(v@),
        forall|k: int| 0 <= k < v@.len() ==> (#[trigger] v@[k]).cell < num_cells,
        v@.len() < 0x1000_0000_0000_0000,
    ensures
        lookup@.len() == num_cells,
        forall|c: int| 0 <= c < num_cells ==> lookup_describes(v@, c, (#[trigger] lookup@[c]) as int),
{
    let n = v.len();
    let mut lookup: Vec<i64> = Vec::new();
    let mut c0: usize = 0;
    while c0 < num_cells
        invariant
            lookup@.len() == c0 <= num_cells,
            forall|c: int| 0 <= c < c0 ==> (#[trigger] lookup@[c]) == -1,
        decreases num_cells - c0,
    {
        lookup.push(-1);
        c0 = c0 + 1;
    }
    let mut i: usize = 0;
    while i < n
        invariant
            0 <= i <= n,
            n == v@.len() < 0x1000_0000_0000_0000,
            sorted_by_cell(v@),
            forall|k: int| 0 <= k < v@.len() ==> (#[trigger] v@[k]).cell < num_cells,
            lookup@.len() == num_cells,
            forall|c: int|
                0 <= c < num_cells ==> lookup_describes(
                    v@.subrange(0, i as int),
                    c,
                    (#[trigger] lookup@[c]) as int,
                ),
        decreases n - i,
    {
        let is_first = if i == 0 {
            true
        } else {
            v[i - 1].cell != v[i].cell
        };
        let ghost before = lookup@;
        if is_first {
            let cell = v[i].cell as usize;
            lookup[cell] = i as i64;
        }
        proof {
            let snew = v@.subrange(0, i + 1);
            assert(forall|k: int|
                0 <= k < i ==> v@.subrange(0, i as int)[k] == (#[trigger] snew[k]));
            assert(snew[i as int] == v@[i as int]);
            assert forall|c: int| 0 <= c < num_cells implies lookup_describes(
                snew,
                c,
                (#[trigger] lookup@[c]) as int,
            ) by {
                assert(lookup_describes(v@.subrange(0, i as int), c, before[c] as int));
                if c == v@[i as int].cell as int {
                    if is_first {
                        assert(lookup@[c] == i);
                        assert forall|k: int| 0 <= k < i implies (#[trigger] snew[k]).cell
                            != c by {
                            if i > 0 {
                                assert(v@[k].cell <= v@[i - 1].cell);
                                assert(v@[i - 1].cell <= v@[i as int].cell);
                                assert(v@[i - 1].cell != v@[i as int].cell);
                            }
                        }
                    } else {
                        assert(lookup@[c] == before[c]);
                        assert(v@[i - 1].cell == v@[i as int].cell);
                        assert(v@.subrange(0, i as int)[i - 1].cell == c);
                        assert(before[c] != -1);
                    }
                } else {
                    assert(lookup@[c] == before[c]);
                    assert(snew[i as int].cell != c);
                }
            }
        }
        i = i + 1;
    }
    proof {
        assert(v@.subrange(0, n as int) =~= v@);
    }
    lookup
}

} // verus!
