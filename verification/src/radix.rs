//! The radix-sort bucket builder: the entity array sorted by cell id as a
//! least-significant-digit radix sort over the decimal digits of the cell
//! id.
//!
//! Each digit pass runs in three stages over fixed-size buckets of
//! `BUCKET_SIZE` entities, mirroring a data-parallel pipeline with a
//! barrier between stages: a per-bucket histogram of digit values, an
//! inclusive prefix sum over each digit's bucket row computed in doubling
//! steps against an alternate buffer, and a scatter that places every
//! entity at the offset its digit row and bucket rank dictate. A pass is a
//! stable partition by one digit; after all `NUM_DIGITS` passes the array
//! is sorted by cell id, provided every cell id fits in `NUM_DIGITS`
//! base-`BASE` digits — the sort refuses anything larger rather than
//! aliasing high cell ids.

use vstd::prelude::*;
use crate::sort::{entities_in_cell, sorted_by_cell, CellEntity};

verus! {

/// The radix of the sort: cell ids are decomposed into decimal digits.
pub const BASE: u64 = 10;

/// Digit positions per key; cell ids must be below `BASE^NUM_DIGITS`.
pub const NUM_DIGITS: usize = 5;

/// Entities per histogram bucket.
pub const BUCKET_SIZE: usize = 32;

/// The largest cell count the digit passes cover: `BASE^NUM_DIGITS`.
pub const MAX_SORT_CELLS: usize = 100_000;

/// `BASE^d`.
pub open spec fn pow_base(d: nat) -> nat
    decreases d,
{
    if d == 0 {
        1
    } else {
        10 * pow_base((d - 1) as nat)
    }
}

/// The base-`BASE` digit of `k` at position `d`.
pub open spec fn digit_of(k: int, d: nat) -> int {
    (k / pow_base(d) as int) % 10
}

/// The low `d` digits of `k`: `k % BASE^d`.
pub open spec fn low_key(k: int, d: nat) -> int {
    k % pow_base(d) as int
}

/// The subsequence of `s` whose entities have key value `k` under `key`,
/// in their original order.
pub open spec fn keyed(s: Seq<CellEntity>, key: spec_fn(CellEntity) -> int, k: int) -> Seq<
    CellEntity,
> {
    s.filter(|e: CellEntity| key(e) == k)
}

/// The key that reads an entity's digit at position `d`.
pub open spec fn digit_key(d: nat) -> spec_fn(CellEntity) -> int {
    |e: CellEntity| digit_of(e.cell as int, d)
}

/// The key that reads an entity's cell id.
pub open spec fn cell_key() -> spec_fn(CellEntity) -> int {
    |e: CellEntity| e.cell as int
}

/// The sequence is ordered by ascending `m`-value.
pub open spec fn sorted_by(s: Seq<CellEntity>, m: spec_fn(CellEntity) -> int) -> bool {
    forall|p: int, q: int| 0 <= p < q < s.len() ==> m(s[p]) <= m(s[q])
}

/// The concatenation of the key-`k` subsequences of `s` for all
/// `k < c`, in ascending key order.
pub open spec fn keyed_prefix(s: Seq<CellEntity>, key: spec_fn(CellEntity) -> int, c: int) -> Seq<
    CellEntity,
>
    decreases c,
{
    if c <= 0 {
        Seq::empty()
    } else {
        keyed_prefix(s, key, c - 1) + keyed(s, key, c - 1)
    }
}

/// Appending an entity extends exactly the subsequence of its own key
/// value and no other.
pub proof fn lemma_keyed_push(s: Seq<CellEntity>, key: spec_fn(CellEntity) -> int, e: CellEntity, k: int)
    ensures
        keyed(s.push(e), key, k) == if key(e) == k {
            keyed(s, key, k).push(e)
        } else {
            keyed(s, key, k)
        },
{
    reveal(Seq::filter);
    assert(s.push(e).drop_last() =~= s);
    assert(s.push(e).last() == e);
}

/// A sequence with no entity of key value `k` filters to nothing for `k`.
pub proof fn lemma_keyed_none(s: Seq<CellEntity>, key: spec_fn(CellEntity) -> int, k: int)
    requires
        forall|i: int| 0 <= i < s.len() ==> key(#[trigger] s[i]) != k,
    ensures
        keyed(s, key, k) == Seq::<CellEntity>::empty(),
    decreases s.len(),
{
    reveal(Seq::filter);
    if s.len() == 0 {
        assert(keyed(s, key, k) =~= Seq::<CellEntity>::empty());
    } else {
        lemma_keyed_none(s.drop_last(), key, k);
        lemma_keyed_push(s.drop_last(), key, s.last(), k);
        assert(s.drop_last().push(s.last()) =~= s);
    }
}

/// Every entity of the key-`k` subsequence has key value `k`, and the
/// subsequence is no longer than the sequence.
pub proof fn lemma_keyed_values(s: Seq<CellEntity>, key: spec_fn(CellEntity) -> int, k: int)
    ensures
        forall|i: int| 0 <= i < keyed(s, key, k).len() ==> key(#[trigger] keyed(s, key, k)[i]) == k,
        keyed(s, key, k).len() <= s.len(),
    decreases s.len(),
{
    reveal(Seq::filter);
    if s.len() == 0 {
    } else {
        lemma_keyed_values(s.drop_last(), key, k);
        lemma_keyed_push(s.drop_last(), key, s.last(), k);
        assert(s.drop_last().push(s.last()) =~= s);
        let inner = keyed(s.drop_last(), key, k);
        if key(s.last()) == k {
            assert(forall|i: int|
                0 <= i < inner.push(s.last()).len() ==> key(
                    #[trigger] inner.push(s.last())[i],
                ) == k);
        }
    }
}

/// Filtering by a finer key afterwards: when key value `t` under `key2`
/// forces key value `a` under `key`, the `key2 == t` entities of the
/// `key == a` subsequence are exactly those of `s` itself, and the
/// `key == k` subsequences for `k != a` hold none of them.
pub proof fn lemma_keyed_cross(
    s: Seq<CellEntity>,
    key: spec_fn(CellEntity) -> int,
    k: int,
    key2: spec_fn(CellEntity) -> int,
    t: int,
    a: int,
)
    requires
        forall|e: CellEntity| #[trigger] key2(e) == t ==> key(e) == a,
    ensures
        keyed(keyed(s, key, k), key2, t) == if k == a {
            keyed(s, key2, t)
        } else {
            Seq::<CellEntity>::empty()
        },
    decreases s.len(),
{
    reveal(Seq::filter);
    if s.len() == 0 {
    } else {
        let s0 = s.drop_last();
        let e = s.last();
        lemma_keyed_cross(s0, key, k, key2, t, a);
        lemma_keyed_push(s0, key, e, k);
        assert(s0.push(e) =~= s);
        if key(e) == k {
            lemma_keyed_push(keyed(s0, key, k), key2, e, t);
        }
        lemma_keyed_push(s0, key2, e, t);
    }
}

/// The keys of a keyed prefix lie within its bounds: the prefix holds
/// only entities of the groups `0, .., c - 1`.
pub proof fn lemma_keyed_prefix_keys(s: Seq<CellEntity>, key: spec_fn(CellEntity) -> int, c: int)
    ensures
        forall|i: int|
            0 <= i < keyed_prefix(s, key, c).len() ==> 0 <= key(
                #[trigger] keyed_prefix(s, key, c)[i],
            ) < c,
    decreases c,
{
    if c <= 0 {
    } else {
        lemma_keyed_prefix_keys(s, key, c - 1);
        lemma_keyed_values(s, key, c - 1);
        assert forall|i: int| 0 <= i < keyed_prefix(s, key, c).len() implies 0 <= key(
            #[trigger] keyed_prefix(s, key, c)[i],
        ) < c by {
            let pre = keyed_prefix(s, key, c - 1);
            if i < pre.len() {
                assert(keyed_prefix(s, key, c)[i] == pre[i]);
            } else {
                assert(keyed_prefix(s, key, c)[i] == keyed(s, key, c - 1)[i - pre.len()]);
            }
        }
    }
}

/// A keyed prefix is ordered by its key: the groups stand in ascending
/// key order and each group's entities share one key value.
pub proof fn lemma_keyed_prefix_key_sorted(
    s: Seq<CellEntity>,
    key: spec_fn(CellEntity) -> int,
    c: int,
)
    ensures
        forall|p: int, q: int|
            0 <= p < q < keyed_prefix(s, key, c).len() ==> key(
                #[trigger] keyed_prefix(s, key, c)[p],
            ) <= key(#[trigger] keyed_prefix(s, key, c)[q]),
    decreases c,
{
    if c <= 0 {
    } else {
        lemma_keyed_prefix_key_sorted(s, key, c - 1);
        lemma_keyed_prefix_keys(s, key, c - 1);
        lemma_keyed_values(s, key, c - 1);
        assert forall|p: int, q: int|
            0 <= p < q < keyed_prefix(s, key, c).len() implies key(
            #[trigger] keyed_prefix(s, key, c)[p],
        ) <= key(#[trigger] keyed_prefix(s, key, c)[q]) by {
            let pre = keyed_prefix(s, key, c - 1);
            let grp = keyed(s, key, c - 1);
            if p < pre.len() && q < pre.len() {
                assert(keyed_prefix(s, key, c)[p] == pre[p]);
                assert(keyed_prefix(s, key, c)[q] == pre[q]);
            } else if p < pre.len() {
                assert(keyed_prefix(s, key, c)[p] == pre[p]);
                assert(keyed_prefix(s, key, c)[q] == grp[q - pre.len()]);
            } else {
                assert(keyed_prefix(s, key, c)[p] == grp[p - pre.len()]);
                assert(keyed_prefix(s, key, c)[q] == grp[q - pre.len()]);
            }
        }
    }
}

/// Key values at or above `c` do not appear in the prefix's groups:
/// appending such an entity leaves `keyed_prefix(_, _, c)` unchanged.
proof fn lemma_keyed_prefix_same(
    s_new: Seq<CellEntity>,
    s: Seq<CellEntity>,
    key: spec_fn(CellEntity) -> int,
    c: int,
)
    requires
        s_new == s.push(s_new.last()),
        s_new.len() == s.len() + 1,
        key(s_new.last()) >= c,
    ensures
        keyed_prefix(s_new, key, c) == keyed_prefix(s, key, c),
    decreases c,
{
    if c <= 0 {
    } else {
        lemma_keyed_prefix_same(s_new, s, key, c - 1);
        lemma_keyed_push(s, key, s_new.last(), c - 1);
    }
}

proof fn lemma_keyed_prefix_of_empty(key: spec_fn(CellEntity) -> int, c: int)
    ensures
        keyed_prefix(Seq::<CellEntity>::empty(), key, c).len() == 0,
    decreases c,
{
    reveal(Seq::filter);
    if c <= 0 {
    } else {
        lemma_keyed_prefix_of_empty(key, c - 1);
    }
}

/// Extending the underlying sequence by one entity inserts it into
/// exactly one group of the prefix, as long as its key lies below `c`.
proof fn lemma_keyed_prefix_push(
    s: Seq<CellEntity>,
    key: spec_fn(CellEntity) -> int,
    e: CellEntity,
    c: int,
)
    requires
        0 <= key(e) < c,
    ensures
        keyed_prefix(s.push(e), key, c).to_multiset() == keyed_prefix(
            s,
            key,
            c,
        ).to_multiset().insert(e),
    decreases c,
{
    broadcast use vstd::seq_lib::group_to_multiset_ensures;
    broadcast use vstd::multiset::group_multiset_axioms;
    broadcast use vstd::seq_lib::lemma_multiset_commutative;

    if c <= 0 {
    } else {
        lemma_keyed_push(s, key, e, c - 1);
        if key(e) == c - 1 {
            lemma_keyed_prefix_same(s.push(e), s, key, c - 1);
            assert(keyed_prefix(s.push(e), key, c).to_multiset() =~= keyed_prefix(
                s,
                key,
                c,
            ).to_multiset().insert(e));
        } else {
            lemma_keyed_prefix_push(s, key, e, c - 1);
            assert(keyed_prefix(s.push(e), key, c).to_multiset() =~= keyed_prefix(
                s,
                key,
                c,
            ).to_multiset().insert(e));
        }
    }
}

/// With every key below `c`, the prefix's groups together are a
/// permutation of the sequence.
pub proof fn lemma_keyed_prefix_multiset(s: Seq<CellEntity>, key: spec_fn(CellEntity) -> int, c: int)
    requires
        forall|i: int| 0 <= i < s.len() ==> 0 <= key(#[trigger] s[i]) < c,
    ensures
        keyed_prefix(s, key, c).to_multiset() == s.to_multiset(),
    decreases s.len(),
{
    broadcast use vstd::seq_lib::group_to_multiset_ensures;
    broadcast use vstd::multiset::group_multiset_axioms;

    if s.len() == 0 {
        assert(s =~= Seq::<CellEntity>::empty());
        lemma_keyed_prefix_of_empty(key, c);
        assert(keyed_prefix(s, key, c) =~= Seq::<CellEntity>::empty());
        assert(keyed_prefix(s, key, c).to_multiset() =~= s.to_multiset());
    } else {
        let s0 = s.drop_last();
        let e = s.last();
        assert(s == s0.push(e));
        assert(forall|i: int| 0 <= i < s0.len() ==> 0 <= key(#[trigger] s0[i]) < c);
        lemma_keyed_prefix_multiset(s0, key, c);
        lemma_keyed_prefix_push(s0, key, e, c);
        assert(s0.push(e).to_multiset() == s0.to_multiset().insert(e));
    }
}

/// Filtering a keyed prefix by a finer key recovers the plain filter:
/// when key value `t` under `key2` forces key value `a` under `key`, and
/// `a` lies below the prefix bound, the `key2 == t` entities of the
/// prefix are exactly those of the sequence, in the same order.
pub proof fn lemma_keyed_prefix_finer(
    s: Seq<CellEntity>,
    key: spec_fn(CellEntity) -> int,
    c: int,
    key2: spec_fn(CellEntity) -> int,
    t: int,
    a: int,
)
    requires
        forall|e: CellEntity| #[trigger] key2(e) == t ==> key(e) == a,
        0 <= a < c,
    ensures
        keyed(keyed_prefix(s, key, c), key2, t) == keyed(s, key2, t),
    decreases c,
{
    broadcast use vstd::seq_lib::group_filter_ensures;

    let pre = keyed_prefix(s, key, c - 1);
    let grp = keyed(s, key, c - 1);
    assert(keyed_prefix(s, key, c) == pre + grp);
    lemma_keyed_cross(s, key, c - 1, key2, t, a);
    if a == c - 1 {
        lemma_keyed_prefix_keys(s, key, c - 1);
        lemma_keyed_none(pre, key2, t);
        assert(keyed(keyed_prefix(s, key, c), key2, t) =~= keyed(s, key2, t));
    } else {
        lemma_keyed_prefix_finer(s, key, c - 1, key2, t, a);
        assert(keyed(keyed_prefix(s, key, c), key2, t) =~= keyed(s, key2, t));
    }
}

/// A filter preserves any ordering of the sequence.
pub proof fn lemma_keyed_preserves_sorted(
    s: Seq<CellEntity>,
    key: spec_fn(CellEntity) -> int,
    k: int,
    m: spec_fn(CellEntity) -> int,
)
    requires
        sorted_by(s, m),
    ensures
        sorted_by(keyed(s, key, k), m),
    decreases s.len(),
{
    reveal(Seq::filter);
    if s.len() == 0 {
    } else {
        let s0 = s.drop_last();
        let e = s.last();
        assert(sorted_by(s0, m));
        lemma_keyed_preserves_sorted(s0, key, k, m);
        lemma_keyed_push(s0, key, e, k);
        assert(s0.push(e) =~= s);
        if key(e) == k {
            let inner = keyed(s0, key, k);
            assert forall|p: int, q: int|
                0 <= p < q < inner.push(e).len() implies m(inner.push(e)[p]) <= m(
                inner.push(e)[q],
            ) by {
                if q == inner.len() {
                    lemma_keyed_subseq_bound(s0, key, k, m, p);
                }
            }
        }
    }
}

/// Every element of a filtered subsequence of a sorted sequence is
/// bounded by the last element of the whole sequence.
proof fn lemma_keyed_subseq_bound(
    s: Seq<CellEntity>,
    key: spec_fn(CellEntity) -> int,
    k: int,
    m: spec_fn(CellEntity) -> int,
    p: int,
)
    requires
        0 <= p < keyed(s, key, k).len(),
    ensures
        exists|j: int| 0 <= j < s.len() && s[j] == keyed(s, key, k)[p],
    decreases s.len(),
{
    reveal(Seq::filter);
    if s.len() == 0 {
    } else {
        let s0 = s.drop_last();
        let e = s.last();
        lemma_keyed_push(s0, key, e, k);
        assert(s0.push(e) =~= s);
        let inner = keyed(s0, key, k);
        if key(e) == k && p == inner.len() {
            assert(s[s.len() - 1] == keyed(s, key, k)[p]);
        } else {
            lemma_keyed_subseq_bound(s0, key, k, m, p);
            let j = choose|j: int| 0 <= j < s0.len() && s0[j] == keyed(s0, key, k)[p];
            assert(s[j] == keyed(s, key, k)[p]);
        }
    }
}

/// A keyed prefix of a sequence sorted by measure `m` is sorted
/// lexicographically by key first, `m` second.
pub proof fn lemma_keyed_prefix_pair_sorted(
    s: Seq<CellEntity>,
    key: spec_fn(CellEntity) -> int,
    m: spec_fn(CellEntity) -> int,
    c: int,
)
    requires
        sorted_by(s, m),
    ensures
        forall|p: int, q: int|
            0 <= p < q < keyed_prefix(s, key, c).len() ==> {
                let ep = #[trigger] keyed_prefix(s, key, c)[p];
                let eq = #[trigger] keyed_prefix(s, key, c)[q];
                key(ep) < key(eq) || (key(ep) == key(eq) && m(ep) <= m(eq))
            },
    decreases c,
{
    if c <= 0 {
    } else {
        lemma_keyed_prefix_pair_sorted(s, key, m, c - 1);
        lemma_keyed_prefix_keys(s, key, c - 1);
        lemma_keyed_values(s, key, c - 1);
        lemma_keyed_preserves_sorted(s, key, c - 1, m);
        let pre = keyed_prefix(s, key, c - 1);
        let grp = keyed(s, key, c - 1);
        assert forall|p: int, q: int|
            0 <= p < q < keyed_prefix(s, key, c).len() implies {
            let ep = #[trigger] keyed_prefix(s, key, c)[p];
            let eq = #[trigger] keyed_prefix(s, key, c)[q];
            key(ep) < key(eq) || (key(ep) == key(eq) && m(ep) <= m(eq))
        } by {
            let ep = keyed_prefix(s, key, c)[p];
            let eq = keyed_prefix(s, key, c)[q];
            if p < pre.len() && q < pre.len() {
                assert(ep == pre[p] && eq == pre[q]);
            } else if p < pre.len() {
                assert(ep == pre[p] && eq == grp[q - pre.len()]);
                assert(key(ep) < c - 1 && key(eq) == c - 1);
            } else {
                assert(ep == grp[p - pre.len()] && eq == grp[q - pre.len()]);
            }
        }
    }
}

/// Groups with keys at or above `lo` are empty when every key lies below
/// `lo`: the prefix stops growing there.
proof fn lemma_keyed_prefix_high(
    s: Seq<CellEntity>,
    key: spec_fn(CellEntity) -> int,
    lo: int,
    hi: int,
)
    requires
        lo <= hi,
        forall|i: int| 0 <= i < s.len() ==> key(#[trigger] s[i]) < lo,
    ensures
        keyed_prefix(s, key, hi) == keyed_prefix(s, key, lo),
    decreases hi - lo,
{
    if lo == hi {
    } else {
        lemma_keyed_prefix_high(s, key, lo, hi - 1);
        lemma_keyed_none(s, key, hi - 1);
        assert(keyed_prefix(s, key, hi) =~= keyed_prefix(s, key, hi - 1));
    }
}

/// A sequence sorted by its key is its own keyed prefix: regrouping a
/// sorted sequence changes nothing.
#[verifier::rlimit(40)]
pub proof fn lemma_keyed_prefix_of_sorted(
    s: Seq<CellEntity>,
    key: spec_fn(CellEntity) -> int,
    c: int,
)
    requires
        forall|p: int, q: int| 0 <= p < q < s.len() ==> key(#[trigger] s[p]) <= key(#[trigger] s[q]),
        forall|i: int| 0 <= i < s.len() ==> 0 <= key(#[trigger] s[i]) < c,
    ensures
        keyed_prefix(s, key, c) == s,
    decreases s.len(),
{
    broadcast use Seq::push_distributes_over_add;

    if s.len() == 0 {
        assert(s =~= Seq::<CellEntity>::empty());
        lemma_keyed_prefix_of_empty(key, c);
        assert(keyed_prefix(s, key, c) =~= s);
    } else {
        let s0 = s.drop_last();
        let e = s.last();
        let ke = key(e);
        assert(s0.push(e) =~= s);
        assert(forall|i: int| 0 <= i < s0.len() ==> key(#[trigger] s0[i]) <= ke);
        lemma_keyed_prefix_of_sorted(s0, key, ke + 1);
        lemma_keyed_prefix_same(s, s0, key, ke);
        lemma_keyed_push(s0, key, e, ke);
        assert(keyed_prefix(s, key, ke + 1) == keyed_prefix(s, key, ke) + keyed(s, key, ke));
        assert(keyed_prefix(s, key, ke + 1) =~= s0.push(e));
        lemma_prefix_stops_at_top_key(s, key, ke + 1, c);
    }
}

/// The groups above the largest key are empty, so the prefix bound can
/// grow past it without changing the prefix.
proof fn lemma_prefix_stops_at_top_key(
    s: Seq<CellEntity>,
    key: spec_fn(CellEntity) -> int,
    lo: int,
    hi: int,
)
    requires
        lo <= hi,
        forall|i: int| 0 <= i < s.len() ==> key(#[trigger] s[i]) < lo,
    ensures
        keyed_prefix(s, key, hi) == keyed_prefix(s, key, lo),
{
    lemma_keyed_prefix_high(s, key, lo, hi);
}

/// Two sequences with the same groups have the same keyed prefix.
proof fn lemma_keyed_prefix_congruent(
    s1: Seq<CellEntity>,
    s2: Seq<CellEntity>,
    key: spec_fn(CellEntity) -> int,
    c: int,
)
    requires
        forall|k: int| #[trigger] keyed(s1, key, k) == keyed(s2, key, k),
    ensures
        keyed_prefix(s1, key, c) == keyed_prefix(s2, key, c),
    decreases c,
{
    if c <= 0 {
    } else {
        lemma_keyed_prefix_congruent(s1, s2, key, c - 1);
    }
}

/// A stable sort is unique: two sequences sorted by the same key, with
/// the same per-key subsequences, are equal.
pub proof fn lemma_stable_sorted_unique(
    s1: Seq<CellEntity>,
    s2: Seq<CellEntity>,
    key: spec_fn(CellEntity) -> int,
    c: int,
)
    requires
        forall|p: int, q: int|
            0 <= p < q < s1.len() ==> key(#[trigger] s1[p]) <= key(#[trigger] s1[q]),
        forall|p: int, q: int|
            0 <= p < q < s2.len() ==> key(#[trigger] s2[p]) <= key(#[trigger] s2[q]),
        forall|i: int| 0 <= i < s1.len() ==> 0 <= key(#[trigger] s1[i]) < c,
        forall|i: int| 0 <= i < s2.len() ==> 0 <= key(#[trigger] s2[i]) < c,
        forall|k: int| #[trigger] keyed(s1, key, k) == keyed(s2, key, k),
    ensures
        s1 == s2,
{
    lemma_keyed_prefix_of_sorted(s1, key, c);
    lemma_keyed_prefix_of_sorted(s2, key, c);
    lemma_keyed_prefix_congruent(s1, s2, key, c);
}

/// `BASE^d` is positive.
pub proof fn lemma_pow_base_pos(d: nat)
    ensures
        pow_base(d) >= 1,
    decreases d,
{
    if d > 0 {
        lemma_pow_base_pos((d - 1) as nat);
    }
}

/// Digits lie in `[0, BASE)`.
pub proof fn lemma_digit_in_range(k: int, d: nat)
    ensures
        0 <= digit_of(k, d) < 10,
{
    lemma_pow_base_pos(d);
    vstd::arithmetic::div_mod::lemma_mod_division_less_than_divisor(k / pow_base(d) as int, 10);
}

/// No key has low digits below position zero: `k % 1 == 0`.
pub proof fn lemma_low_key_zero(k: int)
    ensures
        low_key(k, 0) == 0,
{
}

/// Peeling one digit: the low `d + 1` digits are the digit at `d` scaled
/// by `BASE^d` plus the low `d` digits, which lie in `[0, BASE^d)`.
pub proof fn lemma_low_key_unfold(k: int, d: nat)
    requires
        k >= 0,
    ensures
        low_key(k, d + 1) == digit_of(k, d) * pow_base(d) + low_key(k, d),
        0 <= low_key(k, d) < pow_base(d),
{
    lemma_pow_base_pos(d);
    let p = pow_base(d) as int;
    vstd::arithmetic::div_mod::lemma_mod_division_less_than_divisor(k, p);
    vstd::arithmetic::div_mod::lemma_breakdown(k, p, 10);
    vstd::arithmetic::mul::lemma_mul_is_commutative(p, 10);
    vstd::arithmetic::mul::lemma_mul_is_commutative(p, digit_of(k, d));
    assert(pow_base((d + 1) as nat) == 10 * pow_base(d));
}

/// Ordering by one more digit: keys ordered by digit `d` first and by
/// their low `d` digits second are ordered by their low `d + 1` digits.
pub proof fn lemma_low_key_step(a: int, b: int, d: nat)
    requires
        a >= 0,
        b >= 0,
        digit_of(a, d) < digit_of(b, d) || (digit_of(a, d) == digit_of(b, d) && low_key(a, d)
            <= low_key(b, d)),
    ensures
        low_key(a, d + 1) <= low_key(b, d + 1),
{
    lemma_low_key_unfold(a, d);
    lemma_low_key_unfold(b, d);
    let p = pow_base(d) as int;
    let da = digit_of(a, d);
    let db = digit_of(b, d);
    assert(da * p + low_key(a, d) <= db * p + low_key(b, d)) by (nonlinear_arith)
        requires
            da < db || (da == db && low_key(a, d) <= low_key(b, d)),
            0 <= low_key(a, d) < p,
            0 <= low_key(b, d) < p,
            p >= 1,
    ;
}

/// A key below `BASE^NUM_DIGITS` is its own low `NUM_DIGITS` digits: the
/// digit passes cover it completely.
pub proof fn lemma_low_key_full(k: int)
    requires
        0 <= k < 100_000,
    ensures
        low_key(k, 5) == k,
{
    reveal_with_fuel(pow_base, 6);
    assert(pow_base(5) == 100_000);
    vstd::arithmetic::div_mod::lemma_small_mod(k as nat, 100_000);
}

/// The sum of one digit row of the histogram over buckets `[lo, hi)`.
pub open spec fn row_sum(h: Seq<usize>, nb: int, dv: int, lo: int, hi: int) -> int
    decreases hi - lo,
{
    if lo >= hi {
        0
    } else {
        row_sum(h, nb, dv, lo, hi - 1) + h[dv * nb + (hi - 1)]
    }
}

/// Row sums add over adjacent bucket ranges.
proof fn lemma_row_sum_split(h: Seq<usize>, nb: int, dv: int, lo: int, mid: int, hi: int)
    requires
        lo <= mid <= hi,
    ensures
        row_sum(h, nb, dv, lo, hi) == row_sum(h, nb, dv, lo, mid) + row_sum(h, nb, dv, mid, hi),
    decreases hi - mid,
{
    if mid == hi {
    } else {
        lemma_row_sum_split(h, nb, dv, lo, mid, hi - 1);
    }
}

/// A row sum over `[lo, hi)` of values bounded by `BUCKET_SIZE` is at
/// most `BUCKET_SIZE * (hi - lo)`.
proof fn lemma_row_sum_bound(h: Seq<usize>, nb: int, dv: int, lo: int, hi: int)
    requires
        0 <= lo <= hi,
        0 <= dv * nb,
        dv * nb + hi <= h.len(),
        forall|j: int| 0 <= j < h.len() ==> #[trigger] h[j] <= 32,
    ensures
        0 <= row_sum(h, nb, dv, lo, hi) <= 32 * (hi - lo),
    decreases hi - lo,
{
    if lo >= hi {
    } else {
        lemma_row_sum_bound(h, nb, dv, lo, hi - 1);
        assert(0 <= dv * nb + (hi - 1) < h.len());
        assert(h[dv * nb + (hi - 1)] <= 32);
    }
}

/// The number of key-`k` entities of a prefix grows by one when the next
/// entity has key `k`, and is otherwise unchanged; it never exceeds the
/// count over the whole sequence.
proof fn lemma_keyed_prefix_count(s: Seq<CellEntity>, key: spec_fn(CellEntity) -> int, k: int, i: int)
    requires
        0 <= i <= s.len(),
    ensures
        keyed(s.subrange(0, i), key, k).len() + keyed(s.subrange(i, s.len() as int), key, k).len()
            == keyed(s, key, k).len(),
    decreases s.len() - i,
{
    broadcast use vstd::seq_lib::group_filter_ensures;

    assert(s.subrange(0, i) + s.subrange(i, s.len() as int) =~= s);
    assert(keyed(s.subrange(0, i) + s.subrange(i, s.len() as int), key, k) == keyed(
        s.subrange(0, i),
        key,
        k,
    ) + keyed(s.subrange(i, s.len() as int), key, k));
}

/// Prefixes of the keyed prefix do not shrink as the bound grows.
proof fn lemma_keyed_prefix_len_mono(
    s: Seq<CellEntity>,
    key: spec_fn(CellEntity) -> int,
    a: int,
    b: int,
)
    requires
        a <= b,
    ensures
        keyed_prefix(s, key, a).len() <= keyed_prefix(s, key, b).len(),
    decreases b - a,
{
    if a == b {
    } else {
        lemma_keyed_prefix_len_mono(s, key, a, b - 1);
    }
}

/// The end of bucket `b` in an array of `n` entities: a bucket holds
/// `BUCKET_SIZE` entities, the last one what remains.
pub open spec fn bucket_hi(b: int, n: int) -> int {
    vstd::math::min(b * 32 + 32, n)
}

/// The number of digit-`dv` entities in bucket `b`.
pub open spec fn bcount(s: Seq<CellEntity>, d: nat, dv: int, b: int) -> int {
    keyed(s.subrange(b * 32, bucket_hi(b, s.len() as int)), digit_key(d), dv).len() as int
}

/// The number of digit-`dv` entities of bucket `b` among the first `i`
/// of the array.
pub open spec fn bucket_seen(s: Seq<CellEntity>, d: nat, dv: int, b: int, i: int) -> int {
    keyed(
        s.subrange(
            b * 32,
            vstd::math::max(b * 32, vstd::math::min(i, bucket_hi(b, s.len() as int))),
        ),
        digit_key(d),
        dv,
    ).len() as int
}

proof fn lemma_keyed_empty_seq(key: spec_fn(CellEntity) -> int, k: int)
    ensures
        keyed(Seq::<CellEntity>::empty(), key, k) == Seq::<CellEntity>::empty(),
{
    reveal(Seq::filter);
}

/// The flat index `dv * nb + b` of a `[BASE][nb]` table determines the
/// digit row and the bucket.
proof fn lemma_flat_index_unique(dv1: int, b1: int, dv2: int, b2: int, nb: int)
    by (nonlinear_arith)
    requires
        0 <= b1 < nb,
        0 <= b2 < nb,
        dv1 * nb + b1 == dv2 * nb + b2,
    ensures
        dv1 == dv2,
        b1 == b2,
{
}

/// The per-bucket digit histogram of one pass: entry `dv * nb + b` counts
/// the entities of bucket `b` whose digit at position `d` (the digit
/// `cell / p % BASE`, with `p == BASE^d`) is `dv`.
fn build_histogram(v: &Vec<CellEntity>, p: u64, Ghost(d): Ghost<nat>, nb: usize) -> (h: Vec<usize>)
    requires
        p == pow_base(d),
        v@.len() <= 0x1000_0000,
        nb == (v@.len() + 31) / 32,
    ensures
        h@.len() == 10 * nb,
        forall|dv: int, b: int|
            0 <= dv < 10 && 0 <= b < nb ==> #[trigger] h@[dv * nb + b] == bcount(v@, d, dv, b),
        forall|j: int| 0 <= j < h@.len() ==> #[trigger] h@[j] <= 32,
{
    proof {
        lemma_pow_base_pos(d);
    }
    let n = v.len();
    let mut h: Vec<usize> = Vec::new();
    let total = 10 * nb;
    while h.len() < total
        invariant
            h@.len() <= total,
            forall|j: int| 0 <= j < h@.len() ==> #[trigger] h@[j] == 0,
        decreases total - h@.len(),
    {
        h.push(0);
    }
    proof {
        assert forall|dv: int, b: int| 0 <= dv < 10 && 0 <= b < nb implies #[trigger] h@[dv * nb
            + b] == bucket_seen(v@, d, dv, b, 0) by {
            assert(0 <= dv * nb + b < 10 * nb) by (nonlinear_arith)
                requires
                    0 <= dv < 10,
                    0 <= b < nb,
            ;
            assert(vstd::math::max(b * 32, vstd::math::min(0, bucket_hi(b, v@.len() as int))) == b
                * 32);
            assert(v@.subrange(b * 32, b * 32) =~= Seq::<CellEntity>::empty());
            lemma_keyed_empty_seq(digit_key(d), dv);
        }
    }
    let mut i: usize = 0;
    while i < n
        invariant
            0 <= i <= n,
            n == v@.len() <= 0x1000_0000,
            nb == (v@.len() + 31) / 32,
            p == pow_base(d),
            p >= 1,
            h@.len() == 10 * nb,
            forall|dv: int, b: int|
                0 <= dv < 10 && 0 <= b < nb ==> #[trigger] h@[dv * nb + b] == bucket_seen(
                    v@,
                    d,
                    dv,
                    b,
                    i as int,
                ),
            forall|j: int| 0 <= j < h@.len() ==> #[trigger] h@[j] <= 32,
        decreases n - i,
    {
        let b = i / 32;
        let dv = ((v[i].cell / p) % 10) as usize;
        proof {
            vstd::arithmetic::div_mod::lemma_fundamental_div_mod(i as int, 32);
            vstd::arithmetic::div_mod::lemma_mod_division_less_than_divisor(i as int, 32);
            assert(b * 32 <= i < b * 32 + 32);
            assert(dv * nb + b < 10 * nb && dv * nb <= 9 * nb) by (nonlinear_arith)
                requires
                    0 <= dv < 10,
                    0 <= b < nb,
            ;
            assert(9 * nb <= 9 * 0x80_0001);
        }
        let idx = dv * nb + b;
        let ghost before = h@;
        let ghost bi = b as int;
        let ghost dvi = dv as int;
        let cur = h[idx];
        proof {
            // The running count in this bucket is strictly below its
            // capacity, so the increment cannot overflow.
            let lo = bi * 32;
            let hi = vstd::math::max(lo, vstd::math::min(i as int, bucket_hi(bi, n as int)));
            assert(hi - lo <= 31);
            lemma_keyed_values(v@.subrange(lo, hi), digit_key(d), dvi);
            assert(cur as int == bucket_seen(v@, d, dvi, bi, i as int));
            assert(cur <= 31);
        }
        h[idx] = cur + 1;
        proof {
            let lo = bi * 32;
            let hib = bucket_hi(bi, n as int);
            assert(i < hib);
            assert(v@.subrange(lo, i + 1) =~= v@.subrange(lo, i as int).push(v@[i as int]));
            lemma_keyed_push(v@.subrange(lo, i as int), digit_key(d), v@[i as int], dvi);
            assert((digit_key(d))(v@[i as int]) == dvi);
            assert forall|dv2: int, b2: int| 0 <= dv2 < 10 && 0 <= b2 < nb implies #[trigger] h@[
                dv2 * nb + b2
            ] == bucket_seen(v@, d, dv2, b2, i + 1) by {
                assert(0 <= dv2 * nb + b2 < 10 * nb) by (nonlinear_arith)
                    requires
                        0 <= dv2 < 10,
                        0 <= b2 < nb,
                ;
                if dv2 * nb + b2 == dvi * nb + bi {
                    lemma_flat_index_unique(dv2, b2, dvi, bi, nb as int);
                    assert(h@[dv2 * nb + b2] == cur + 1);
                } else {
                    assert(h@[dv2 * nb + b2] == before[dv2 * nb + b2]);
                    if b2 == bi {
                        assert(dv2 != dvi) by {
                            if dv2 == dvi {
                                assert(dv2 * nb + b2 == dvi * nb + bi);
                            }
                        }
                        lemma_keyed_push(
                            v@.subrange(bi * 32, i as int),
                            digit_key(d),
                            v@[i as int],
                            dv2,
                        );
                        assert(bucket_seen(v@, d, dv2, b2, i + 1) == bucket_seen(
                            v@,
                            d,
                            dv2,
                            b2,
                            i as int,
                        ));
                    } else if b2 < bi {
                        assert(b2 * 32 + 32 <= bi * 32) by (nonlinear_arith)
                            requires
                                b2 < bi,
                        ;
                        assert(vstd::math::min(i + 1, bucket_hi(b2, n as int)) == bucket_hi(
                            b2,
                            n as int,
                        ));
                    } else {
                        assert(bi * 32 + 32 <= b2 * 32) by (nonlinear_arith)
                            requires
                                bi < b2,
                        ;
                        assert(vstd::math::max(
                            b2 * 32,
                            vstd::math::min(i + 1, bucket_hi(b2, n as int)),
                        ) == b2 * 32);
                        assert(vstd::math::max(
                            b2 * 32,
                            vstd::math::min(i as int, bucket_hi(b2, n as int)),
                        ) == b2 * 32);
                    }
                }
            }
        }
        i = i + 1;
    }
    proof {
        assert forall|dv: int, b: int| 0 <= dv < 10 && 0 <= b < nb implies #[trigger] h@[dv * nb
            + b] == bcount(v@, d, dv, b) by {
            assert(0 <= dv * nb + b < 10 * nb) by (nonlinear_arith)
                requires
                    0 <= dv < 10,
                    0 <= b < nb,
            ;
            assert(b * 32 <= bucket_hi(b, n as int) <= n) by (nonlinear_arith)
                requires
                    0 <= b < nb,
                    nb == (n + 31) / 32,
                    n >= 0,
                    bucket_hi(b, n as int) == vstd::math::min(b * 32 + 32, n as int),
            ;
            assert(vstd::math::max(b * 32, vstd::math::min(n as int, bucket_hi(b, n as int)))
                == bucket_hi(b, n as int));
        }
    }
    h
}

/// The inclusive prefix sum of every digit row of the histogram, in
/// doubling steps: each step reads one buffer and writes an alternate
/// one, adding to each entry the entry `stride` buckets back, then the
/// buffers swap roles and the stride doubles. Every step depends on all
/// of the previous step's writes, which is what forces a global barrier
/// between steps on parallel hardware; here the barrier is the end of the
/// building loop.
fn prefix_rows(h: &Vec<usize>, nb: usize) -> (p: Vec<usize>)
    requires
        1 <= nb <= 0x80_0001,
        h@.len() == 10 * nb,
        forall|j: int| 0 <= j < h@.len() ==> #[trigger] h@[j] <= 32,
    ensures
        p@.len() == 10 * nb,
        forall|dv: int, b: int|
            0 <= dv < 10 && 0 <= b < nb ==> #[trigger] p@[dv * nb + b] == row_sum(
                h@,
                nb as int,
                dv,
                0,
                b + 1,
            ),
{
    let total = h.len();
    let mut cur: Vec<usize> = Vec::new();
    let mut j: usize = 0;
    while j < total
        invariant
            0 <= j <= total,
            total == 10 * nb,
            h@.len() == total,
            cur@.len() == j,
            forall|j2: int| 0 <= j2 < j ==> #[trigger] cur@[j2] == h@[j2],
        decreases total - j,
    {
        cur.push(h[j]);
        j = j + 1;
    }
    proof {
        assert forall|dv: int, b: int| 0 <= dv < 10 && 0 <= b < nb implies #[trigger] cur@[dv * nb
            + b] == row_sum(h@, nb as int, dv, vstd::math::max(0, b + 1 - 1), b + 1) by {
            assert(0 <= dv * nb + b < 10 * nb) by (nonlinear_arith)
                requires
                    0 <= dv < 10,
                    0 <= b < nb,
            ;
            assert(row_sum(h@, nb as int, dv, b, b) == 0);
        }
    }
    let mut stride: usize = 1;
    while stride < nb
        invariant
            1 <= stride <= 2 * nb,
            1 <= nb <= 0x80_0001,
            total == 10 * nb,
            h@.len() == total,
            cur@.len() == total,
            forall|j2: int| 0 <= j2 < h@.len() ==> #[trigger] h@[j2] <= 32,
            forall|dv: int, b: int|
                0 <= dv < 10 && 0 <= b < nb ==> #[trigger] cur@[dv * nb + b] == row_sum(
                    h@,
                    nb as int,
                    dv,
                    vstd::math::max(0, b + 1 - stride),
                    b + 1,
                ),
        decreases 2 * nb - stride,
    {
        let mut next: Vec<usize> = Vec::new();
        let mut k: usize = 0;
        while k < total
            invariant
                0 <= k <= total,
                1 <= stride < nb <= 0x80_0001,
                total == 10 * nb,
                h@.len() == total,
                cur@.len() == total,
                next@.len() == k,
                forall|j2: int| 0 <= j2 < h@.len() ==> #[trigger] h@[j2] <= 32,
                forall|dv: int, b: int|
                    0 <= dv < 10 && 0 <= b < nb ==> #[trigger] cur@[dv * nb + b] == row_sum(
                        h@,
                        nb as int,
                        dv,
                        vstd::math::max(0, b + 1 - stride),
                        b + 1,
                    ),
                forall|dv: int, b: int|
                    0 <= dv < 10 && 0 <= b < nb && dv * nb + b < k ==> #[trigger] next@[dv * nb
                        + b] == row_sum(
                        h@,
                        nb as int,
                        dv,
                        vstd::math::max(0, b + 1 - 2 * stride),
                        b + 1,
                    ),
            decreases total - k,
        {
            let dv = k / nb;
            let b = k % nb;
            proof {
                vstd::arithmetic::div_mod::lemma_fundamental_div_mod(k as int, nb as int);
                vstd::arithmetic::div_mod::lemma_mod_division_less_than_divisor(
                    k as int,
                    nb as int,
                );
                vstd::arithmetic::div_mod::lemma_div_pos_is_pos(k as int, nb as int);
                assert(dv < 10) by (nonlinear_arith)
                    requires
                        k == dv * nb + b,
                        0 <= b < nb,
                        k < 10 * nb,
                        0 <= dv,
                ;
                assert(0 <= dv * nb) by (nonlinear_arith)
                    requires
                        0 <= dv,
                        0 <= nb,
                ;
                assert(dv * nb + nb <= 10 * nb) by (nonlinear_arith)
                    requires
                        dv < 10,
                        0 <= nb,
                ;
                lemma_row_sum_bound(
                    h@,
                    nb as int,
                    dv as int,
                    vstd::math::max(0, b + 1 - stride),
                    b + 1,
                );
            }
            proof {
                assert(cur@[dv as int * nb + b] == row_sum(
                    h@,
                    nb as int,
                    dv as int,
                    vstd::math::max(0, b + 1 - stride),
                    b + 1,
                ));
            }
            let lower = cur[k];
            let val = if b >= stride {
                proof {
                    assert(cur@[dv as int * nb + (b - stride)] == row_sum(
                        h@,
                        nb as int,
                        dv as int,
                        vstd::math::max(0, (b - stride) + 1 - stride),
                        (b - stride) + 1,
                    ));
                    lemma_row_sum_bound(
                        h@,
                        nb as int,
                        dv as int,
                        vstd::math::max(0, b - stride + 1 - stride),
                        b - stride + 1,
                    );
                    lemma_row_sum_split(
                        h@,
                        nb as int,
                        dv as int,
                        vstd::math::max(0, b + 1 - 2 * stride),
                        b + 1 - stride,
                        b + 1,
                    );
                    assert(vstd::math::max(0, (b - stride) + 1 - stride) == vstd::math::max(
                        0,
                        b + 1 - 2 * stride,
                    ));
                    assert(k - stride == dv as int * nb + (b - stride));
                }
                lower + cur[k - stride]
            } else {
                proof {
                    assert(vstd::math::max(0, b + 1 - 2 * stride) == vstd::math::max(
                        0,
                        b + 1 - stride,
                    ));
                }
                lower
            };
            proof {
                assert(val == row_sum(
                    h@,
                    nb as int,
                    dv as int,
                    vstd::math::max(0, b + 1 - 2 * stride),
                    b + 1,
                ));
            }
            next.push(val);
            proof {
                assert forall|dv2: int, b2: int|
                    0 <= dv2 < 10 && 0 <= b2 < nb && dv2 * nb + b2 < k + 1 implies #[trigger] next@[
                    dv2 * nb + b2
                ] == row_sum(
                    h@,
                    nb as int,
                    dv2,
                    vstd::math::max(0, b2 + 1 - 2 * stride),
                    b2 + 1,
                ) by {
                    if dv2 * nb + b2 == k {
                        lemma_flat_index_unique(dv2, b2, dv as int, b as int, nb as int);
                    }
                }
            }
            k = k + 1;
        }
        proof {
            assert forall|dv2: int, b2: int| 0 <= dv2 < 10 && 0 <= b2 < nb implies #[trigger] next@[
                dv2 * nb + b2
            ] == row_sum(
                h@,
                nb as int,
                dv2,
                vstd::math::max(0, b2 + 1 - 2 * stride),
                b2 + 1,
            ) by {
                assert(dv2 * nb + b2 < 10 * nb) by (nonlinear_arith)
                    requires
                        0 <= dv2 < 10,
                        0 <= b2 < nb,
                ;
            }
        }
        cur = next;
        stride = stride * 2;
    }
    proof {
        assert forall|dv: int, b: int| 0 <= dv < 10 && 0 <= b < nb implies #[trigger] cur@[dv * nb
            + b] == row_sum(h@, nb as int, dv, 0, b + 1) by {
            assert(vstd::math::max(0, b + 1 - stride) == 0);
        }
    }
    cur
}

/// The first `b` buckets hold the first `min(b * BUCKET_SIZE, n)`
/// entities: a digit row summed over them counts that prefix's entities
/// of the digit.
proof fn lemma_row_counts(
    s: Seq<CellEntity>,
    d: nat,
    h: Seq<usize>,
    nb: int,
    dv: int,
    b: int,
)
    requires
        h.len() == 10 * nb,
        nb == (s.len() + 31) / 32,
        0 <= dv < 10,
        0 <= b <= nb,
        forall|dv2: int, b2: int|
            0 <= dv2 < 10 && 0 <= b2 < nb ==> #[trigger] h[dv2 * nb + b2] == bcount(s, d, dv2, b2),
    ensures
        row_sum(h, nb, dv, 0, b) == keyed(
            s.subrange(0, vstd::math::min(b * 32, s.len() as int)),
            digit_key(d),
            dv,
        ).len(),
    decreases b,
{
    broadcast use vstd::seq_lib::group_filter_ensures;

    let n = s.len() as int;
    if b == 0 {
        assert(s.subrange(0, 0) =~= Seq::<CellEntity>::empty());
        lemma_keyed_empty_seq(digit_key(d), dv);
    } else {
        lemma_row_counts(s, d, h, nb, dv, b - 1);
        assert(h[dv * nb + (b - 1)] == bcount(s, d, dv, b - 1));
        let lo = (b - 1) * 32;
        let hi = bucket_hi(b - 1, n);
        assert(lo <= vstd::math::min((b - 1) * 32, n)) by (nonlinear_arith)
            requires
                lo == (b - 1) * 32,
                0 <= b - 1 < nb,
                nb == (n + 31) / 32,
                n >= 0,
        ;
        assert(vstd::math::min(lo, n) == lo) by (nonlinear_arith)
            requires
                lo == (b - 1) * 32,
                0 <= b - 1 < nb,
                nb == (n + 31) / 32,
                n >= 0,
        ;
        assert(hi == vstd::math::min(b * 32, n));
        assert(s.subrange(0, lo) + s.subrange(lo, hi) =~= s.subrange(0, hi));
        assert(keyed(s.subrange(0, lo) + s.subrange(lo, hi), digit_key(d), dv) == keyed(
            s.subrange(0, lo),
            digit_key(d),
            dv,
        ) + keyed(s.subrange(lo, hi), digit_key(d), dv));
    }
}

/// Contiguous regions matching every digit group tile the whole array:
/// the prefix of the array up to group `w`'s end is the keyed prefix.
proof fn lemma_regions_tile(
    t: Seq<CellEntity>,
    s: Seq<CellEntity>,
    key: spec_fn(CellEntity) -> int,
    w: int,
)
    requires
        0 <= w <= 10,
        t.len() == keyed_prefix(s, key, 10).len(),
        forall|u: int|
            0 <= u < 10 ==> t.subrange(
                keyed_prefix(s, key, u).len() as int,
                keyed_prefix(s, key, u).len() as int + (#[trigger] keyed(s, key, u)).len(),
            ) == keyed(s, key, u),
    ensures
        t.subrange(0, keyed_prefix(s, key, w).len() as int) == keyed_prefix(s, key, w),
    decreases w,
{
    if w == 0 {
        assert(t.subrange(0, 0) =~= Seq::<CellEntity>::empty());
        assert(keyed_prefix(s, key, 0) =~= Seq::<CellEntity>::empty());
    } else {
        lemma_regions_tile(t, s, key, w - 1);
        lemma_keyed_prefix_len_mono(s, key, w, 10);
        let pl = keyed_prefix(s, key, w - 1).len() as int;
        let gl = keyed(s, key, w - 1).len() as int;
        assert(keyed_prefix(s, key, w) == keyed_prefix(s, key, w - 1) + keyed(s, key, w - 1));
        assert(t.subrange(0, pl + gl) =~= t.subrange(0, pl) + t.subrange(pl, pl + gl));
    }
}

/// One digit pass: the array stably partitioned by the digit at position
/// `d` (extracted with `pw == BASE^d`), every group in ascending digit
/// order and each group in the input's order. Runs histogram, prefix sum
/// and scatter over `BUCKET_SIZE`-entity buckets.
fn radix_pass(v: &Vec<CellEntity>, pw: u64, Ghost(d): Ghost<nat>) -> (out: Vec<CellEntity>)
    requires
        pw == pow_base(d),
        v@.len() <= 0x1000_0000,
    ensures
        out@ == keyed_prefix(v@, digit_key(d), 10),
        out@.len() == v@.len(),
{
    proof {
        lemma_pow_base_pos(d);
        assert forall|i: int| 0 <= i < v@.len() implies 0 <= (digit_key(d))(
            #[trigger] v@[i],
        ) < 10 by {
            lemma_digit_in_range(v@[i].cell as int, d);
        }
        lemma_keyed_prefix_multiset(v@, digit_key(d), 10);
        broadcast use vstd::seq_lib::group_to_multiset_ensures;

        assert(keyed_prefix(v@, digit_key(d), 10).to_multiset().len() == v@.to_multiset().len());
        assert(keyed_prefix(v@, digit_key(d), 10).len() == v@.len());
    }
    let n = v.len();
    if n == 0 {
        let out: Vec<CellEntity> = Vec::new();
        proof {
            assert(out@ =~= keyed_prefix(v@, digit_key(d), 10));
        }
        return out;
    }
    let nb = (n + 31) / 32;
    proof {
        vstd::arithmetic::div_mod::lemma_div_pos_is_pos(n as int + 31, 32);
        vstd::arithmetic::div_mod::lemma_fundamental_div_mod(n as int + 31, 32);
        vstd::arithmetic::div_mod::lemma_mod_division_less_than_divisor(n as int + 31, 32);
        assert(nb >= 1 && nb * 32 >= n);
    }
    let h = build_histogram(v, pw, Ghost(d), nb);
    let pfx = prefix_rows(&h, nb);
    proof {
        assert forall|dv: int| 0 <= dv < 10 implies #[trigger] pfx@[dv * nb + (nb - 1)] == keyed(
            v@,
            digit_key(d),
            dv,
        ).len() by {
            lemma_row_counts(v@, d, h@, nb as int, dv, nb as int);
            assert(pfx@[dv * nb + (nb - 1)] == row_sum(h@, nb as int, dv, 0, nb as int));
            assert(vstd::math::min(nb as int * 32, v@.len() as int) == v@.len());
            assert(v@.subrange(0, v@.len() as int) =~= v@);
        }
    }
    // Exclusive offsets per digit value: where each digit's group begins.
    let mut off: Vec<usize> = Vec::new();
    off.push(0);
    let mut dv0: usize = 0;
    proof {
        assert(keyed_prefix(v@, digit_key(d), 0).len() == 0);
    }
    while dv0 < 10
        invariant
            0 <= dv0 <= 10,
            off@.len() == dv0 + 1,
            nb >= 1,
            n == v@.len() <= 0x1000_0000,
            pfx@.len() == 10 * nb,
            forall|dv: int|
                0 <= dv < 10 ==> #[trigger] pfx@[dv * nb + (nb - 1)] == keyed(
                    v@,
                    digit_key(d),
                    dv,
                ).len(),
            forall|w: int|
                0 <= w <= dv0 ==> #[trigger] off@[w] == keyed_prefix(v@, digit_key(d), w).len(),
            keyed_prefix(v@, digit_key(d), 10).len() == n,
        decreases 10 - dv0,
    {
        let pfx_len = pfx.len();
        proof {
            assert(pfx_len == pfx@.len());
            assert(0 <= dv0 * nb && dv0 * nb + (nb - 1) < 10 * nb) by (nonlinear_arith)
                requires
                    0 <= dv0 < 10,
                    1 <= nb,
            ;
            lemma_keyed_prefix_len_mono(v@, digit_key(d), dv0 as int + 1, 10);
        }
        let total_dv = pfx[dv0 * nb + (nb - 1)];
        let prev = off[dv0];
        off.push(prev + total_dv);
        dv0 = dv0 + 1;
    }
    // Scatter: each entity goes to its digit group's offset, plus the
    // count of like-digit entities in earlier buckets (from the prefix
    // sum), plus its rank among like-digit entities of its own bucket.
    let mut out: Vec<CellEntity> = Vec::new();
    let mut j0: usize = 0;
    while j0 < n
        invariant
            0 <= j0 <= n,
            n == v@.len(),
            out@.len() == j0,
            forall|j2: int| 0 <= j2 < j0 ==> #[trigger] out@[j2] == v@[j2],
        decreases n - j0,
    {
        out.push(v[j0]);
        j0 = j0 + 1;
    }
    let ghost dk = digit_key(d);
    let mut i: usize = 0;
    proof {
        assert forall|w: int|
            0 <= w < 10 implies out@.subrange(
            keyed_prefix(v@, dk, w).len() as int,
            keyed_prefix(v@, dk, w).len() as int + (#[trigger] keyed(
                v@.subrange(0, 0),
                dk,
                w,
            )).len(),
        ) == keyed(v@.subrange(0, 0), dk, w) by {
            assert(v@.subrange(0, 0) =~= Seq::<CellEntity>::empty());
            lemma_keyed_empty_seq(dk, w);
            lemma_keyed_prefix_len_mono(v@, dk, w, 10);
            let base = keyed_prefix(v@, dk, w).len() as int;
            assert(out@.subrange(base, base) =~= Seq::<CellEntity>::empty());
        }
    }
    while i < n
        invariant
            0 <= i <= n,
            n == v@.len() <= 0x1000_0000,
            nb == (n + 31) / 32,
            1 <= nb,
            pw == pow_base(d),
            pw >= 1,
            dk == digit_key(d),
            h@.len() == 10 * nb,
            pfx@.len() == 10 * nb,
            forall|dv2: int, b2: int|
                0 <= dv2 < 10 && 0 <= b2 < nb ==> #[trigger] h@[dv2 * nb + b2] == bcount(
                    v@,
                    d,
                    dv2,
                    b2,
                ),
            forall|dv2: int, b2: int|
                0 <= dv2 < 10 && 0 <= b2 < nb ==> #[trigger] pfx@[dv2 * nb + b2] == row_sum(
                    h@,
                    nb as int,
                    dv2,
                    0,
                    b2 + 1,
                ),
            off@.len() == 11,
            forall|w: int| 0 <= w <= 10 ==> #[trigger] off@[w] == keyed_prefix(v@, dk, w).len(),
            keyed_prefix(v@, dk, 10).len() == n,
            out@.len() == n,
            forall|w: int|
                0 <= w < 10 ==> out@.subrange(
                    keyed_prefix(v@, dk, w).len() as int,
                    keyed_prefix(v@, dk, w).len() as int + (#[trigger] keyed(
                        v@.subrange(0, i as int),
                        dk,
                        w,
                    )).len(),
                ) == keyed(v@.subrange(0, i as int), dk, w),
        decreases n - i,
    {
        let b = i / 32;
        let dv = ((v[i].cell / pw) % 10) as usize;
        let ghost bi = b as int;
        let ghost dvi = dv as int;
        proof {
            vstd::arithmetic::div_mod::lemma_fundamental_div_mod(i as int, 32);
            vstd::arithmetic::div_mod::lemma_mod_division_less_than_divisor(i as int, 32);
            assert(bi * 32 <= i < bi * 32 + 32);
            assert(bi < nb) by (nonlinear_arith)
                requires
                    bi * 32 <= i < n,
                    nb * 32 >= n,
                    nb == (n + 31) / 32,
            ;
            assert((dk)(v@[i as int]) == dvi);
        }
        let start = b * 32;
        let mut rank: usize = 0;
        let mut j: usize = start;
        while j < i
            invariant
                start <= j <= i,
                start == bi * 32,
                i < n == v@.len(),
                pw >= 1,
                dk == digit_key(d),
                pw == pow_base(d),
                0 <= dv < 10,
                dvi == dv as int,
                rank == keyed(v@.subrange(start as int, j as int), dk, dvi).len(),
                rank <= j - start,
            decreases i - j,
        {
            proof {
                assert(v@.subrange(start as int, j + 1) =~= v@.subrange(
                    start as int,
                    j as int,
                ).push(v@[j as int]));
                lemma_keyed_push(v@.subrange(start as int, j as int), dk, v@[j as int], dvi);
                assert((dk)(v@[j as int]) == digit_of(v@[j as int].cell as int, d));
            }
            let matched = (v[j].cell / pw) % 10 == dv as u64;
            proof {
                assert(matched == ((dk)(v@[j as int]) == dvi));
                assert(keyed(v@.subrange(start as int, j + 1), dk, dvi) == if matched {
                    keyed(v@.subrange(start as int, j as int), dk, dvi).push(v@[j as int])
                } else {
                    keyed(v@.subrange(start as int, j as int), dk, dvi)
                });
            }
            if matched {
                rank = rank + 1;
            }
            j = j + 1;
        }
        let from_prev_buckets: usize = if b > 0 {
            proof {
                assert(0 <= dvi * nb + (bi - 1) < 10 * nb) by (nonlinear_arith)
                    requires
                        0 <= dvi < 10,
                        1 <= bi < nb,
                ;
                lemma_row_counts(v@, d, h@, nb as int, dvi, bi);
                assert(vstd::math::min(bi * 32, n as int) == bi * 32);
                lemma_keyed_values(v@.subrange(0, bi * 32), dk, dvi);
            }
            pfx[dv * nb + (b - 1)]
        } else {
            0
        };
        proof {
            // The destination is the group offset plus the number of
            // like-digit entities before `i`.
            assert(v@.subrange(0, start as int) + v@.subrange(start as int, i as int)
                =~= v@.subrange(0, i as int));
            broadcast use vstd::seq_lib::group_filter_ensures;

            assert(keyed(v@.subrange(0, i as int), dk, dvi) == keyed(
                v@.subrange(0, start as int),
                dk,
                dvi,
            ) + keyed(v@.subrange(start as int, i as int), dk, dvi));
            assert(from_prev_buckets as int == keyed(v@.subrange(0, start as int), dk, dvi).len());
            // Strictly below the group's total, since entity `i` is a
            // like-digit entity not yet counted.
            assert(v@.subrange(0, i + 1) =~= v@.subrange(0, i as int).push(v@[i as int]));
            lemma_keyed_push(v@.subrange(0, i as int), dk, v@[i as int], dvi);
            lemma_keyed_prefix_count(v@, dk, dvi, i + 1);
            assert(keyed(v@.subrange(0, i + 1), dk, dvi).len() <= keyed(v@, dk, dvi).len());
            assert(off@[dvi + 1] == off@[dvi] + keyed(v@, dk, dvi).len());
            lemma_keyed_prefix_len_mono(v@, dk, dvi + 1, 10);
        }
        let dst = off[dv] + from_prev_buckets + rank;
        let ghost before = out@;
        let ghost cnt_before = keyed(v@.subrange(0, i as int), dk, dvi).len() as int;
        proof {
            assert(dst == off@[dvi] + cnt_before);
            assert(dst < off@[dvi] + keyed(v@, dk, dvi).len());
            assert(dst < n);
        }
        out[dst] = v[i];
        proof {
            assert forall|w: int|
                0 <= w < 10 implies out@.subrange(
                keyed_prefix(v@, dk, w).len() as int,
                keyed_prefix(v@, dk, w).len() as int + (#[trigger] keyed(
                    v@.subrange(0, i + 1),
                    dk,
                    w,
                )).len(),
            ) == keyed(v@.subrange(0, i + 1), dk, w) by {
                lemma_keyed_push(v@.subrange(0, i as int), dk, v@[i as int], w);
                lemma_keyed_prefix_count(v@, dk, w, i + 1);
                lemma_keyed_prefix_len_mono(v@, dk, w + 1, 10);
                let base = keyed_prefix(v@, dk, w).len() as int;
                let cw = keyed(v@.subrange(0, i as int), dk, w).len() as int;
                assert(off@[w] == base && off@[w + 1] == base + keyed(v@, dk, w).len());
                if w == dvi {
                    assert(out@.subrange(base, base + cw + 1) =~= before.subrange(
                        base,
                        base + cw,
                    ).push(v@[i as int]));
                } else {
                    // The write lands in another group's span: this
                    // group's region is untouched.
                    if w < dvi {
                        lemma_keyed_prefix_len_mono(v@, dk, w + 1, dvi);
                    } else {
                        lemma_keyed_prefix_len_mono(v@, dk, dvi + 1, w);
                    }
                    assert(out@.subrange(base, base + cw) =~= before.subrange(base, base + cw));
                }
            }
        }
        i = i + 1;
    }
    proof {
        assert(v@.subrange(0, n as int) =~= v@);
        assert forall|u: int| 0 <= u < 10 implies out@.subrange(
            keyed_prefix(v@, dk, u).len() as int,
            keyed_prefix(v@, dk, u).len() as int + (#[trigger] keyed(v@, dk, u)).len(),
        ) == keyed(v@, dk, u) by {
            assert(keyed(v@.subrange(0, n as int), dk, u) == keyed(v@, dk, u));
        }
        lemma_regions_tile(out@, v@, dk, 10);
        assert(out@.subrange(0, out@.len() as int) =~= out@);
    }
    out
}

/// The measure that reads an entity's low `d` digits.
pub open spec fn low_measure(d: nat) -> spec_fn(CellEntity) -> int {
    |e: CellEntity| low_key(e.cell as int, d)
}

/// Filtering by cell id through `cell_key` is the per-cell subsequence.
pub proof fn lemma_cell_keyed_eq(s: Seq<CellEntity>, c: int)
    ensures
        keyed(s, cell_key(), c) == entities_in_cell(s, c),
    decreases s.len(),
{
    reveal(Seq::filter);
    if s.len() == 0 {
    } else {
        let s0 = s.drop_last();
        let e = s.last();
        lemma_cell_keyed_eq(s0, c);
        lemma_keyed_push(s0, cell_key(), e, c);
        crate::sort::lemma_in_cell_push(s0, e, c);
        assert(s0.push(e) =~= s);
    }
}

/// A permutation of a sequence whose cell ids lie below `bound` has its
/// cell ids below `bound` too.
proof fn lemma_cells_bounded_transfer(s1: Seq<CellEntity>, s2: Seq<CellEntity>, bound: int)
    requires
        s1.to_multiset() == s2.to_multiset(),
        forall|k: int| 0 <= k < s2.len() ==> (#[trigger] s2[k]).cell < bound,
    ensures
        forall|k: int| 0 <= k < s1.len() ==> (#[trigger] s1[k]).cell < bound,
{
    broadcast use vstd::seq_lib::group_to_multiset_ensures;

    assert forall|k: int| 0 <= k < s1.len() implies (#[trigger] s1[k]).cell < bound by {
        assert(s1.contains(s1[k]));
        assert(s2.to_multiset().count(s1[k]) > 0);
        assert(s2.contains(s1[k]));
        let j = choose|j: int| 0 <= j < s2.len() && s2[j] == s1[k];
        assert(s2[j].cell < bound);
    }
}

/// Sorts the entity array in place by ascending cell id, as `NUM_DIGITS`
/// stable digit passes from the least significant digit up, each pass a
/// histogram, prefix-sum and scatter stage.
///
/// The digit count covers cell ids up to `MAX_SORT_CELLS - 1`; a grid
/// with more cells would alias high cell ids, so the sort refuses it
/// explicitly: it returns `false` and leaves the array unchanged. On
/// success the array is a permutation of the input, sorted by cell id,
/// and stable: each cell's entities keep their input order. Sorting an
/// already-sorted array therefore returns it unchanged.
pub fn radix_sort_by_cell(v: &mut Vec<CellEntity>, num_cells: usize) -> (ok: bool)
    requires
        forall|k: int| 0 <= k < old(v)@.len() ==> (#[trigger] old(v)@[k]).cell < num_cells,
        old(v)@.len() <= 0x1000_0000,
    ensures
        ok == (num_cells <= MAX_SORT_CELLS),
        !ok ==> final(v)@ == old(v)@,
        ok ==> sorted_by_cell(final(v)@),
        ok ==> final(v)@.len() == old(v)@.len(),
        ok ==> final(v)@.to_multiset() == old(v)@.to_multiset(),
        ok ==> forall|c: int|
            #[trigger] entities_in_cell(final(v)@, c) == entities_in_cell(old(v)@, c),
        ok && sorted_by_cell(old(v)@) ==> final(v)@ == old(v)@,
{
    if num_cells > MAX_SORT_CELLS {
        return false;
    }
    let ghost orig = v@;
    let mut pw: u64 = 1;
    let mut dpos: usize = 0;
    proof {
        assert forall|p: int, q: int| 0 <= p < q < v@.len() implies (low_measure(0))(
            #[trigger] v@[p],
        ) <= (low_measure(0))(#[trigger] v@[q]) by {
            lemma_low_key_zero(v@[p].cell as int);
            lemma_low_key_zero(v@[q].cell as int);
        }
    }
    while dpos < NUM_DIGITS
        invariant
            0 <= dpos <= 5,
            pw == pow_base(dpos as nat),
            num_cells <= 100_000,
            v@.len() == orig.len() <= 0x1000_0000,
            v@.to_multiset() == orig.to_multiset(),
            forall|c: int| #[trigger] keyed(v@, cell_key(), c) == keyed(orig, cell_key(), c),
            sorted_by(v@, low_measure(dpos as nat)),
            forall|k: int| 0 <= k < orig.len() ==> (#[trigger] orig[k]).cell < num_cells,
            forall|k: int| 0 <= k < v@.len() ==> (#[trigger] v@[k]).cell < num_cells,
        decreases 5 - dpos,
    {
        let ghost d = dpos as nat;
        let ghost dk = digit_key(d);
        let ghost ck = cell_key();
        let ghost cur = v@;
        let out = radix_pass(v, pw, Ghost(d));
        proof {
            assert forall|i: int| 0 <= i < cur.len() implies 0 <= (dk)(#[trigger] cur[i])
                < 10 by {
                lemma_digit_in_range(cur[i].cell as int, d);
            }
            lemma_keyed_prefix_multiset(cur, dk, 10);
            // Each cell's subsequence survives the pass: a pass is stable
            // within one digit value, and one cell has one digit value.
            assert forall|c: int| #[trigger] keyed(out@, ck, c) == keyed(cur, ck, c) by {
                if c >= 0 {
                    lemma_digit_in_range(c, d);
                    assert forall|e: CellEntity| #[trigger] (ck)(e) == c implies (dk)(e)
                        == digit_of(c, d) by {
                        assert(e.cell as int == c);
                    }
                    lemma_keyed_prefix_finer(cur, dk, 10, ck, c, digit_of(c, d));
                } else {
                    assert(forall|i: int| 0 <= i < cur.len() ==> (ck)(#[trigger] cur[i]) != c);
                    assert(forall|i: int| 0 <= i < out@.len() ==> (ck)(#[trigger] out@[i]) != c);
                    lemma_keyed_none(cur, ck, c);
                    lemma_keyed_none(out@, ck, c);
                }
            }
            // The pass output is ordered by one more digit.
            lemma_keyed_prefix_pair_sorted(cur, dk, low_measure(d), 10);
            assert forall|p: int, q: int| 0 <= p < q < out@.len() implies (low_measure(d + 1))(
                #[trigger] out@[p],
            ) <= (low_measure(d + 1))(#[trigger] out@[q]) by {
                assert(out@[p] == keyed_prefix(cur, dk, 10)[p]);
                assert(out@[q] == keyed_prefix(cur, dk, 10)[q]);
                lemma_low_key_step(out@[p].cell as int, out@[q].cell as int, d);
            }
            lemma_cells_bounded_transfer(out@, cur, num_cells as int);
        }
        *v = out;
        proof {
            reveal_with_fuel(pow_base, 7);
            assert(dpos == 0 || dpos == 1 || dpos == 2 || dpos == 3 || dpos == 4);
            assert(pw <= 10000);
            assert(pow_base((dpos + 1) as nat) == 10 * pow_base(dpos as nat));
        }
        pw = pw * 10;
        dpos = dpos + 1;
    }
    proof {
        // Five digit positions cover every cell id below the limit, so
        // order by the low five digits is order by cell id.
        assert forall|p: int, q: int| 0 <= p < q < v@.len() implies (#[trigger] v@[p]).cell <= (
        #[trigger] v@[q]).cell by {
            assert((low_measure(5))(v@[p]) <= (low_measure(5))(v@[q]));
            lemma_low_key_full(v@[p].cell as int);
            lemma_low_key_full(v@[q].cell as int);
        }
        broadcast use vstd::seq_lib::group_to_multiset_ensures;

        assert(v@.to_multiset().len() == orig.to_multiset().len());
        assert forall|c: int|
            #[trigger] entities_in_cell(v@, c) == entities_in_cell(orig, c) by {
            lemma_cell_keyed_eq(v@, c);
            lemma_cell_keyed_eq(orig, c);
        }
        if sorted_by_cell(orig) {
            assert forall|p: int, q: int|
                0 <= p < q < orig.len() implies (cell_key())(#[trigger] orig[p]) <= (cell_key())(
                #[trigger] orig[q]) by {}
            assert forall|p: int, q: int|
                0 <= p < q < v@.len() implies (cell_key())(#[trigger] v@[p]) <= (cell_key())(
                #[trigger] v@[q]) by {}
            lemma_stable_sorted_unique(v@, orig, cell_key(), num_cells as int);
        }
    }
    true
}

} // verus!
