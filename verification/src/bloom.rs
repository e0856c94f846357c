//! The counting Bloom filter that the cell set keeps over cell keys.
//!
//! The filter is `bloom_filters`' counting filter: a row of small counters
//! (buckets) and hash kernels that send each key to a few of them. Inserting
//! a key adds one to each of its buckets, stopping at the largest value a
//! bucket holds; removing subtracts one, stopping at zero; a key is reported
//! present when all its buckets are above zero.

use vstd::prelude::*;
use bloom_filters::{BloomFilter, CountingBloomFilter, DefaultBuildHashKernels, RemovableBloomFilter};
use numext_fixed_hash::H256;
use std::collections::hash_map::RandomState;
use crate::transaction::Hash32;

verus! {

/// The counting Bloom filter of the cell set, over keys (transaction hash,
/// output index). Its type is held opaquely: what the contracts say of it goes
/// through the names below.
///
/// The filter is expected to come from `CountingBloomFilter::new` with an
/// items count above zero, a false-positive rate strictly between 0 and 1,
/// and a bucket size from 1 to 7 (see `filter_well_built`). Its owner builds
/// it, since the rate is a floating-point number, and hands it over in the
/// public field.
#[verifier::external_body]
pub struct CellSetFilter(pub CountingBloomFilter<DefaultBuildHashKernels<RandomState>>);

/// The bucket counters of the filter, in bucket order.
pub uninterp spec fn filter_counters(f: CellSetFilter) -> Seq<u8>;

/// The largest value a bucket counter holds: `2^bucket_size - 1`.
pub uninterp spec fn filter_max(f: CellSetFilter) -> u8;

/// The buckets that the filter's hash kernels send a key to, in the order in
/// which they are visited (a bucket may occur more than once).
pub uninterp spec fn filter_indices(f: CellSetFilter, key: (Hash32, u32)) -> Seq<int>;

/// Every index of `idx` names one of `n` buckets, and there is at least one.
pub open spec fn indices_in_range(idx: Seq<int>, n: nat) -> bool {
    &&& idx.len() > 0
    &&& forall|j: int| 0 <= j < idx.len() ==> 0 <= #[trigger] idx[j] < n
}

/// Whether the filter was built by `CountingBloomFilter::new` within its
/// domain (items count above zero, false-positive rate strictly between 0
/// and 1, bucket size from 1 to 7): at least one bucket, a counter maximum
/// from 1 to 127 that no counter passes, and at least one bucket per key,
/// each in range.
pub open spec fn filter_well_built(f: CellSetFilter) -> bool {
    &&& filter_counters(f).len() > 0
    &&& 1 <= filter_max(f) <= 127
    &&& forall|i: int| 0 <= i < filter_counters(f).len() ==> #[trigger] filter_counters(f)[i] <= filter_max(f)
    &&& forall|k: (Hash32, u32)| indices_in_range(#[trigger] filter_indices(f, k), filter_counters(f).len())
}

/// Whether all counters are zero, as in a freshly built filter.
pub open spec fn filter_is_empty(f: CellSetFilter) -> bool {
    forall|i: int| 0 <= i < filter_counters(f).len() ==> #[trigger] filter_counters(f)[i] == 0
}

/// Whether all of the buckets `idx` hold a count above zero.
pub open spec fn all_positive(c: Seq<u8>, idx: Seq<int>) -> bool {
    forall|j: int| 0 <= j < idx.len() ==> #[trigger] c[idx[j]] > 0
}

/// What `contains` answers for a key: all of the key's buckets hold a count
/// above zero.
pub open spec fn filter_answer(f: CellSetFilter, key: (Hash32, u32)) -> bool {
    all_positive(filter_counters(f), filter_indices(f, key))
}

/// One counter step: up by one stopping at `max`, or down by one stopping at
/// zero.
pub open spec fn counter_step(v: u8, max: u8, up: bool) -> u8 {
    if up {
        if v < max { (v + 1) as u8 } else { max }
    } else {
        if v > 0 { (v - 1) as u8 } else { 0 }
    }
}

/// The counters after one step at each of the buckets `idx`, in turn.
pub open spec fn step_all(c: Seq<u8>, max: u8, idx: Seq<int>, up: bool) -> Seq<u8>
    decreases idx.len(),
{
    if idx.len() == 0 {
        c
    } else {
        step_all(c.update(idx[0], counter_step(c[idx[0]], max, up)), max, idx.drop_first(), up)
    }
}

/// `BloomFilter::insert` of the counting filter on the key `(&tx_hash, index)`:
/// each of the key's buckets, in turn, goes up by one, stopping at the
/// maximum. The hash kernels and the maximum are left as they are.
#[verifier::external_body]
pub(crate) fn filter_insert(f: &mut CellSetFilter, tx_hash: &Hash32, index: u32)
    requires
        filter_well_built(*old(f)),
    ensures
        filter_max(*final(f)) == filter_max(*old(f)),
        forall|k: (Hash32, u32)| #[trigger] filter_indices(*final(f), k) == filter_indices(*old(f), k),
        filter_counters(*final(f)) == step_all(
            filter_counters(*old(f)),
            filter_max(*old(f)),
            filter_indices(*old(f), (*tx_hash, index)),
            true,
        ),
{
    let hash = H256(*tx_hash);
    f.0.insert(&(&hash, index));
}

/// `RemovableBloomFilter::remove` of the counting filter on `(&tx_hash, index)`:
/// each of the key's buckets, in turn, goes down by one, stopping at zero.
/// The hash kernels and the maximum are left as they are.
#[verifier::external_body]
pub(crate) fn filter_remove(f: &mut CellSetFilter, tx_hash: &Hash32, index: u32)
    requires
        filter_well_built(*old(f)),
    ensures
        filter_max(*final(f)) == filter_max(*old(f)),
        forall|k: (Hash32, u32)| #[trigger] filter_indices(*final(f), k) == filter_indices(*old(f), k),
        filter_counters(*final(f)) == step_all(
            filter_counters(*old(f)),
            filter_max(*old(f)),
            filter_indices(*old(f), (*tx_hash, index)),
            false,
        ),
{
    let hash = H256(*tx_hash);
    f.0.remove(&(&hash, index));
}

/// `BloomFilter::contains` of the counting filter on `(&tx_hash, index)`:
/// whether all of the key's buckets hold a count above zero.
#[verifier::external_body]
pub(crate) fn filter_contains(f: &CellSetFilter, tx_hash: &Hash32, index: u32) -> (r: bool)
    requires
        filter_well_built(*f),
    ensures
        r == filter_answer(*f, (*tx_hash, index)),
{
    let hash = H256(*tx_hash);
    f.0.contains(&(&hash, index))
}

// ---------------------------------------------------------------------
// Counter arithmetic.

/// How often bucket `i` occurs in `idx`.
pub open spec fn occurrences(idx: Seq<int>, i: int) -> nat
    decreases idx.len(),
{
    if idx.len() == 0 {
        0
    } else {
        (if idx[0] == i { 1nat } else { 0nat }) + occurrences(idx.drop_first(), i)
    }
}

/// Whether every index of `idx` names one of `n` buckets.
pub open spec fn all_in_range(idx: Seq<int>, n: nat) -> bool {
    forall|j: int| 0 <= j < idx.len() ==> 0 <= #[trigger] idx[j] < n
}

/// Stepping keeps the number of counters, and keeps every counter at most
/// `max`. Going up, no counter falls and every stepped
/// bucket ends above zero; going down, no counter rises.
pub proof fn lemma_step_all(c: Seq<u8>, max: u8, idx: Seq<int>, up: bool)
    requires
        max >= 1,
        all_in_range(idx, c.len()),
        forall|i: int| 0 <= i < c.len() ==> #[trigger] c[i] <= max,
    ensures
        step_all(c, max, idx, up).len() == c.len(),
        forall|i: int| 0 <= i < c.len() ==> #[trigger] step_all(c, max, idx, up)[i] <= max,
        up ==> forall|i: int| 0 <= i < c.len() ==> c[i] <= #[trigger] step_all(c, max, idx, up)[i],
        up ==> all_positive(step_all(c, max, idx, up), idx),
        !up ==> forall|i: int| 0 <= i < c.len() ==> #[trigger] step_all(c, max, idx, up)[i] <= c[i],
    decreases idx.len(),
{
    if idx.len() > 0 {
        let c1 = c.update(idx[0], counter_step(c[idx[0]], max, up));
        let rest = idx.drop_first();
        assert(all_in_range(rest, c1.len())) by {
            assert forall|j: int| 0 <= j < rest.len() implies 0 <= #[trigger] rest[j] < c1.len() by {
                assert(rest[j] == idx[j + 1]);
            }
        }
        assert forall|i: int| 0 <= i < c1.len() implies #[trigger] c1[i] <= max by {
            assert(c[i] <= max);
        }
        lemma_step_all(c1, max, rest, up);
        let r = step_all(c, max, idx, up);
        assert(r == step_all(c1, max, rest, up));
        if up {
            assert forall|j: int| 0 <= j < idx.len() implies #[trigger] r[idx[j]] > 0 by {
                if j == 0 {
                    assert(c1[idx[0]] >= 1);
                    assert(c1[idx[0]] <= r[idx[0]]);
                } else {
                    assert(idx[j] == rest[j - 1]);
                }
            }
            assert forall|i: int| 0 <= i < c.len() implies c[i] <= #[trigger] r[i] by {
                assert(c[i] <= c1[i]);
            }
        } else {
            assert forall|i: int| 0 <= i < c.len() implies #[trigger] r[i] <= c[i] by {
                assert(c1[i] <= c[i]);
            }
        }
    }
}

/// Stepping over `a` then over `b` is stepping over `a + b`.
pub proof fn lemma_step_all_append(c: Seq<u8>, max: u8, a: Seq<int>, b: Seq<int>, up: bool)
    ensures
        step_all(step_all(c, max, a, up), max, b, up) == step_all(c, max, a + b, up),
    decreases a.len(),
{
    if a.len() > 0 {
        let c1 = c.update(a[0], counter_step(c[a[0]], max, up));
        assert((a + b).drop_first() =~= a.drop_first() + b);
        assert((a + b)[0] == a[0]);
        lemma_step_all_append(c1, max, a.drop_first(), b, up);
    } else {
        assert(a + b =~= b);
    }
}

/// Going up without reaching the maximum, each counter gains exactly the
/// number of times its bucket is visited.
pub proof fn lemma_step_up_exact(c: Seq<u8>, max: u8, idx: Seq<int>)
    requires
        all_in_range(idx, c.len()),
        forall|i: int| 0 <= i < c.len() ==> #[trigger] c[i] + occurrences(idx, i) <= max,
    ensures
        step_all(c, max, idx, true).len() == c.len(),
        forall|i: int| 0 <= i < c.len() ==> #[trigger] step_all(c, max, idx, true)[i] == c[i] + occurrences(idx, i),
    decreases idx.len(),
{
    if idx.len() > 0 {
        let k = idx[0];
        let rest = idx.drop_first();
        assert(c[k] + occurrences(idx, k) <= max);
        let c1 = c.update(k, counter_step(c[k], max, true));
        assert(c1[k] == c[k] + 1);
        assert(all_in_range(rest, c1.len())) by {
            assert forall|j: int| 0 <= j < rest.len() implies 0 <= #[trigger] rest[j] < c1.len() by {
                assert(rest[j] == idx[j + 1]);
            }
        }
        assert forall|i: int| 0 <= i < c1.len() implies #[trigger] c1[i] + occurrences(rest, i) <= max by {
            assert(c[i] + occurrences(idx, i) <= max);
        }
        lemma_step_up_exact(c1, max, rest);
        assert forall|i: int| 0 <= i < c.len() implies #[trigger] step_all(c, max, idx, true)[i] == c[i]
            + occurrences(idx, i) by {
            assert(step_all(c, max, idx, true)[i] == step_all(c1, max, rest, true)[i]);
        }
    }
}

/// Going down from counters that hold at least the number of visits, each
/// counter loses exactly the number of times its bucket is visited.
pub proof fn lemma_step_down_exact(c: Seq<u8>, max: u8, idx: Seq<int>)
    requires
        all_in_range(idx, c.len()),
        forall|i: int| 0 <= i < c.len() ==> occurrences(idx, i) <= #[trigger] c[i],
    ensures
        step_all(c, max, idx, false).len() == c.len(),
        forall|i: int| 0 <= i < c.len() ==> #[trigger] step_all(c, max, idx, false)[i] == c[i] - occurrences(idx, i),
    decreases idx.len(),
{
    if idx.len() > 0 {
        let k = idx[0];
        let rest = idx.drop_first();
        assert(occurrences(idx, k) <= c[k]);
        let c1 = c.update(k, counter_step(c[k], max, false));
        assert(c1[k] == c[k] - 1);
        assert(all_in_range(rest, c1.len())) by {
            assert forall|j: int| 0 <= j < rest.len() implies 0 <= #[trigger] rest[j] < c1.len() by {
                assert(rest[j] == idx[j + 1]);
            }
        }
        assert forall|i: int| 0 <= i < c1.len() implies occurrences(rest, i) <= #[trigger] c1[i] by {
            assert(occurrences(idx, i) <= c[i]);
        }
        lemma_step_down_exact(c1, max, rest);
        assert forall|i: int| 0 <= i < c.len() implies #[trigger] step_all(c, max, idx, false)[i] == c[i]
            - occurrences(idx, i) by {
            assert(step_all(c, max, idx, false)[i] == step_all(c1, max, rest, false)[i]);
        }
    }
}

/// Visiting the buckets `idx` going up and then the same buckets going down
/// gives the counters back, when going up never reached the maximum.
pub proof fn lemma_down_undoes_up(c: Seq<u8>, max: u8, idx: Seq<int>)
    requires
        all_in_range(idx, c.len()),
        forall|i: int| 0 <= i < c.len() ==> #[trigger] c[i] + occurrences(idx, i) <= max,
    ensures
        step_all(step_all(c, max, idx, true), max, idx, false) == c,
{
    lemma_step_up_exact(c, max, idx);
    let c1 = step_all(c, max, idx, true);
    lemma_step_down_exact(c1, max, idx);
    assert(step_all(c1, max, idx, false) =~= c);
}

/// A freshly built filter reports no key present.
pub proof fn lemma_empty_filter_answers_false(f: CellSetFilter, key: (Hash32, u32))
    requires
        filter_well_built(f),
        filter_is_empty(f),
    ensures
        !filter_answer(f, key),
{
    let idx = filter_indices(f, key);
    assert(indices_in_range(idx, filter_counters(f).len()));
    assert(0 <= idx[0] < filter_counters(f).len());
    assert(filter_counters(f)[idx[0]] == 0);
}

// ---------------------------------------------------------------------
// Keys in turn.

/// The buckets of `keys`, one key after the other.
pub open spec fn key_indices(f: CellSetFilter, keys: Seq<(Hash32, u32)>) -> Seq<int>
    decreases keys.len(),
{
    if keys.len() == 0 {
        Seq::empty()
    } else {
        key_indices(f, keys.drop_last()) + filter_indices(f, keys.last())
    }
}

/// The filters `f0` and `f1` share their hash kernels and counter maximum.
pub open spec fn same_kernels(f0: CellSetFilter, f1: CellSetFilter) -> bool {
    &&& filter_max(f1) == filter_max(f0)
    &&& forall|k: (Hash32, u32)| #[trigger] filter_indices(f1, k) == filter_indices(f0, k)
}

/// `f1` is `f0` after inserting (`up`) or removing each of `keys`, in turn.
pub open spec fn stepped_keys(f0: CellSetFilter, f1: CellSetFilter, keys: Seq<(Hash32, u32)>, up: bool) -> bool {
    &&& same_kernels(f0, f1)
    &&& filter_counters(f1) == step_all(filter_counters(f0), filter_max(f0), key_indices(f0, keys), up)
}

/// Inserting `keys` into `f` in turn brings no counter past the maximum.
pub open spec fn unsaturated(f: CellSetFilter, keys: Seq<(Hash32, u32)>) -> bool {
    forall|i: int|
        0 <= i < filter_counters(f).len() ==> #[trigger] filter_counters(f)[i] + occurrences(key_indices(f, keys), i)
            <= filter_max(f)
}

/// The buckets of keys of a well-built filter are all in range.
pub proof fn lemma_key_indices_in_range(f: CellSetFilter, keys: Seq<(Hash32, u32)>)
    requires
        filter_well_built(f),
    ensures
        all_in_range(key_indices(f, keys), filter_counters(f).len()),
    decreases keys.len(),
{
    if keys.len() > 0 {
        lemma_key_indices_in_range(f, keys.drop_last());
        let a = key_indices(f, keys.drop_last());
        let b = filter_indices(f, keys.last());
        assert(indices_in_range(b, filter_counters(f).len()));
        assert forall|j: int| 0 <= j < (a + b).len() implies 0 <= #[trigger] (a + b)[j] < filter_counters(f).len() by {
            if j < a.len() {
                assert((a + b)[j] == a[j]);
            } else {
                assert((a + b)[j] == b[j - a.len()]);
            }
        }
    }
}

/// One step of a well-built filter over a key keeps it well built. Going up,
/// the key is found afterwards and every key found before still is; going
/// down, no key that was not found becomes found.
pub proof fn lemma_filter_step(f0: CellSetFilter, f1: CellSetFilter, key: (Hash32, u32), up: bool)
    requires
        filter_well_built(f0),
        same_kernels(f0, f1),
        filter_counters(f1) == step_all(filter_counters(f0), filter_max(f0), filter_indices(f0, key), up),
    ensures
        filter_well_built(f1),
        up ==> filter_answer(f1, key),
        up ==> forall|k: (Hash32, u32)| #[trigger] filter_answer(f0, k) ==> filter_answer(f1, k),
        !up ==> forall|k: (Hash32, u32)| #[trigger] filter_answer(f1, k) ==> filter_answer(f0, k),
{
    let c0 = filter_counters(f0);
    let c1 = filter_counters(f1);
    let m = filter_max(f0);
    let idx = filter_indices(f0, key);
    assert(indices_in_range(idx, c0.len()));
    lemma_step_all(c0, m, idx, up);
    assert forall|k: (Hash32, u32)| indices_in_range(#[trigger] filter_indices(f1, k), c1.len()) by {
        assert(filter_indices(f1, k) == filter_indices(f0, k));
        assert(indices_in_range(filter_indices(f0, k), c0.len()));
    }
    if up {
        assert(filter_indices(f1, key) == idx);
        assert forall|k: (Hash32, u32)| #[trigger] filter_answer(f0, k) implies filter_answer(f1, k) by {
            let ik = filter_indices(f0, k);
            assert(filter_indices(f1, k) == ik);
            assert(indices_in_range(ik, c0.len()));
            assert forall|j: int| 0 <= j < ik.len() implies #[trigger] c1[ik[j]] > 0 by {
                assert(c0[ik[j]] > 0);
                assert(c0[ik[j]] <= c1[ik[j]]);
            }
        }
    } else {
        assert forall|k: (Hash32, u32)| #[trigger] filter_answer(f1, k) implies filter_answer(f0, k) by {
            let ik = filter_indices(f0, k);
            assert(filter_indices(f1, k) == ik);
            assert(indices_in_range(ik, c0.len()));
            assert forall|j: int| 0 <= j < ik.len() implies #[trigger] c0[ik[j]] > 0 by {
                assert(c1[ik[j]] > 0);
                assert(c1[ik[j]] <= c0[ik[j]]);
            }
        }
    }
}

/// Stepping over the keys `keys` and then over one more key is stepping over
/// `keys` with that key pushed.
pub proof fn lemma_stepped_push(
    f0: CellSetFilter,
    f1: CellSetFilter,
    f2: CellSetFilter,
    keys: Seq<(Hash32, u32)>,
    key: (Hash32, u32),
    up: bool,
)
    requires
        stepped_keys(f0, f1, keys, up),
        same_kernels(f1, f2),
        filter_counters(f2) == step_all(filter_counters(f1), filter_max(f1), filter_indices(f1, key), up),
    ensures
        stepped_keys(f0, f2, keys.push(key), up),
{
    let m = filter_max(f0);
    assert(keys.push(key).drop_last() =~= keys);
    assert(key_indices(f0, keys.push(key)) == key_indices(f0, keys) + filter_indices(f0, key));
    assert(filter_indices(f1, key) == filter_indices(f0, key));
    lemma_step_all_append(filter_counters(f0), m, key_indices(f0, keys), filter_indices(f0, key), up);
    assert forall|k: (Hash32, u32)| #[trigger] filter_indices(f2, k) == filter_indices(f0, k) by {
        assert(filter_indices(f2, k) == filter_indices(f1, k));
    }
}

/// Removing, in turn, the keys that were just inserted in turn gives the
/// counters back, and with them every answer, when inserting them brought no
/// counter past the maximum.
pub proof fn lemma_remove_undoes_insert(
    f0: CellSetFilter,
    f1: CellSetFilter,
    f2: CellSetFilter,
    keys: Seq<(Hash32, u32)>,
)
    requires
        filter_well_built(f0),
        stepped_keys(f0, f1, keys, true),
        stepped_keys(f1, f2, keys, false),
        unsaturated(f0, keys),
    ensures
        filter_counters(f2) == filter_counters(f0),
        same_kernels(f0, f2),
        forall|k: (Hash32, u32)| #[trigger] filter_answer(f2, k) == filter_answer(f0, k),
{
    lemma_key_indices_in_range(f0, keys);
    let idx = key_indices(f0, keys);
    lemma_key_indices_equal(f0, f1, keys);
    lemma_down_undoes_up(filter_counters(f0), filter_max(f0), idx);
    assert forall|k: (Hash32, u32)| #[trigger] filter_indices(f2, k) == filter_indices(f0, k) by {
        assert(filter_indices(f2, k) == filter_indices(f1, k));
    }
}

/// Filters that share their hash kernels send keys to the same buckets.
pub proof fn lemma_key_indices_equal(f0: CellSetFilter, f1: CellSetFilter, keys: Seq<(Hash32, u32)>)
    requires
        same_kernels(f0, f1),
    ensures
        key_indices(f1, keys) == key_indices(f0, keys),
    decreases keys.len(),
{
    if keys.len() > 0 {
        lemma_key_indices_equal(f0, f1, keys.drop_last());
        assert(filter_indices(f1, keys.last()) == filter_indices(f0, keys.last()));
    }
}

} // verus!
