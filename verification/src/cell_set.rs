//! The live cell set: metadata of every transaction with live outputs, a
//! counting Bloom filter over cell keys, the diff that a fork switch applies
//! to the set, and a read-only overlay that previews a diff.

use vstd::prelude::*;
use crate::bloom::{
    filter_answer, filter_contains, filter_counters, filter_indices, filter_insert, filter_is_empty, filter_remove,
    filter_well_built, lemma_empty_filter_answers_false, lemma_filter_step, lemma_remove_undoes_insert,
    lemma_stepped_push, same_kernels, step_all, stepped_keys, unsaturated, CellSetFilter,
};
use crate::text::{le_value, push_decimal, read_le, decimal};
use crate::transaction::{fresh_meta, with_mark, Block, Hash32, MetaView, OutPoint, Transaction, TransactionMeta};
use crate::vec_map::{lemma_push_to_set, VecMap, VecSet};

verus! {

/// What a diff records of a new transaction: block number, epoch number,
/// whether it is a cellbase, and its outputs count.
pub type NewOutput = (u64, u64, bool, usize);

/// The abstract value of a `CellSetDiff`.
pub struct DiffView {
    pub old_inputs: Set<OutPoint>,
    pub old_outputs: Map<Hash32, usize>,
    pub new_inputs: Set<OutPoint>,
    pub new_outputs: Map<Hash32, NewOutput>,
}

/// Metadata of the transaction that a diff records as new.
pub open spec fn output_meta(o: NewOutput) -> MetaView {
    fresh_meta(o.0, o.1, o.2, o.3 as nat)
}

/// Whether `o` spends output `i` of transaction `h`.
pub open spec fn spends(o: OutPoint, h: Hash32, i: int) -> bool {
    &&& o.cell is Some
    &&& o.cell.unwrap().tx_hash == h
    &&& o.cell.unwrap().index as int == i
}

/// Whether `o` spends some output of transaction `h`.
pub open spec fn refers(o: OutPoint, h: Hash32) -> bool {
    &&& o.cell is Some
    &&& o.cell.unwrap().tx_hash == h
}

/// Whether one of `points` spends output `i` of transaction `h`.
pub open spec fn marks(points: Set<OutPoint>, h: Hash32, i: int) -> bool {
    exists|o: OutPoint| #[trigger] points.contains(o) && spends(o, h, i)
}

/// Whether one of `points` spends some output of transaction `h`.
pub open spec fn refers_to(points: Set<OutPoint>, h: Hash32) -> bool {
    exists|o: OutPoint| #[trigger] points.contains(o) && refers(o, h)
}

/// The metadata of `h` with every output that `points` spends set to `dead`.
pub open spec fn apply_marks(m: MetaView, h: Hash32, points: Set<OutPoint>, dead: bool) -> MetaView {
    MetaView {
        dead_cell: Seq::new(
            m.dead_cell.len(),
            |i: int| if marks(points, h, i) { dead } else { m.dead_cell[i] },
        ),
        ..m
    }
}

/// Every present transaction with the outputs that `points` spends set to `dead`.
pub open spec fn mark_all(metas: Map<Hash32, MetaView>, points: Set<OutPoint>, dead: bool) -> Map<Hash32, MetaView> {
    Map::new(|h: Hash32| metas.contains_key(h), |h: Hash32| apply_marks(metas[h], h, points, dead))
}

/// The effect of marking the one point `o` on present transactions.
pub open spec fn mark_step(metas: Map<Hash32, MetaView>, o: OutPoint, dead: bool) -> Map<Hash32, MetaView> {
    if o.cell is Some && metas.contains_key(o.cell.unwrap().tx_hash) {
        let c = o.cell.unwrap();
        metas.insert(c.tx_hash, with_mark(metas[c.tx_hash], c.index as int, dead))
    } else {
        metas
    }
}

/// The metadata that the diff's new transactions contribute.
pub open spec fn new_output_metas(d: DiffView) -> Map<Hash32, MetaView> {
    d.new_outputs.map_values(|o: NewOutput| output_meta(o))
}

/// The cell set after applying a diff: old outputs dropped, cells spent by
/// old inputs live again, new transactions added, cells spent by new inputs dead.
pub open spec fn updated_metas(inner: Map<Hash32, MetaView>, d: DiffView) -> Map<Hash32, MetaView> {
    let m1 = inner.remove_keys(d.old_outputs.dom());
    let m2 = mark_all(m1, d.old_inputs, false);
    let m3 = m2.union_prefer_right(new_output_metas(d));
    mark_all(m3, d.new_inputs, true)
}

/// Overlay entries after marking `points` on top of `base`: a transaction of
/// the set that one of `points` refers to is copied in (unless `base` has it)
/// and marked.
pub open spec fn stage_marks(
    base: Map<Hash32, MetaView>,
    inner: Map<Hash32, MetaView>,
    points: Set<OutPoint>,
    dead: bool,
) -> Map<Hash32, MetaView> {
    Map::new(
        |h: Hash32| base.contains_key(h) || (inner.contains_key(h) && refers_to(points, h)),
        |h: Hash32| {
            let b = if base.contains_key(h) { base[h] } else { inner[h] };
            if inner.contains_key(h) { apply_marks(b, h, points, dead) } else { b }
        },
    )
}

/// The effect of marking the one point `o` on overlay entries.
pub open spec fn overlay_step(
    cur: Map<Hash32, MetaView>,
    inner: Map<Hash32, MetaView>,
    o: OutPoint,
    dead: bool,
) -> Map<Hash32, MetaView> {
    if o.cell is Some && inner.contains_key(o.cell.unwrap().tx_hash) {
        let c = o.cell.unwrap();
        let b = if cur.contains_key(c.tx_hash) { cur[c.tx_hash] } else { inner[c.tx_hash] };
        cur.insert(c.tx_hash, with_mark(b, c.index as int, dead))
    } else {
        cur
    }
}

/// The overlay's own entries for a diff.
pub open spec fn overlay_new(inner: Map<Hash32, MetaView>, d: DiffView) -> Map<Hash32, MetaView> {
    stage_marks(stage_marks(new_output_metas(d), inner, d.old_inputs, false), inner, d.new_inputs, true)
}

/// The transactions of the set that the overlay hides.
pub open spec fn overlay_removed(inner: Map<Hash32, MetaView>, d: DiffView) -> Set<Hash32> {
    Set::new(
        |h: Hash32|
            d.old_outputs.contains_key(h) && inner.contains_key(h) && !d.new_outputs.contains_key(h),
    )
}

/// What an overlay answers: hidden keys are absent, its own entries come
/// first, the set's entries otherwise.
pub open spec fn overlay_lookup(
    origin: Map<Hash32, MetaView>,
    new: Map<Hash32, MetaView>,
    removed: Set<Hash32>,
) -> Map<Hash32, MetaView> {
    Map::new(
        |h: Hash32| !removed.contains(h) && (new.contains_key(h) || origin.contains_key(h)),
        |h: Hash32| if new.contains_key(h) { new[h] } else { origin[h] },
    )
}

/// What the overlay of a diff over the set `inner` answers.
pub open spec fn overlay_of(inner: Map<Hash32, MetaView>, d: DiffView) -> Map<Hash32, MetaView> {
    overlay_lookup(inner, overlay_new(inner, d), overlay_removed(inner, d))
}

/// Every new input that spends an existing output of a transaction the
/// diff adds spends one of a transaction already in the set.
pub open spec fn new_inputs_spend_known(inner: Map<Hash32, MetaView>, d: DiffView) -> bool {
    forall|o: OutPoint|
        #[trigger] d.new_inputs.contains(o) && o.cell is Some && d.new_outputs.contains_key(
            o.cell.unwrap().tx_hash,
        ) && (o.cell.unwrap().index as int) < d.new_outputs[o.cell.unwrap().tx_hash].3
            ==> inner.contains_key(o.cell.unwrap().tx_hash)
}

/// The inputs of a sequence of transactions.
pub open spec fn inputs_of(txs: Seq<Transaction>) -> Set<OutPoint>
    decreases txs.len(),
{
    if txs.len() == 0 {
        Set::empty()
    } else {
        inputs_of(txs.drop_last()).union(txs.last().inputs@.to_set())
    }
}

/// The new-output records after recording transactions of a block in order.
pub open spec fn record_new_outputs(
    m: Map<Hash32, NewOutput>,
    txs: Seq<Transaction>,
    number: u64,
    epoch: u64,
) -> Map<Hash32, NewOutput>
    decreases txs.len(),
{
    if txs.len() == 0 {
        m
    } else {
        let t = txs.last();
        record_new_outputs(m, txs.drop_last(), number, epoch).insert(
            t.hash,
            (number, epoch, t.cellbase, t.outputs_len),
        )
    }
}

/// The old-output records after recording transactions of a block in order.
pub open spec fn record_old_outputs(m: Map<Hash32, usize>, txs: Seq<Transaction>) -> Map<Hash32, usize>
    decreases txs.len(),
{
    if txs.len() == 0 {
        m
    } else {
        let t = txs.last();
        record_old_outputs(m, txs.drop_last()).insert(t.hash, t.outputs_len)
    }
}

/// Recording the transactions of an attached block into the new-output
/// records keeps every earlier record, changing only those of the block's
/// transaction hashes; each transaction of the block is recorded with the
/// block's number and epoch, its cellbase flag and its outputs count (the
/// last of equal hashes wins); nothing else is recorded.
pub proof fn lemma_record_new_outputs(m: Map<Hash32, NewOutput>, txs: Seq<Transaction>, number: u64, epoch: u64)
    ensures
        forall|h: Hash32| #[trigger] m.contains_key(h) ==> record_new_outputs(m, txs, number, epoch).contains_key(h),
        forall|h: Hash32|
            #[trigger] m.contains_key(h) && (forall|j: int| 0 <= j < txs.len() ==> txs[j].hash != h)
                ==> record_new_outputs(m, txs, number, epoch)[h] == m[h],
        forall|j: int|
            0 <= j < txs.len() ==> record_new_outputs(m, txs, number, epoch).contains_key(#[trigger] txs[j].hash),
        forall|j: int|
            0 <= j < txs.len() && (forall|k: int| j < k < txs.len() ==> txs[k].hash != txs[j].hash)
                ==> record_new_outputs(m, txs, number, epoch)[#[trigger] txs[j].hash] == (
                number,
                epoch,
                txs[j].cellbase,
                txs[j].outputs_len,
            ),
        forall|h: Hash32|
            #[trigger] record_new_outputs(m, txs, number, epoch).contains_key(h) ==> m.contains_key(h) || exists|
                j: int,
            | 0 <= j < txs.len() && txs[j].hash == h,
    decreases txs.len(),
{
    if txs.len() > 0 {
        let p = txs.drop_last();
        lemma_record_new_outputs(m, p, number, epoch);
        let r = record_new_outputs(m, txs, number, epoch);
        assert forall|h: Hash32|
            #[trigger] m.contains_key(h) && (forall|j: int| 0 <= j < txs.len() ==> txs[j].hash != h)
                implies r[h] == m[h] by {
            assert(txs.last().hash != h);
            assert forall|j: int| 0 <= j < p.len() implies p[j].hash != h by {
                assert(p[j] == txs[j]);
            }
        }
        assert forall|j: int| 0 <= j < txs.len() implies r.contains_key(#[trigger] txs[j].hash) by {
            if j < p.len() {
                assert(p[j] == txs[j]);
            }
        }
        assert forall|j: int|
            0 <= j < txs.len() && (forall|k: int| j < k < txs.len() ==> txs[k].hash != txs[j].hash) implies r[
            #[trigger] txs[j].hash] == (number, epoch, txs[j].cellbase, txs[j].outputs_len) by {
            if j < p.len() {
                assert(p[j] == txs[j]);
                assert(txs[txs.len() - 1].hash != txs[j].hash);
                assert forall|k: int| j < k < p.len() implies p[k].hash != p[j].hash by {
                    assert(p[k] == txs[k]);
                }
            }
        }
        assert forall|h: Hash32| #[trigger] r.contains_key(h) implies m.contains_key(h) || exists|j: int|
            0 <= j < txs.len() && txs[j].hash == h by {
            if h == txs.last().hash {
                assert(txs[txs.len() - 1].hash == h);
            } else if !m.contains_key(h) {
                assert(record_new_outputs(m, p, number, epoch).contains_key(h));
                let j = choose|j: int| 0 <= j < p.len() && p[j].hash == h;
                assert(txs[j] == p[j]);
            }
        }
    }
}

/// Recording the transactions of a detached block into the old-output
/// records keeps every earlier record, changing only those of the block's
/// transaction hashes; each transaction of the block is recorded with its
/// outputs count (the last of equal hashes wins); nothing else is recorded.
pub proof fn lemma_record_old_outputs(m: Map<Hash32, usize>, txs: Seq<Transaction>)
    ensures
        forall|h: Hash32| #[trigger] m.contains_key(h) ==> record_old_outputs(m, txs).contains_key(h),
        forall|h: Hash32|
            #[trigger] m.contains_key(h) && (forall|j: int| 0 <= j < txs.len() ==> txs[j].hash != h)
                ==> record_old_outputs(m, txs)[h] == m[h],
        forall|j: int| 0 <= j < txs.len() ==> record_old_outputs(m, txs).contains_key(#[trigger] txs[j].hash),
        forall|j: int|
            0 <= j < txs.len() && (forall|k: int| j < k < txs.len() ==> txs[k].hash != txs[j].hash)
                ==> record_old_outputs(m, txs)[#[trigger] txs[j].hash] == txs[j].outputs_len,
        forall|h: Hash32|
            #[trigger] record_old_outputs(m, txs).contains_key(h) ==> m.contains_key(h) || exists|j: int|
                0 <= j < txs.len() && txs[j].hash == h,
    decreases txs.len(),
{
    if txs.len() > 0 {
        let p = txs.drop_last();
        lemma_record_old_outputs(m, p);
        let r = record_old_outputs(m, txs);
        assert forall|h: Hash32|
            #[trigger] m.contains_key(h) && (forall|j: int| 0 <= j < txs.len() ==> txs[j].hash != h)
                implies r[h] == m[h] by {
            assert(txs.last().hash != h);
            assert forall|j: int| 0 <= j < p.len() implies p[j].hash != h by {
                assert(p[j] == txs[j]);
            }
        }
        assert forall|j: int| 0 <= j < txs.len() implies r.contains_key(#[trigger] txs[j].hash) by {
            if j < p.len() {
                assert(p[j] == txs[j]);
            }
        }
        assert forall|j: int|
            0 <= j < txs.len() && (forall|k: int| j < k < txs.len() ==> txs[k].hash != txs[j].hash) implies r[
            #[trigger] txs[j].hash] == txs[j].outputs_len by {
            if j < p.len() {
                assert(p[j] == txs[j]);
                assert(txs[txs.len() - 1].hash != txs[j].hash);
                assert forall|k: int| j < k < p.len() implies p[k].hash != p[j].hash by {
                    assert(p[k] == txs[k]);
                }
            }
        }
        assert forall|h: Hash32| #[trigger] r.contains_key(h) implies m.contains_key(h) || exists|j: int|
            0 <= j < txs.len() && txs[j].hash == h by {
            if h == txs.last().hash {
                assert(txs[txs.len() - 1].hash == h);
            } else if !m.contains_key(h) {
                assert(record_old_outputs(m, p).contains_key(h));
                let j = choose|j: int| 0 <= j < p.len() && p[j].hash == h;
                assert(txs[j] == p[j]);
            }
        }
    }
}

/// After applying a diff, every transaction the diff records as new is in
/// the set, also when the diff lists it among its old outputs too, with the
/// recorded block number, epoch, cellbase flag and outputs count, and with
/// exactly the outputs that a new input spends dead. A transaction that the
/// diff records as old and not as new is gone.
pub proof fn lemma_update_enters_new_outputs(inner: Map<Hash32, MetaView>, d: DiffView)
    ensures
        forall|h: Hash32|
            #[trigger] d.new_outputs.contains_key(h) ==> {
                let u = updated_metas(inner, d);
                let rec = d.new_outputs[h];
                &&& u.contains_key(h)
                &&& u[h].block_number == rec.0
                &&& u[h].epoch_number == rec.1
                &&& u[h].cellbase == rec.2
                &&& u[h].dead_cell.len() == rec.3
                &&& forall|i: int|
                    0 <= i < rec.3 ==> (u[h].dead_cell[i] <==> exists|o: OutPoint|
                        #[trigger] d.new_inputs.contains(o) && o.cell is Some && o.cell.unwrap().tx_hash == h
                            && o.cell.unwrap().index as int == i)
            },
        forall|h: Hash32|
            #[trigger] d.old_outputs.contains_key(h) && !d.new_outputs.contains_key(h)
                ==> !updated_metas(inner, d).contains_key(h),
{
    assert forall|h: Hash32| #[trigger] d.new_outputs.contains_key(h) implies {
        let u = updated_metas(inner, d);
        let rec = d.new_outputs[h];
        &&& u.contains_key(h)
        &&& u[h].block_number == rec.0
        &&& u[h].epoch_number == rec.1
        &&& u[h].cellbase == rec.2
        &&& u[h].dead_cell.len() == rec.3
        &&& forall|i: int|
            0 <= i < rec.3 ==> (u[h].dead_cell[i] <==> exists|o: OutPoint|
                #[trigger] d.new_inputs.contains(o) && o.cell is Some && o.cell.unwrap().tx_hash == h
                    && o.cell.unwrap().index as int == i)
    } by {
        let m1 = inner.remove_keys(d.old_outputs.dom());
        let m2 = mark_all(m1, d.old_inputs, false);
        let m3 = m2.union_prefer_right(new_output_metas(d));
        assert(m3.contains_key(h));
        assert(m3[h] == output_meta(d.new_outputs[h]));
        let u = updated_metas(inner, d);
        assert(u[h] == apply_marks(m3[h], h, d.new_inputs, true));
        assert forall|i: int| 0 <= i < d.new_outputs[h].3 implies (u[h].dead_cell[i] <==> exists|o: OutPoint|
            #[trigger] d.new_inputs.contains(o) && o.cell is Some && o.cell.unwrap().tx_hash == h
                && o.cell.unwrap().index as int == i) by {
            assert(u[h].dead_cell[i] == marks(d.new_inputs, h, i));
        }
    }
}

/// After applying a diff, a transaction that the diff records neither as old
/// nor as new is in the set exactly when it was before, with the same block
/// number, epoch, cellbase flag and outputs count; an output of it that a
/// new input spends is dead, otherwise one that an old input spends is live
/// again, otherwise it keeps its mark.
pub proof fn lemma_update_keeps_other_transactions(inner: Map<Hash32, MetaView>, d: DiffView)
    ensures
        forall|h: Hash32|
            !d.new_outputs.contains_key(h) && !d.old_outputs.contains_key(h) ==> {
                &&& #[trigger] updated_metas(inner, d).contains_key(h) == inner.contains_key(h)
                &&& inner.contains_key(h) ==> {
                    &&& updated_metas(inner, d)[h].block_number == inner[h].block_number
                    &&& updated_metas(inner, d)[h].epoch_number == inner[h].epoch_number
                    &&& updated_metas(inner, d)[h].cellbase == inner[h].cellbase
                    &&& updated_metas(inner, d)[h].dead_cell.len() == inner[h].dead_cell.len()
                    &&& forall|i: int|
                        0 <= i < inner[h].dead_cell.len() ==> #[trigger] updated_metas(inner, d)[h].dead_cell[i] == if exists|o: OutPoint|
                            #[trigger] d.new_inputs.contains(o) && o.cell is Some && o.cell.unwrap().tx_hash == h
                                && o.cell.unwrap().index as int == i {
                            true
                        } else if exists|o: OutPoint|
                            #[trigger] d.old_inputs.contains(o) && o.cell is Some && o.cell.unwrap().tx_hash == h
                                && o.cell.unwrap().index as int == i {
                            false
                        } else {
                            inner[h].dead_cell[i]
                        }
                }
            },
{
    assert forall|h: Hash32| !d.new_outputs.contains_key(h) && !d.old_outputs.contains_key(h) implies {
        &&& #[trigger] updated_metas(inner, d).contains_key(h) == inner.contains_key(h)
        &&& inner.contains_key(h) ==> {
            &&& updated_metas(inner, d)[h].block_number == inner[h].block_number
            &&& updated_metas(inner, d)[h].epoch_number == inner[h].epoch_number
            &&& updated_metas(inner, d)[h].cellbase == inner[h].cellbase
            &&& updated_metas(inner, d)[h].dead_cell.len() == inner[h].dead_cell.len()
            &&& forall|i: int|
                0 <= i < inner[h].dead_cell.len() ==> #[trigger] updated_metas(inner, d)[h].dead_cell[i] == if exists|o: OutPoint|
                    #[trigger] d.new_inputs.contains(o) && o.cell is Some && o.cell.unwrap().tx_hash == h
                        && o.cell.unwrap().index as int == i {
                    true
                } else if exists|o: OutPoint|
                    #[trigger] d.old_inputs.contains(o) && o.cell is Some && o.cell.unwrap().tx_hash == h
                        && o.cell.unwrap().index as int == i {
                    false
                } else {
                    inner[h].dead_cell[i]
                }
        }
    } by {
        let m1 = inner.remove_keys(d.old_outputs.dom());
        let m2 = mark_all(m1, d.old_inputs, false);
        let m3 = m2.union_prefer_right(new_output_metas(d));
        let u = updated_metas(inner, d);
        assert(m1.contains_key(h) == inner.contains_key(h));
        assert(m3.contains_key(h) == inner.contains_key(h));
        if inner.contains_key(h) {
            assert(m3[h] == m2[h]);
            assert(m2[h] == apply_marks(inner[h], h, d.old_inputs, false));
            assert(u[h] == apply_marks(m3[h], h, d.new_inputs, true));
            assert forall|i: int| 0 <= i < inner[h].dead_cell.len() implies #[trigger] u[h].dead_cell[i] == if marks(
                d.new_inputs,
                h,
                i,
            ) {
                true
            } else if marks(d.old_inputs, h, i) {
                false
            } else {
                inner[h].dead_cell[i]
            } by {
                assert(m2[h].dead_cell[i] == (if marks(d.old_inputs, h, i) { false } else { inner[h].dead_cell[i] }));
            }
        }
    }
}

/// For every transaction that the diff does not record as new, the overlay
/// of the diff answers what `update` with the diff leaves in the set.
pub proof fn lemma_overlay_matches_update_elsewhere(inner: Map<Hash32, MetaView>, d: DiffView)
    ensures
        forall|h: Hash32|
            !d.new_outputs.contains_key(h) ==> {
                &&& #[trigger] overlay_of(inner, d).contains_key(h) == updated_metas(inner, d).contains_key(h)
                &&& overlay_of(inner, d).contains_key(h) ==> overlay_of(inner, d)[h] == updated_metas(inner, d)[h]
            },
{
    assert forall|h: Hash32| !d.new_outputs.contains_key(h) implies {
        &&& #[trigger] overlay_of(inner, d).contains_key(h) == updated_metas(inner, d).contains_key(h)
        &&& overlay_of(inner, d).contains_key(h) ==> overlay_of(inner, d)[h] == updated_metas(inner, d)[h]
    } by {
        let base = new_output_metas(d);
        let s1 = stage_marks(base, inner, d.old_inputs, false);
        let s2 = stage_marks(s1, inner, d.new_inputs, true);
        let m1 = inner.remove_keys(d.old_outputs.dom());
        let m2 = mark_all(m1, d.old_inputs, false);
        let m3 = m2.union_prefer_right(new_output_metas(d));
        assert(!base.contains_key(h));
        assert(m3.contains_key(h) == m1.contains_key(h));
        if inner.contains_key(h) && !d.old_outputs.contains_key(h) {
            let once = apply_marks(inner[h], h, d.old_inputs, false);
            assert(m3[h] == once);
            if s1.contains_key(h) {
                assert(s1[h] == once);
                assert(s2[h] == apply_marks(once, h, d.new_inputs, true));
            } else {
                assert(!refers_to(d.old_inputs, h));
                lemma_apply_marks_noref(inner[h], h, d.old_inputs, false);
                if s2.contains_key(h) {
                    assert(s2[h] == apply_marks(inner[h], h, d.new_inputs, true));
                } else {
                    assert(!refers_to(d.new_inputs, h));
                    lemma_apply_marks_noref(inner[h], h, d.new_inputs, true);
                }
            }
        }
    }
}

/// The inputs of a sequence of transactions are exactly the points that one
/// of them spends.
pub proof fn lemma_inputs_of(txs: Seq<Transaction>)
    ensures
        forall|o: OutPoint|
            #[trigger] inputs_of(txs).contains(o) <==> exists|j: int| 0 <= j < txs.len() && txs[j].inputs@.contains(o),
    decreases txs.len(),
{
    if txs.len() > 0 {
        let p = txs.drop_last();
        lemma_inputs_of(p);
        assert forall|o: OutPoint|
            #[trigger] inputs_of(txs).contains(o) <==> exists|j: int| 0 <= j < txs.len() && txs[j].inputs@.contains(o) by {
            if inputs_of(txs).contains(o) {
                if txs.last().inputs@.to_set().contains(o) {
                    assert(txs[txs.len() - 1].inputs@.contains(o));
                } else {
                    assert(inputs_of(p).contains(o));
                    let j = choose|j: int| 0 <= j < p.len() && p[j].inputs@.contains(o);
                    assert(txs[j] == p[j]);
                }
            }
            if exists|j: int| 0 <= j < txs.len() && txs[j].inputs@.contains(o) {
                let j = choose|j: int| 0 <= j < txs.len() && txs[j].inputs@.contains(o);
                if j == txs.len() - 1 {
                    assert(txs.last().inputs@.to_set().contains(o));
                } else {
                    assert(p[j] == txs[j]);
                    assert(inputs_of(p).contains(o));
                }
            }
        }
    }
}

/// The overlay of a diff shows every transaction the diff records as new,
/// also when the diff lists it among its old outputs too, with the recorded
/// block number, epoch, cellbase flag and outputs count; it hides a
/// transaction that the diff records as old and not as new.
pub proof fn lemma_overlay_shows_new_outputs(inner: Map<Hash32, MetaView>, d: DiffView)
    ensures
        forall|h: Hash32|
            #[trigger] d.new_outputs.contains_key(h) ==> {
                let v = overlay_of(inner, d);
                let rec = d.new_outputs[h];
                &&& v.contains_key(h)
                &&& v[h].block_number == rec.0
                &&& v[h].epoch_number == rec.1
                &&& v[h].cellbase == rec.2
                &&& v[h].dead_cell.len() == rec.3
            },
        forall|h: Hash32|
            #[trigger] d.old_outputs.contains_key(h) && !d.new_outputs.contains_key(h)
                ==> !overlay_of(inner, d).contains_key(h),
{
    assert forall|h: Hash32| #[trigger] d.new_outputs.contains_key(h) implies {
        let v = overlay_of(inner, d);
        let rec = d.new_outputs[h];
        &&& v.contains_key(h)
        &&& v[h].block_number == rec.0
        &&& v[h].epoch_number == rec.1
        &&& v[h].cellbase == rec.2
        &&& v[h].dead_cell.len() == rec.3
    } by {
        let base = new_output_metas(d);
        let s1 = stage_marks(base, inner, d.old_inputs, false);
        let s2 = stage_marks(s1, inner, d.new_inputs, true);
        assert(base.contains_key(h));
        assert(base[h] == output_meta(d.new_outputs[h]));
        assert(s1.contains_key(h));
        assert(s2.contains_key(h));
        assert(!overlay_removed(inner, d).contains(h));
    }
}

// ---------------------------------------------------------------------
// Lemmas on marks.

proof fn lemma_marks_insert(points: Set<OutPoint>, o: OutPoint, h: Hash32, i: int)
    ensures
        marks(points.insert(o), h, i) == (marks(points, h, i) || spends(o, h, i)),
        refers_to(points.insert(o), h) == (refers_to(points, h) || refers(o, h)),
{
    if marks(points.insert(o), h, i) {
        let x = choose|x: OutPoint| #[trigger] points.insert(o).contains(x) && spends(x, h, i);
        if x != o {
            assert(points.contains(x));
        }
    }
    if marks(points, h, i) {
        let x = choose|x: OutPoint| #[trigger] points.contains(x) && spends(x, h, i);
        assert(points.insert(o).contains(x));
    }
    if spends(o, h, i) {
        assert(points.insert(o).contains(o));
    }
    if refers_to(points.insert(o), h) {
        let x = choose|x: OutPoint| #[trigger] points.insert(o).contains(x) && refers(x, h);
        if x != o {
            assert(points.contains(x));
        }
    }
    if refers_to(points, h) {
        let x = choose|x: OutPoint| #[trigger] points.contains(x) && refers(x, h);
        assert(points.insert(o).contains(x));
    }
    if refers(o, h) {
        assert(points.insert(o).contains(o));
    }
}

proof fn lemma_apply_marks_step(m: MetaView, h: Hash32, points: Set<OutPoint>, o: OutPoint, dead: bool)
    ensures
        apply_marks(m, h, points.insert(o), dead) == (if refers(o, h) {
            with_mark(apply_marks(m, h, points, dead), o.cell.unwrap().index as int, dead)
        } else {
            apply_marks(m, h, points, dead)
        }),
{
    let lhs = apply_marks(m, h, points.insert(o), dead);
    let prev = apply_marks(m, h, points, dead);
    assert forall|i: int| 0 <= i < m.dead_cell.len() implies #[trigger] lhs.dead_cell[i] == (if refers(o, h) {
        with_mark(prev, o.cell.unwrap().index as int, dead)
    } else {
        prev
    }).dead_cell[i] by {
        lemma_marks_insert(points, o, h, i);
    }
    if refers(o, h) {
        assert(lhs.dead_cell =~= with_mark(prev, o.cell.unwrap().index as int, dead).dead_cell);
    } else {
        assert(lhs.dead_cell =~= prev.dead_cell);
    }
}

proof fn lemma_apply_marks_noref(m: MetaView, h: Hash32, points: Set<OutPoint>, dead: bool)
    requires
        !refers_to(points, h),
    ensures
        apply_marks(m, h, points, dead) == m,
{
    assert forall|i: int| 0 <= i < m.dead_cell.len() implies !marks(points, h, i) by {
        if marks(points, h, i) {
            let x = choose|x: OutPoint| #[trigger] points.contains(x) && spends(x, h, i);
            assert(refers(x, h));
        }
    }
    assert(apply_marks(m, h, points, dead).dead_cell =~= m.dead_cell);
}

proof fn lemma_apply_marks_fresh(m: MetaView, h: Hash32, points: Set<OutPoint>)
    requires
        forall|i: int| 0 <= i < m.dead_cell.len() ==> !m.dead_cell[i],
    ensures
        apply_marks(m, h, points, false) == m,
{
    assert(apply_marks(m, h, points, false).dead_cell =~= m.dead_cell);
}

proof fn lemma_mark_all_step(metas: Map<Hash32, MetaView>, points: Set<OutPoint>, o: OutPoint, dead: bool)
    ensures
        mark_all(metas, points.insert(o), dead) == mark_step(mark_all(metas, points, dead), o, dead),
{
    let lhs = mark_all(metas, points.insert(o), dead);
    let rhs = mark_step(mark_all(metas, points, dead), o, dead);
    assert forall|h: Hash32| #[trigger] lhs.contains_key(h) implies lhs[h] == rhs[h] by {
        lemma_apply_marks_step(metas[h], h, points, o, dead);
    }
    assert(lhs =~= rhs);
}

proof fn lemma_mark_all_empty(metas: Map<Hash32, MetaView>, dead: bool)
    ensures
        mark_all(metas, Set::empty(), dead) == metas,
{
    assert forall|h: Hash32| #[trigger] metas.contains_key(h) implies mark_all(metas, Set::empty(), dead)[h] == metas[h] by {
        lemma_apply_marks_noref(metas[h], h, Set::empty(), dead);
    }
    assert(mark_all(metas, Set::empty(), dead) =~= metas);
}

proof fn lemma_stage_step(
    base: Map<Hash32, MetaView>,
    inner: Map<Hash32, MetaView>,
    points: Set<OutPoint>,
    o: OutPoint,
    dead: bool,
)
    ensures
        stage_marks(base, inner, points.insert(o), dead) == overlay_step(
            stage_marks(base, inner, points, dead),
            inner,
            o,
            dead,
        ),
{
    let lhs = stage_marks(base, inner, points.insert(o), dead);
    let cur = stage_marks(base, inner, points, dead);
    let rhs = overlay_step(cur, inner, o, dead);
    assert forall|h: Hash32| lhs.contains_key(h) <==> rhs.contains_key(h) by {
        lemma_marks_insert(points, o, h, 0);
    }
    assert forall|h: Hash32| #[trigger] lhs.contains_key(h) implies lhs[h] == rhs[h] by {
        lemma_marks_insert(points, o, h, 0);
        let b = if base.contains_key(h) { base[h] } else { inner[h] };
        if inner.contains_key(h) {
            lemma_apply_marks_step(b, h, points, o, dead);
            if !cur.contains_key(h) {
                lemma_apply_marks_noref(b, h, points, dead);
            }
        }
    }
    assert(lhs =~= rhs);
}

proof fn lemma_stage_empty(base: Map<Hash32, MetaView>, inner: Map<Hash32, MetaView>, dead: bool)
    ensures
        stage_marks(base, inner, Set::empty(), dead) == base,
{
    let s = stage_marks(base, inner, Set::empty(), dead);
    assert forall|h: Hash32| s.contains_key(h) <==> base.contains_key(h) by {
        if refers_to(Set::<OutPoint>::empty(), h) {
            let x = choose|x: OutPoint| #[trigger] Set::<OutPoint>::empty().contains(x) && refers(x, h);
        }
    }
    assert forall|h: Hash32| #[trigger] s.contains_key(h) implies s[h] == base[h] by {
        lemma_apply_marks_noref(base[h], h, Set::empty(), dead);
    }
    assert(s =~= base);
}

// ---------------------------------------------------------------------
// The law that relates the overlay to `update`.

/// The obsolete overlay of a diff previews the set after `update` with the
/// same diff: for every transaction hash it answers what the updated set
/// holds. It holds whenever no new input spends an output of a transaction
/// that the diff adds and that the set does not hold yet (the overlay marks
/// only transactions of the set, `update` marks the added ones too).
pub proof fn lemma_overlay_agrees_with_update(inner: Map<Hash32, MetaView>, d: DiffView)
    requires
        new_inputs_spend_known(inner, d),
    ensures
        overlay_of(inner, d) == updated_metas(inner, d),
{
    let n1 = new_output_metas(d);
    let n2 = stage_marks(n1, inner, d.old_inputs, false);
    let n3 = stage_marks(n2, inner, d.new_inputs, true);
    let removed = overlay_removed(inner, d);
    let m1 = inner.remove_keys(d.old_outputs.dom());
    let m2 = mark_all(m1, d.old_inputs, false);
    let m3 = m2.union_prefer_right(n1);
    let m4 = mark_all(m3, d.new_inputs, true);
    let lhs = overlay_of(inner, d);
    assert forall|h: Hash32| lhs.contains_key(h) <==> m4.contains_key(h) by {
        if d.new_outputs.contains_key(h) {
            assert(n1.contains_key(h));
        }
    }
    assert forall|h: Hash32| #[trigger] lhs.contains_key(h) implies lhs[h] == m4[h] by {
        if d.new_outputs.contains_key(h) {
            let f = output_meta(d.new_outputs[h]);
            assert(n1[h] == f);
            assert forall|i: int| 0 <= i < f.dead_cell.len() implies !f.dead_cell[i] by {}
            lemma_apply_marks_fresh(f, h, d.old_inputs);
            if inner.contains_key(h) {
                assert(n2[h] == f);
                assert(n3[h] == apply_marks(f, h, d.new_inputs, true));
            } else {
                assert(n2[h] == f);
                assert(n3[h] == f);
                assert forall|i: int| 0 <= i < f.dead_cell.len() implies !marks(d.new_inputs, h, i) by {
                    if marks(d.new_inputs, h, i) {
                        let x = choose|x: OutPoint| #[trigger] d.new_inputs.contains(x) && spends(x, h, i);
                        assert(inner.contains_key(x.cell.unwrap().tx_hash));
                    }
                }
                assert(apply_marks(f, h, d.new_inputs, true).dead_cell =~= f.dead_cell);
            }
            assert(m3[h] == f);
        } else {
            // Not a new transaction: present in the set and not dropped.
            assert(inner.contains_key(h));
            assert(!d.old_outputs.contains_key(h));
            let b = inner[h];
            let once = apply_marks(b, h, d.old_inputs, false);
            if !refers_to(d.old_inputs, h) {
                lemma_apply_marks_noref(b, h, d.old_inputs, false);
            }
            if n2.contains_key(h) {
                assert(n2[h] == once);
            }
            if !refers_to(d.new_inputs, h) {
                lemma_apply_marks_noref(once, h, d.new_inputs, true);
            }
            if n3.contains_key(h) {
                assert(n3[h] == apply_marks(once, h, d.new_inputs, true));
            } else {
                assert(!refers_to(d.old_inputs, h));
                assert(!refers_to(d.new_inputs, h));
            }
            assert(m1[h] == b);
            assert(m2[h] == once);
            assert(m3[h] == once);
        }
    }
    assert(lhs =~= m4);
}

/// Marking the cell that `o` spends dead and then live again gives back the
/// set, when that cell was live; other transactions are never touched.
pub proof fn lemma_mark_dead_then_live(metas: Map<Hash32, MetaView>, o: OutPoint)
    requires
        o.cell is Some && metas.contains_key(o.cell.unwrap().tx_hash) && (o.cell.unwrap().index as int)
            < metas[o.cell.unwrap().tx_hash].dead_cell.len() ==> !metas[o.cell.unwrap().tx_hash].dead_cell[o.cell.unwrap().index as int],
    ensures
        mark_step(mark_step(metas, o, true), o, false) == metas,
{
    if o.cell is Some && metas.contains_key(o.cell.unwrap().tx_hash) {
        let c = o.cell.unwrap();
        crate::transaction::lemma_mark_then_unmark(metas[c.tx_hash], c.index as int);
        assert(mark_step(mark_step(metas, o, true), o, false) =~= metas);
    }
}

/// A diff with no changes.
pub open spec fn empty_diff() -> DiffView {
    DiffView {
        old_inputs: Set::empty(),
        old_outputs: Map::empty(),
        new_inputs: Set::empty(),
        new_outputs: Map::empty(),
    }
}

/// Applying a diff without changes leaves the cell set as it is, and the
/// overlay of such a diff answers what the set holds.
pub proof fn lemma_empty_diff_changes_nothing(inner: Map<Hash32, MetaView>)
    ensures
        updated_metas(inner, empty_diff()) == inner,
        overlay_of(inner, empty_diff()) == inner,
{
    let d = empty_diff();
    assert(inner.remove_keys(d.old_outputs.dom()) =~= inner);
    lemma_mark_all_empty(inner, false);
    assert(new_output_metas(d) =~= Map::<Hash32, MetaView>::empty());
    assert(inner.union_prefer_right(new_output_metas(d)) =~= inner);
    lemma_mark_all_empty(inner, true);
    lemma_stage_empty(new_output_metas(d), inner, false);
    lemma_stage_empty(new_output_metas(d), inner, true);
    assert(overlay_removed(inner, d) =~= Set::<Hash32>::empty());
    assert(overlay_of(inner, d) =~= inner);
}

/// Whether every cell of the set that one of `points` spends is live.
pub open spec fn spent_cells_live(inner: Map<Hash32, MetaView>, points: Set<OutPoint>) -> bool {
    forall|o: OutPoint|
        #[trigger] points.contains(o) && o.cell is Some && inner.contains_key(o.cell.unwrap().tx_hash)
            && (o.cell.unwrap().index as int) < inner[o.cell.unwrap().tx_hash].dead_cell.len()
            ==> !inner[o.cell.unwrap().tx_hash].dead_cell[o.cell.unwrap().index as int]
}

/// Detaching undoes attaching: applying a diff that only attaches
/// transactions, then the diff that detaches the same transactions (their
/// inputs as old inputs, their hashes as old outputs), gives back the set,
/// provided the attached transactions were not in the set and the cells
/// their inputs spend were live.
pub proof fn lemma_detach_undoes_attach(inner: Map<Hash32, MetaView>, attach: DiffView, detach: DiffView)
    requires
        attach.old_inputs == Set::<OutPoint>::empty(),
        attach.old_outputs == Map::<Hash32, usize>::empty(),
        detach.new_inputs == Set::<OutPoint>::empty(),
        detach.new_outputs == Map::<Hash32, NewOutput>::empty(),
        detach.old_inputs == attach.new_inputs,
        detach.old_outputs.dom() == attach.new_outputs.dom(),
        forall|h: Hash32| #[trigger] attach.new_outputs.contains_key(h) ==> !inner.contains_key(h),
        spent_cells_live(inner, attach.new_inputs),
    ensures
        updated_metas(updated_metas(inner, attach), detach) == inner,
{
    let ins = attach.new_inputs;
    let n = new_output_metas(attach);
    assert(inner.remove_keys(attach.old_outputs.dom()) =~= inner);
    lemma_mark_all_empty(inner, false);
    let m3 = inner.union_prefer_right(n);
    let s1 = mark_all(m3, ins, true);
    assert(s1 == updated_metas(inner, attach));
    let r1 = s1.remove_keys(detach.old_outputs.dom());
    let r2 = mark_all(r1, ins, false);
    assert(new_output_metas(detach) =~= Map::<Hash32, MetaView>::empty());
    assert(r2.union_prefer_right(new_output_metas(detach)) =~= r2);
    lemma_mark_all_empty(r2, true);
    assert(updated_metas(s1, detach) == r2);
    assert forall|h: Hash32| r2.contains_key(h) <==> inner.contains_key(h) by {
        if inner.contains_key(h) {
            assert(!n.contains_key(h));
        }
    }
    assert forall|h: Hash32| #[trigger] r2.contains_key(h) implies r2[h] == inner[h] by {
        assert(!n.contains_key(h));
        assert(m3[h] == inner[h]);
        let once = apply_marks(inner[h], h, ins, true);
        assert(r1[h] == once);
        let twice = apply_marks(once, h, ins, false);
        assert forall|i: int| 0 <= i < inner[h].dead_cell.len() implies #[trigger] twice.dead_cell[i]
            == inner[h].dead_cell[i] by {
            if marks(ins, h, i) {
                let o = choose|o: OutPoint| #[trigger] ins.contains(o) && spends(o, h, i);
            }
        }
        assert(twice.dead_cell =~= inner[h].dead_cell);
    }
    assert(r2 =~= inner);
}

/// The diff that attaching a block's transactions records.
pub open spec fn attach_diff(txs: Seq<Transaction>, number: u64, epoch: u64) -> DiffView {
    DiffView {
        old_inputs: Set::empty(),
        old_outputs: Map::empty(),
        new_inputs: inputs_of(txs),
        new_outputs: record_new_outputs(Map::empty(), txs, number, epoch),
    }
}

/// The diff that detaching a block's transactions records.
pub open spec fn detach_diff(txs: Seq<Transaction>) -> DiffView {
    DiffView {
        old_inputs: inputs_of(txs),
        old_outputs: record_old_outputs(Map::empty(), txs),
        new_inputs: Set::empty(),
        new_outputs: Map::empty(),
    }
}

proof fn lemma_record_doms(txs: Seq<Transaction>, number: u64, epoch: u64, h: Hash32)
    ensures
        record_new_outputs(Map::empty(), txs, number, epoch).contains_key(h) <==> (exists|i: int|
            0 <= i < txs.len() && (#[trigger] txs[i]).hash == h),
        record_old_outputs(Map::empty(), txs).contains_key(h) <==> (exists|i: int|
            0 <= i < txs.len() && (#[trigger] txs[i]).hash == h),
    decreases txs.len(),
{
    if txs.len() > 0 {
        let init = txs.drop_last();
        lemma_record_doms(init, number, epoch, h);
        if exists|i: int| 0 <= i < init.len() && (#[trigger] init[i]).hash == h {
            let i = choose|i: int| 0 <= i < init.len() && (#[trigger] init[i]).hash == h;
            assert(txs[i] == init[i]);
        }
        if exists|i: int| 0 <= i < txs.len() && (#[trigger] txs[i]).hash == h {
            let i = choose|i: int| 0 <= i < txs.len() && (#[trigger] txs[i]).hash == h;
            if i < txs.len() - 1 {
                assert(init[i] == txs[i]);
            }
        }
    }
}

proof fn lemma_record_values(txs: Seq<Transaction>, number: u64, epoch: u64, h: Hash32)
    requires
        record_new_outputs(Map::empty(), txs, number, epoch).contains_key(h),
    ensures
        record_new_outputs(Map::empty(), txs, number, epoch)[h].0 == number,
        record_new_outputs(Map::empty(), txs, number, epoch)[h].1 == epoch,
    decreases txs.len(),
{
    if txs.len() > 0 && txs.last().hash != h {
        lemma_record_values(txs.drop_last(), number, epoch, h);
    }
}

/// Attaching a block puts each of its transactions into the set, committed
/// at the block's number and epoch.
pub proof fn lemma_attached_transactions_present(
    inner: Map<Hash32, MetaView>,
    txs: Seq<Transaction>,
    number: u64,
    epoch: u64,
    i: int,
)
    requires
        0 <= i < txs.len(),
    ensures
        updated_metas(inner, attach_diff(txs, number, epoch)).contains_key(txs[i].hash),
        updated_metas(inner, attach_diff(txs, number, epoch))[txs[i].hash].block_number == number,
        updated_metas(inner, attach_diff(txs, number, epoch))[txs[i].hash].epoch_number == epoch,
{
    let h = txs[i].hash;
    let a = attach_diff(txs, number, epoch);
    lemma_record_doms(txs, number, epoch, h);
    lemma_record_values(txs, number, epoch, h);
    assert(new_output_metas(a).contains_key(h));
}

/// Detaching a block undoes attaching it: `update` with the diff that
/// `push_new` records for a block, then with the diff that `push_old`
/// records for it, gives back the set, provided none of the block's
/// transactions was in the set and every cell of the set that they spend
/// was live.
pub proof fn lemma_detach_block_undoes_attach(
    inner: Map<Hash32, MetaView>,
    txs: Seq<Transaction>,
    number: u64,
    epoch: u64,
)
    requires
        forall|i: int| 0 <= i < txs.len() ==> !inner.contains_key(#[trigger] txs[i].hash),
        spent_cells_live(inner, inputs_of(txs)),
    ensures
        updated_metas(updated_metas(inner, attach_diff(txs, number, epoch)), detach_diff(txs)) == inner,
{
    let a = attach_diff(txs, number, epoch);
    let d = detach_diff(txs);
    assert forall|h: Hash32| d.old_outputs.dom().contains(h) <==> a.new_outputs.dom().contains(h) by {
        lemma_record_doms(txs, number, epoch, h);
    }
    assert(d.old_outputs.dom() =~= a.new_outputs.dom());
    assert forall|h: Hash32| #[trigger] a.new_outputs.contains_key(h) implies !inner.contains_key(h) by {
        lemma_record_doms(txs, number, epoch, h);
        let i = choose|i: int| 0 <= i < txs.len() && (#[trigger] txs[i]).hash == h;
    }
    lemma_detach_undoes_attach(inner, a, d);
}

// ---------------------------------------------------------------------
// The diff.

/// The changes of a fork switch: what the detached blocks spent and created
/// (old) and what the attached blocks spend and create (new).
#[derive(Clone, Debug)]
pub struct CellSetDiff {
    pub old_inputs: VecSet<OutPoint>,
    pub old_outputs: VecMap<Hash32, usize>,
    pub new_inputs: VecSet<OutPoint>,
    pub new_outputs: VecMap<Hash32, NewOutput>,
}

impl Default for CellSetDiff {
    /// An empty diff.
    fn default() -> (d: Self)
        ensures
            d.wf(),
            d.old_inputs@ == Set::<OutPoint>::empty(),
            d.old_outputs@ == Map::<Hash32, usize>::empty(),
            d.new_inputs@ == Set::<OutPoint>::empty(),
            d.new_outputs@ == Map::<Hash32, NewOutput>::empty(),
    {
        CellSetDiff::new()
    }
}

impl CellSetDiff {
    pub open spec fn wf(&self) -> bool {
        &&& self.old_inputs.wf()
        &&& self.old_outputs.wf()
        &&& self.new_inputs.wf()
        &&& self.new_outputs.wf()
    }

    pub open spec fn diff_view(&self) -> DiffView {
        DiffView {
            old_inputs: self.old_inputs@,
            old_outputs: self.old_outputs@,
            new_inputs: self.new_inputs@,
            new_outputs: self.new_outputs@,
        }
    }

    /// An empty diff.
    pub fn new() -> (d: Self)
        ensures
            d.wf(),
            d.old_inputs@ == Set::<OutPoint>::empty(),
            d.old_outputs@ == Map::<Hash32, usize>::empty(),
            d.new_inputs@ == Set::<OutPoint>::empty(),
            d.new_outputs@ == Map::<Hash32, NewOutput>::empty(),
    {
        CellSetDiff {
            old_inputs: VecSet::new(),
            old_outputs: VecMap::new(),
            new_inputs: VecSet::new(),
            new_outputs: VecMap::new(),
        }
    }

    fn extend_inputs(set: &mut VecSet<OutPoint>, tx: &Transaction)
        requires
            old(set).wf(),
        ensures
            final(set).wf(),
            final(set)@ == old(set)@.union(tx.inputs@.to_set()),
    {
        let mut j: usize = 0;
        while j < tx.inputs.len()
            invariant
                set.wf(),
                j <= tx.inputs@.len(),
                set@ == old(set)@.union(tx.inputs@.take(j as int).to_set()),
            decreases tx.inputs@.len() - j,
        {
            let o = tx.inputs[j];
            set.insert(o);
            proof {
                let nxt = tx.inputs@.take(j + 1);
                let cur = tx.inputs@.take(j as int);
                assert(nxt =~= cur.push(o));
                lemma_push_to_set(cur, o);
                assert(set@ =~= old(set)@.union(nxt.to_set()));
            }
            j += 1;
        }
        assert(tx.inputs@.take(tx.inputs@.len() as int) =~= tx.inputs@);
    }

    /// Records the transactions of an attached block: their inputs as new
    /// inputs and each transaction (block number, epoch, cellbase, outputs
    /// count) as a new output; a later transaction with an equal hash wins.
    pub fn push_new(&mut self, block: &Block)
        requires
            old(self).wf(),
        ensures
            final(self).wf(),
            final(self).new_inputs@ == old(self).new_inputs@.union(inputs_of(block.transactions@)),
            final(self).new_outputs@ == record_new_outputs(
                old(self).new_outputs@,
                block.transactions@,
                block.number,
                block.epoch,
            ),
            final(self).old_inputs@ == old(self).old_inputs@,
            final(self).old_outputs@ == old(self).old_outputs@,
    {
        let txs = &block.transactions;
        let mut t: usize = 0;
        while t < txs.len()
            invariant
                self.wf(),
                t <= txs@.len(),
                txs@ == block.transactions@,
                self.new_inputs@ == old(self).new_inputs@.union(inputs_of(txs@.take(t as int))),
                self.new_outputs@ == record_new_outputs(
                    old(self).new_outputs@,
                    txs@.take(t as int),
                    block.number,
                    block.epoch,
                ),
                self.old_inputs@ == old(self).old_inputs@,
                self.old_outputs@ == old(self).old_outputs@,
            decreases txs@.len() - t,
        {
            let tx = &txs[t];
            Self::extend_inputs(&mut self.new_inputs, tx);
            self.new_outputs.insert(tx.hash, (block.number, block.epoch, tx.cellbase, tx.outputs_len));
            proof {
                let next = txs@.take(t + 1);
                assert(next.drop_last() =~= txs@.take(t as int));
                assert(next.last() == *tx);
                assert(self.new_inputs@ =~= old(self).new_inputs@.union(inputs_of(next)));
            }
            t += 1;
        }
        assert(txs@.take(txs@.len() as int) =~= txs@);
    }

    /// Records the transactions of a detached block: their inputs as old
    /// inputs and each transaction's outputs count as an old output.
    pub fn push_old(&mut self, block: &Block)
        requires
            old(self).wf(),
        ensures
            final(self).wf(),
            final(self).old_inputs@ == old(self).old_inputs@.union(inputs_of(block.transactions@)),
            final(self).old_outputs@ == record_old_outputs(old(self).old_outputs@, block.transactions@),
            final(self).new_inputs@ == old(self).new_inputs@,
            final(self).new_outputs@ == old(self).new_outputs@,
    {
        let txs = &block.transactions;
        let mut t: usize = 0;
        while t < txs.len()
            invariant
                self.wf(),
                t <= txs@.len(),
                txs@ == block.transactions@,
                self.old_inputs@ == old(self).old_inputs@.union(inputs_of(txs@.take(t as int))),
                self.old_outputs@ == record_old_outputs(old(self).old_outputs@, txs@.take(t as int)),
                self.new_inputs@ == old(self).new_inputs@,
                self.new_outputs@ == old(self).new_outputs@,
            decreases txs@.len() - t,
        {
            let tx = &txs[t];
            Self::extend_inputs(&mut self.old_inputs, tx);
            self.old_outputs.insert(tx.hash, tx.outputs_len);
            proof {
                let next = txs@.take(t + 1);
                assert(next.drop_last() =~= txs@.take(t as int));
                assert(next.last() == *tx);
                assert(self.old_inputs@ =~= old(self).old_inputs@.union(inputs_of(next)));
            }
            t += 1;
        }
        assert(txs@.take(txs@.len() as int) =~= txs@);
    }
}


// ---------------------------------------------------------------------
// The overlay.

/// A read-only view of the cell set as a diff would leave it, without
/// changing the set: its own entries, the set's entries it hides, and the set.
#[derive(Clone, Debug, PartialEq, Eq)]
pub struct ObsoleteCellSetOverlay<'a> {
    origin: &'a VecMap<Hash32, TransactionMeta>,
    new: VecMap<Hash32, TransactionMeta>,
    removed: VecSet<Hash32>,
}

pub open spec fn meta_views(m: Map<Hash32, TransactionMeta>) -> Map<Hash32, MetaView> {
    m.map_values(|t: TransactionMeta| t@)
}

impl<'a> ObsoleteCellSetOverlay<'a> {
    pub closed spec fn wf(&self) -> bool {
        &&& self.origin.wf()
        &&& self.new.wf()
        &&& self.removed.wf()
    }

    /// The set the overlay lies over.
    pub closed spec fn origin_metas(&self) -> Map<Hash32, MetaView> {
        meta_views(self.origin@)
    }

    /// The overlay's own entries.
    pub closed spec fn new_metas(&self) -> Map<Hash32, MetaView> {
        meta_views(self.new@)
    }

    /// The set's entries that the overlay hides.
    pub closed spec fn removed_hashes(&self) -> Set<Hash32> {
        self.removed@
    }

    /// What the overlay answers for each hash.
    pub open spec fn lookup(&self) -> Map<Hash32, MetaView> {
        overlay_lookup(self.origin_metas(), self.new_metas(), self.removed_hashes())
    }

    /// The metadata of `hash` as the overlay sees it.
    pub fn get(&self, hash: &Hash32) -> (r: Option<&TransactionMeta>)
        requires
            self.wf(),
        ensures
            match r {
                Some(m) => self.lookup().contains_key(*hash) && m@ == self.lookup()[*hash],
                None => !self.lookup().contains_key(*hash),
            },
    {
        if self.removed.contains(hash) {
            return None;
        }
        match self.new.get(hash) {
            Some(m) => Some(m),
            None => self.origin.get(hash),
        }
    }
}

// ---------------------------------------------------------------------
// The cell set.

/// The live cell set: transaction metadata by transaction hash, a counting
/// Bloom filter over cell keys and the number of keys counted into it.
pub struct CellSet {
    inner: VecMap<Hash32, TransactionMeta>,
    filter: CellSetFilter,
    count: u64,
}

/// The cell key that 36 raw bytes hold: the first 32 bytes as the
/// transaction hash, the last 4 as the little-endian output index.
pub open spec fn cell_key_of(raw: Seq<u8>) -> (Hash32, u32) {
    (choose|h: Hash32| h@ == raw.subrange(0, 32), le_value(raw.subrange(32, 36)) as u32)
}

/// Splits a 36-byte cell key into the transaction hash (first 32 bytes) and
/// the output index (last 4 bytes, little-endian).
pub fn deconstruct_cell_key(raw: &[u8]) -> (r: (Hash32, u32))
    requires
        raw@.len() == 36,
    ensures
        r.0@ == raw@.subrange(0, 32),
        r.1 as nat == le_value(raw@.subrange(32, 36)),
        r == cell_key_of(raw@),
{
    let mut hash: Hash32 = [0u8; 32];
    let mut i: usize = 0;
    while i < 32
        invariant
            i <= 32,
            raw@.len() == 36,
            forall|j: int| 0 <= j < i ==> hash[j] == raw@[j],
        decreases 32 - i,
    {
        hash[i] = raw[i];
        i += 1;
    }
    assert(hash@ =~= raw@.subrange(0, 32));
    let index = read_le(raw, 32, 4);
    proof {
        crate::text::lemma_le_value_bound(raw@.subrange(32, 36));
        assert(crate::text::pow256(4) == 0x1_0000_0000) by {
            reveal_with_fuel(crate::text::pow256, 5);
        }
    }
    proof {
        let h: Hash32 = choose|h: Hash32| h@ == raw@.subrange(0, 32);
        assert(hash@ == raw@.subrange(0, 32));
        assert(h =~= hash);
    }
    (hash, index as u32)
}

impl CellSet {
    pub closed spec fn wf(&self) -> bool {
        self.inner.wf() && filter_well_built(self.filter)
    }

    /// The transactions in the set and their metadata.
    pub closed spec fn metas(&self) -> Map<Hash32, MetaView> {
        meta_views(self.inner@)
    }

    /// The number of cell keys counted into the filter.
    pub closed spec fn cell_count(&self) -> u64 {
        self.count
    }

    /// The filter.
    pub closed spec fn filter_state(&self) -> CellSetFilter {
        self.filter
    }

    /// An empty set over the given filter, freshly built: all of its counters
    /// are zero, so it reports no key present.
    pub fn new(filter: CellSetFilter) -> (s: Self)
        requires
            filter_well_built(filter),
            filter_is_empty(filter),
        ensures
            s.wf(),
            s.metas() == Map::<Hash32, MetaView>::empty(),
            s.cell_count() == 0,
            s.filter_state() == filter,
            forall|k: (Hash32, u32)| !#[trigger] filter_answer(s.filter_state(), k),
    {
        let s = CellSet { inner: VecMap::new(), filter, count: 0 };
        assert(s.metas() =~= Map::<Hash32, MetaView>::empty());
        assert forall|k: (Hash32, u32)| !#[trigger] filter_answer(s.filter_state(), k) by {
            lemma_empty_filter_answers_false(filter, k);
        }
        s
    }

    /// The number of cell keys counted into the filter.
    pub fn count(&self) -> (r: u64)
        ensures
            r == self.cell_count(),
    {
        self.count
    }

    /// Counts one cell key, given as 36 raw bytes, into the filter.
    pub fn insert_raw(&mut self, raw: &[u8])
        requires
            old(self).wf(),
            raw@.len() == 36,
            old(self).cell_count() < u64::MAX,
        ensures
            final(self).metas() == old(self).metas(),
            final(self).wf(),
            final(self).cell_count() == old(self).cell_count() + 1,
            stepped_keys(old(self).filter_state(), final(self).filter_state(), seq![cell_key_of(raw@)], true),
            filter_answer(final(self).filter_state(), cell_key_of(raw@)),
            forall|k: (Hash32, u32)| #[trigger] filter_answer(old(self).filter_state(), k) ==> filter_answer(final(self).filter_state(), k),
    {
        let (hash, index) = deconstruct_cell_key(raw);
        filter_insert(&mut self.filter, &hash, index);
        proof {
            lemma_filter_step(old(self).filter, self.filter, (hash, index), true);
            let empty: Seq<(Hash32, u32)> = Seq::empty();
            assert(stepped_keys(old(self).filter, old(self).filter, empty, true)) by {
                assert(crate::bloom::key_indices(old(self).filter, empty) =~= Seq::<int>::empty());
            }
            lemma_stepped_push(old(self).filter, old(self).filter, self.filter, empty, (hash, index), true);
            assert(empty.push((hash, index)) =~= seq![cell_key_of(raw@)]);
        }
        self.count = self.count + 1;
    }

    /// Counts the given cell keys into the filter, in turn.
    pub fn insert_cells(&mut self, keys: &[(Hash32, u32)])
        requires
            old(self).wf(),
            old(self).cell_count() + keys@.len() <= u64::MAX,
        ensures
            final(self).metas() == old(self).metas(),
            final(self).wf(),
            final(self).cell_count() == old(self).cell_count() + keys@.len(),
            stepped_keys(old(self).filter_state(), final(self).filter_state(), keys@, true),
            forall|j: int| 0 <= j < keys@.len() ==> filter_answer(final(self).filter_state(), #[trigger] keys@[j]),
            forall|k: (Hash32, u32)| #[trigger] filter_answer(old(self).filter_state(), k) ==> filter_answer(final(self).filter_state(), k),
    {
        let mut i: usize = 0;
        proof {
            assert(crate::bloom::key_indices(old(self).filter, keys@.take(0)) =~= Seq::<int>::empty());
        }
        while i < keys.len()
            invariant
                i <= keys@.len(),
                self.inner == old(self).inner,
                self.count == old(self).count,
                filter_well_built(old(self).filter),
                filter_well_built(self.filter),
                stepped_keys(old(self).filter, self.filter, keys@.take(i as int), true),
                forall|j: int| 0 <= j < i ==> filter_answer(self.filter, #[trigger] keys@[j]),
                forall|k: (Hash32, u32)| #[trigger] filter_answer(old(self).filter, k) ==> filter_answer(self.filter, k),
            decreases keys@.len() - i,
        {
            let key = &keys[i];
            let ghost before = self.filter;
            filter_insert(&mut self.filter, &key.0, key.1);
            proof {
                lemma_filter_step(before, self.filter, *key, true);
                lemma_stepped_push(old(self).filter, before, self.filter, keys@.take(i as int), *key, true);
                assert(keys@.take(i + 1) =~= keys@.take(i as int).push(*key));
            }
            i += 1;
        }
        assert(keys@.take(keys@.len() as int) =~= keys@);
        self.count = self.count + keys.len() as u64;
    }

    /// Takes the given cell keys out of the filter, in turn.
    pub fn delete_cells(&mut self, keys: &[(Hash32, u32)])
        requires
            old(self).wf(),
            old(self).cell_count() >= keys@.len(),
        ensures
            final(self).metas() == old(self).metas(),
            final(self).wf(),
            final(self).cell_count() == old(self).cell_count() - keys@.len(),
            stepped_keys(old(self).filter_state(), final(self).filter_state(), keys@, false),
            forall|k: (Hash32, u32)| #[trigger] filter_answer(final(self).filter_state(), k) ==> filter_answer(old(self).filter_state(), k),
    {
        let mut i: usize = 0;
        proof {
            assert(crate::bloom::key_indices(old(self).filter, keys@.take(0)) =~= Seq::<int>::empty());
        }
        while i < keys.len()
            invariant
                i <= keys@.len(),
                self.inner == old(self).inner,
                self.count == old(self).count,
                filter_well_built(old(self).filter),
                filter_well_built(self.filter),
                stepped_keys(old(self).filter, self.filter, keys@.take(i as int), false),
                forall|k: (Hash32, u32)| #[trigger] filter_answer(self.filter, k) ==> filter_answer(old(self).filter, k),
            decreases keys@.len() - i,
        {
            let key = &keys[i];
            let ghost before = self.filter;
            filter_remove(&mut self.filter, &key.0, key.1);
            proof {
                lemma_filter_step(before, self.filter, *key, false);
                lemma_stepped_push(old(self).filter, before, self.filter, keys@.take(i as int), *key, false);
                assert(keys@.take(i + 1) =~= keys@.take(i as int).push(*key));
            }
            i += 1;
        }
        assert(keys@.take(keys@.len() as int) =~= keys@);
        self.count = self.count - keys.len() as u64;
    }

    /// Whether the filter may hold the cell key: whether all of the key's
    /// buckets hold a count above zero.
    pub fn contains_probably(&self, tx_hash: &Hash32, index: u32) -> (r: bool)
        requires
            self.wf(),
        ensures
            r == filter_answer(self.filter_state(), (*tx_hash, index)),
    {
        filter_contains(&self.filter, tx_hash, index)
    }

    /// The metadata of a transaction in the set.
    pub fn get(&self, h: &Hash32) -> (r: Option<&TransactionMeta>)
        requires
            self.wf(),
        ensures
            match r {
                Some(m) => self.metas().contains_key(*h) && m@ == self.metas()[*h],
                None => !self.metas().contains_key(*h),
            },
    {
        self.inner.get(h)
    }

    /// Adds a transaction with all outputs live, replacing any earlier entry.
    pub fn insert(&mut self, tx_hash: Hash32, number: u64, epoch: u64, cellbase: bool, outputs_len: usize)
        requires
            old(self).wf(),
        ensures
            final(self).wf(),
            final(self).metas() == old(self).metas().insert(
                tx_hash,
                fresh_meta(number, epoch, cellbase, outputs_len as nat),
            ),
            final(self).cell_count() == old(self).cell_count(),
            final(self).filter_state() == old(self).filter_state(),
    {
        let meta = if cellbase {
            TransactionMeta::new_cellbase(number, epoch, outputs_len)
        } else {
            TransactionMeta::new(number, epoch, outputs_len)
        };
        self.inner.insert(tx_hash, meta);
        assert(self.metas() =~= old(self).metas().insert(
            tx_hash,
            fresh_meta(number, epoch, cellbase, outputs_len as nat),
        ));
    }

    /// Drops a transaction and returns its metadata.
    pub fn remove(&mut self, tx_hash: &Hash32) -> (r: Option<TransactionMeta>)
        requires
            old(self).wf(),
        ensures
            final(self).wf(),
            final(self).metas() == old(self).metas().remove(*tx_hash),
            match r {
                Some(m) => old(self).metas().contains_key(*tx_hash) && m@ == old(self).metas()[*tx_hash],
                None => !old(self).metas().contains_key(*tx_hash),
            },
            final(self).cell_count() == old(self).cell_count(),
            final(self).filter_state() == old(self).filter_state(),
    {
        let r = self.inner.remove(tx_hash);
        assert(self.metas() =~= old(self).metas().remove(*tx_hash));
        r
    }

    fn mark(&mut self, o: &OutPoint, dead: bool)
        requires
            old(self).wf(),
        ensures
            final(self).wf(),
            final(self).metas() == mark_step(old(self).metas(), *o, dead),
            final(self).cell_count() == old(self).cell_count(),
            final(self).filter_state() == old(self).filter_state(),
    {
        if let Some(cell) = &o.cell {
            let updated = match self.inner.get(&cell.tx_hash) {
                Some(meta) => {
                    let mut m = meta.duplicate();
                    if dead {
                        m.set_dead(cell.index as usize);
                    } else {
                        m.unset_dead(cell.index as usize);
                    }
                    Some(m)
                },
                None => None,
            };
            if let Some(m) = updated {
                self.inner.insert(cell.tx_hash, m);
                assert(self.metas() =~= mark_step(old(self).metas(), *o, dead));
            }
        }
    }

    /// Marks the output that `o` spends dead, if its transaction is in the set.
    pub fn mark_dead(&mut self, o: &OutPoint)
        requires
            old(self).wf(),
        ensures
            final(self).wf(),
            final(self).metas() == mark_step(old(self).metas(), *o, true),
            final(self).cell_count() == old(self).cell_count(),
            final(self).filter_state() == old(self).filter_state(),
    {
        self.mark(o, true)
    }

    /// Marks the output that `o` spends live, if its transaction is in the set.
    fn mark_live(&mut self, o: &OutPoint)
        requires
            old(self).wf(),
        ensures
            final(self).wf(),
            final(self).metas() == mark_step(old(self).metas(), *o, false),
            final(self).cell_count() == old(self).cell_count(),
            final(self).filter_state() == old(self).filter_state(),
    {
        self.mark(o, false)
    }

    fn mark_points(&mut self, points: &VecSet<OutPoint>, dead: bool)
        requires
            old(self).wf(),
            points.wf(),
        ensures
            final(self).wf(),
            final(self).metas() == mark_all(old(self).metas(), points@, dead),
            final(self).cell_count() == old(self).cell_count(),
            final(self).filter_state() == old(self).filter_state(),
    {
        proof {
            lemma_mark_all_empty(old(self).metas(), dead);
            points.lemma_items();
            assert(points.item_seq().take(0).to_set() =~= Set::<OutPoint>::empty());
        }
        let mut i: usize = 0;
        while i < points.len()
            invariant
                self.wf(),
                points.wf(),
                i <= points.item_seq().len(),
                self.metas() == mark_all(old(self).metas(), points.item_seq().take(i as int).to_set(), dead),
                self.count == old(self).count,
                self.filter == old(self).filter,
            decreases points.item_seq().len() - i,
        {
            let o = *points.item_at(i);
            if dead {
                self.mark_dead(&o);
            } else {
                self.mark_live(&o);
            }
            proof {
                let cur = points.item_seq().take(i as int);
                let nxt = points.item_seq().take(i + 1);
                assert(nxt =~= cur.push(o));
                lemma_push_to_set(cur, o);
                lemma_mark_all_step(old(self).metas(), cur.to_set(), o, dead);
            }
            i += 1;
        }
        proof {
            points.lemma_items();
            assert(points.item_seq().take(points.item_seq().len() as int) =~= points.item_seq());
        }
    }

    /// Applies a diff: drops the old transactions, revives the cells the old
    /// inputs spent, adds the new transactions and kills the cells the new
    /// inputs spend.
    pub fn update(&mut self, diff: CellSetDiff)
        requires
            old(self).wf(),
            diff.wf(),
        ensures
            final(self).wf(),
            final(self).metas() == updated_metas(old(self).metas(), diff.diff_view()),
            final(self).cell_count() == old(self).cell_count(),
            final(self).filter_state() == old(self).filter_state(),
    {
        let ghost d = diff.diff_view();
        let CellSetDiff { old_inputs, old_outputs, new_inputs, new_outputs } = diff;
        // Drop the old transactions.
        proof {
            old_outputs.lemma_dom();
            assert(old(self).metas().remove_keys(old_outputs.key_seq().take(0).to_set()) =~= old(self).metas());
        }
        let mut i: usize = 0;
        while i < old_outputs.len()
            invariant
                self.wf(),
                old_outputs.wf(),
                i <= old_outputs.key_seq().len(),
                self.metas() == old(self).metas().remove_keys(old_outputs.key_seq().take(i as int).to_set()),
                self.count == old(self).count,
                self.filter == old(self).filter,
            decreases old_outputs.key_seq().len() - i,
        {
            let h = *old_outputs.key_at(i);
            self.remove(&h);
            proof {
                let cur = old_outputs.key_seq().take(i as int);
                let nxt = old_outputs.key_seq().take(i + 1);
                assert(nxt =~= cur.push(h));
                lemma_push_to_set(cur, h);
                assert(self.metas() =~= old(self).metas().remove_keys(nxt.to_set()));
            }
            i += 1;
        }
        let ghost m1 = self.metas();
        proof {
            old_outputs.lemma_dom();
            assert(old_outputs.key_seq().take(old_outputs.key_seq().len() as int) =~= old_outputs.key_seq());
            assert(m1 == old(self).metas().remove_keys(d.old_outputs.dom()));
        }
        // Revive the cells that the old inputs spent.
        self.mark_points(&old_inputs, false);
        let ghost m2 = self.metas();
        // Add the new transactions.
        proof {
            new_outputs.lemma_dom();
            assert(m2.union_prefer_right(new_output_metas(d).restrict(new_outputs.key_seq().take(0).to_set())) =~= m2);
        }
        let mut j: usize = 0;
        while j < new_outputs.len()
            invariant
                self.wf(),
                new_outputs.wf(),
                new_outputs@ == d.new_outputs,
                j <= new_outputs.key_seq().len(),
                self.metas() == m2.union_prefer_right(
                    new_output_metas(d).restrict(new_outputs.key_seq().take(j as int).to_set()),
                ),
                self.count == old(self).count,
                self.filter == old(self).filter,
            decreases new_outputs.key_seq().len() - j,
        {
            let h = *new_outputs.key_at(j);
            let out = *new_outputs.value_at(j);
            proof {
                new_outputs.lemma_dom();
            }
            self.insert(h, out.0, out.1, out.2, out.3);
            proof {
                let cur = new_outputs.key_seq().take(j as int);
                let nxt = new_outputs.key_seq().take(j + 1);
                assert(nxt =~= cur.push(h));
                lemma_push_to_set(cur, h);
                assert(self.metas() =~= m2.union_prefer_right(new_output_metas(d).restrict(nxt.to_set())));
            }
            j += 1;
        }
        proof {
            new_outputs.lemma_dom();
            assert(new_outputs.key_seq().take(new_outputs.key_seq().len() as int) =~= new_outputs.key_seq());
            assert(new_output_metas(d).restrict(d.new_outputs.dom()) =~= new_output_metas(d));
        }
        // Kill the cells that the new inputs spend.
        self.mark_points(&new_inputs, true);
    }

    fn overlay_points(
        &self,
        new: &mut VecMap<Hash32, TransactionMeta>,
        points: &VecSet<OutPoint>,
        dead: bool,
    )
        requires
            self.wf(),
            old(new).wf(),
            points.wf(),
        ensures
            final(new).wf(),
            meta_views(final(new)@) == stage_marks(meta_views(old(new)@), self.metas(), points@, dead),
    {
        proof {
            lemma_stage_empty(meta_views(old(new)@), self.metas(), dead);
            points.lemma_items();
            assert(points.item_seq().take(0).to_set() =~= Set::<OutPoint>::empty());
        }
        let mut i: usize = 0;
        while i < points.len()
            invariant
                self.wf(),
                new.wf(),
                points.wf(),
                i <= points.item_seq().len(),
                meta_views(new@) == stage_marks(
                    meta_views(old(new)@),
                    self.metas(),
                    points.item_seq().take(i as int).to_set(),
                    dead,
                ),
            decreases points.item_seq().len() - i,
        {
            let o = *points.item_at(i);
            let ghost before = meta_views(new@);
            if let Some(cell) = &o.cell {
                let copied = match self.inner.get(&cell.tx_hash) {
                    Some(meta) => {
                        let mut m = match new.get(&cell.tx_hash) {
                            Some(existing) => existing.duplicate(),
                            None => meta.duplicate(),
                        };
                        if dead {
                            m.set_dead(cell.index as usize);
                        } else {
                            m.unset_dead(cell.index as usize);
                        }
                        Some(m)
                    },
                    None => None,
                };
                if let Some(m) = copied {
                    new.insert(cell.tx_hash, m);
                }
            }
            proof {
                assert(meta_views(new@) =~= overlay_step(before, self.metas(), o, dead));
                let cur = points.item_seq().take(i as int);
                let nxt = points.item_seq().take(i + 1);
                assert(nxt =~= cur.push(o));
                lemma_push_to_set(cur, o);
                lemma_stage_step(meta_views(old(new)@), self.metas(), cur.to_set(), o, dead);
            }
            i += 1;
        }
        proof {
            points.lemma_items();
            assert(points.item_seq().take(points.item_seq().len() as int) =~= points.item_seq());
        }
    }

    /// An overlay that answers as the set would after `update` with `diff`
    /// (see `lemma_overlay_agrees_with_update` for when it agrees exactly).
    pub fn obsolete_new_overlay<'a>(&'a self, diff: &CellSetDiff) -> (r: ObsoleteCellSetOverlay<'a>)
        requires
            self.wf(),
            diff.wf(),
        ensures
            r.wf(),
            r.origin_metas() == self.metas(),
            r.new_metas() == overlay_new(self.metas(), diff.diff_view()),
            r.removed_hashes() == overlay_removed(self.metas(), diff.diff_view()),
            r.lookup() == overlay_of(self.metas(), diff.diff_view()),
    {
        let ghost d = diff.diff_view();
        let mut new: VecMap<Hash32, TransactionMeta> = VecMap::new();
        let mut removed: VecSet<Hash32> = VecSet::new();
        // Hide the old transactions that the set holds.
        let mut i: usize = 0;
        while i < diff.old_outputs.len()
            invariant
                self.wf(),
                diff.wf(),
                removed.wf(),
                i <= diff.old_outputs.key_seq().len(),
                removed@ == Set::new(
                    |h: Hash32|
                        diff.old_outputs.key_seq().take(i as int).contains(h) && self.metas().contains_key(h),
                ),
            decreases diff.old_outputs.key_seq().len() - i,
        {
            let h = *diff.old_outputs.key_at(i);
            if self.inner.contains_key(&h) {
                removed.insert(h);
            }
            proof {
                let cur = diff.old_outputs.key_seq().take(i as int);
                let nxt = diff.old_outputs.key_seq().take(i + 1);
                assert(nxt =~= cur.push(h));
                lemma_push_to_set(cur, h);
                assert(removed@ =~= Set::new(
                    |x: Hash32| nxt.contains(x) && self.metas().contains_key(x),
                ));
            }
            i += 1;
        }
        proof {
            diff.old_outputs.lemma_dom();
            assert(diff.old_outputs.key_seq().take(diff.old_outputs.key_seq().len() as int)
                =~= diff.old_outputs.key_seq());
        }
        // Enter the new transactions and show them again.
        let mut j: usize = 0;
        while j < diff.new_outputs.len()
            invariant
                self.wf(),
                diff.wf(),
                removed.wf(),
                new.wf(),
                d == diff.diff_view(),
                j <= diff.new_outputs.key_seq().len(),
                removed@ == Set::new(
                    |h: Hash32|
                        d.old_outputs.contains_key(h) && self.metas().contains_key(h)
                            && !diff.new_outputs.key_seq().take(j as int).contains(h),
                ),
                meta_views(new@) == new_output_metas(d).restrict(diff.new_outputs.key_seq().take(j as int).to_set()),
            decreases diff.new_outputs.key_seq().len() - j,
        {
            let h = *diff.new_outputs.key_at(j);
            let out = *diff.new_outputs.value_at(j);
            proof {
                diff.new_outputs.lemma_dom();
            }
            removed.remove(&h);
            let meta = if out.2 {
                TransactionMeta::new_cellbase(out.0, out.1, out.3)
            } else {
                TransactionMeta::new(out.0, out.1, out.3)
            };
            let ghost new_before = meta_views(new@);
            new.insert(h, meta);
            proof {
                assert(meta_views(new@) =~= new_before.insert(h, meta@));
                assert(d.new_outputs.contains_key(h));
                assert(new_output_metas(d)[h] == output_meta(out));
                let cur = diff.new_outputs.key_seq().take(j as int);
                let nxt = diff.new_outputs.key_seq().take(j + 1);
                assert(nxt =~= cur.push(h));
                lemma_push_to_set(cur, h);
                assert(removed@ =~= Set::new(
                    |x: Hash32| d.old_outputs.contains_key(x) && self.metas().contains_key(x) && !nxt.contains(x),
                ));
                assert(meta_views(new@) =~= new_output_metas(d).restrict(nxt.to_set()));
            }
            j += 1;
        }
        proof {
            diff.new_outputs.lemma_dom();
            let all = diff.new_outputs.key_seq();
            assert(all.take(all.len() as int) =~= all);
            assert(new_output_metas(d).restrict(d.new_outputs.dom()) =~= new_output_metas(d));
            assert(removed@ =~= overlay_removed(self.metas(), d));
        }
        // Copy in and mark what the old inputs, then the new inputs, spend.
        self.overlay_points(&mut new, &diff.old_inputs, false);
        self.overlay_points(&mut new, &diff.new_inputs, true);
        let r = ObsoleteCellSetOverlay { origin: &self.inner, new, removed };
        proof {
            assert(r.lookup() =~= overlay_of(self.metas(), d));
        }
        r
    }

    /// `CellSet { count: N, /* fields omitted */ }`, the set's debug text.
    pub fn debug_string(&self) -> (s: String)
        ensures
            s@ == "CellSet { count: "@ + decimal(self.cell_count() as nat) + ", /* fields omitted */ }"@,
    {
        let mut s = String::from_str("CellSet { count: ");
        push_decimal(&mut s, self.count);
        s.append(", /* fields omitted */ }");
        s
    }
}

/// Deleting the cell keys that were just inserted gives back the count and
/// every answer of the filter, when inserting them brought no bucket counter
/// past its maximum; the transactions are untouched throughout.
pub proof fn lemma_delete_cells_undoes_insert_cells(s0: CellSet, s1: CellSet, s2: CellSet, keys: Seq<(Hash32, u32)>)
    requires
        s0.wf(),
        s1.metas() == s0.metas(),
        s1.cell_count() == s0.cell_count() + keys.len(),
        stepped_keys(s0.filter_state(), s1.filter_state(), keys, true),
        s2.metas() == s1.metas(),
        s2.cell_count() == s1.cell_count() - keys.len(),
        stepped_keys(s1.filter_state(), s2.filter_state(), keys, false),
        unsaturated(s0.filter_state(), keys),
    ensures
        s2.metas() == s0.metas(),
        s2.cell_count() == s0.cell_count(),
        forall|k: (Hash32, u32)| #[trigger] filter_answer(s2.filter_state(), k) == filter_answer(s0.filter_state(), k),
{
    lemma_remove_undoes_insert(s0.filter, s1.filter, s2.filter, keys);
}


/// On the cell set: marking the cell that `o` spends dead and then live
/// again gives back every transaction's metadata, when that cell was live;
/// a mark touches no other transaction, and neither the count nor the
/// filter.
pub proof fn lemma_mark_live_undoes_mark_dead(s0: CellSet, s1: CellSet, s2: CellSet, o: OutPoint)
    requires
        s1.metas() == mark_step(s0.metas(), o, true),
        s2.metas() == mark_step(s1.metas(), o, false),
        o.cell is Some && s0.metas().contains_key(o.cell.unwrap().tx_hash) && (o.cell.unwrap().index as int)
            < s0.metas()[o.cell.unwrap().tx_hash].dead_cell.len() ==> !s0.metas()[o.cell.unwrap().tx_hash].dead_cell[o.cell.unwrap().index as int],
    ensures
        s2.metas() == s0.metas(),
        forall|h: Hash32|
            !(o.cell is Some && o.cell.unwrap().tx_hash == h) ==> #[trigger] s1.metas().contains_key(h)
                == s0.metas().contains_key(h) && s1.metas()[h] == s0.metas()[h],
{
    lemma_mark_dead_then_live(s0.metas(), o);
}

} // verus!
