//! The batch runner: accumulates outputs across many transactions into
//! size-bounded batches, dispatches full batches to a first-in-first-out
//! task queue, and lets callers collect, per transaction, the notes
//! recovered from whichever batch absorbed that transaction's outputs.
//!
//! The engine is a deterministic state machine.  Dispatch appends the
//! displaced batch to the runner's task queue; a driver then asks for the
//! front batch, runs the batched trial-decryption primitive over its
//! outputs, and hands the per-output results to
//! [`BatchRunner::run_next_task`], which delivers every recovered note to
//! the result channel of the transaction that registered the output.
//! Collection succeeds once all repliers of the transaction's channel are
//! resolved, exactly as a caller of the concurrent engine unblocks when
//! the channel closes.

use std::sync::Arc;
use vstd::prelude::*;

use crate::batch::{
    share_snapshot, spec_pairs, spec_repliers, Batch, BatchView, DecryptedNote,
    DecryptionResult, OutputIndex, OutputReplier,
};
use crate::counting::{
    cnt_chan, cnt_val, lemma_cnt_at, lemma_cnt_chan_concat, lemma_cnt_chan_first,
    lemma_cnt_chan_repliers, lemma_cnt_chan_zero, lemma_cnt_val_concat, lemma_cnt_val_first,
    lemma_cnt_val_le_chan, lemma_cnt_val_repliers, lemma_queue_repliers_first,
    lemma_queue_repliers_push, queue_repliers,
};
use crate::ids::{BlockHash, ResultKey, TxId};
use crate::pending::{
    spec_deliver, spec_drop_replier, spec_entries_wf, spec_has_chan, spec_has_key,
    spec_chan_at, spec_key_at, spec_insert, BatchReceiver, EntryView, PendingResults,
    ReceiverView,
};
use crate::pending::spec_entries_usage;
use crate::tasks::Tasks;
use crate::usage::{sat_add, seq_usage, spec_sat_add, spec_sat_sub, DynamicUsage};

verus! {

broadcast use vstd::seq_lib::group_seq_properties;

/// Mathematical state of a [`BatchRunner`].
#[verifier::ext_equal]
pub struct RunnerView<A, K, D, O, R, N> {
    /// Output count at which the accumulator is flushed automatically.
    pub threshold: usize,
    /// The key tags, parallel to `ivks`; shared by all batches.
    pub tags: Seq<A>,
    /// The incoming viewing keys tried by every batch.
    pub ivks: Seq<K>,
    /// The `(domain, output)` pairs of the accumulating batch.
    pub acc_outputs: Seq<(D, O)>,
    /// The repliers of the accumulating batch.
    pub acc_repliers: Seq<OutputReplier>,
    /// The dispatched batches that have not run yet, oldest first.
    pub queue: Seq<BatchView<A, K, D, O>>,
    /// The pending result channels, one per registered transaction.
    pub pending: Seq<EntryView<A, R, N>>,
    /// The identifier the next registration's channel will get.
    pub next_channel_id: u64,
}

impl<A, K, D, O, R, N> RunnerView<A, K, D, O, R, N> {
    /// Every replier the engine still holds: those of the accumulating
    /// batch followed by those of the queued batches.
    pub open spec fn all_repliers(self) -> Seq<OutputReplier> {
        self.acc_repliers + queue_repliers(self.queue)
    }
}

/// The completion-count bookkeeping that ties pending receivers to the
/// repliers still held by the engine.
///
/// For every pending entry, the receiver's open count equals the number
/// of repliers that name its channel; no replier value occurs twice; a
/// delivered item's position is never still outstanding; and delivered
/// items have pairwise distinct positions.
pub open spec fn spec_counts_wf<A, R, N>(
    all: Seq<OutputReplier>,
    pending: Seq<EntryView<A, R, N>>,
) -> bool {
    &&& forall|pi: int|
        0 <= pi < pending.len() ==> (#[trigger] pending[pi]).1.open_count == cnt_chan(
            all,
            pending[pi].1.channel_id,
        )
    &&& forall|rep: OutputReplier| #[trigger] cnt_val(all, rep) <= 1
    &&& forall|pi: int, j: int|
        0 <= pi < pending.len() && 0 <= j < pending[pi].1.items.len() ==> cnt_val(
            all,
            OutputReplier {
                output_index: (#[trigger] pending[pi].1.items[j]).output_index,
                channel_id: pending[pi].1.channel_id,
            },
        ) == 0
    &&& forall|pi: int, j1: int, j2: int|
        0 <= pi < pending.len() && 0 <= j1 < j2 < pending[pi].1.items.len()
            ==> (#[trigger] pending[pi].1.items[j1]).output_index != (#[trigger] pending[
            pi
        ].1.items[j2]).output_index
}

/// Well-formedness of a runner state.
pub open spec fn spec_wf<A, K, D, O, R, N>(s: RunnerView<A, K, D, O, R, N>) -> bool {
    &&& s.tags.len() == s.ivks.len()
    &&& s.acc_outputs.len() == s.acc_repliers.len()
    &&& forall|qi: int|
        0 <= qi < s.queue.len() ==> (#[trigger] s.queue[qi]).tags == s.tags
            && s.queue[qi].ivks == s.ivks && s.queue[qi].outputs.len() == s.queue[
            qi
        ].repliers.len()
    &&& spec_entries_wf(s.pending)
    &&& forall|pi: int|
        0 <= pi < s.pending.len() ==> (#[trigger] s.pending[pi]).1.channel_id
            < s.next_channel_id
    &&& forall|i: int|
        0 <= i < s.all_repliers().len() ==> (#[trigger] s.all_repliers()[i]).channel_id
            < s.next_channel_id
    &&& spec_counts_wf(s.all_repliers(), s.pending)
}

/// Dispatch of the accumulating batch: when it is non-empty, it moves to
/// the back of the task queue and an empty accumulator over the same key
/// set takes its place; an empty accumulator is left untouched.
pub open spec fn spec_flush<A, K, D, O, R, N>(s: RunnerView<A, K, D, O, R, N>) -> RunnerView<
    A,
    K,
    D,
    O,
    R,
    N,
> {
    if s.acc_outputs.len() == 0 {
        s
    } else {
        RunnerView {
            acc_outputs: Seq::empty(),
            acc_repliers: Seq::empty(),
            queue: s.queue.push(
                BatchView {
                    tags: s.tags,
                    ivks: s.ivks,
                    outputs: s.acc_outputs,
                    repliers: s.acc_repliers,
                },
            ),
            ..s
        }
    }
}

/// Registration of one transaction's outputs: the accumulator grows by
/// one `(domain, output)` pair and one replier per output, and a fresh
/// receiver expecting that many results is stored under the transaction's
/// key, replacing any receiver already stored there.
pub open spec fn spec_register<A, K, D, O, R, N>(
    s: RunnerView<A, K, D, O, R, N>,
    key: (Seq<u8>, Seq<u8>),
    domains: Seq<D>,
    outputs: Seq<O>,
) -> RunnerView<A, K, D, O, R, N> {
    RunnerView {
        acc_outputs: s.acc_outputs + spec_pairs(domains, outputs),
        acc_repliers: s.acc_repliers + spec_repliers(outputs.len(), s.next_channel_id),
        pending: spec_insert(
            s.pending,
            key,
            ReceiverView {
                channel_id: s.next_channel_id,
                open_count: outputs.len() as usize,
                items: Seq::empty(),
            },
        ),
        next_channel_id: (s.next_channel_id + 1) as u64,
        ..s
    }
}

/// Registration followed by the automatic flush that fires when the
/// accumulator reaches the threshold.
pub open spec fn spec_add_outputs<A, K, D, O, R, N>(
    s: RunnerView<A, K, D, O, R, N>,
    key: (Seq<u8>, Seq<u8>),
    domains: Seq<D>,
    outputs: Seq<O>,
) -> RunnerView<A, K, D, O, R, N> {
    let s1 = spec_register(s, key, domains, outputs);
    if s1.acc_outputs.len() >= s1.threshold {
        spec_flush(s1)
    } else {
        s1
    }
}

/// The result item delivered for a replier whose output decrypted.
pub open spec fn spec_result_item<A, R, N>(
    rep: OutputReplier,
    dr: DecryptionResult<R, N>,
    tags: Seq<A>,
) -> OutputIndex<DecryptedNote<A, R, N>> {
    OutputIndex {
        output_index: rep.output_index,
        value: DecryptedNote {
            ivk_tag: tags[dr.ivk_index as int],
            recipient: dr.recipient,
            note: dr.note,
        },
    }
}

/// One dispatched batch reporting its results, replier by replier, in
/// output order.
///
/// While `delivering` holds, an output that decrypted sends its note to
/// its channel; if that channel is gone (its receiver was discarded), the
/// send fails and the rest of the batch is abandoned: every remaining
/// replier is dropped without sending.  An output that did not decrypt
/// just drops its replier, signalling that the output was not for this
/// key set.
pub open spec fn spec_run_repliers<A, R, N>(
    pending: Seq<EntryView<A, R, N>>,
    repliers: Seq<OutputReplier>,
    results: Seq<Option<DecryptionResult<R, N>>>,
    tags: Seq<A>,
    delivering: bool,
) -> Seq<EntryView<A, R, N>>
    decreases repliers.len(),
{
    if repliers.len() == 0 {
        pending
    } else {
        let rep = repliers[0];
        let rest_reps = repliers.skip(1);
        let rest_results = results.skip(1);
        match results[0] {
            Some(dr) => if delivering {
                if spec_has_chan(pending, rep.channel_id) {
                    spec_run_repliers(
                        spec_deliver(pending, rep.channel_id, spec_result_item(rep, dr, tags)),
                        rest_reps,
                        rest_results,
                        tags,
                        true,
                    )
                } else {
                    spec_run_repliers(pending, rest_reps, rest_results, tags, false)
                }
            } else {
                spec_run_repliers(
                    spec_drop_replier(pending, rep.channel_id),
                    rest_reps,
                    rest_results,
                    tags,
                    false,
                )
            },
            None => spec_run_repliers(
                spec_drop_replier(pending, rep.channel_id),
                rest_reps,
                rest_results,
                tags,
                delivering,
            ),
        }
    }
}

/// Execution of the oldest dispatched batch against the driver-supplied
/// per-output results.
pub open spec fn spec_run_next<A, K, D, O, R, N>(
    s: RunnerView<A, K, D, O, R, N>,
    results: Seq<Option<DecryptionResult<R, N>>>,
) -> RunnerView<A, K, D, O, R, N> {
    RunnerView {
        queue: s.queue.skip(1),
        pending: spec_run_repliers(s.pending, s.queue[0].repliers, results, s.tags, true),
        ..s
    }
}

/// The per-transaction mapping built when a completed receiver is
/// collected: each queued item keyed by the transaction id and the
/// output's position within its registration.
pub open spec fn spec_collected<A, R, N>(
    txid: TxId,
    items: Seq<OutputIndex<DecryptedNote<A, R, N>>>,
) -> Seq<((TxId, usize), DecryptedNote<A, R, N>)> {
    Seq::new(items.len(), |j: int| ((txid, items[j].output_index), items[j].value))
}

/// The batch trial-decryption scheduler.
///
/// Generic over the key tag `A`, the incoming viewing key `K`, the
/// per-output domain `D`, the shielded output `O`, the recovered
/// recipient `R`, the recovered note `N`, and the task-tracking strategy
/// `T`.
pub struct BatchRunner<A, K, D, O, R, N, T: Tasks<Batch<A, K, D, O>>> {
    batch_size_threshold: usize,
    /// The batch currently being accumulated.
    acc: Batch<A, K, D, O>,
    /// The instrumentation strategy for dispatched batches.
    running_tasks: T,
    /// Dispatched batches that have not been run yet, oldest first.
    task_queue: Vec<T::Task>,
    /// Receivers for the results of dispatched and accumulating batches.
    pending_results: PendingResults<A, R, N>,
    next_channel_id: u64,
}

impl<A, K, D, O, R, N, T: Tasks<Batch<A, K, D, O>>> View for BatchRunner<
    A,
    K,
    D,
    O,
    R,
    N,
    T,
> {
    type V = RunnerView<A, K, D, O, R, N>;

    closed spec fn view(&self) -> RunnerView<A, K, D, O, R, N> {
        RunnerView {
            threshold: self.batch_size_threshold,
            tags: self.acc@.tags,
            ivks: self.acc@.ivks,
            acc_outputs: self.acc@.outputs,
            acc_repliers: self.acc@.repliers,
            queue: Seq::new(
                self.task_queue@.len(),
                |i: int| T::task_item(self.task_queue@[i])@,
            ),
            pending: self.pending_results@,
            next_channel_id: self.next_channel_id,
        }
    }
}

impl<A, K, D, O, R, N, T: Tasks<Batch<A, K, D, O>>> BatchRunner<A, K, D, O, R, N, T> {
    /// Well-formedness: see [`spec_wf`].
    pub open spec fn wf(&self) -> bool {
        spec_wf(self@)
    }

    /// Bytes currently charged by the strategy for dispatched batches
    /// that have not finished.
    pub closed spec fn tracked_usage(&self) -> usize {
        self.running_tasks.spec_usage()
    }

    /// The footprints recorded for the queued tasks, oldest first.
    pub closed spec fn task_costs(&self) -> Seq<usize> {
        Seq::new(self.task_queue@.len(), |i: int| T::task_cost(self.task_queue@[i]))
    }

    /// Constructs a new runner over the given `(tag, key)` pairs.
    ///
    /// `batch_size_threshold` is the output count at which the
    /// accumulating batch is dispatched automatically.
    pub fn new(batch_size_threshold: usize, keys: Vec<(A, K)>) -> (r: BatchRunner<
        A,
        K,
        D,
        O,
        R,
        N,
        T,
    >)
        ensures
            r@.threshold == batch_size_threshold,
            r@.tags == Seq::new(keys@.len(), |i: int| keys@[i].0),
            r@.ivks == Seq::new(keys@.len(), |i: int| keys@[i].1),
            r@.acc_outputs == Seq::<(D, O)>::empty(),
            r@.acc_repliers == Seq::<OutputReplier>::empty(),
            r@.queue == Seq::<BatchView<A, K, D, O>>::empty(),
            r@.pending == Seq::<EntryView<A, R, N>>::empty(),
            r@.next_channel_id == 0,
            r.wf(),
            r.tracked_usage() == 0,
            r.task_costs() == Seq::<usize>::empty(),
    {
        let ghost keys0 = keys@;
        let mut keys = keys;
        let mut tags: Vec<A> = Vec::new();
        let mut ivks: Vec<K> = Vec::new();
        let mut idx: usize = 0;
        let total: usize = keys.len();
        proof {
            assert(keys@ =~= keys0.skip(0));
        }
        while keys.len() > 0
            invariant
                idx + keys@.len() == total,
                keys@ == keys0.skip(idx as int),
                tags@ == Seq::new(idx as nat, |i: int| keys0[i].0),
                ivks@ == Seq::new(idx as nat, |i: int| keys0[i].1),
            decreases keys@.len(),
        {
            let (tag, ivk) = keys.remove(0);
            proof {
                assert(keys@ =~= keys0.skip(idx + 1));
            }
            tags.push(tag);
            ivks.push(ivk);
            proof {
                assert(tags@ =~= Seq::new((idx + 1) as nat, |i: int| keys0[i].0));
                assert(ivks@ =~= Seq::new((idx + 1) as nat, |i: int| keys0[i].1));
            }
            idx += 1;
        }
        let acc = Batch::new(Arc::new(tags), Arc::new(ivks));
        let r = BatchRunner {
            batch_size_threshold,
            acc,
            running_tasks: T::new(),
            task_queue: Vec::new(),
            pending_results: PendingResults::new(),
            next_channel_id: 0,
        };
        proof {
            assert(r@.queue =~= Seq::<BatchView<A, K, D, O>>::empty());
            assert(r@.tags =~= Seq::new(keys0.len(), |i: int| keys0[i].0));
            assert(r@.ivks =~= Seq::new(keys0.len(), |i: int| keys0[i].1));
            assert(r.task_costs() =~= Seq::<usize>::empty());
            assert(queue_repliers(r@.queue) =~= Seq::<OutputReplier>::empty());
            assert(r@.all_repliers() =~= Seq::<OutputReplier>::empty());
            assert forall|rep: OutputReplier| #[trigger]
                cnt_val(r@.all_repliers(), rep) <= 1 by {
                assert(cnt_val(Seq::<OutputReplier>::empty(), rep) == 0);
            }
        }
        r
    }

    /// Dispatches the accumulating batch when it is non-empty: an empty
    /// batch over the same key set replaces it, and the displaced batch,
    /// wrapped by the strategy, joins the back of the task queue.  With
    /// an empty accumulator this is a no-op: no work is submitted and
    /// nothing changes.
    pub fn flush(&mut self)
        requires
            spec_wf(old(self)@),
        ensures
            final(self)@ == spec_flush(old(self)@),
            spec_wf(final(self)@),
            old(self)@.acc_outputs.len() == 0 ==> final(self).tracked_usage() == old(
                self,
            ).tracked_usage() && final(self).task_costs() == old(self).task_costs(),
            old(self)@.acc_outputs.len() > 0 ==> final(self).task_costs().len() == old(
                self,
            ).task_costs().len() + 1 && final(self).task_costs().take(
                old(self).task_costs().len() as int,
            ) == old(self).task_costs() && final(self).tracked_usage() == spec_sat_add(
                old(self).tracked_usage(),
                final(self).task_costs().last(),
            ),
    {
        proof {
            lemma_flush_wf(self@);
        }
        if !self.acc.is_empty() {
            let ghost s0 = self@;
            let (tags_snap, ivks_snap) = self.acc.key_snapshots();
            let tags2 = share_snapshot(tags_snap);
            let ivks2 = share_snapshot(ivks_snap);
            let mut batch = Batch::new(tags2, ivks2);
            core::mem::swap(&mut batch, &mut self.acc);
            let task = self.running_tasks.add_task(batch);
            self.task_queue.push(task);
            proof {
                let s1 = self@;
                let ghost displaced = BatchView {
                    tags: s0.tags,
                    ivks: s0.ivks,
                    outputs: s0.acc_outputs,
                    repliers: s0.acc_repliers,
                };
                assert(s1.queue =~= s0.queue.push(displaced));
                assert(s1 =~= spec_flush(s0));
                assert(self.task_costs() =~= old(self).task_costs().push(
                    T::task_cost(self.task_queue@.last()),
                ));
                assert(self.task_costs().take(old(self).task_costs().len() as int)
                    =~= old(self).task_costs());
            }
        }
    }

    /// Registers the outputs of one transaction for batched trial
    /// decryption.
    ///
    /// `block_tag` is the hash of the block that triggered this
    /// transaction being added, or the all-zero sentinel when no block
    /// did.  Each output gets its own domain instance: `domains` and
    /// `outputs` are parallel.  A fresh result channel is recorded under
    /// `(block_tag, txid)`, replacing — and discarding — any channel
    /// already recorded under exactly that key.  If the accumulated batch
    /// then holds at least the threshold of outputs, it is dispatched at
    /// once; the call never runs cryptographic work itself.
    pub fn add_outputs(
        &mut self,
        block_tag: BlockHash,
        txid: TxId,
        domains: Vec<D>,
        outputs: Vec<O>,
    )
        requires
            spec_wf(old(self)@),
            domains@.len() == outputs@.len(),
            old(self)@.next_channel_id < u64::MAX,
        ensures
            final(self)@ == spec_add_outputs(
                old(self)@,
                (block_tag@, txid@),
                domains@,
                outputs@,
            ),
            spec_wf(final(self)@),
            (spec_register(old(self)@, (block_tag@, txid@), domains@, outputs@).acc_outputs.len()
                < old(self)@.threshold || spec_register(
                old(self)@,
                (block_tag@, txid@),
                domains@,
                outputs@,
            ).acc_outputs.len() == 0) ==> final(self).tracked_usage() == old(
                self,
            ).tracked_usage() && final(self).task_costs() == old(self).task_costs(),
            (spec_register(old(self)@, (block_tag@, txid@), domains@, outputs@).acc_outputs.len()
                >= old(self)@.threshold && spec_register(
                old(self)@,
                (block_tag@, txid@),
                domains@,
                outputs@,
            ).acc_outputs.len() > 0) ==> final(self).task_costs().len() == old(
                self,
            ).task_costs().len() + 1 && final(self).task_costs().take(
                old(self).task_costs().len() as int,
            ) == old(self).task_costs() && final(self).tracked_usage() == spec_sat_add(
                old(self).tracked_usage(),
                final(self).task_costs().last(),
            ),
    {
        let ghost s0 = self@;
        let ghost key_v = (block_tag@, txid@);
        let n = outputs.len();
        let chan = self.next_channel_id;
        self.next_channel_id = chan + 1;
        self.acc.add_outputs(domains, outputs, chan);
        let receiver: BatchReceiver<A, R, N> = BatchReceiver::new(chan, n);
        proof {
            if spec_has_chan(self.pending_results@, chan) {
                let pi = spec_chan_at(self.pending_results@, chan);
                assert(self.pending_results@[pi].1.channel_id < chan);
            }
        }
        self.pending_results.insert(ResultKey { block_tag, txid }, receiver);
        proof {
            let s1 = spec_register(s0, key_v, domains@, outputs@);
            assert(receiver@ == ReceiverView::<A, R, N> {
                channel_id: chan,
                open_count: n,
                items: Seq::empty(),
            });
            assert(self@ =~= s1);
            lemma_register_wf(s0, key_v, domains@, outputs@);
        }
        if self.acc.output_count() >= self.batch_size_threshold {
            self.flush();
        }
    }

    /// The number of dispatched batches that have not been run yet.
    pub fn queued_task_count(&self) -> (r: usize)
        ensures
            r == self@.queue.len(),
    {
        self.task_queue.len()
    }

    /// The oldest dispatched batch that has not been run yet.
    ///
    /// A driver reads its keys and outputs, runs the batched
    /// trial-decryption primitive, and hands the per-output results to
    /// [`Self::run_next_task`].
    pub fn front_batch(&self) -> (r: &Batch<A, K, D, O>)
        requires
            self@.queue.len() > 0,
        ensures
            r@ == self@.queue[0],
    {
        T::item_of(&self.task_queue[0])
    }

    /// The number of outputs accumulated towards the next batch.
    pub fn accumulated_count(&self) -> (r: usize)
        ensures
            r == self@.acc_outputs.len(),
    {
        self.acc.output_count()
    }

    /// The output count at which the accumulator is dispatched.
    pub fn batch_threshold(&self) -> (r: usize)
        ensures
            r == self@.threshold,
    {
        self.batch_size_threshold
    }
}

impl<A: Copy, K, D, O, R, N, T: Tasks<Batch<A, K, D, O>>> BatchRunner<A, K, D, O, R, N, T> {
    /// Runs the oldest dispatched batch against the driver-supplied
    /// per-output `results` of the batched trial-decryption primitive.
    ///
    /// `results` is parallel to the batch's outputs: entry `i` carries
    /// the note, recipient and matching key index recovered from output
    /// `i`, or nothing when output `i` matched no key.  Every recovered
    /// note is delivered to the result channel of the transaction that
    /// registered the output, tagged with the output's position in that
    /// registration; a replier whose output matched nothing is dropped.
    /// If a note's channel is gone — its receiver was discarded — the
    /// rest of the batch is abandoned and all remaining repliers are
    /// dropped without sending.
    pub fn run_next_task(&mut self, results: Vec<Option<DecryptionResult<R, N>>>)
        requires
            spec_wf(old(self)@),
            old(self)@.queue.len() > 0,
            results@.len() == old(self)@.queue[0].outputs.len(),
            forall|i: int|
                0 <= i < results@.len() ==> ((#[trigger] results@[i]) matches Some(dr)
                    ==> dr.ivk_index < old(self)@.tags.len()),
        ensures
            final(self)@ == spec_run_next(old(self)@, results@),
            spec_wf(final(self)@),
            final(self).task_costs() == old(self).task_costs().skip(1),
            final(self).tracked_usage() == spec_sat_sub(
                old(self).tracked_usage(),
                old(self).task_costs()[0],
            ),
    {
        let ghost s0 = self@;
        let ghost results0 = results@;
        let task = self.task_queue.remove(0);
        let (batch, cost) = T::split_task(task);
        proof {
            assert(batch@ == s0.queue[0]);
            assert(self@.queue =~= s0.queue.skip(1));
            assert(self.task_costs() =~= old(self).task_costs().skip(1));
            assert(cost == old(self).task_costs()[0]);
        }
        let parts = batch.into_parts();
        let tags_arc = parts.0;
        let repliers = parts.3;
        let ghost reps0 = repliers@;
        let ghost accr = s0.acc_repliers;
        let ghost qr = queue_repliers(s0.queue.skip(1));
        proof {
            lemma_queue_repliers_first(s0.queue);
            assert(queue_repliers(s0.queue) == reps0 + qr);
            assert(accr + reps0 + qr =~= s0.all_repliers());
            assert(spec_counts_wf(accr + reps0 + qr, s0.pending));
            assert(reps0.len() == results0.len());
        }
        let mut results = results;
        let mut delivering: bool = true;
        let mut j: usize = 0;
        let total: usize = repliers.len();
        proof {
            assert(reps0.skip(0) =~= reps0);
            assert(results0.skip(0) =~= results0);
        }
        while j < total
            invariant
                0 <= j <= total,
                total == reps0.len(),
                results@ == results0.skip(j as int),
                self@.threshold == s0.threshold,
                self@.tags == s0.tags,
                self@.ivks == s0.ivks,
                self@.acc_outputs == s0.acc_outputs,
                self@.acc_repliers == s0.acc_repliers,
                self@.queue == s0.queue.skip(1),
                self@.next_channel_id == s0.next_channel_id,
                tags_arc@ == s0.tags,
                self.tracked_usage() == old(self).tracked_usage(),
                self.task_costs() == old(self).task_costs().skip(1),
                self@.pending.len() == s0.pending.len(),
                forall|pi: int|
                    0 <= pi < s0.pending.len() ==> (#[trigger] self@.pending[pi]).0
                        == s0.pending[pi].0 && self@.pending[pi].1.channel_id == s0.pending[
                        pi
                    ].1.channel_id,
                spec_entries_wf(self@.pending),
                spec_counts_wf(accr + reps0.skip(j as int) + qr, self@.pending),
                spec_run_repliers(s0.pending, reps0, results0, s0.tags, true)
                    == spec_run_repliers(
                    self@.pending,
                    reps0.skip(j as int),
                    results0.skip(j as int),
                    s0.tags,
                    delivering,
                ),
            decreases total - j,
        {
            let rep = repliers[j];
            let ghost rem = reps0.skip(j as int);
            let ghost resrem = results0.skip(j as int);
            let ghost pcur = self@.pending;
            proof {
                assert(rem[0] == rep);
                assert((accr + rem + qr)[accr.len() as int] == rep);
                lemma_cnt_at(accr + rem + qr, accr.len() as int);
                if spec_has_chan(pcur, rep.channel_id) {
                    let pi0 = spec_chan_at(pcur, rep.channel_id);
                    assert(pcur[pi0].1.open_count == cnt_chan(
                        accr + rem + qr,
                        rep.channel_id,
                    ));
                }
            }
            let res = results.remove(0);
            proof {
                assert(res == results0[j as int]);
                assert(results@ =~= results0.skip(j + 1));
                assert(rem.skip(1) =~= reps0.skip(j + 1));
                assert(resrem.skip(1) =~= results0.skip(j + 1));
            }
            match res {
                Some(dr) => {
                    if delivering {
                        proof {
                            assert(results0[j as int] matches Some(d) ==> d.ivk_index
                                < s0.tags.len());
                        }
                        let DecryptionResult { note, recipient, ivk_index } = dr;
                        let tags_ref = &*tags_arc;
                        let item = OutputIndex {
                            output_index: rep.output_index,
                            value: DecryptedNote {
                                ivk_tag: tags_ref[ivk_index],
                                recipient,
                                note,
                            },
                        };
                        proof {
                            assert(item == spec_result_item(rep, dr, s0.tags));
                        }
                        let ok = self.pending_results.deliver(rep.channel_id, item);
                        if ok {
                            proof {
                                lemma_step_deliver(accr, rem, qr, pcur, item);
                                assert(self@.pending == spec_deliver(
                                    pcur,
                                    rep.channel_id,
                                    item,
                                ));
                                let pi0 = spec_chan_at(pcur, rep.channel_id);
                                assert forall|pi: int|
                                    0 <= pi < s0.pending.len() implies (#[trigger] self@.pending[
                                    pi
                                ]).0 == s0.pending[pi].0 && self@.pending[pi].1.channel_id
                                    == s0.pending[pi].1.channel_id by {
                                    if pi != pi0 {
                                        assert(self@.pending[pi] == pcur[pi]);
                                    }
                                }
                            }
                        } else {
                            delivering = false;
                            proof {
                                assert(self@.pending == pcur);
                                lemma_step_drop(accr, rem, qr, pcur);
                                assert(spec_drop_replier(pcur, rep.channel_id) == pcur);
                            }
                        }
                    } else {
                        self.pending_results.drop_sender(rep.channel_id);
                        proof {
                            lemma_step_drop(accr, rem, qr, pcur);
                            assert(self@.pending == spec_drop_replier(
                                pcur,
                                rep.channel_id,
                            ));
                            if spec_has_chan(pcur, rep.channel_id) {
                                let pi0 = spec_chan_at(pcur, rep.channel_id);
                                assert forall|pi: int|
                                    0 <= pi < s0.pending.len() implies (#[trigger] self@.pending[
                                    pi
                                ]).0 == s0.pending[pi].0 && self@.pending[pi].1.channel_id
                                    == s0.pending[pi].1.channel_id by {
                                    if pi != pi0 {
                                        assert(self@.pending[pi] == pcur[pi]);
                                    }
                                }
                            }
                        }
                    }
                },
                None => {
                    self.pending_results.drop_sender(rep.channel_id);
                    proof {
                        lemma_step_drop(accr, rem, qr, pcur);
                        assert(self@.pending == spec_drop_replier(pcur, rep.channel_id));
                        if spec_has_chan(pcur, rep.channel_id) {
                            let pi0 = spec_chan_at(pcur, rep.channel_id);
                            assert forall|pi: int|
                                0 <= pi < s0.pending.len() implies (#[trigger] self@.pending[
                                pi
                            ]).0 == s0.pending[pi].0 && self@.pending[pi].1.channel_id
                                == s0.pending[pi].1.channel_id by {
                                if pi != pi0 {
                                    assert(self@.pending[pi] == pcur[pi]);
                                }
                            }
                        }
                    }
                },
            }
            j += 1;
        }
        proof {
            assert(reps0.skip(total as int).len() == 0);
            assert(spec_run_repliers(
                self@.pending,
                reps0.skip(total as int),
                results0.skip(total as int),
                s0.tags,
                delivering,
            ) == self@.pending);
            assert(self@.pending == spec_run_repliers(
                s0.pending,
                reps0,
                results0,
                s0.tags,
                true,
            ));
        }
        self.running_tasks.task_finished(cost);
        proof {
            let sf = self@;
            assert(sf =~= spec_run_next(s0, results0));
            lemma_run_next_wf_parts(s0, sf, accr, reps0, qr);
        }
    }
}

impl<A, K, D, O, R, N, T: Tasks<Batch<A, K, D, O>>> BatchRunner<A, K, D, O, R, N, T> {
    /// Collects the decryption results for the transaction registered
    /// under `(block_tag, txid)`.
    ///
    /// Returns an empty mapping when that key was never registered — the
    /// expected outcome for a transaction without outputs of this
    /// runner's kind.  Returns the mapping from `(txid, output index)`
    /// to decrypted note, and discards the entry, once every replier of
    /// the transaction's channel has been resolved.  Returns `None` when
    /// repliers are still outstanding: the concurrent engine would block
    /// here, so the caller must flush and run the remaining batches
    /// first, then collect again.
    pub fn collect_results(&mut self, block_tag: BlockHash, txid: TxId) -> (r: Option<
        Vec<((TxId, usize), DecryptedNote<A, R, N>)>,
    >)
        requires
            spec_wf(old(self)@),
        ensures
            spec_wf(final(self)@),
            !spec_has_key(old(self)@.pending, (block_tag@, txid@)) ==> (r matches Some(v)
                && v@ == Seq::<((TxId, usize), DecryptedNote<A, R, N>)>::empty())
                && final(self)@ == old(self)@,
            (spec_has_key(old(self)@.pending, (block_tag@, txid@)) && old(self)@.pending[
                spec_key_at(old(self)@.pending, (block_tag@, txid@))
            ].1.open_count > 0) ==> r is None && final(self)@ == old(self)@,
            (spec_has_key(old(self)@.pending, (block_tag@, txid@)) && old(self)@.pending[
                spec_key_at(old(self)@.pending, (block_tag@, txid@))
            ].1.open_count == 0) ==> (r matches Some(v) && v@ == spec_collected(
                txid,
                old(self)@.pending[
                    spec_key_at(old(self)@.pending, (block_tag@, txid@))
                ].1.items,
            )) && final(self)@ == (RunnerView {
                pending: old(self)@.pending.remove(
                    spec_key_at(old(self)@.pending, (block_tag@, txid@)),
                ),
                ..old(self)@
            }),
            r matches Some(v) ==> forall|j1: int, j2: int|
                0 <= j1 < j2 < v@.len() ==> (#[trigger] v@[j1]).0.1 != (#[trigger] v@[
                    j2
                ]).0.1,
    {
        let ghost s0 = self@;
        let ghost key_v = (block_tag@, txid@);
        let key = ResultKey { block_tag, txid };
        match self.pending_results.open_count(&key) {
            None => {
                let empty: Vec<((TxId, usize), DecryptedNote<A, R, N>)> = Vec::new();
                proof {
                    assert(empty@ =~= Seq::<((TxId, usize), DecryptedNote<A, R, N>)>::empty());
                    assert(self@ =~= s0);
                }
                Some(empty)
            },
            Some(open) => {
                if open > 0 {
                    proof {
                        assert(self@ =~= s0);
                    }
                    None
                } else {
                    let ghost pi0 = spec_key_at(s0.pending, key_v);
                    let recv = match self.pending_results.remove(&key) {
                        Some(recv) => recv,
                        None => {
                            proof {
                                assert(false);
                            }
                            unreached()
                        },
                    };
                    let ghost items0 = recv@.items;
                    let mut items = recv.into_items();
                    let mut out: Vec<((TxId, usize), DecryptedNote<A, R, N>)> = Vec::new();
                    let mut k: usize = 0;
                    let total: usize = items.len();
                    proof {
                        assert(items@ =~= items0.skip(0));
                        assert(out@ =~= spec_collected(txid, items0.take(0)));
                    }
                    while items.len() > 0
                        invariant
                            k + items@.len() == total,
                            total == items0.len(),
                            items@ == items0.skip(k as int),
                            out@ == spec_collected(txid, items0.take(k as int)),
                        decreases items@.len(),
                    {
                        let oi = items.remove(0);
                        proof {
                            assert(oi == items0[k as int]);
                            assert(items@ =~= items0.skip(k + 1));
                        }
                        out.push(((txid, oi.output_index), oi.value));
                        proof {
                            assert(out@ =~= spec_collected(txid, items0.take(k + 1)));
                        }
                        k += 1;
                    }
                    proof {
                        assert(items0.take(total as int) =~= items0);
                        assert(self@ =~= (RunnerView { pending: s0.pending.remove(pi0), ..s0 }));
                        lemma_collect_wf(s0, pi0);
                        // Returned positions are pairwise distinct.
                        assert forall|j1: int, j2: int|
                            0 <= j1 < j2 < out@.len() implies (#[trigger] out@[j1]).0.1
                            != (#[trigger] out@[j2]).0.1 by {
                            assert(out@[j1].0.1 == items0[j1].output_index);
                            assert(out@[j2].0.1 == items0[j2].output_index);
                        }
                    }
                    Some(out)
                }
            },
        }
    }
}

/// Total claimed footprint of the accumulating batch's contents: its
/// key snapshot, its `(domain, output)` pairs and its repliers.
pub open spec fn spec_acc_usage<
    A: DynamicUsage,
    K: DynamicUsage,
    D: DynamicUsage,
    O: DynamicUsage,
    R,
    N,
>(s: RunnerView<A, K, D, O, R, N>) -> usize {
    spec_sat_add(
        spec_sat_add(
            spec_sat_add(seq_usage(s.tags), seq_usage(s.ivks)),
            seq_usage(s.acc_outputs),
        ),
        seq_usage(s.acc_repliers),
    )
}

impl<
    A: DynamicUsage,
    K: DynamicUsage,
    D: DynamicUsage,
    O: DynamicUsage,
    R,
    N,
    T: Tasks<Batch<A, K, D, O>>,
> DynamicUsage for BatchRunner<A, K, D, O, R, N, T> {
    /// The accumulator's contents, plus the bytes the strategy charges
    /// for dispatched batches still running, plus the block storage of
    /// every pending receiver's queued results.
    open spec fn spec_usage(&self) -> usize {
        spec_sat_add(
            spec_sat_add(spec_acc_usage(self@), self.tracked_usage()),
            spec_entries_usage(self@.pending),
        )
    }

    fn dynamic_usage(&self) -> usize {
        let acc_u = self.acc.dynamic_usage();
        let run_u = self.running_tasks.dynamic_usage();
        let pend_u = self.pending_results.dynamic_usage();
        sat_add(sat_add(acc_u, run_u), pend_u)
    }

    fn dynamic_usage_bounds(&self) -> (usize, Option<usize>) {
        let u = self.dynamic_usage();
        (u, Some(u))
    }
}

/// Removing a completed entry preserves well-formedness: counts for the
/// remaining entries are untouched, and dropping an entry cannot break
/// uniqueness.
proof fn lemma_collect_wf<A, K, D, O, R, N>(s0: RunnerView<A, K, D, O, R, N>, pi0: int)
    requires
        spec_wf(s0),
        0 <= pi0 < s0.pending.len(),
    ensures
        spec_wf(RunnerView { pending: s0.pending.remove(pi0), ..s0 }),
{
    let sf = RunnerView { pending: s0.pending.remove(pi0), ..s0 };
    assert(sf.all_repliers() == s0.all_repliers());
    assert forall|pi: int|
        0 <= pi < sf.pending.len() implies ((#[trigger] sf.pending[pi])
            == s0.pending[if pi < pi0 {
            pi
        } else {
            pi + 1
        }]) by {}
    assert(spec_entries_wf(sf.pending)) by {
        assert forall|i: int, j: int|
            0 <= i < j < sf.pending.len() implies (#[trigger] sf.pending[i]).0 != (
        #[trigger] sf.pending[j]).0 && sf.pending[i].1.channel_id != sf.pending[
            j
        ].1.channel_id by {
            let i0 = if i < pi0 { i } else { i + 1 };
            let j0 = if j < pi0 { j } else { j + 1 };
            assert(sf.pending[i] == s0.pending[i0]);
            assert(sf.pending[j] == s0.pending[j0]);
        }
    }
}

/// After a batch has run, the engine is well-formed again: the counts
/// over the remaining repliers were maintained step by step, and every
/// structural property is inherited from the pre-run state.
proof fn lemma_run_next_wf_parts<A, K, D, O, R, N>(
    s0: RunnerView<A, K, D, O, R, N>,
    sf: RunnerView<A, K, D, O, R, N>,
    accr: Seq<OutputReplier>,
    reps0: Seq<OutputReplier>,
    qr: Seq<OutputReplier>,
)
    requires
        spec_wf(s0),
        s0.queue.len() > 0,
        accr == s0.acc_repliers,
        reps0 == s0.queue[0].repliers,
        qr == queue_repliers(s0.queue.skip(1)),
        sf.threshold == s0.threshold,
        sf.tags == s0.tags,
        sf.ivks == s0.ivks,
        sf.acc_outputs == s0.acc_outputs,
        sf.acc_repliers == s0.acc_repliers,
        sf.queue == s0.queue.skip(1),
        sf.next_channel_id == s0.next_channel_id,
        sf.pending.len() == s0.pending.len(),
        forall|pi: int|
            0 <= pi < s0.pending.len() ==> (#[trigger] sf.pending[pi]).0 == s0.pending[
                pi
            ].0 && sf.pending[pi].1.channel_id == s0.pending[pi].1.channel_id,
        spec_entries_wf(sf.pending),
        spec_counts_wf(accr + reps0.skip(reps0.len() as int) + qr, sf.pending),
    ensures
        spec_wf(sf),
{
    assert(reps0.skip(reps0.len() as int) =~= Seq::<OutputReplier>::empty());
    assert(accr + reps0.skip(reps0.len() as int) + qr =~= accr + qr);
    assert(sf.all_repliers() =~= accr + qr);
    assert(spec_counts_wf(sf.all_repliers(), sf.pending));
    lemma_queue_repliers_first(s0.queue);
    assert(s0.all_repliers() =~= accr + reps0 + qr);
    assert forall|pi: int|
        0 <= pi < sf.pending.len() implies (#[trigger] sf.pending[pi]).1.channel_id
        < sf.next_channel_id by {
        assert(s0.pending[pi].1.channel_id < s0.next_channel_id);
    }
    assert forall|i: int|
        0 <= i < sf.all_repliers().len() implies (#[trigger] sf.all_repliers()[
        i
    ]).channel_id < sf.next_channel_id by {
        let m = accr.len() as int;
        let n = reps0.len() as int;
        if i < m {
            assert(sf.all_repliers()[i] == s0.all_repliers()[i]);
        } else {
            assert(sf.all_repliers()[i] == qr[i - m]);
            assert(s0.all_repliers()[i + n] == qr[i - m]);
        }
    }
    assert forall|qi: int|
        0 <= qi < sf.queue.len() implies (#[trigger] sf.queue[qi]).tags == sf.tags
        && sf.queue[qi].ivks == sf.ivks && sf.queue[qi].outputs.len() == sf.queue[
        qi
    ].repliers.len() by {
        assert(sf.queue[qi] == s0.queue[qi + 1]);
    }
}

/// Count bookkeeping for one processed replier, shared by the delivery
/// and drop cases: removing the front replier of the running batch
/// lowers its channel's count by one and every other count not at all.
proof fn lemma_counts_after_step(
    acc: Seq<OutputReplier>,
    rem: Seq<OutputReplier>,
    qr: Seq<OutputReplier>,
)
    requires
        rem.len() > 0,
    ensures
        forall|x: u64|
            #[trigger] cnt_chan(acc + rem.skip(1) + qr, x) + (if rem[0].channel_id == x {
                1nat
            } else {
                0nat
            }) == cnt_chan(acc + rem + qr, x),
        forall|repv: OutputReplier|
            #[trigger] cnt_val(acc + rem.skip(1) + qr, repv) + (if rem[0] == repv {
                1nat
            } else {
                0nat
            }) == cnt_val(acc + rem + qr, repv),
        cnt_val(acc + rem + qr, rem[0]) >= 1,
{
    assert forall|x: u64|
        #[trigger] cnt_chan(acc + rem.skip(1) + qr, x) + (if rem[0].channel_id == x {
            1nat
        } else {
            0nat
        }) == cnt_chan(acc + rem + qr, x) by {
        lemma_cnt_chan_concat(acc + rem, qr, x);
        lemma_cnt_chan_concat(acc, rem, x);
        lemma_cnt_chan_concat(acc + rem.skip(1), qr, x);
        lemma_cnt_chan_concat(acc, rem.skip(1), x);
        lemma_cnt_chan_first(rem, x);
    }
    assert forall|repv: OutputReplier|
        #[trigger] cnt_val(acc + rem.skip(1) + qr, repv) + (if rem[0] == repv {
            1nat
        } else {
            0nat
        }) == cnt_val(acc + rem + qr, repv) by {
        lemma_cnt_val_concat(acc + rem, qr, repv);
        lemma_cnt_val_concat(acc, rem, repv);
        lemma_cnt_val_concat(acc + rem.skip(1), qr, repv);
        lemma_cnt_val_concat(acc, rem.skip(1), repv);
        lemma_cnt_val_first(rem, repv);
    }
    assert((acc + rem + qr)[acc.len() as int] == rem[0]);
    lemma_cnt_at(acc + rem + qr, acc.len() as int);
}

/// Delivering the front replier's result preserves the count
/// bookkeeping.
proof fn lemma_step_deliver<A, R, N>(
    acc: Seq<OutputReplier>,
    rem: Seq<OutputReplier>,
    qr: Seq<OutputReplier>,
    pending: Seq<EntryView<A, R, N>>,
    item: OutputIndex<DecryptedNote<A, R, N>>,
)
    requires
        rem.len() > 0,
        spec_counts_wf(acc + rem + qr, pending),
        spec_entries_wf(pending),
        spec_has_chan(pending, rem[0].channel_id),
        item.output_index == rem[0].output_index,
    ensures
        spec_counts_wf(
            acc + rem.skip(1) + qr,
            spec_deliver(pending, rem[0].channel_id, item),
        ),
{
    let rep = rem[0];
    let c = rep.channel_id;
    let all = acc + rem + qr;
    let all2 = acc + rem.skip(1) + qr;
    lemma_counts_after_step(acc, rem, qr);
    let pi0 = spec_chan_at(pending, c);
    assert(0 <= pi0 < pending.len() && pending[pi0].1.channel_id == c);
    let p2 = spec_deliver(pending, c, item);
    assert(p2 == pending.update(
        pi0,
        (
            pending[pi0].0,
            ReceiverView {
                channel_id: c,
                open_count: (pending[pi0].1.open_count - 1) as usize,
                items: pending[pi0].1.items.push(item),
            },
        ),
    ));
    assert(cnt_val(all, rep) == 1) by {
        assert(cnt_val(all, rep) <= 1);
    }
    assert(pending[pi0].1.open_count == cnt_chan(all, c));
    assert(cnt_chan(all, c) >= 1) by {
        lemma_cnt_val_le_chan(all, rep);
    }
    // Open counts still match.
    assert forall|pi: int|
        0 <= pi < p2.len() implies (#[trigger] p2[pi]).1.open_count == cnt_chan(
        all2,
        p2[pi].1.channel_id,
    ) by {
        if pi == pi0 {
        } else {
            assert(p2[pi] == pending[pi]);
            assert(p2[pi].1.channel_id != c);
        }
    }
    // Item positions of the channel are no longer outstanding.
    assert forall|pi: int, j: int|
        0 <= pi < p2.len() && 0 <= j < p2[pi].1.items.len() implies cnt_val(
        all2,
        OutputReplier {
            output_index: (#[trigger] p2[pi].1.items[j]).output_index,
            channel_id: p2[pi].1.channel_id,
        },
    ) == 0 by {
        if pi == pi0 && j == p2[pi].1.items.len() - 1 {
            assert(p2[pi].1.items[j] == item);
            assert(OutputReplier {
                output_index: item.output_index,
                channel_id: p2[pi].1.channel_id,
            } == rep);
        } else {
            if pi == pi0 {
                assert(p2[pi].1.items[j] == pending[pi].1.items[j]);
            } else {
                assert(p2[pi] == pending[pi]);
            }
        }
    }
    // Delivered positions stay pairwise distinct.
    assert forall|pi: int, j1: int, j2: int|
        0 <= pi < p2.len() && 0 <= j1 < j2 < p2[pi].1.items.len() implies (#[trigger] p2[
        pi
    ].1.items[j1]).output_index != (#[trigger] p2[pi].1.items[j2]).output_index by {
        if pi == pi0 && j2 == p2[pi].1.items.len() - 1 {
            assert(p2[pi].1.items[j1] == pending[pi].1.items[j1]);
            assert(p2[pi].1.items[j2] == item);
            assert(cnt_val(
                all,
                OutputReplier {
                    output_index: pending[pi].1.items[j1].output_index,
                    channel_id: c,
                },
            ) == 0);
            assert(cnt_val(all, rep) == 1);
        } else {
            if pi == pi0 {
                assert(p2[pi].1.items[j1] == pending[pi].1.items[j1]);
                assert(p2[pi].1.items[j2] == pending[pi].1.items[j2]);
            } else {
                assert(p2[pi] == pending[pi]);
            }
        }
    }
}

/// Dropping the front replier without a result preserves the count
/// bookkeeping, whether or not its channel still exists.
proof fn lemma_step_drop<A, R, N>(
    acc: Seq<OutputReplier>,
    rem: Seq<OutputReplier>,
    qr: Seq<OutputReplier>,
    pending: Seq<EntryView<A, R, N>>,
)
    requires
        rem.len() > 0,
        spec_counts_wf(acc + rem + qr, pending),
        spec_entries_wf(pending),
    ensures
        spec_counts_wf(
            acc + rem.skip(1) + qr,
            spec_drop_replier(pending, rem[0].channel_id),
        ),
{
    let rep = rem[0];
    let c = rep.channel_id;
    let all = acc + rem + qr;
    let all2 = acc + rem.skip(1) + qr;
    lemma_counts_after_step(acc, rem, qr);
    let p2 = spec_drop_replier(pending, c);
    if spec_has_chan(pending, c) {
        let pi0 = spec_chan_at(pending, c);
        assert(0 <= pi0 < pending.len() && pending[pi0].1.channel_id == c);
        assert forall|pi: int|
            0 <= pi < p2.len() implies (#[trigger] p2[pi]).1.open_count == cnt_chan(
            all2,
            p2[pi].1.channel_id,
        ) by {
            if pi == pi0 {
            } else {
                assert(p2[pi] == pending[pi]);
                assert(p2[pi].1.channel_id != c);
            }
        }
        assert forall|pi: int, j: int|
            0 <= pi < p2.len() && 0 <= j < p2[pi].1.items.len() implies cnt_val(
            all2,
            OutputReplier {
                output_index: (#[trigger] p2[pi].1.items[j]).output_index,
                channel_id: p2[pi].1.channel_id,
            },
        ) == 0 by {
            if pi == pi0 {
                assert(p2[pi].1.items[j] == pending[pi].1.items[j]);
            } else {
                assert(p2[pi] == pending[pi]);
            }
        }
        assert forall|pi: int, j1: int, j2: int|
            0 <= pi < p2.len() && 0 <= j1 < j2 < p2[pi].1.items.len() implies (
        #[trigger] p2[pi].1.items[j1]).output_index != (#[trigger] p2[
            pi
        ].1.items[j2]).output_index by {
            if pi == pi0 {
                assert(p2[pi].1.items[j1] == pending[pi].1.items[j1]);
                assert(p2[pi].1.items[j2] == pending[pi].1.items[j2]);
            } else {
                assert(p2[pi] == pending[pi]);
            }
        }
    } else {
        assert(p2 == pending);
        assert forall|pi: int|
            0 <= pi < p2.len() implies (#[trigger] p2[pi]).1.open_count == cnt_chan(
            all2,
            p2[pi].1.channel_id,
        ) by {
            assert(p2[pi].1.channel_id != c);
        }
    }
}

/// Registration preserves well-formedness: the fresh channel is counted
/// exactly once per new replier and never clashes with an existing one.
pub proof fn lemma_register_wf<A, K, D, O, R, N>(
    s: RunnerView<A, K, D, O, R, N>,
    key: (Seq<u8>, Seq<u8>),
    domains: Seq<D>,
    outputs: Seq<O>,
)
    requires
        spec_wf(s),
        domains.len() == outputs.len(),
        outputs.len() <= usize::MAX,
        s.next_channel_id < u64::MAX,
    ensures
        spec_wf(spec_register(s, key, domains, outputs)),
{
    let s1 = spec_register(s, key, domains, outputs);
    let c = s.next_channel_id;
    let n = outputs.len();
    let new_reps = spec_repliers(n, c);
    let all0 = s.all_repliers();
    let all1 = s1.all_repliers();
    let recv = ReceiverView::<A, R, N> {
        channel_id: c,
        open_count: n as usize,
        items: Seq::empty(),
    };
    let qr = queue_repliers(s.queue);
    assert(all1 == (s.acc_repliers + new_reps) + qr);
    assert(all0 == s.acc_repliers + qr);
    assert forall|x: u64| cnt_chan(all1, x) == cnt_chan(all0, x) + cnt_chan(
        new_reps,
        x,
    ) by {
        lemma_cnt_chan_concat(s.acc_repliers + new_reps, qr, x);
        lemma_cnt_chan_concat(s.acc_repliers, new_reps, x);
        lemma_cnt_chan_concat(s.acc_repliers, qr, x);
    }
    assert forall|rep: OutputReplier| cnt_val(all1, rep) == cnt_val(all0, rep) + cnt_val(
        new_reps,
        rep,
    ) by {
        lemma_cnt_val_concat(s.acc_repliers + new_reps, qr, rep);
        lemma_cnt_val_concat(s.acc_repliers, new_reps, rep);
        lemma_cnt_val_concat(s.acc_repliers, qr, rep);
    }
    // No replier of the old state names the fresh channel.
    assert(cnt_chan(all0, c) == 0) by {
        lemma_cnt_chan_zero(all0, c);
    }
    // Replier bounds for the new state.
    assert forall|i: int|
        0 <= i < all1.len() implies (#[trigger] all1[i]).channel_id
        < s1.next_channel_id by {
        let m = s.acc_repliers.len() as int;
        if i < m {
            assert(all1[i] == all0[i]);
        } else if i < m + n {
            assert(all1[i] == new_reps[i - m]);
        } else {
            assert(all1[i] == qr[i - m - n]);
            assert(all0[i - n] == qr[i - m - n]);
        }
    }
    // The stored entries after the insert.
    let p1 = s1.pending;
    assert(p1 == spec_insert(s.pending, key, recv));
    // Well-formedness of the entry list.
    assert(spec_entries_wf(p1)) by {
        assert forall|i: int, j: int|
            0 <= i < j < p1.len() implies (#[trigger] p1[i]).0 != (#[trigger] p1[j]).0
            && p1[i].1.channel_id != p1[j].1.channel_id by {
            if spec_has_key(s.pending, key) {
                let k = spec_key_at(s.pending, key);
                assert(s.pending[k].0 == key);
                if i != k && j != k {
                    assert(p1[i] == s.pending[i] && p1[j] == s.pending[j]);
                } else if i == k {
                    assert(p1[j] == s.pending[j]);
                    assert(s.pending[j].1.channel_id < c);
                    assert(p1[i] == (key, recv));
                    assert(s.pending[j].0 != key);
                } else {
                    assert(p1[i] == s.pending[i]);
                    assert(s.pending[i].1.channel_id < c);
                    assert(p1[j] == (key, recv));
                    assert(s.pending[i].0 != key);
                }
            } else {
                if j == s.pending.len() {
                    assert(p1[i] == s.pending[i]);
                    assert(p1[j] == (key, recv));
                    assert(s.pending[i].1.channel_id < c);
                    if s.pending[i].0 == key {
                        assert(spec_has_key(s.pending, key));
                    }
                } else {
                    assert(p1[i] == s.pending[i] && p1[j] == s.pending[j]);
                }
            }
        }
    }
    // Counts for every stored entry.
    assert forall|pi: int|
        0 <= pi < p1.len() implies (#[trigger] p1[pi]).1.open_count == cnt_chan(
        all1,
        p1[pi].1.channel_id,
    ) by {
        lemma_cnt_chan_repliers(n, c, p1[pi].1.channel_id);
        if p1[pi] == (key, recv) {
            assert(cnt_chan(all1, c) == n);
        } else {
            assert(p1[pi] == s.pending[pi]);
            assert(p1[pi].1.channel_id < c);
        }
    }
    // No replier value is duplicated.
    assert forall|rep: OutputReplier| #[trigger] cnt_val(all1, rep) <= 1 by {
        lemma_cnt_val_repliers(n, c, rep);
        lemma_cnt_val_le_chan(all0, rep);
        if rep.channel_id == c {
            assert(cnt_val(all0, rep) == 0);
        }
    }
    // Delivered items are never still outstanding.
    assert forall|pi: int, j: int|
        0 <= pi < p1.len() && 0 <= j < p1[pi].1.items.len() implies cnt_val(
        all1,
        OutputReplier {
            output_index: (#[trigger] p1[pi].1.items[j]).output_index,
            channel_id: p1[pi].1.channel_id,
        },
    ) == 0 by {
        if p1[pi] == (key, recv) {
        } else {
            assert(p1[pi] == s.pending[pi]);
            let rep = OutputReplier {
                output_index: p1[pi].1.items[j].output_index,
                channel_id: p1[pi].1.channel_id,
            };
            lemma_cnt_val_repliers(n, c, rep);
            assert(rep.channel_id < c);
        }
    }
    assert forall|pi: int, j1: int, j2: int|
        0 <= pi < p1.len() && 0 <= j1 < j2 < p1[pi].1.items.len() implies (#[trigger] p1[
        pi
    ].1.items[j1]).output_index != (#[trigger] p1[pi].1.items[j2]).output_index by {
        if p1[pi] == (key, recv) {
        } else {
            assert(p1[pi] == s.pending[pi]);
        }
    }
}

/// Dispatching the accumulator preserves well-formedness: the repliers
/// move from the accumulator to the queued batch unchanged, so every
/// count is unchanged.
pub proof fn lemma_flush_wf<A, K, D, O, R, N>(s: RunnerView<A, K, D, O, R, N>)
    requires
        spec_wf(s),
    ensures
        spec_wf(spec_flush(s)),
{
    if s.acc_outputs.len() == 0 {
    } else {
        let s1 = spec_flush(s);
        let displaced = BatchView {
            tags: s.tags,
            ivks: s.ivks,
            outputs: s.acc_outputs,
            repliers: s.acc_repliers,
        };
        lemma_queue_repliers_push(s.queue, displaced);
        assert(s1.all_repliers() =~= queue_repliers(s.queue) + s.acc_repliers);
        let all0 = s.all_repliers();
        let all1 = s1.all_repliers();
        assert forall|c: u64| cnt_chan(all1, c) == cnt_chan(all0, c) by {
            lemma_cnt_chan_concat(s.acc_repliers, queue_repliers(s.queue), c);
            lemma_cnt_chan_concat(queue_repliers(s.queue), s.acc_repliers, c);
        }
        assert forall|rep: OutputReplier| cnt_val(all1, rep) == cnt_val(all0, rep) by {
            lemma_cnt_val_concat(s.acc_repliers, queue_repliers(s.queue), rep);
            lemma_cnt_val_concat(queue_repliers(s.queue), s.acc_repliers, rep);
        }
        assert forall|i: int|
            0 <= i < all1.len() implies (#[trigger] all1[i]).channel_id
            < s1.next_channel_id by {
            lemma_cnt_at(all1, i);
            if all1[i].channel_id >= s1.next_channel_id {
                lemma_cnt_chan_zero(all0, all1[i].channel_id);
            }
        }
    }
}

} // verus!
