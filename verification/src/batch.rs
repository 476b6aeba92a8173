//! A batch of shielded outputs awaiting trial decryption, together with the
//! value types carried through the engine: decrypted notes, output-indexed
//! values, and the repliers that correlate a result with the registration
//! that produced it.

use std::sync::Arc;
use vstd::prelude::*;

use crate::usage::{
    seq_usage, spec_sat_add, vec_usage, sat_add, DynamicUsage,
};

verus! {

broadcast use vstd::seq_lib::group_seq_properties;

/// A note recovered by trial decryption.
pub struct DecryptedNote<A, R, N> {
    /// The tag of the incoming viewing key that decrypted the note.
    pub ivk_tag: A,
    /// The recipient recovered from the output.
    pub recipient: R,
    /// The note itself.
    pub note: N,
}

/// A value correlated with the position of an output inside the
/// registration that supplied it.
pub struct OutputIndex<V> {
    /// The index of the output within the registered output list.
    pub output_index: usize,
    /// The value for that output.
    pub value: V,
}

/// The reply slot of one registered output: which result channel the
/// output's result belongs to, and at which position.
///
/// Stands for one cloned sender of a transaction's result channel.
#[derive(Clone, Copy, PartialEq, Eq, Structural, Debug)]
pub struct OutputReplier {
    /// The index of the output within its registration.
    pub output_index: usize,
    /// The identifier of the result channel for the transaction.
    pub channel_id: u64,
}

/// The outcome of the batched trial-decryption primitive for one output
/// that matched a key: the recovered note and recipient, and the position
/// of the matching incoming viewing key in the batch's key set.
pub struct DecryptionResult<R, N> {
    /// The recovered note.
    pub note: N,
    /// The recovered recipient.
    pub recipient: R,
    /// Index of the matching key within the batch's parallel key arrays.
    pub ivk_index: usize,
}

/// Mathematical contents of a [`Batch`].
#[verifier::ext_equal]
pub struct BatchView<A, K, D, O> {
    pub tags: Seq<A>,
    pub ivks: Seq<K>,
    pub outputs: Seq<(D, O)>,
    pub repliers: Seq<OutputReplier>,
}

/// The sequence of `(domain, output)` pairs formed from parallel domain and
/// output sequences.
pub open spec fn spec_pairs<D, O>(doms: Seq<D>, outs: Seq<O>) -> Seq<(D, O)> {
    Seq::new(doms.len(), |i: int| (doms[i], outs[i]))
}

/// The repliers created for one registration of `count` outputs on the
/// result channel `channel_id`: positions `0 .. count`, in output order.
pub open spec fn spec_repliers(count: nat, channel_id: u64) -> Seq<OutputReplier> {
    Seq::new(
        count,
        |i: int| OutputReplier { output_index: i as usize, channel_id },
    )
}

/// One unit of cryptographic work: the key set to try, the accumulated
/// `(domain, output)` pairs, and the replier of every output.
///
/// The key set is a reference-counted immutable snapshot shared read-only
/// by every batch created by the same runner, in place of cloning the key
/// arrays per batch.
pub struct Batch<A, K, D, O> {
    pub(crate) tags: Arc<Vec<A>>,
    pub(crate) ivks: Arc<Vec<K>>,
    pub(crate) outputs: Vec<(D, O)>,
    pub(crate) repliers: Vec<OutputReplier>,
}

impl<A, K, D, O> View for Batch<A, K, D, O> {
    type V = BatchView<A, K, D, O>;

    closed spec fn view(&self) -> BatchView<A, K, D, O> {
        BatchView {
            tags: self.tags@,
            ivks: self.ivks@,
            outputs: self.outputs@,
            repliers: self.repliers@,
        }
    }
}

/// Hands out one more reference to a shared key snapshot.
///
/// Relies on `std::sync::Arc::clone`: the returned handle refers to the
/// same shared value as the argument.
#[verifier::external_body]
pub(crate) fn share_snapshot<T>(v: &Arc<T>) -> (r: Arc<T>)
    ensures
        r == *v,
{
    Arc::clone(v)
}

impl<A, K, D, O> Batch<A, K, D, O> {
    /// Constructs a new, empty batch over the given key snapshot.
    ///
    /// The tag and key arrays are parallel: entry `i` of `tags` names the
    /// key at entry `i` of `ivks`.
    pub fn new(tags: Arc<Vec<A>>, ivks: Arc<Vec<K>>) -> (r: Batch<A, K, D, O>)
        requires
            tags@.len() == ivks@.len(),
        ensures
            r@.tags == tags@,
            r@.ivks == ivks@,
            r@.outputs == Seq::<(D, O)>::empty(),
            r@.repliers == Seq::<OutputReplier>::empty(),
    {
        let r = Batch { tags, ivks, outputs: Vec::new(), repliers: Vec::new() };
        proof {
            assert(r@.outputs =~= Seq::<(D, O)>::empty());
            assert(r@.repliers =~= Seq::<OutputReplier>::empty());
        }
        r
    }

    /// Whether the batch holds no outputs yet.
    pub fn is_empty(&self) -> (r: bool)
        ensures
            r == (self@.outputs.len() == 0),
    {
        self.outputs.len() == 0
    }

    /// The number of outputs accumulated so far.
    pub fn output_count(&self) -> (r: usize)
        ensures
            r == self@.outputs.len(),
    {
        self.outputs.len()
    }

    /// The key tags the batch will try, parallel to [`Self::ivks`].
    pub fn tags(&self) -> (r: &Vec<A>)
        ensures
            r@ == self@.tags,
    {
        &*self.tags
    }

    /// The incoming viewing keys the batch will try.
    pub fn ivks(&self) -> (r: &Vec<K>)
        ensures
            r@ == self@.ivks,
    {
        &*self.ivks
    }

    /// The accumulated `(domain, output)` pairs, in registration order.
    ///
    /// A driver reads these, runs the batched trial-decryption primitive
    /// over them with [`Self::ivks`], and hands the per-output results
    /// back to the runner.
    pub fn outputs(&self) -> (r: &Vec<(D, O)>)
        ensures
            r@ == self@.outputs,
    {
        &self.outputs
    }

    /// Appends the given outputs to this batch.
    ///
    /// Every output gets its own domain instance, its position within
    /// `outputs` and one replier on the result channel `channel_id`, in
    /// output order.
    pub fn add_outputs(&mut self, domains: Vec<D>, outputs: Vec<O>, channel_id: u64)
        requires
            domains@.len() == outputs@.len(),
        ensures
            final(self)@.tags == old(self)@.tags,
            final(self)@.ivks == old(self)@.ivks,
            final(self)@.outputs == old(self)@.outputs + spec_pairs(domains@, outputs@),
            final(self)@.repliers == old(self)@.repliers + spec_repliers(
                outputs@.len(),
                channel_id,
            ),
    {
        let ghost doms0 = domains@;
        let ghost outs0 = outputs@;
        let mut domains = domains;
        let mut outputs = outputs;
        let mut idx: usize = 0;
        let total: usize = outputs.len();
        proof {
            assert(domains@ =~= doms0.skip(0));
            assert(outputs@ =~= outs0.skip(0));
        }
        while domains.len() > 0
            invariant
                idx + domains@.len() == total,
                outputs@.len() == domains@.len(),
                domains@ == doms0.skip(idx as int),
                outputs@ == outs0.skip(idx as int),
                self@.tags == old(self)@.tags,
                self@.ivks == old(self)@.ivks,
                self@.outputs == old(self)@.outputs + spec_pairs(
                    doms0.take(idx as int),
                    outs0.take(idx as int),
                ),
                self@.repliers == old(self)@.repliers + spec_repliers(
                    idx as nat,
                    channel_id,
                ),
            decreases domains@.len(),
        {
            let d = domains.remove(0);
            let o = outputs.remove(0);
            proof {
                assert(d == doms0[idx as int]);
                assert(o == outs0[idx as int]);
                assert(domains@ =~= doms0.skip(idx + 1));
                assert(outputs@ =~= outs0.skip(idx + 1));
            }
            self.outputs.push((d, o));
            self.repliers.push(OutputReplier { output_index: idx, channel_id });
            proof {
                assert(old(self)@.outputs + spec_pairs(
                    doms0.take(idx as int),
                    outs0.take(idx as int),
                ) + seq![(d, o)] =~= old(self)@.outputs + spec_pairs(
                    doms0.take(idx + 1),
                    outs0.take(idx + 1),
                ));
                assert(old(self)@.repliers + spec_repliers(idx as nat, channel_id)
                    + seq![OutputReplier { output_index: idx, channel_id }]
                    =~= old(self)@.repliers + spec_repliers((idx + 1) as nat, channel_id));
            }
            idx += 1;
        }
        proof {
            assert(doms0.take(total as int) =~= doms0);
            assert(outs0.take(total as int) =~= outs0);
        }
    }

    /// The shared key snapshot handles, for creating a successor batch
    /// over the same key set.
    pub(crate) fn key_snapshots(&self) -> (r: (&Arc<Vec<A>>, &Arc<Vec<K>>))
        ensures
            r.0@ == self@.tags,
            r.1@ == self@.ivks,
    {
        (&self.tags, &self.ivks)
    }

    /// Consumes the batch, yielding its key snapshot, its accumulated
    /// pairs and its repliers.
    pub(crate) fn into_parts(self) -> (r: (Arc<Vec<A>>, Arc<Vec<K>>, Vec<(D, O)>, Vec<OutputReplier>))
        ensures
            r.0@ == self@.tags,
            r.1@ == self@.ivks,
            r.2@ == self@.outputs,
            r.3@ == self@.repliers,
    {
        let Batch { tags, ivks, outputs, repliers } = self;
        (tags, ivks, outputs, repliers)
    }
}

impl DynamicUsage for OutputReplier {
    /// Per-output reply slots are counted on the receiver side.
    open spec fn spec_usage(&self) -> usize {
        0
    }

    fn dynamic_usage(&self) -> usize {
        0
    }

    fn dynamic_usage_bounds(&self) -> (usize, Option<usize>) {
        (0, Some(0))
    }
}

impl<T: DynamicUsage, U: DynamicUsage> DynamicUsage for (T, U) {
    open spec fn spec_usage(&self) -> usize {
        spec_sat_add(self.0.spec_usage(), self.1.spec_usage())
    }

    fn dynamic_usage(&self) -> usize {
        sat_add(self.0.dynamic_usage(), self.1.dynamic_usage())
    }

    fn dynamic_usage_bounds(&self) -> (usize, Option<usize>) {
        let u = sat_add(self.0.dynamic_usage(), self.1.dynamic_usage());
        (u, Some(u))
    }
}

impl<A, K, D, O> DynamicUsage for Batch<A, K, D, O>
where
    A: DynamicUsage,
    K: DynamicUsage,
    D: DynamicUsage,
    O: DynamicUsage,
{
    /// The claimed footprint of the key snapshot and of the accumulated
    /// pairs and repliers.  The shared snapshot is counted in full at each
    /// holder, an over-approximation accepted for diagnostics.
    open spec fn spec_usage(&self) -> usize {
        spec_sat_add(
            spec_sat_add(
                spec_sat_add(seq_usage(self@.tags), seq_usage(self@.ivks)),
                seq_usage(self@.outputs),
            ),
            seq_usage(self@.repliers),
        )
    }

    fn dynamic_usage(&self) -> usize {
        let tags_u = vec_usage(&*self.tags);
        let ivks_u = vec_usage(&*self.ivks);
        let outputs_u = vec_usage(&self.outputs);
        let repliers_u = vec_usage(&self.repliers);
        sat_add(sat_add(sat_add(tags_u, ivks_u), outputs_u), repliers_u)
    }

    fn dynamic_usage_bounds(&self) -> (usize, Option<usize>) {
        let u = self.dynamic_usage();
        (u, Some(u))
    }
}

} // verus!
