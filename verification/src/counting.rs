//! Counting of outstanding repliers.
//!
//! Every pending receiver's open count must equal the number of repliers
//! that still name its channel, across the accumulating batch and every
//! dispatched batch that has not run.  These functions count repliers in
//! a sequence — by channel and by exact value — and the lemmas state how
//! the counts behave under concatenation and removal.

use vstd::prelude::*;

use crate::batch::{BatchView, OutputReplier, spec_repliers};

verus! {

/// How many repliers of `rs` name the channel `c`.
pub open spec fn cnt_chan(rs: Seq<OutputReplier>, c: u64) -> nat
    decreases rs.len(),
{
    if rs.len() == 0 {
        0
    } else {
        cnt_chan(rs.drop_last(), c) + if rs.last().channel_id == c {
            1nat
        } else {
            0nat
        }
    }
}

/// How many entries of `rs` equal the replier `rep`.
pub open spec fn cnt_val(rs: Seq<OutputReplier>, rep: OutputReplier) -> nat
    decreases rs.len(),
{
    if rs.len() == 0 {
        0
    } else {
        cnt_val(rs.drop_last(), rep) + if rs.last() == rep {
            1nat
        } else {
            0nat
        }
    }
}

/// The repliers of a queue of batches, oldest batch first.
pub open spec fn queue_repliers<A, K, D, O>(q: Seq<BatchView<A, K, D, O>>) -> Seq<
    OutputReplier,
>
    decreases q.len(),
{
    if q.len() == 0 {
        Seq::empty()
    } else {
        queue_repliers(q.drop_last()) + q.last().repliers
    }
}

pub proof fn lemma_cnt_chan_concat(a: Seq<OutputReplier>, b: Seq<OutputReplier>, c: u64)
    ensures
        cnt_chan(a + b, c) == cnt_chan(a, c) + cnt_chan(b, c),
    decreases b.len(),
{
    if b.len() == 0 {
        assert(a + b =~= a);
    } else {
        assert((a + b).drop_last() =~= a + b.drop_last());
        assert((a + b).last() == b.last());
        lemma_cnt_chan_concat(a, b.drop_last(), c);
    }
}

pub proof fn lemma_cnt_val_concat(
    a: Seq<OutputReplier>,
    b: Seq<OutputReplier>,
    rep: OutputReplier,
)
    ensures
        cnt_val(a + b, rep) == cnt_val(a, rep) + cnt_val(b, rep),
    decreases b.len(),
{
    if b.len() == 0 {
        assert(a + b =~= a);
    } else {
        assert((a + b).drop_last() =~= a + b.drop_last());
        assert((a + b).last() == b.last());
        lemma_cnt_val_concat(a, b.drop_last(), rep);
    }
}

pub proof fn lemma_cnt_chan_first(rs: Seq<OutputReplier>, c: u64)
    requires
        rs.len() > 0,
    ensures
        cnt_chan(rs, c) == cnt_chan(rs.skip(1), c) + if rs[0].channel_id == c {
            1nat
        } else {
            0nat
        },
{
    assert(rs =~= seq![rs[0]] + rs.skip(1));
    assert(cnt_chan(seq![rs[0]], c) == if rs[0].channel_id == c {
        1nat
    } else {
        0nat
    }) by {
        assert(seq![rs[0]].drop_last() =~= Seq::<OutputReplier>::empty());
        assert(cnt_chan(Seq::<OutputReplier>::empty(), c) == 0);
    }
    lemma_cnt_chan_concat(seq![rs[0]], rs.skip(1), c);
}

pub proof fn lemma_cnt_val_first(rs: Seq<OutputReplier>, rep: OutputReplier)
    requires
        rs.len() > 0,
    ensures
        cnt_val(rs, rep) == cnt_val(rs.skip(1), rep) + if rs[0] == rep {
            1nat
        } else {
            0nat
        },
{
    assert(rs =~= seq![rs[0]] + rs.skip(1));
    assert(cnt_val(seq![rs[0]], rep) == if rs[0] == rep {
        1nat
    } else {
        0nat
    }) by {
        assert(seq![rs[0]].drop_last() =~= Seq::<OutputReplier>::empty());
        assert(cnt_val(Seq::<OutputReplier>::empty(), rep) == 0);
    }
    lemma_cnt_val_concat(seq![rs[0]], rs.skip(1), rep);
}

pub proof fn lemma_cnt_chan_zero(rs: Seq<OutputReplier>, c: u64)
    requires
        forall|i: int| 0 <= i < rs.len() ==> (#[trigger] rs[i]).channel_id != c,
    ensures
        cnt_chan(rs, c) == 0,
    decreases rs.len(),
{
    if rs.len() > 0 {
        lemma_cnt_chan_zero(rs.drop_last(), c);
    }
}

pub proof fn lemma_cnt_val_le_chan(rs: Seq<OutputReplier>, rep: OutputReplier)
    ensures
        cnt_val(rs, rep) <= cnt_chan(rs, rep.channel_id),
    decreases rs.len(),
{
    if rs.len() > 0 {
        lemma_cnt_val_le_chan(rs.drop_last(), rep);
    }
}

/// A replier present in the sequence is counted at least once, both by
/// value and by channel.
pub proof fn lemma_cnt_at(rs: Seq<OutputReplier>, i: int)
    requires
        0 <= i < rs.len(),
    ensures
        cnt_val(rs, rs[i]) >= 1,
        cnt_chan(rs, rs[i].channel_id) >= 1,
    decreases rs.len(),
{
    if i == rs.len() - 1 {
    } else {
        lemma_cnt_at(rs.drop_last(), i);
    }
}

/// Counts over the repliers created by one registration.
pub proof fn lemma_cnt_chan_repliers(n: nat, chan: u64, c: u64)
    requires
        n <= usize::MAX,
    ensures
        cnt_chan(spec_repliers(n, chan), c) == if c == chan {
            n
        } else {
            0nat
        },
    decreases n,
{
    if n == 0 {
        assert(spec_repliers(0, chan) =~= Seq::<OutputReplier>::empty());
    } else {
        assert(spec_repliers(n, chan).drop_last() =~= spec_repliers((n - 1) as nat, chan));
        lemma_cnt_chan_repliers((n - 1) as nat, chan, c);
    }
}

pub proof fn lemma_cnt_val_repliers(n: nat, chan: u64, rep: OutputReplier)
    requires
        n <= usize::MAX,
    ensures
        cnt_val(spec_repliers(n, chan), rep) == if rep.channel_id == chan
            && rep.output_index < n {
            1nat
        } else {
            0nat
        },
    decreases n,
{
    if n == 0 {
        assert(spec_repliers(0, chan) =~= Seq::<OutputReplier>::empty());
    } else {
        assert(spec_repliers(n, chan).drop_last() =~= spec_repliers((n - 1) as nat, chan));
        assert(spec_repliers(n, chan).last() == OutputReplier {
            output_index: (n - 1) as usize,
            channel_id: chan,
        });
        lemma_cnt_val_repliers((n - 1) as nat, chan, rep);
    }
}

pub proof fn lemma_queue_repliers_push<A, K, D, O>(
    q: Seq<BatchView<A, K, D, O>>,
    b: BatchView<A, K, D, O>,
)
    ensures
        queue_repliers(q.push(b)) == queue_repliers(q) + b.repliers,
{
    assert(q.push(b).drop_last() =~= q);
    assert(q.push(b).last() == b);
}

pub proof fn lemma_queue_repliers_first<A, K, D, O>(q: Seq<BatchView<A, K, D, O>>)
    requires
        q.len() > 0,
    ensures
        queue_repliers(q) == q[0].repliers + queue_repliers(q.skip(1)),
    decreases q.len(),
{
    if q.len() == 1 {
        assert(q.drop_last() =~= Seq::<BatchView<A, K, D, O>>::empty());
        assert(q.skip(1) =~= Seq::<BatchView<A, K, D, O>>::empty());
        assert(q[0].repliers + queue_repliers(q.skip(1)) =~= q[0].repliers);
        assert(queue_repliers(q) =~= Seq::<OutputReplier>::empty() + q.last().repliers);
        assert(Seq::<OutputReplier>::empty() + q.last().repliers =~= q.last().repliers);
    } else {
        assert(q.drop_last()[0] == q[0]);
        lemma_queue_repliers_first(q.drop_last());
        assert(q.drop_last().skip(1) =~= q.skip(1).drop_last());
        assert(q.skip(1).last() == q.last());
        assert(queue_repliers(q.skip(1)) == queue_repliers(q.skip(1).drop_last()) + q.last().repliers);
        assert(q[0].repliers + queue_repliers(q.skip(1)) =~= q[0].repliers + queue_repliers(
            q.drop_last().skip(1),
        ) + q.last().repliers);
    }
}

} // verus!
