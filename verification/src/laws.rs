//! The laws of the engine, stated and proved over the runner's
//! mathematical state.
//!
//! The central statement: for a registered transaction whose batch runs
//! to completion, the channel's collected items contain exactly the
//! outputs the decryption primitive matched — each under its position in
//! the registration, carrying the tag of the key that matched it — and
//! nothing else, with no position repeated.

use vstd::prelude::*;

use crate::batch::{
    spec_repliers, DecryptedNote, DecryptionResult, OutputIndex, OutputReplier,
};
use crate::pending::{
    spec_chan_at, spec_deliver, spec_drop_replier, spec_entries_wf, spec_has_chan,
    spec_has_key, spec_key_at, EntryView, ReceiverView,
};
use crate::runner::{
    lemma_flush_wf, lemma_register_wf, spec_add_outputs, spec_flush, spec_register,
    spec_result_item, spec_run_next, spec_run_repliers, spec_wf, RunnerView,
};

verus! {

/// The results a batch delivers for one registration: one item per
/// output that matched a key, in output order, where output `j` of the
/// registration stands at position `off + j` and carries the tag of the
/// key that matched it.
pub open spec fn spec_successes<A, R, N>(
    results: Seq<Option<DecryptionResult<R, N>>>,
    tags: Seq<A>,
    off: nat,
) -> Seq<OutputIndex<DecryptedNote<A, R, N>>>
    decreases results.len(),
{
    if results.len() == 0 {
        Seq::empty()
    } else {
        let rest = spec_successes(results.skip(1), tags, off + 1);
        match results[0] {
            Some(dr) => seq![
                OutputIndex {
                    output_index: off as usize,
                    value: DecryptedNote {
                        ivk_tag: tags[dr.ivk_index as int],
                        recipient: dr.recipient,
                        note: dr.note,
                    },
                },
            ] + rest,
            None => rest,
        }
    }
}

/// Whether `succ` holds `note` at output position `idx`.
pub open spec fn spec_success_at<A, R, N>(
    succ: Seq<OutputIndex<DecryptedNote<A, R, N>>>,
    idx: usize,
    note: DecryptedNote<A, R, N>,
) -> bool {
    exists|m: int|
        0 <= m < succ.len() && succ[m] == (OutputIndex { output_index: idx, value: note })
}

/// Completeness, soundness, index correctness and uniqueness of the
/// delivered items, stated of the result positions.
///
/// Every output whose result matched a key is present at its own
/// position with the matching key's tag, recipient and note; an output
/// that matched no key is absent; every position present stems from some
/// output of this registration; and no position occurs twice.
pub proof fn lemma_successes_characterization<A, R, N>(
    results: Seq<Option<DecryptionResult<R, N>>>,
    tags: Seq<A>,
    off: nat,
)
    requires
        off + results.len() <= usize::MAX,
    ensures
        forall|j: int|
            0 <= j < results.len() ==> match #[trigger] results[j] {
                Some(dr) => spec_success_at(
                    spec_successes(results, tags, off),
                    (off + j) as usize,
                    DecryptedNote {
                        ivk_tag: tags[dr.ivk_index as int],
                        recipient: dr.recipient,
                        note: dr.note,
                    },
                ),
                None => forall|m: int|
                    0 <= m < spec_successes(results, tags, off).len()
                        ==> (#[trigger] spec_successes(results, tags, off)[m]).output_index
                        != off + j,
            },
        forall|m: int|
            0 <= m < spec_successes(results, tags, off).len() ==> off <= (
            #[trigger] spec_successes(results, tags, off)[m]).output_index < off
                + results.len(),
        forall|m1: int, m2: int|
            0 <= m1 < m2 < spec_successes(results, tags, off).len()
                ==> (#[trigger] spec_successes(results, tags, off)[m1]).output_index != (
            #[trigger] spec_successes(results, tags, off)[m2]).output_index,
    decreases results.len(),
{
    let succ = spec_successes(results, tags, off);
    if results.len() == 0 {
    } else {
        let rest = spec_successes(results.skip(1), tags, off + 1);
        lemma_successes_characterization(results.skip(1), tags, off + 1);
        let head_len: int = match results[0] {
            Some(dr) => 1,
            None => 0,
        };
        assert(succ.len() == head_len + rest.len());
        assert(forall|m: int| 0 <= m < rest.len() ==> succ[m + head_len] == rest[m]);
        // Position bounds.
        assert forall|m: int|
            0 <= m < succ.len() implies off <= (#[trigger] succ[m]).output_index < off
            + results.len() by {
            if m >= head_len {
                assert(succ[m] == rest[m - head_len]);
            }
        }
        // Pairwise distinct positions.
        assert forall|m1: int, m2: int|
            0 <= m1 < m2 < succ.len() implies (#[trigger] succ[m1]).output_index != (
        #[trigger] succ[m2]).output_index by {
            if m1 >= head_len {
                assert(succ[m1] == rest[m1 - head_len]);
                assert(succ[m2] == rest[m2 - head_len]);
            } else {
                assert(succ[m2] == rest[m2 - head_len]);
                assert(succ[m1].output_index == off);
                assert(rest[m2 - head_len].output_index >= off + 1);
            }
        }
        // Per-output presence or absence.
        assert forall|j: int| 0 <= j < results.len() implies match #[trigger] results[j] {
            Some(dr) => spec_success_at(
                succ,
                (off + j) as usize,
                DecryptedNote {
                    ivk_tag: tags[dr.ivk_index as int],
                    recipient: dr.recipient,
                    note: dr.note,
                },
            ),
            None => forall|m: int|
                0 <= m < succ.len() ==> (#[trigger] succ[m]).output_index != off + j,
        } by {
            if j == 0 {
                match results[0] {
                    Some(dr) => {
                        assert(succ[0] == OutputIndex {
                            output_index: off as usize,
                            value: DecryptedNote {
                                ivk_tag: tags[dr.ivk_index as int],
                                recipient: dr.recipient,
                                note: dr.note,
                            },
                        });
                    },
                    None => {
                        assert forall|m: int|
                            0 <= m < succ.len() implies (#[trigger] succ[m]).output_index
                            != off + 0 by {
                            assert(succ[m] == rest[m]);
                            assert(rest[m].output_index >= off + 1);
                        }
                    },
                }
            } else {
                assert(results.skip(1)[j - 1] == results[j]);
                match results[j] {
                    Some(dr) => {
                        let note = DecryptedNote {
                            ivk_tag: tags[dr.ivk_index as int],
                            recipient: dr.recipient,
                            note: dr.note,
                        };
                        assert(spec_success_at(rest, ((off + 1) + (j - 1)) as usize, note));
                        let m = choose|m: int|
                            0 <= m < rest.len() && rest[m] == (OutputIndex {
                                output_index: ((off + 1) + (j - 1)) as usize,
                                value: note,
                            });
                        assert(succ[m + head_len] == rest[m]);
                        assert(spec_success_at(succ, (off + j) as usize, note));
                    },
                    None => {
                        assert forall|m: int|
                            0 <= m < succ.len() implies (#[trigger] succ[m]).output_index
                            != off + j by {
                            if m >= head_len {
                                assert(succ[m] == rest[m - head_len]);
                                assert(rest[m - head_len].output_index != (off + 1) + (j
                                    - 1));
                            } else {
                                assert(succ[m].output_index == off);
                            }
                        }
                    },
                }
            }
        }
    }
}

/// Running all remaining repliers of one channel drives its open count
/// to zero and appends exactly the matched results, leaving every other
/// entry untouched.
proof fn lemma_run_single_chan<A, R, N>(
    pending: Seq<EntryView<A, R, N>>,
    results: Seq<Option<DecryptionResult<R, N>>>,
    tags: Seq<A>,
    c: u64,
    off: nat,
)
    requires
        spec_entries_wf(pending),
        spec_has_chan(pending, c),
        pending[spec_chan_at(pending, c)].1.open_count == results.len(),
        off + results.len() <= usize::MAX,
    ensures
        spec_run_repliers(
            pending,
            Seq::new(
                results.len(),
                |i: int| OutputReplier { output_index: (off + i) as usize, channel_id: c },
            ),
            results,
            tags,
            true,
        ) == pending.update(
            spec_chan_at(pending, c),
            (
                pending[spec_chan_at(pending, c)].0,
                ReceiverView {
                    channel_id: c,
                    open_count: 0,
                    items: pending[spec_chan_at(pending, c)].1.items + spec_successes(
                        results,
                        tags,
                        off,
                    ),
                },
            ),
        ),
    decreases results.len(),
{
    let pi0 = spec_chan_at(pending, c);
    assert(0 <= pi0 < pending.len() && pending[pi0].1.channel_id == c);
    let k = results.len();
    let rem = Seq::new(
        k,
        |i: int| OutputReplier { output_index: (off + i) as usize, channel_id: c },
    );
    let e = pending[pi0];
    if k == 0 {
        assert(rem.len() == 0);
        assert(e.1.items + spec_successes(results, tags, off) =~= e.1.items);
        assert((e.0, ReceiverView { channel_id: c, open_count: 0, items: e.1.items })
            == e) by {
            assert(e.1 =~= ReceiverView {
                channel_id: c,
                open_count: 0,
                items: e.1.items,
            });
        }
        assert(pending.update(pi0, e) =~= pending);
    } else {
        let rep = rem[0];
        assert(rep == OutputReplier { output_index: off as usize, channel_id: c });
        let rest_reps = Seq::new(
            (k - 1) as nat,
            |i: int| OutputReplier {
                output_index: ((off + 1) + i) as usize,
                channel_id: c,
            },
        );
        assert(rem.skip(1) =~= rest_reps);
        let pending2 = match results[0] {
            Some(dr) => spec_deliver(pending, c, spec_result_item(rep, dr, tags)),
            None => spec_drop_replier(pending, c),
        };
        // One step updates exactly the channel's entry.
        let e2 = match results[0] {
            Some(dr) => ReceiverView {
                channel_id: c,
                open_count: (e.1.open_count - 1) as usize,
                items: e.1.items.push(spec_result_item(rep, dr, tags)),
            },
            None => ReceiverView {
                channel_id: c,
                open_count: (e.1.open_count - 1) as usize,
                items: e.1.items,
            },
        };
        assert(pending2 == pending.update(pi0, (e.0, e2)));
        // The updated list keeps unique keys and channels.
        assert(spec_entries_wf(pending2)) by {
            assert forall|i: int, j: int|
                0 <= i < j < pending2.len() implies (#[trigger] pending2[i]).0 != (
            #[trigger] pending2[j]).0 && pending2[i].1.channel_id != pending2[
                j
            ].1.channel_id by {
                assert(pending[i].0 == pending2[i].0 && pending[j].0 == pending2[j].0);
                assert(pending[i].1.channel_id == pending2[i].1.channel_id);
                assert(pending[j].1.channel_id == pending2[j].1.channel_id);
            }
        }
        assert(spec_has_chan(pending2, c)) by {
            assert(pending2[pi0].1.channel_id == c);
        }
        assert(spec_chan_at(pending2, c) == pi0) by {
            let k2 = spec_chan_at(pending2, c);
            assert(0 <= k2 < pending2.len() && pending2[k2].1.channel_id == c);
            if k2 != pi0 {
                assert(pending2[k2].1.channel_id == pending2[pi0].1.channel_id);
            }
        }
        lemma_run_single_chan(pending2, results.skip(1), tags, c, off + 1);
        // Compose the step with the recursion.
        let done_items = e.1.items + spec_successes(results, tags, off);
        assert(e2.items + spec_successes(results.skip(1), tags, off + 1)
            =~= done_items) by {
            match results[0] {
                Some(dr) => {
                    assert(spec_successes(results, tags, off) == seq![
                        OutputIndex {
                            output_index: off as usize,
                            value: DecryptedNote {
                                ivk_tag: tags[dr.ivk_index as int],
                                recipient: dr.recipient,
                                note: dr.note,
                            },
                        },
                    ] + spec_successes(results.skip(1), tags, off + 1));
                    assert(spec_result_item(rep, dr, tags) == OutputIndex {
                        output_index: off as usize,
                        value: DecryptedNote {
                            ivk_tag: tags[dr.ivk_index as int],
                            recipient: dr.recipient,
                            note: dr.note,
                        },
                    });
                },
                None => {
                    assert(spec_successes(results, tags, off) == spec_successes(
                        results.skip(1),
                        tags,
                        off + 1,
                    ));
                },
            }
        }
        assert(pending2.update(pi0, (e.0, ReceiverView {
            channel_id: c,
            open_count: 0,
            items: done_items,
        })) =~= pending.update(pi0, (e.0, ReceiverView {
            channel_id: c,
            open_count: 0,
            items: done_items,
        })));
        // Unfold one step of the run.
        match results[0] {
            Some(dr) => {
                assert(spec_has_chan(pending, rep.channel_id));
                assert(spec_run_repliers(pending, rem, results, tags, true)
                    == spec_run_repliers(pending2, rem.skip(1), results.skip(1), tags, true));
            },
            None => {
                assert(spec_run_repliers(pending, rem, results, tags, true)
                    == spec_run_repliers(pending2, rem.skip(1), results.skip(1), tags, true));
            },
        }
    }
}

/// Law — completeness, soundness and index correctness of a full round
/// trip.
///
/// From a runner with an empty accumulator and an empty task queue,
/// register one transaction's outputs, flush, and run the dispatched
/// batch against any results of the decryption primitive.  Then the
/// transaction's channel is complete (its open count is zero) and holds
/// exactly the matched results: output `j` appears, at position `j` and
/// with the tag of the key that matched it, precisely when the primitive
/// matched output `j` — regardless of how the threshold relates to the
/// registration's size.
pub proof fn law_round_trip<A, K, D, O, R, N>(
    s0: RunnerView<A, K, D, O, R, N>,
    key: (Seq<u8>, Seq<u8>),
    domains: Seq<D>,
    outputs: Seq<O>,
    results: Seq<Option<DecryptionResult<R, N>>>,
)
    requires
        spec_wf(s0),
        s0.acc_outputs.len() == 0,
        s0.queue.len() == 0,
        s0.next_channel_id < u64::MAX,
        domains.len() == outputs.len(),
        0 < outputs.len() <= usize::MAX,
        results.len() == outputs.len(),
    ensures
        ({
            let s3 = spec_run_next(
                spec_flush(spec_add_outputs(s0, key, domains, outputs)),
                results,
            );
            spec_has_key(s3.pending, key) && s3.pending[
                spec_key_at(s3.pending, key)
            ].1.open_count == 0 && s3.pending[spec_key_at(s3.pending, key)].1.items
                == spec_successes(results, s0.tags, 0) && s3.queue.len() == 0
        }),
        ({
            let items = spec_run_next(
                spec_flush(spec_add_outputs(s0, key, domains, outputs)),
                results,
            ).pending[
                spec_key_at(
                    spec_run_next(
                        spec_flush(spec_add_outputs(s0, key, domains, outputs)),
                        results,
                    ).pending,
                    key,
                )
            ].1.items;
            // Completeness and soundness, output by output: a matched
            // output is present at its own position with the matching
            // key's tag; an unmatched one is absent; no position
            // repeats.
            (forall|j: int|
                0 <= j < results.len() ==> match #[trigger] results[j] {
                    Some(dr) => spec_success_at(
                        items,
                        j as usize,
                        DecryptedNote {
                            ivk_tag: s0.tags[dr.ivk_index as int],
                            recipient: dr.recipient,
                            note: dr.note,
                        },
                    ),
                    None => forall|m: int|
                        0 <= m < items.len() ==> (#[trigger] items[m]).output_index != j,
                }) && (forall|m1: int, m2: int|
                0 <= m1 < m2 < items.len() ==> (#[trigger] items[m1]).output_index != (
                #[trigger] items[m2]).output_index)
        }),
{
    lemma_successes_characterization(results, s0.tags, 0);
    let c = s0.next_channel_id;
    let n = outputs.len();
    let s1 = spec_register(s0, key, domains, outputs);
    lemma_register_wf(s0, key, domains, outputs);
    let sa = spec_add_outputs(s0, key, domains, outputs);
    let s2 = spec_flush(sa);
    // Flushing after registration lands in the same state whether or not
    // the threshold fired.
    assert(s2 == spec_flush(s1)) by {
        if s1.acc_outputs.len() >= s1.threshold {
            assert(sa == spec_flush(s1));
            assert(sa.acc_outputs.len() == 0);
        }
    }
    lemma_flush_wf(s1);
    assert(spec_wf(s2));
    assert(s2.pending == s1.pending);
    assert(s2.queue.len() == 1);
    assert(s2.queue[0].repliers == spec_repliers(n, c));
    assert(s2.tags == s0.tags);
    // The freshly inserted entry is the channel's unique owner.
    let recv = ReceiverView::<A, R, N> {
        channel_id: c,
        open_count: n as usize,
        items: Seq::empty(),
    };
    assert(spec_has_chan(s1.pending, c)) by {
        if spec_has_key(s0.pending, key) {
            let ki = spec_key_at(s0.pending, key);
            assert(s1.pending[ki] == (key, recv));
        } else {
            assert(s1.pending[s0.pending.len() as int] == (key, recv));
        }
    }
    let pi0 = spec_chan_at(s1.pending, c);
    assert(s1.pending[pi0].1.channel_id == c);
    assert(s1.pending[pi0] == (key, recv)) by {
        if spec_has_key(s0.pending, key) {
            let ki = spec_key_at(s0.pending, key);
            assert(s1.pending[ki] == (key, recv));
            if pi0 != ki {
                assert(s1.pending[pi0] == s0.pending[pi0]);
                assert(s0.pending[pi0].1.channel_id < c);
            }
        } else {
            let ki = s0.pending.len() as int;
            assert(s1.pending[ki] == (key, recv));
            if pi0 != ki {
                assert(s1.pending[pi0] == s0.pending[pi0]);
                assert(s0.pending[pi0].1.channel_id < c);
            }
        }
    }
    // Run the batch.
    let s3 = spec_run_next(s2, results);
    assert(spec_repliers(n, c) =~= Seq::new(
        n,
        |i: int| OutputReplier { output_index: (0 + i) as usize, channel_id: c },
    ));
    lemma_run_single_chan(s1.pending, results, s0.tags, c, 0);
    let done = (
        (key, recv).0,
        ReceiverView::<A, R, N> {
            channel_id: c,
            open_count: 0,
            items: recv.items + spec_successes(results, s0.tags, 0),
        },
    );
    assert(s3.pending == s1.pending.update(pi0, done));
    assert(recv.items + spec_successes(results, s0.tags, 0) =~= spec_successes(
        results,
        s0.tags,
        0,
    ));
    assert(s3.pending[pi0].0 == key);
    assert(spec_has_key(s3.pending, key));
    assert(spec_key_at(s3.pending, key) == pi0) by {
        let ki = spec_key_at(s3.pending, key);
        assert(0 <= ki < s3.pending.len() && s3.pending[ki].0 == key);
        if ki != pi0 {
            assert(s3.pending[ki].0 == s1.pending[ki].0);
            assert(spec_entries_wf(s1.pending));
            assert(s1.pending[pi0].0 == key);
            assert(s1.pending[ki].0 != s1.pending[pi0].0);
        }
    }
    assert(s3.queue =~= Seq::<crate::batch::BatchView<A, K, D, O>>::empty());
}

/// Law — threshold behaviour.
///
/// When one registration lifts the accumulator from below the threshold
/// to the threshold or beyond, exactly one dispatch happens: the
/// combined outputs leave as one batch at the back of the queue, and the
/// accumulator is empty again while still carrying the same key set.
pub proof fn law_threshold_dispatch<A, K, D, O, R, N>(
    s0: RunnerView<A, K, D, O, R, N>,
    key: (Seq<u8>, Seq<u8>),
    domains: Seq<D>,
    outputs: Seq<O>,
)
    requires
        domains.len() == outputs.len(),
        s0.acc_outputs.len() + outputs.len() >= s0.threshold,
        s0.acc_outputs.len() + outputs.len() > 0,
    ensures
        ({
            let s = spec_add_outputs(s0, key, domains, outputs);
            s.acc_outputs.len() == 0 && s.acc_repliers.len() == 0 && s.tags == s0.tags
                && s.ivks == s0.ivks && s.queue.len() == s0.queue.len() + 1 && s.queue.last().outputs.len()
                == s0.acc_outputs.len() + outputs.len() && s.queue.take(
                s0.queue.len() as int,
            ) == s0.queue
        }),
{
    let s1 = spec_register(s0, key, domains, outputs);
    assert(s1.acc_outputs.len() == s0.acc_outputs.len() + outputs.len());
    let s = spec_add_outputs(s0, key, domains, outputs);
    assert(s == spec_flush(s1));
    assert(s.queue.take(s0.queue.len() as int) =~= s0.queue);
}

/// Law — a registration below the threshold only accumulates.
///
/// When the combined size stays below the threshold, nothing is
/// dispatched: the queue is untouched and the accumulator has grown by
/// exactly the registered outputs.
pub proof fn law_below_threshold_accumulates<A, K, D, O, R, N>(
    s0: RunnerView<A, K, D, O, R, N>,
    key: (Seq<u8>, Seq<u8>),
    domains: Seq<D>,
    outputs: Seq<O>,
)
    requires
        domains.len() == outputs.len(),
        s0.acc_outputs.len() + outputs.len() < s0.threshold,
    ensures
        spec_add_outputs(s0, key, domains, outputs) == spec_register(
            s0,
            key,
            domains,
            outputs,
        ),
        spec_add_outputs(s0, key, domains, outputs).queue == s0.queue,
        spec_add_outputs(s0, key, domains, outputs).acc_outputs.len()
            == s0.acc_outputs.len() + outputs.len(),
{
}

/// Law — flushing an empty accumulator is a no-op.
///
/// No work is submitted and the state, the task queue and therefore the
/// reported usage are exactly what they were.
pub proof fn law_empty_flush_noop<A, K, D, O, R, N>(s: RunnerView<A, K, D, O, R, N>)
    requires
        s.acc_outputs.len() == 0,
    ensures
        spec_flush(s) == s,
{
}

} // verus!
