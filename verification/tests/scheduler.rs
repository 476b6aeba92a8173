//! End-to-end scenarios for the batch runner.

use batch_scan::batch::DecryptionResult;
use batch_scan::ids::{BlockHash, TxId};
use batch_scan::runner::BatchRunner;
use batch_scan::tasks::{Tasks, Untracked, WithUsage};
use batch_scan::usage::{DynamicUsage, TASK_OVERHEAD};

type Runner = BatchRunner<u32, u64, u8, u16, i64, u64, Untracked>;
type TrackedRunner = BatchRunner<u32, u64, u8, u16, i64, u64, WithUsage>;

fn block(b: u8) -> BlockHash {
    let mut bytes = [0u8; 32];
    bytes[0] = b;
    BlockHash(bytes)
}

fn tx(t: u8) -> TxId {
    let mut bytes = [0u8; 32];
    bytes[0] = t;
    TxId(bytes)
}

fn hit(note: u64, recipient: i64, ivk_index: usize) -> Option<DecryptionResult<i64, u64>> {
    Some(DecryptionResult { note, recipient, ivk_index })
}

/// Threshold behavior: a registration that lifts the accumulator to the
/// threshold triggers exactly one dispatch, and the fresh accumulator is
/// empty but still carries the same key set.
#[test]
fn threshold_triggers_one_dispatch() {
    let mut runner: Runner = BatchRunner::new(2, vec![(1, 11), (2, 22)]);
    assert_eq!(runner.batch_threshold(), 2);
    assert_eq!(runner.queued_task_count(), 0);

    runner.add_outputs(block(1), tx(1), vec![0, 0], vec![100, 101]);
    assert_eq!(runner.queued_task_count(), 1);
    assert_eq!(runner.accumulated_count(), 0);

    let front = runner.front_batch();
    assert_eq!(front.tags().as_slice(), &[1, 2]);
    assert_eq!(front.ivks().as_slice(), &[11, 22]);
    assert_eq!(front.output_count(), 2);
    assert_eq!(front.outputs().as_slice(), &[(0, 100), (0, 101)]);
}

/// A registration below the threshold only accumulates.
#[test]
fn below_threshold_accumulates() {
    let mut runner: Runner = BatchRunner::new(3, vec![(1, 11)]);
    runner.add_outputs(block(1), tx(1), vec![0, 0], vec![100, 101]);
    assert_eq!(runner.queued_task_count(), 0);
    assert_eq!(runner.accumulated_count(), 2);
}

/// An empty flush submits no work and is observably a no-op.
#[test]
fn empty_flush_is_noop() {
    let mut runner: TrackedRunner = BatchRunner::new(5, vec![(1, 11)]);
    let usage_before = runner.dynamic_usage();
    runner.flush();
    assert_eq!(runner.queued_task_count(), 0);
    assert_eq!(runner.dynamic_usage(), usage_before);

    runner.add_outputs(block(1), tx(1), vec![0], vec![100]);
    runner.flush();
    assert_eq!(runner.queued_task_count(), 1);
    let after_one = runner.dynamic_usage();
    runner.flush();
    assert_eq!(runner.queued_task_count(), 1);
    assert_eq!(runner.dynamic_usage(), after_one);
}

/// Collection for a key that was never registered yields an empty
/// mapping, not an error.
#[test]
fn collect_without_registration_is_empty() {
    let mut runner: Runner = BatchRunner::new(2, vec![(1, 11)]);
    let collected = runner.collect_results(block(9), tx(9)).expect("nothing pending");
    assert!(collected.is_empty());
}

/// Two keys, one transaction with three outputs: output 0 decrypts under
/// the first key, output 1 under the second, output 2 under neither.
#[test]
fn two_keys_three_outputs() {
    let mut runner: Runner = BatchRunner::new(10, vec![(1, 11), (2, 22)]);
    runner.add_outputs(block(1), tx(7), vec![0, 0, 0], vec![100, 101, 102]);
    runner.flush();
    assert_eq!(runner.queued_task_count(), 1);

    runner.run_next_task(vec![hit(500, -5, 0), hit(600, -6, 1), None]);
    assert_eq!(runner.queued_task_count(), 0);

    let mut collected = runner.collect_results(block(1), tx(7)).expect("batch has run");
    assert_eq!(collected.len(), 2);
    collected.sort_by_key(|((_, index), _)| *index);

    let ((txid0, index0), ref note0) = collected[0];
    assert_eq!(txid0.0, tx(7).0);
    assert_eq!(index0, 0);
    assert_eq!(note0.ivk_tag, 1);
    assert_eq!(note0.recipient, -5);
    assert_eq!(note0.note, 500);

    let ((txid1, index1), ref note1) = collected[1];
    assert_eq!(txid1.0, tx(7).0);
    assert_eq!(index1, 1);
    assert_eq!(note1.ivk_tag, 2);
    assert_eq!(note1.recipient, -6);
    assert_eq!(note1.note, 600);

    // Collecting again finds nothing pending.
    let again = runner.collect_results(block(1), tx(7)).expect("entry was removed");
    assert!(again.is_empty());
}

/// Threshold split: the first transaction auto-flushes and can be
/// collected once its batch ran; the second stays accumulating and its
/// collection would block until an explicit flush and run.
#[test]
fn threshold_split_two_transactions() {
    let mut runner: Runner = BatchRunner::new(2, vec![(1, 11)]);
    runner.add_outputs(block(1), tx(1), vec![0, 0], vec![100, 101]);
    assert_eq!(runner.queued_task_count(), 1);
    runner.add_outputs(block(1), tx(2), vec![0], vec![102]);
    assert_eq!(runner.queued_task_count(), 1);
    assert_eq!(runner.accumulated_count(), 1);

    runner.run_next_task(vec![hit(500, -5, 0), None]);
    let first = runner.collect_results(block(1), tx(1)).expect("first batch ran");
    assert_eq!(first.len(), 1);
    assert_eq!((first[0].0).1, 0);
    assert_eq!(first[0].1.note, 500);

    // The second transaction's outputs were never dispatched: collecting
    // now would block in the concurrent engine.
    assert!(runner.collect_results(block(1), tx(2)).is_none());

    runner.flush();
    runner.run_next_task(vec![hit(700, -7, 0)]);
    let second = runner.collect_results(block(1), tx(2)).expect("second batch ran");
    assert_eq!(second.len(), 1);
    assert_eq!((second[0].0).1, 0);
    assert_eq!(second[0].1.note, 700);
}

/// Index correctness across batches: transactions dispatched in
/// different batches still map results back to each registration's own
/// output positions.
#[test]
fn indices_map_per_registration_across_batches() {
    let mut runner: Runner = BatchRunner::new(1, vec![(1, 11)]);
    runner.add_outputs(block(1), tx(1), vec![0], vec![100]);
    runner.add_outputs(block(1), tx(2), vec![0, 0], vec![101, 102]);
    assert_eq!(runner.queued_task_count(), 2);

    runner.run_next_task(vec![hit(500, -1, 0)]);
    runner.run_next_task(vec![None, hit(600, -2, 0)]);

    let first = runner.collect_results(block(1), tx(1)).expect("ran");
    assert_eq!(first.len(), 1);
    assert_eq!((first[0].0).1, 0);
    assert_eq!(first[0].1.note, 500);

    let second = runner.collect_results(block(1), tx(2)).expect("ran");
    assert_eq!(second.len(), 1);
    assert_eq!((second[0].0).1, 1);
    assert_eq!(second[0].1.note, 600);
}

/// The same transaction in two different blocks is two distinct pending
/// entries.
#[test]
fn same_txid_different_blocks() {
    let mut runner: Runner = BatchRunner::new(10, vec![(1, 11)]);
    runner.add_outputs(block(1), tx(1), vec![0], vec![100]);
    runner.add_outputs(block(2), tx(1), vec![0], vec![101]);
    runner.flush();
    runner.run_next_task(vec![hit(500, -1, 0), hit(600, -2, 0)]);

    let in_first = runner.collect_results(block(1), tx(1)).expect("ran");
    assert_eq!(in_first.len(), 1);
    assert_eq!(in_first[0].1.note, 500);
    let in_second = runner.collect_results(block(2), tx(1)).expect("ran");
    assert_eq!(in_second.len(), 1);
    assert_eq!(in_second[0].1.note, 600);
}

/// Registering the same key again replaces the pending channel: results
/// destined for the replaced channel cannot be delivered, and a failed
/// delivery abandons the rest of that batch.
#[test]
fn duplicate_registration_discards_earlier_channel() {
    let mut runner: Runner = BatchRunner::new(10, vec![(1, 11)]);
    runner.add_outputs(block(1), tx(1), vec![0], vec![100]);
    runner.add_outputs(block(1), tx(1), vec![0], vec![101]);
    runner.flush();

    // The first output decrypted, but its channel was replaced: the send
    // fails and the rest of the batch is abandoned, so the second
    // registration completes without results.
    runner.run_next_task(vec![hit(500, -1, 0), hit(600, -2, 0)]);
    let collected = runner.collect_results(block(1), tx(1)).expect("repliers resolved");
    assert!(collected.is_empty());
}

/// A non-match on a replaced channel does not abandon the batch: only a
/// failed send does.
#[test]
fn non_match_on_dead_channel_does_not_abort() {
    let mut runner: Runner = BatchRunner::new(10, vec![(1, 11)]);
    runner.add_outputs(block(1), tx(1), vec![0], vec![100]);
    runner.add_outputs(block(1), tx(1), vec![0], vec![101]);
    runner.flush();

    // The replaced channel's output matched nothing; the live channel's
    // output is still delivered.
    runner.run_next_task(vec![None, hit(600, -2, 0)]);
    let collected = runner.collect_results(block(1), tx(1)).expect("repliers resolved");
    assert_eq!(collected.len(), 1);
    assert_eq!((collected[0].0).1, 0);
    assert_eq!(collected[0].1.note, 600);
}

/// A registration with no outputs completes immediately and collects to
/// an empty mapping.
#[test]
fn empty_registration_collects_empty() {
    let mut runner: Runner = BatchRunner::new(10, vec![(1, 11)]);
    runner.add_outputs(block(1), tx(1), vec![], vec![]);
    let collected = runner.collect_results(block(1), tx(1)).expect("no repliers at all");
    assert!(collected.is_empty());
}

/// The usage-tracking strategy charges a task's footprint at dispatch
/// and credits it back when the task finishes; receivers are charged per
/// allocated block of queued results.
#[test]
fn tracked_usage_accounting() {
    let mut runner: TrackedRunner = BatchRunner::new(10, vec![(1, 11)]);
    assert_eq!(runner.dynamic_usage(), 0);

    // Plain-integer payloads claim no heap, and an empty receiver has no
    // blocks: registering alone charges nothing yet.
    runner.add_outputs(block(1), tx(1), vec![0], vec![100]);
    assert_eq!(runner.dynamic_usage(), 0);

    // Dispatch charges the fixed wrapper overhead for the batch.
    runner.flush();
    assert_eq!(runner.dynamic_usage(), TASK_OVERHEAD);

    // Completion credits the task back; the delivered result now costs
    // one channel block.
    runner.run_next_task(vec![hit(500, -1, 0)]);
    assert_eq!(runner.dynamic_usage(), batch_scan::pending::CHANNEL_BLOCK_SIZE);

    // Collection drops the receiver.
    let collected = runner.collect_results(block(1), tx(1)).expect("ran");
    assert_eq!(collected.len(), 1);
    assert_eq!(runner.dynamic_usage(), 0);
}

/// The untracked strategy reports no usage for dispatched work.
#[test]
fn untracked_reports_zero_for_tasks() {
    let mut runner: Runner = BatchRunner::new(10, vec![(1u32, 11u64)]);
    runner.add_outputs(block(1), tx(1), vec![0], vec![100]);
    runner.flush();
    let strategy: Untracked = Untracked;
    assert_eq!(Tasks::<batch_scan::batch::Batch<u32, u64, u8, u16>>::dynamic_usage(&strategy), 0);
    assert_eq!(runner.queued_task_count(), 1);
}
