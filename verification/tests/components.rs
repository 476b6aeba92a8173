//! Unit tests for the building blocks: identifiers, batches, usage
//! arithmetic, and the classification of synchronously scanned outputs.

use std::sync::Arc;

use batch_scan::batch::Batch;
use batch_scan::decrypt::{decrypt_transaction, select_transfer, TransferType};
use batch_scan::ids::{BlockHash, ResultKey, TxId};
use batch_scan::usage::{sat_add, sat_sub, DynamicUsage, ITEMS_PER_BLOCK, POINTER_SIZE,
    RESULT_ITEM_SIZE, SLOT_STATE_SIZE};
use batch_scan::pending::CHANNEL_BLOCK_SIZE;

#[test]
fn block_hash_sentinel_is_all_zero() {
    assert_eq!(BlockHash::none().0, [0u8; 32]);
}

#[test]
fn result_keys_compare_by_contents() {
    let mut a = [0u8; 32];
    a[31] = 1;
    let key1 = ResultKey { block_tag: BlockHash(a), txid: TxId([7u8; 32]) };
    let key2 = ResultKey { block_tag: BlockHash(a), txid: TxId([7u8; 32]) };
    let key3 = ResultKey { block_tag: BlockHash::none(), txid: TxId([7u8; 32]) };
    let key4 = ResultKey { block_tag: BlockHash(a), txid: TxId([8u8; 32]) };
    assert!(key1.key_eq(&key2));
    assert!(!key1.key_eq(&key3));
    assert!(!key1.key_eq(&key4));
}

#[test]
fn batch_accumulates_outputs_in_order() {
    let mut batch: Batch<u32, u64, u8, u16> =
        Batch::new(Arc::new(vec![1, 2]), Arc::new(vec![11, 22]));
    assert!(batch.is_empty());
    batch.add_outputs(vec![5, 6], vec![100, 101], 0);
    batch.add_outputs(vec![7], vec![102], 1);
    assert!(!batch.is_empty());
    assert_eq!(batch.output_count(), 3);
    assert_eq!(batch.outputs().as_slice(), &[(5, 100), (6, 101), (7, 102)]);
    assert_eq!(batch.tags().as_slice(), &[1, 2]);
    assert_eq!(batch.ivks().as_slice(), &[11, 22]);
}

#[test]
fn saturating_byte_arithmetic() {
    assert_eq!(sat_add(3, 4), 7);
    assert_eq!(sat_add(usize::MAX, 1), usize::MAX);
    assert_eq!(sat_add(usize::MAX - 1, 1), usize::MAX);
    assert_eq!(sat_sub(7, 3), 4);
    assert_eq!(sat_sub(3, 7), 0);
}

#[test]
fn channel_block_size_formula() {
    assert_eq!(
        CHANNEL_BLOCK_SIZE,
        POINTER_SIZE + ITEMS_PER_BLOCK * (RESULT_ITEM_SIZE + SLOT_STATE_SIZE)
    );
}

#[test]
fn integers_claim_no_heap() {
    assert_eq!(7u8.dynamic_usage(), 0);
    assert_eq!(7u32.dynamic_usage(), 0);
    assert_eq!(7u64.dynamic_usage_bounds(), (0, Some(0)));
    let batch: Batch<u32, u64, u8, u16> = Batch::new(Arc::new(vec![1]), Arc::new(vec![2]));
    assert_eq!(batch.dynamic_usage(), 0);
    assert_eq!(batch.dynamic_usage_bounds(), (0, Some(0)));
}

#[test]
fn external_decryption_takes_precedence() {
    let r = select_transfer::<u64>((
        Some((10, vec![1])),
        Some((20, vec![2])),
        Some((30, vec![3])),
    ));
    assert_eq!(r, Some((10, vec![1], TransferType::Incoming)));
}

#[test]
fn internal_decryption_beats_recovery() {
    let r = select_transfer::<u64>((None, Some((20, vec![2])), Some((30, vec![3]))));
    assert_eq!(r, Some((20, vec![2], TransferType::WalletInternal)));
}

#[test]
fn recovery_is_last_resort() {
    let r = select_transfer::<u64>((None, None, Some((30, vec![3]))));
    assert_eq!(r, Some((30, vec![3], TransferType::Outgoing)));
    assert_eq!(select_transfer::<u64>((None, None, None)), None);
}

#[test]
fn decrypt_transaction_keeps_positions_and_skips_misses() {
    let outputs = decrypt_transaction::<u64, u32>(
        9,
        vec![
            (None, None, None),
            (Some((10, vec![1])), None, None),
            (None, None, None),
            (None, Some((20, vec![2])), Some((30, vec![3]))),
        ],
    );
    assert_eq!(outputs.len(), 2);
    assert_eq!(outputs[0].index, 1);
    assert_eq!(outputs[0].note, 10);
    assert_eq!(outputs[0].account, 9);
    assert_eq!(outputs[0].memo, vec![1]);
    assert_eq!(outputs[0].transfer_type, TransferType::Incoming);
    assert_eq!(outputs[1].index, 3);
    assert_eq!(outputs[1].note, 20);
    assert_eq!(outputs[1].memo, vec![2]);
    assert_eq!(outputs[1].transfer_type, TransferType::WalletInternal);
}

#[test]
fn decrypt_transaction_of_nothing_is_empty() {
    let outputs = decrypt_transaction::<u64, u32>(9, vec![]);
    assert!(outputs.is_empty());
}
