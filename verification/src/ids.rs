//! Identifiers that key pending scan results: the block that caused a
//! transaction to be scanned and the transaction id itself.

use vstd::prelude::*;

verus! {

/// Hash of the block that triggered a transaction being added to a batch.
///
/// The all-zero value is the sentinel meaning "no block", used for
/// transactions seen outside any block (for example in the mempool).
#[derive(Clone, Copy, Debug)]
pub struct BlockHash(pub [u8; 32]);

impl View for BlockHash {
    type V = Seq<u8>;

    open spec fn view(&self) -> Seq<u8> {
        self.0@
    }
}

impl BlockHash {
    /// The sentinel for "no block triggered this transaction".
    pub fn none() -> (r: BlockHash)
        ensures
            r@ == Seq::new(32, |i: int| 0u8),
    {
        let r = BlockHash([0u8; 32]);
        proof {
            assert(r@ =~= Seq::new(32, |i: int| 0u8));
        }
        r
    }
}

/// Identifier of a transaction whose outputs were registered for scanning.
#[derive(Clone, Copy, Debug)]
pub struct TxId(pub [u8; 32]);

impl View for TxId {
    type V = Seq<u8>;

    open spec fn view(&self) -> Seq<u8> {
        self.0@
    }
}

/// Key for looking up the pending result of batch-scanning one transaction.
#[derive(Clone, Copy, Debug)]
pub struct ResultKey {
    pub block_tag: BlockHash,
    pub txid: TxId,
}

impl View for ResultKey {
    type V = (Seq<u8>, Seq<u8>);

    open spec fn view(&self) -> (Seq<u8>, Seq<u8>) {
        (self.block_tag@, self.txid@)
    }
}

/// Compares two 32-byte identifiers for equality.
fn bytes32_eq(a: &[u8; 32], b: &[u8; 32]) -> (r: bool)
    ensures
        r == (a@ == b@),
{
    let mut i: usize = 0;
    while i < 32
        invariant
            0 <= i <= 32,
            forall|j: int| 0 <= j < i ==> a@[j] == b@[j],
        decreases 32 - i,
    {
        if a[i] != b[i] {
            return false;
        }
        i += 1;
    }
    proof {
        assert(a@ =~= b@);
    }
    true
}

impl ResultKey {
    /// Whether two keys name the same (block, transaction) pair.
    pub fn key_eq(&self, other: &ResultKey) -> (r: bool)
        ensures
            r == (self@ == other@),
    {
        let br = bytes32_eq(&self.block_tag.0, &other.block_tag.0);
        let tr = bytes32_eq(&self.txid.0, &other.txid.0);
        br && tr
    }
}

} // verus!
