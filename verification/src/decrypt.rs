//! Classification of the outputs of one synchronously scanned
//! transaction.
//!
//! For each shielded output, three trial decryptions are attempted in
//! turn: with the wallet's external incoming viewing key, with its
//! internal incoming viewing key, and with its outgoing viewing key.
//! The first that succeeds decides the output's relationship to the
//! wallet.  The cryptographic attempts themselves happen outside; this
//! module selects among their results and assembles the decrypted
//! outputs.

use vstd::prelude::*;

verus! {

/// An enumeration of the possible relationships a transaction output can
/// have to the wallet.
#[derive(Debug, Copy, Clone, PartialEq, Eq, Structural)]
pub enum TransferType {
    /// The output was received on one of the wallet's external addresses
    /// via decryption using the associated incoming viewing key, or at
    /// one of the wallet's transparent addresses.
    Incoming,
    /// The output was received on one of the wallet's internal-only
    /// shielded addresses via trial decryption using one of the wallet's
    /// internal incoming viewing keys.
    WalletInternal,
    /// The output was decrypted using one of the wallet's outgoing
    /// viewing keys, or was created in a transaction constructed by this
    /// wallet.
    Outgoing,
}

/// A decrypted shielded output.
pub struct DecryptedOutput<Note, AccountId> {
    /// The index of the output within the transaction's shielded
    /// outputs.
    pub index: usize,
    /// The note within the output.
    pub note: Note,
    /// The account that decrypted the note.
    pub account: AccountId,
    /// The memo bytes included with the note.
    pub memo: Vec<u8>,
    /// How the output relates to the wallet.
    pub transfer_type: TransferType,
}

/// The three trial decryptions of one output: under the external
/// incoming viewing key, under the internal incoming viewing key, and
/// recovered under the outgoing viewing key.  Each success carries the
/// note and the memo bytes.
pub type OutputTrials<N> = (Option<(N, Vec<u8>)>, Option<(N, Vec<u8>)>, Option<(N, Vec<u8>)>);

/// Which trial decryption of one output stands: external decryption
/// before internal decryption before outgoing-key recovery.
pub open spec fn spec_select_transfer<N>(trials: OutputTrials<N>) -> Option<
    (N, Vec<u8>, TransferType),
> {
    match trials.0 {
        Some(p) => Some((p.0, p.1, TransferType::Incoming)),
        None => match trials.1 {
            Some(p) => Some((p.0, p.1, TransferType::WalletInternal)),
            None => match trials.2 {
                Some(p) => Some((p.0, p.1, TransferType::Outgoing)),
                None => None,
            },
        },
    }
}

/// Selects which of one output's three trial decryptions stands, in
/// precedence order, and labels it with the transfer type of the trial
/// that won.
pub fn select_transfer<N>(trials: OutputTrials<N>) -> (r: Option<(N, Vec<u8>, TransferType)>)
    ensures
        r == spec_select_transfer(trials),
{
    let (external, internal, recovered) = trials;
    match external {
        Some((note, memo)) => Some((note, memo, TransferType::Incoming)),
        None => match internal {
            Some((note, memo)) => Some((note, memo, TransferType::WalletInternal)),
            None => match recovered {
                Some((note, memo)) => Some((note, memo, TransferType::Outgoing)),
                None => None,
            },
        },
    }
}

/// The decrypted outputs assembled from one account's trial results over
/// a transaction's outputs, in output order, starting at position `off`.
pub open spec fn spec_decrypted_outputs<N, A>(
    account: A,
    trials: Seq<OutputTrials<N>>,
    off: nat,
) -> Seq<DecryptedOutput<N, A>>
    decreases trials.len(),
{
    if trials.len() == 0 {
        Seq::empty()
    } else {
        let rest = spec_decrypted_outputs(account, trials.skip(1), off + 1);
        match spec_select_transfer(trials[0]) {
            Some(sel) => seq![
                DecryptedOutput {
                    index: off as usize,
                    note: sel.0,
                    account,
                    memo: sel.1,
                    transfer_type: sel.2,
                },
            ] + rest,
            None => rest,
        }
    }
}

/// Scans one transaction's outputs for any information `account`'s keys
/// can recover.
///
/// `trials` holds, per output and in output order, the results of the
/// three trial decryptions.  Outputs none of whose trials succeeded are
/// absent from the result; each present entry records the output's
/// position, the recovered note and memo, and the transfer type of the
/// winning trial.
pub fn decrypt_transaction<N, A: Copy>(account: A, trials: Vec<OutputTrials<N>>) -> (r: Vec<
    DecryptedOutput<N, A>,
>)
    ensures
        r@ == spec_decrypted_outputs(account, trials@, 0),
{
    let ghost trials0 = trials@;
    let mut trials = trials;
    let mut out: Vec<DecryptedOutput<N, A>> = Vec::new();
    let mut idx: usize = 0;
    let total: usize = trials.len();
    proof {
        assert(trials@ =~= trials0.skip(0));
    }
    while trials.len() > 0
        invariant
            idx + trials@.len() == total,
            trials@ == trials0.skip(idx as int),
            spec_decrypted_outputs(account, trials0, 0) == out@ + spec_decrypted_outputs(
                account,
                trials0.skip(idx as int),
                idx as nat,
            ),
        decreases trials@.len(),
    {
        let t = trials.remove(0);
        proof {
            assert(t == trials0[idx as int]);
            assert(trials@ =~= trials0.skip(idx + 1));
            assert(trials0.skip(idx as int).skip(1) =~= trials0.skip(idx + 1));
        }
        let ghost out_pre = out@;
        match select_transfer(t) {
            Some((note, memo, transfer_type)) => {
                out.push(
                    DecryptedOutput { index: idx, note, account, memo, transfer_type },
                );
            },
            None => {},
        }
        proof {
            assert(out@ + spec_decrypted_outputs(
                account,
                trials0.skip(idx + 1),
                (idx + 1) as nat,
            ) =~= out_pre + spec_decrypted_outputs(
                account,
                trials0.skip(idx as int),
                idx as nat,
            ));
        }
        idx += 1;
    }
    proof {
        assert(spec_decrypted_outputs(account, trials0.skip(total as int), total as nat)
            =~= Seq::<DecryptedOutput<N, A>>::empty());
        assert(out@ =~= out@ + Seq::<DecryptedOutput<N, A>>::empty());
    }
    out
}

} // verus!
