//! Pending per-transaction results.
//!
//! Every registration of a transaction's outputs creates one result
//! channel: its repliers are held by the batch that absorbed the outputs,
//! and its receiver is stored here under the transaction's
//! [`ResultKey`](crate::ids::ResultKey).  The receiver counts how many
//! repliers are still outstanding; when the count reaches zero the batch
//! that held them has finished and the queued items are complete.

use vstd::prelude::*;

use crate::batch::{DecryptedNote, OutputIndex};
use crate::ids::ResultKey;
use crate::usage::{
    sat_add, spec_sat_add, DynamicUsage, ITEMS_PER_BLOCK, POINTER_SIZE, RESULT_ITEM_SIZE,
    SLOT_STATE_SIZE,
};

verus! {

/// Estimated bytes of one allocated block of a result channel.
pub const CHANNEL_BLOCK_SIZE: usize = POINTER_SIZE + ITEMS_PER_BLOCK * (RESULT_ITEM_SIZE
    + SLOT_STATE_SIZE);

/// The receiving end of one transaction's result channel.
pub struct BatchReceiver<A, R, N> {
    pub(crate) channel_id: u64,
    pub(crate) open_count: usize,
    pub(crate) items: Vec<OutputIndex<DecryptedNote<A, R, N>>>,
}

/// Mathematical contents of a [`BatchReceiver`].
#[verifier::ext_equal]
pub struct ReceiverView<A, R, N> {
    /// The identity of the channel; repliers name it.
    pub channel_id: u64,
    /// How many repliers have neither sent a result nor been dropped yet.
    pub open_count: usize,
    /// The results delivered so far, in delivery order.
    pub items: Seq<OutputIndex<DecryptedNote<A, R, N>>>,
}

impl<A, R, N> View for BatchReceiver<A, R, N> {
    type V = ReceiverView<A, R, N>;

    closed spec fn view(&self) -> ReceiverView<A, R, N> {
        ReceiverView {
            channel_id: self.channel_id,
            open_count: self.open_count,
            items: self.items@,
        }
    }
}

impl<A, R, N> BatchReceiver<A, R, N> {
    /// A fresh receiver for a registration of `expected` outputs on the
    /// channel `channel_id`.
    pub fn new(channel_id: u64, expected: usize) -> (r: BatchReceiver<A, R, N>)
        ensures
            r@.channel_id == channel_id,
            r@.open_count == expected,
            r@.items == Seq::<OutputIndex<DecryptedNote<A, R, N>>>::empty(),
    {
        let r = BatchReceiver { channel_id, open_count: expected, items: Vec::new() };
        proof {
            assert(r@.items =~= Seq::<OutputIndex<DecryptedNote<A, R, N>>>::empty());
        }
        r
    }

    /// Consumes the receiver, yielding the delivered results in delivery
    /// order.
    pub fn into_items(self) -> (r: Vec<OutputIndex<DecryptedNote<A, R, N>>>)
        ensures
            r@ == self@.items,
    {
        self.items
    }
}

/// Estimated heap bytes held by a result channel queuing `items` results.
///
/// The channel is modelled as allocating fixed-size blocks of
/// [`ITEMS_PER_BLOCK`] item slots; each block carries a pointer to the
/// next block and a state word per slot.
pub open spec fn spec_channel_usage(items: nat) -> usize {
    let blocks = (items + (ITEMS_PER_BLOCK - 1)) / (ITEMS_PER_BLOCK as int);
    if blocks * CHANNEL_BLOCK_SIZE <= usize::MAX {
        (blocks * CHANNEL_BLOCK_SIZE) as usize
    } else {
        usize::MAX
    }
}

impl<A, R, N> DynamicUsage for BatchReceiver<A, R, N> {
    /// Bytes of the blocks needed to hold the currently queued items.
    open spec fn spec_usage(&self) -> usize {
        spec_channel_usage(self@.items.len())
    }

    fn dynamic_usage(&self) -> (r: usize)
        ensures
            r == self.spec_usage(),
    {
        let n = self.items.len();
        let blocks: u128 = (n as u128 + (ITEMS_PER_BLOCK - 1) as u128) / (ITEMS_PER_BLOCK
            as u128);
        match blocks.checked_mul(CHANNEL_BLOCK_SIZE as u128) {
            Some(bytes) => {
                if bytes > usize::MAX as u128 {
                    usize::MAX
                } else {
                    bytes as usize
                }
            },
            None => usize::MAX,
        }
    }

    fn dynamic_usage_bounds(&self) -> (usize, Option<usize>) {
        let u = self.dynamic_usage();
        (u, Some(u))
    }
}

impl DynamicUsage for ResultKey {
    /// Keys are a fixed-size pair of identifiers with no heap allocation.
    open spec fn spec_usage(&self) -> usize {
        0
    }

    fn dynamic_usage(&self) -> usize {
        0
    }

    fn dynamic_usage_bounds(&self) -> (usize, Option<usize>) {
        (0, Some(0))
    }
}

/// One stored pending entry, as seen by specifications.
pub type EntryView<A, R, N> = ((Seq<u8>, Seq<u8>), ReceiverView<A, R, N>);

/// Whether some entry is stored under `key`.
pub open spec fn spec_has_key<A, R, N>(
    s: Seq<EntryView<A, R, N>>,
    key: (Seq<u8>, Seq<u8>),
) -> bool {
    exists|i: int| 0 <= i < s.len() && (#[trigger] s[i]).0 == key
}

/// The index of the entry stored under `key`.
pub open spec fn spec_key_at<A, R, N>(
    s: Seq<EntryView<A, R, N>>,
    key: (Seq<u8>, Seq<u8>),
) -> int {
    choose|i: int| 0 <= i < s.len() && (#[trigger] s[i]).0 == key
}

/// Whether some entry's receiver listens on channel `chan`.
pub open spec fn spec_has_chan<A, R, N>(s: Seq<EntryView<A, R, N>>, chan: u64) -> bool {
    exists|i: int| 0 <= i < s.len() && (#[trigger] s[i]).1.channel_id == chan
}

/// The index of the entry whose receiver listens on channel `chan`.
pub open spec fn spec_chan_at<A, R, N>(s: Seq<EntryView<A, R, N>>, chan: u64) -> int {
    choose|i: int| 0 <= i < s.len() && (#[trigger] s[i]).1.channel_id == chan
}

/// Entries are uniquely keyed and channels are uniquely owned.
pub open spec fn spec_entries_wf<A, R, N>(s: Seq<EntryView<A, R, N>>) -> bool {
    forall|i: int, j: int|
        0 <= i < j < s.len() ==> (#[trigger] s[i]).0 != (#[trigger] s[j]).0
            && s[i].1.channel_id != s[j].1.channel_id
}

/// Inserting a receiver under `key`: replaces the entry stored under the
/// same key, if any, else appends a new entry.
pub open spec fn spec_insert<A, R, N>(
    s: Seq<EntryView<A, R, N>>,
    key: (Seq<u8>, Seq<u8>),
    recv: ReceiverView<A, R, N>,
) -> Seq<EntryView<A, R, N>> {
    if spec_has_key(s, key) {
        s.update(spec_key_at(s, key), (key, recv))
    } else {
        s.push((key, recv))
    }
}

/// Delivery of one result on channel `chan`: the entry's receiver queues
/// the item and one replier is accounted resolved.
pub open spec fn spec_deliver<A, R, N>(
    s: Seq<EntryView<A, R, N>>,
    chan: u64,
    item: OutputIndex<DecryptedNote<A, R, N>>,
) -> Seq<EntryView<A, R, N>> {
    if spec_has_chan(s, chan) {
        let i = spec_chan_at(s, chan);
        let e = s[i];
        s.update(
            i,
            (
                e.0,
                ReceiverView {
                    channel_id: e.1.channel_id,
                    open_count: (e.1.open_count - 1) as usize,
                    items: e.1.items.push(item),
                },
            ),
        )
    } else {
        s
    }
}

/// Resolution of one replier on channel `chan` without a result: one
/// replier is accounted resolved and nothing is queued.
pub open spec fn spec_drop_replier<A, R, N>(
    s: Seq<EntryView<A, R, N>>,
    chan: u64,
) -> Seq<EntryView<A, R, N>> {
    if spec_has_chan(s, chan) {
        let i = spec_chan_at(s, chan);
        let e = s[i];
        s.update(
            i,
            (
                e.0,
                ReceiverView {
                    channel_id: e.1.channel_id,
                    open_count: (e.1.open_count - 1) as usize,
                    items: e.1.items,
                },
            ),
        )
    } else {
        s
    }
}

/// The pending-results store: one receiver per registered transaction,
/// keyed by `(block tag, transaction id)`.
///
/// Keys are unique; registering the same key again replaces the stored
/// receiver, discarding the previous one and whatever it held.
pub struct PendingResults<A, R, N> {
    entries: Vec<(ResultKey, BatchReceiver<A, R, N>)>,
}

impl<A, R, N> View for PendingResults<A, R, N> {
    type V = Seq<EntryView<A, R, N>>;

    closed spec fn view(&self) -> Seq<EntryView<A, R, N>> {
        Seq::new(self.entries@.len(), |i: int| (self.entries@[i].0@, self.entries@[i].1@))
    }
}

impl<A, R, N> PendingResults<A, R, N> {
    /// Whether entries are uniquely keyed and channels uniquely owned.
    pub open spec fn wf(&self) -> bool {
        spec_entries_wf(self@)
    }

    /// An empty store.
    pub fn new() -> (r: PendingResults<A, R, N>)
        ensures
            r@ == Seq::<EntryView<A, R, N>>::empty(),
            r.wf(),
    {
        let r = PendingResults { entries: Vec::new() };
        proof {
            assert(r@ =~= Seq::<EntryView<A, R, N>>::empty());
        }
        r
    }

    /// The number of stored entries.
    pub fn len(&self) -> (r: usize)
        ensures
            r == self@.len(),
    {
        self.entries.len()
    }

    /// Finds the index of the entry stored under `key`.
    fn find_key(&self, key: &ResultKey) -> (r: Option<usize>)
        ensures
            match r {
                Some(i) => i < self@.len() && self@[i as int].0 == key@,
                None => !spec_has_key(self@, key@),
            },
    {
        let mut i: usize = 0;
        while i < self.entries.len()
            invariant
                0 <= i <= self@.len(),
                forall|j: int| 0 <= j < i ==> (#[trigger] self@[j]).0 != key@,
            decreases self@.len() - i,
        {
            if self.entries[i].0.key_eq(key) {
                return Some(i);
            }
            i += 1;
        }
        None
    }

    /// Finds the index of the entry whose receiver listens on `chan`.
    fn find_chan(&self, chan: u64) -> (r: Option<usize>)
        ensures
            match r {
                Some(i) => i < self@.len() && self@[i as int].1.channel_id == chan,
                None => !spec_has_chan(self@, chan),
            },
    {
        let mut i: usize = 0;
        while i < self.entries.len()
            invariant
                0 <= i <= self@.len(),
                forall|j: int| 0 <= j < i ==> (#[trigger] self@[j]).1.channel_id != chan,
            decreases self@.len() - i,
        {
            if self.entries[i].1.channel_id == chan {
                return Some(i);
            }
            i += 1;
        }
        None
    }

    /// How many repliers of the channel stored under `key` are still
    /// outstanding, if an entry is stored there.
    pub fn open_count(&self, key: &ResultKey) -> (r: Option<usize>)
        requires
            self.wf(),
        ensures
            match r {
                Some(o) => spec_has_key(self@, key@) && o == self@[
                    spec_key_at(self@, key@)
                ].1.open_count,
                None => !spec_has_key(self@, key@),
            },
    {
        let ghost s0 = self@;
        match self.find_key(key) {
            Some(i) => {
                proof {
                    assert(spec_has_key(s0, key@));
                    assert(s0[spec_key_at(s0, key@)].0 == key@);
                    assert(spec_key_at(s0, key@) == i) by {
                        let k = spec_key_at(s0, key@);
                        if k != i {
                            assert(s0[k].0 == s0[i as int].0);
                        }
                    }
                }
                Some(self.entries[i].1.open_count)
            },
            None => None,
        }
    }

    /// Stores `receiver` under `key`, replacing any receiver already
    /// stored under the same key (whose contents are discarded).
    pub fn insert(&mut self, key: ResultKey, receiver: BatchReceiver<A, R, N>)
        requires
            old(self).wf(),
            !spec_has_chan(old(self)@, receiver@.channel_id),
        ensures
            final(self)@ == spec_insert(old(self)@, key@, receiver@),
            final(self).wf(),
    {
        let ghost s0 = self@;
        let ghost entry: EntryView<A, R, N> = (key@, receiver@);
        match self.find_key(&key) {
            Some(i) => {
                proof {
                    assert(spec_has_key(s0, key@));
                    assert(s0[spec_key_at(s0, key@)].0 == key@);
                    assert(spec_key_at(s0, key@) == i) by {
                        let k = spec_key_at(s0, key@);
                        if k != i {
                            assert(s0[k].0 == s0[i as int].0);
                        }
                    }
                }
                self.entries[i] = (key, receiver);
                proof {
                    assert(self@ =~= spec_insert(s0, key@, receiver@));
                }
            },
            None => {
                self.entries.push((key, receiver));
                proof {
                    assert(self@ =~= s0.push(entry));
                }
            },
        }
    }

    /// Removes and returns the receiver stored under `key`, if any.
    pub fn remove(&mut self, key: &ResultKey) -> (r: Option<BatchReceiver<A, R, N>>)
        requires
            old(self).wf(),
        ensures
            final(self).wf(),
            match r {
                Some(recv) => spec_has_key(old(self)@, key@) && recv@ == old(self)@[
                    spec_key_at(old(self)@, key@)
                ].1 && final(self)@ == old(self)@.remove(spec_key_at(old(self)@, key@)),
                None => !spec_has_key(old(self)@, key@) && final(self)@ == old(self)@,
            },
    {
        let ghost s0 = self@;
        match self.find_key(key) {
            Some(i) => {
                proof {
                    assert(spec_has_key(s0, key@));
                    assert(s0[spec_key_at(s0, key@)].0 == key@);
                    assert(spec_key_at(s0, key@) == i) by {
                        let k = spec_key_at(s0, key@);
                        if k != i {
                            assert(s0[k].0 == s0[i as int].0);
                        }
                    }
                }
                let (_, recv) = self.entries.remove(i);
                proof {
                    assert(self@ =~= s0.remove(i as int));
                }
                Some(recv)
            },
            None => None,
        }
    }

    /// Queues `item` on the channel `chan` and accounts one replier of
    /// that channel resolved.  Returns whether the channel still exists;
    /// when it does not (the receiver was discarded), the item is dropped.
    pub fn deliver(&mut self, chan: u64, item: OutputIndex<DecryptedNote<A, R, N>>) -> (r:
        bool)
        requires
            old(self).wf(),
            spec_has_chan(old(self)@, chan) ==> old(self)@[
                spec_chan_at(old(self)@, chan)
            ].1.open_count > 0,
        ensures
            r == spec_has_chan(old(self)@, chan),
            final(self)@ == spec_deliver(old(self)@, chan, item),
            final(self).wf(),
    {
        let ghost s0 = self@;
        match self.find_chan(chan) {
            Some(i) => {
                proof {
                    assert(spec_has_chan(s0, chan));
                    assert(s0[spec_chan_at(s0, chan)].1.channel_id == chan);
                    assert(spec_chan_at(s0, chan) == i) by {
                        let k = spec_chan_at(s0, chan);
                        if k != i {
                            assert(s0[k].1.channel_id == s0[i as int].1.channel_id);
                        }
                    }
                }
                let (k, mut recv) = self.entries.remove(i);
                recv.open_count = recv.open_count - 1;
                recv.items.push(item);
                self.entries.insert(i, (k, recv));
                proof {
                    assert(self@ =~= spec_deliver(s0, chan, item));
                }
                true
            },
            None => {
                proof {
                    assert(self@ =~= spec_deliver(s0, chan, item));
                }
                false
            },
        }
    }

    /// Accounts one replier of channel `chan` resolved without a result:
    /// the output did not decrypt, or the rest of its batch was abandoned.
    /// Returns whether the channel still exists.
    pub fn drop_sender(&mut self, chan: u64) -> (r: bool)
        requires
            old(self).wf(),
            spec_has_chan(old(self)@, chan) ==> old(self)@[
                spec_chan_at(old(self)@, chan)
            ].1.open_count > 0,
        ensures
            r == spec_has_chan(old(self)@, chan),
            final(self)@ == spec_drop_replier(old(self)@, chan),
            final(self).wf(),
    {
        let ghost s0 = self@;
        match self.find_chan(chan) {
            Some(i) => {
                proof {
                    assert(spec_has_chan(s0, chan));
                    assert(s0[spec_chan_at(s0, chan)].1.channel_id == chan);
                    assert(spec_chan_at(s0, chan) == i) by {
                        let k = spec_chan_at(s0, chan);
                        if k != i {
                            assert(s0[k].1.channel_id == s0[i as int].1.channel_id);
                        }
                    }
                }
                let (k, mut recv) = self.entries.remove(i);
                recv.open_count = recv.open_count - 1;
                self.entries.insert(i, (k, recv));
                proof {
                    assert(self@ =~= spec_drop_replier(s0, chan));
                }
                true
            },
            None => {
                proof {
                    assert(self@ =~= spec_drop_replier(s0, chan));
                }
                false
            },
        }
    }

    /// Sums the estimated heap bytes of all stored receivers.
    pub fn dynamic_usage(&self) -> (r: usize)
        ensures
            r == spec_entries_usage(self@),
    {
        let mut total: usize = 0;
        let mut i: usize = 0;
        while i < self.entries.len()
            invariant
                0 <= i <= self@.len(),
                total == spec_entries_usage(self@.take(i as int)),
            decreases self@.len() - i,
        {
            total = sat_add(total, self.entries[i].1.dynamic_usage());
            proof {
                assert(self@.take(i + 1).drop_last() =~= self@.take(i as int));
                assert(self@.take(i + 1).last() == self@[i as int]);
            }
            i += 1;
        }
        proof {
            assert(self@.take(self@.len() as int) =~= self@);
        }
        total
    }
}

/// Total estimated heap bytes of a sequence of pending entries: the block
/// storage of every receiver's queued items; keys hold no heap memory.
pub open spec fn spec_entries_usage<A, R, N>(s: Seq<EntryView<A, R, N>>) -> usize
    decreases s.len(),
{
    if s.len() == 0 {
        0
    } else {
        spec_sat_add(
            spec_entries_usage(s.drop_last()),
            spec_channel_usage(s.last().1.items.len()),
        )
    }
}

} // verus!
