//! Neighbor lists as they are written.
//!
//! An empty slot is [`EMPTY`] in memory, whose value follows the target: it is
//! `u64::MAX` where pointers have 64 bits and `u32::MAX` where they have 32. On the
//! wire it is `u64::MAX` whatever the target, so that an index can be read on a
//! machine other than the one that wrote it.

use crate::nodes::{empty_slots, NeighborNodes, EMPTY};
use vstd::prelude::*;

verus! {

/// The value of an empty slot on the wire.
pub const WIRE_EMPTY: u64 = u64::MAX;

/// The value that 32-bit targets used to write for an empty slot. On such a target no
/// graph has as many nodes, so it cannot be a neighbor in what one of them wrote.
pub const LEGACY_32_BIT_EMPTY: u64 = 0xffff_ffff;

/// Why a neighbor list could not be read.
#[derive(Clone, Copy, Debug, PartialEq, Eq)]
pub enum WireError {
    /// The index of a neighbor does not fit this target's `usize`.
    TooWide {
        /// The index.
        index: u64,
    },
    /// There are more elements than slots.
    TooMany,
    /// There are fewer elements than slots.
    TooFew {
        /// The number of elements.
        found: usize,
    },
}

/// What is written for a slot.
pub open spec fn wire_of(slot: usize) -> u64 {
    if slot == EMPTY {
        WIRE_EMPTY
    } else {
        slot as u64
    }
}

/// What is read for an element, if it fits.
pub open spec fn slot_of(wire: u64) -> Option<usize> {
    if wire == WIRE_EMPTY || wire == LEGACY_32_BIT_EMPTY {
        Some(EMPTY)
    } else if wire <= usize::MAX {
        Some(wire as usize)
    } else {
        None
    }
}

/// Reads an element, if it fits.
fn read_slot(wire: u64) -> (slot: Option<usize>)
    ensures
        slot == slot_of(wire),
{
    if wire == WIRE_EMPTY || wire == LEGACY_32_BIT_EMPTY {
        Some(EMPTY)
    } else if wire <= usize::MAX as u64 {
        Some(wire as usize)
    } else {
        None
    }
}

/// A neighbor list that is being read, element by element.
pub struct ListReader<const N: usize> {
    list: NeighborNodes<N>,
    filled: usize,
}

impl<const N: usize> ListReader<N> {
    /// The slots that were read.
    pub closed spec fn view(&self) -> Seq<usize> {
        self.list.neighbors@.take(self.filled as int)
    }

    /// Whether no more was read than there are slots.
    pub closed spec fn wf(&self) -> bool {
        self.filled <= N
    }

    /// Nothing is read yet.
    pub fn new() -> (reader: Self)
        ensures
            reader.wf(),
            reader@ == Seq::<usize>::empty(),
    {
        let reader = ListReader { list: NeighborNodes { neighbors: empty_slots() }, filled: 0 };
        assert(reader@ =~= Seq::<usize>::empty());
        reader
    }

    /// Reads the next element.
    pub fn read(&mut self, wire: u64) -> (result: Result<(), WireError>)
        requires
            old(self).wf(),
        ensures
            final(self).wf(),
            match result {
                Ok(()) => old(self)@.len() < N && slot_of(wire) is Some && final(self)@ == old(
                    self,
                )@.push(slot_of(wire)->Some_0),
                Err(WireError::TooMany) => old(self)@.len() == N && final(self)@ == old(self)@,
                Err(WireError::TooWide { index }) => old(self)@.len() < N && slot_of(wire) is None
                    && index == wire && final(self)@ == old(self)@,
                Err(WireError::TooFew { .. }) => false,
            },
    {
        if self.filled == N {
            return Err(WireError::TooMany);
        }
        match read_slot(wire) {
            Some(slot) => {
                self.list.neighbors[self.filled] = slot;
                self.filled += 1;
                assert(self@ =~= old(self)@.push(slot));
                Ok(())
            },
            None => Err(WireError::TooWide { index: wire }),
        }
    }

    /// The list, once all of its elements were read.
    pub fn finish(self) -> (list: Result<NeighborNodes<N>, WireError>)
        requires
            self.wf(),
        ensures
            match list {
                Ok(list) => self@.len() == N && list.neighbors@ == self@,
                Err(WireError::TooFew { found }) => self@.len() < N && found == self@.len(),
                Err(_) => false,
            },
    {
        if self.filled < N {
            return Err(WireError::TooFew { found: self.filled });
        }
        assert(self@ =~= self.list.neighbors@);
        Ok(self.list)
    }
}

impl<const N: usize> NeighborNodes<N> {
    /// What is written for the list: one element per slot.
    pub fn to_wire(&self) -> (wire: Vec<u64>)
        ensures
            wire@ == Seq::new(N as nat, |i: int| wire_of(self.neighbors@[i])),
    {
        let mut wire: Vec<u64> = Vec::new();
        let mut i: usize = 0;
        while i < N
            invariant
                i <= N,
                wire@.len() == i,
                forall|j: int| 0 <= j < i ==> #[trigger] wire@[j] == wire_of(self.neighbors@[j]),
            decreases N - i,
        {
            let slot: usize = self.neighbors[i];
            wire.push(
                if slot == EMPTY {
                    WIRE_EMPTY
                } else {
                    slot as u64
                },
            );
            i += 1;
        }
        assert(wire@ =~= Seq::new(N as nat, |i: int| wire_of(self.neighbors@[i])));
        wire
    }

    /// Reads a list. The elements are read in order, so one that does not fit is
    /// reported ahead of a length that is wrong, but only if it has a slot.
    pub fn from_wire(wire: &[u64]) -> (list: Result<Self, WireError>)
        ensures
            match list {
                Ok(list) => wire@.len() == N && forall|i: int|
                    0 <= i < N ==> slot_of(#[trigger] wire@[i]) == Some(list.neighbors@[i]),
                Err(WireError::TooWide { index }) => exists|k: int|
                    0 <= k < wire@.len() && k < N && (#[trigger] wire@[k]) == index && slot_of(
                        index,
                    ) is None && forall|i: int| 0 <= i < k ==> slot_of(#[trigger] wire@[i]) is Some,
                Err(WireError::TooMany) => wire@.len() > N && forall|i: int|
                    0 <= i < N ==> slot_of(#[trigger] wire@[i]) is Some,
                Err(WireError::TooFew { found }) => wire@.len() < N && found == wire@.len()
                    && forall|i: int| 0 <= i < found ==> slot_of(#[trigger] wire@[i]) is Some,
            },
    {
        let mut reader = ListReader::new();
        let mut i: usize = 0;
        while i < wire.len()
            invariant
                i <= wire@.len(),
                reader.wf(),
                reader@.len() == i,
                i <= N,
                forall|j: int| 0 <= j < i ==> slot_of(#[trigger] wire@[j]) == Some(reader@[j]),
            decreases wire@.len() - i,
        {
            match reader.read(wire[i]) {
                Ok(()) => {},
                Err(error) => {
                    return Err(error);
                },
            }
            i += 1;
        }
        reader.finish()
    }
}

/// The format. A neighbor is written as its number, and an empty slot as `u64::MAX`
/// whatever the target. An element is read as the number that it is, but for the two
/// that stand for an empty slot, and one that no `usize` can be is refused.
pub proof fn law_elements_are_numbers(slot: usize, wire: u64)
    ensures
        slot < usize::MAX ==> wire_of(slot) as int == slot as int,
        wire_of(usize::MAX) == u64::MAX,
        slot_of(u64::MAX) == Some(usize::MAX),
        slot_of(0xffff_ffff) == Some(usize::MAX),
        wire != u64::MAX && wire != 0xffff_ffff && wire as int <= usize::MAX as int ==> (slot_of(
            wire,
        ) matches Some(read) && read as int == wire as int),
        wire != u64::MAX && wire != 0xffff_ffff && wire as int > usize::MAX as int ==> slot_of(
            wire,
        ) is None,
{
}

/// No two neighbors are written alike, and none like an empty slot.
pub proof fn law_elements_tell_slots_apart(slot: usize, other: usize)
    ensures
        wire_of(slot) == wire_of(other) ==> slot == other,
{
}

/// What was written for a slot is read back as it was, on a target of the same
/// width. The one exception is a neighbor whose index is the value that 32-bit
/// targets used to write for an empty slot.
pub proof fn law_slot_round_trip(slot: usize)
    requires
        slot == EMPTY || slot != LEGACY_32_BIT_EMPTY,
    ensures
        slot_of(wire_of(slot)) == Some(slot),
{
}

/// A list that was written is read back as it was.
pub proof fn law_list_round_trip<const N: usize>(list: NeighborNodes<N>, wire: Seq<u64>)
    requires
        wire == Seq::new(N as nat, |i: int| wire_of(list.neighbors@[i])),
        forall|i: int|
            0 <= i < N ==> #[trigger] list.neighbors@[i] == EMPTY || list.neighbors@[i]
                != LEGACY_32_BIT_EMPTY,
    ensures
        wire.len() == N,
        forall|i: int| 0 <= i < N ==> slot_of(#[trigger] wire[i]) == Some(list.neighbors@[i]),
{
    assert forall|i: int| 0 <= i < N implies slot_of(#[trigger] wire[i]) == Some(
        list.neighbors@[i],
    ) by {
        law_slot_round_trip(list.neighbors@[i]);
    }
}

} // verus!
