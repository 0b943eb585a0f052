//! A merge input that holds its packets in memory.

use vstd::prelude::*;
use crate::tournament_tree::Mergeable;

verus! {

/// Packets that wait to be merged: each a timestamp in nanoseconds and the
/// bytes of its record.
pub struct PacketStream {
    packets: Vec<(u64, bytes::Bytes)>,
    next: usize,
}

impl PacketStream {
    /// What was handed out lies within the packets.
    #[verifier::type_invariant]
    spec fn within(&self) -> bool {
        self.next <= self.packets.len()
    }

    /// The packets that have not been handed out.
    pub closed spec fn remaining(&self) -> Seq<(u64, bytes::Bytes)> {
        self.packets@.skip(self.next as int)
    }

    /// An input that hands out `packets`, first to last.
    pub fn new(packets: Vec<(u64, bytes::Bytes)>) -> (stream: PacketStream)
        ensures
            stream.remaining() == packets@,
    {
        PacketStream { packets, next: 0 }
    }
}

impl Mergeable for PacketStream {
    type Data = (u64, bytes::Bytes);

    open spec fn pending(&self) -> Seq<&(u64, bytes::Bytes)> {
        Seq::new(self.remaining().len(), |i: int| &self.remaining()[i])
    }

    open spec fn timestamp(item: &(u64, bytes::Bytes)) -> u64 {
        item.0
    }

    fn peek_timestamp(&mut self) -> (ts: u64) {
        proof {
            use_type_invariant(&*self);
        }
        if self.next < self.packets.len() {
            self.packets[self.next].0
        } else {
            u64::MAX
        }
    }

    fn pop(&mut self) -> (item: Option<&(u64, bytes::Bytes)>) {
        proof {
            use_type_invariant(&*self);
        }
        if self.next < self.packets.len() {
            let at = self.next;
            self.next = at + 1;
            Some(&self.packets[at])
        } else {
            None
        }
    }
}

} // verus!
