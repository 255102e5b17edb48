//! One side of an unreliable packet connection: numbers the packets it
//! sends, acknowledges the packets it receives, and carries reliable
//! messages until the peer acknowledges a packet that held them.

use vstd::prelude::*;
use crate::ack::{AckTracker, record_post, gap, lemma_recorded_is_acked};
use crate::reliable::{
    ReliableChannel, ReliablePayload, PendingReliable, after_send, due_in, undelivered, is_due, is_delivered,
    lemma_ack_drops_exactly_delivered,
};

verus! {

/// The header every packet starts with: its own sequence number and the
/// acknowledgement of the packets received from the peer.
#[derive(Clone, Copy, Debug, PartialEq, Eq, Structural)]
pub struct PacketHeader {
    pub sequence: u16,
    pub ack: u16,
    pub ack_bits: u32,
}

/// The packet state of one connection.
pub struct PacketEndpoint<M> {
    /// Sequence number of the next packet sent.
    pub send_sequence: u16,
    /// Packets received from the peer.
    pub recv_ack_tracker: AckTracker,
    /// Reliable messages not yet acknowledged.
    pub reliable: ReliableChannel<M>,
}

/// `s + 1`, wrapping from 65535 to 0.
pub open spec fn next_sequence(s: u16) -> u16 {
    if s == 65535 { 0 } else { (s + 1) as u16 }
}

impl<M> PacketEndpoint<M> {
    /// A fresh connection: first packet 0, nothing received, nothing pending.
    pub fn new() -> (e: Self)
        ensures
            e.send_sequence == 0,
            e.recv_ack_tracker@ == (0u16, 0u32),
            e.reliable.pending() == Seq::<PendingReliable<M>>::empty(),
            e.reliable.next_sequence() == 0,
            e.reliable.clock() == 0,
    {
        PacketEndpoint { send_sequence: 0, recv_ack_tracker: AckTracker::default(), reliable: ReliableChannel::new() }
    }

    /// A packet with `header` arrived: its sequence is recorded as received,
    /// and the reliable messages its acknowledgement covers are dropped.
    pub fn on_packet(&mut self, header: PacketHeader)
        ensures
            record_post(old(self).recv_ack_tracker@, final(self).recv_ack_tracker@, header.sequence),
            final(self).reliable.pending() == undelivered(old(self).reliable.pending(), header.ack, header.ack_bits),
            final(self).reliable.next_sequence() == old(self).reliable.next_sequence(),
            final(self).reliable.clock() == old(self).reliable.clock(),
            final(self).send_sequence == old(self).send_sequence,
    {
        self.recv_ack_tracker.record(header.sequence);
        self.reliable.on_ack(header.ack, header.ack_bits);
    }
}

impl<M: Clone> PacketEndpoint<M> {
    /// The header and reliable messages of the next packet sent at time
    /// `now` (nanoseconds of the channel's clock): the packet takes the send
    /// sequence, which then advances; it acknowledges what was received; it
    /// carries the reliable messages due at `now`.
    pub fn next_packet_at(&mut self, now: u64) -> (r: (PacketHeader, Vec<ReliablePayload<M>>))
        ensures
            r.0 == (PacketHeader {
                sequence: old(self).send_sequence,
                ack: old(self).recv_ack_tracker@.0,
                ack_bits: old(self).recv_ack_tracker@.1,
            }),
            final(self).send_sequence == next_sequence(old(self).send_sequence),
            final(self).recv_ack_tracker@ == old(self).recv_ack_tracker@,
            final(self).reliable.pending() == after_send(old(self).reliable.pending(), now, old(self).send_sequence),
            final(self).reliable.next_sequence() == old(self).reliable.next_sequence(),
            final(self).reliable.clock() == old(self).reliable.clock(),
            r.1@.len() == due_in(old(self).reliable.pending(), now).len(),
            forall|j: int| 0 <= j < r.1@.len() ==> {
                &&& r.1@[j].sequence == (#[trigger] due_in(old(self).reliable.pending(), now)[j]).sequence
                &&& cloned(due_in(old(self).reliable.pending(), now)[j].payload, r.1@[j].message)
            },
    {
        let header = PacketHeader {
            sequence: self.send_sequence,
            ack: self.recv_ack_tracker.ack(),
            ack_bits: self.recv_ack_tracker.ack_bits(),
        };
        let payloads = self.reliable.collect_for_send_at(header.sequence, now);
        self.send_sequence = self.send_sequence.wrapping_add(1);
        (header, payloads)
    }

    /// The next packet at the current time of the channel's clock, which
    /// never goes back: as `next_packet_at` at the channel's new `clock()`.
    pub fn next_packet(&mut self) -> (r: (PacketHeader, Vec<ReliablePayload<M>>))
        ensures
            r.0 == (PacketHeader {
                sequence: old(self).send_sequence,
                ack: old(self).recv_ack_tracker@.0,
                ack_bits: old(self).recv_ack_tracker@.1,
            }),
            final(self).send_sequence == next_sequence(old(self).send_sequence),
            final(self).recv_ack_tracker@ == old(self).recv_ack_tracker@,
            final(self).reliable.next_sequence() == old(self).reliable.next_sequence(),
            old(self).reliable.clock() <= final(self).reliable.clock(),
            final(self).reliable.pending()
                == after_send(old(self).reliable.pending(), final(self).reliable.clock(), old(self).send_sequence),
            r.1@.len() == due_in(old(self).reliable.pending(), final(self).reliable.clock()).len(),
            forall|j: int| 0 <= j < r.1@.len() ==> {
                &&& r.1@[j].sequence == (#[trigger] due_in(old(self).reliable.pending(), final(self).reliable.clock())[j]).sequence
                &&& cloned(due_in(old(self).reliable.pending(), final(self).reliable.clock())[j].payload, r.1@[j].message)
            },
    {
        let header = PacketHeader {
            sequence: self.send_sequence,
            ack: self.recv_ack_tracker.ack(),
            ack_bits: self.recv_ack_tracker.ack_bits(),
        };
        let payloads = self.reliable.collect_for_send(header.sequence);
        self.send_sequence = self.send_sequence.wrapping_add(1);
        (header, payloads)
    }
}

/// A reliable message sent in packet `s` stops being pending once the
/// sender gets a header from a peer that recorded `s` (unless `s` was
/// already more than 32 packets stale there): the peer's acknowledgement
/// covers it, so acknowledging drops it.
pub proof fn lemma_delivery_round_trip<M>(
    pending: Seq<PendingReliable<M>>,
    now: u64,
    s: u16,
    peer_before: (u16, u32),
    peer_after: (u16, u32),
    i: int,
)
    requires
        0 <= i < pending.len(),
        is_due(pending[i], now),
        record_post(peer_before, peer_after, s),
        !(32 < gap(peer_before.0, s) && gap(s, peer_before.0) >= 32768),
    ensures
        is_delivered(after_send(pending, now, s)[i], peer_after.0, peer_after.1),
        !undelivered(after_send(pending, now, s), peer_after.0, peer_after.1).contains(after_send(pending, now, s)[i]),
{
    lemma_recorded_is_acked(peer_before, peer_after, s);
    let sent = after_send(pending, now, s);
    let kept = undelivered(sent, peer_after.0, peer_after.1);
    lemma_ack_drops_exactly_delivered(sent, peer_after.0, peer_after.1);
    if kept.contains(sent[i]) {
        let k = choose|k: int| 0 <= k < kept.len() && kept[k] == sent[i];
        assert(!is_delivered(kept[k], peer_after.0, peer_after.1));
    }
}

} // verus!
