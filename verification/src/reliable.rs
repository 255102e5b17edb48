//! Reliable delivery of messages over an unreliable packet stream: every
//! message is resent until a packet carrying it is acknowledged.

use vstd::prelude::*;
use crate::ack::{AckTracker, spec_acked};
use std::time::{Duration, Instant};

verus! {

/// Milliseconds before an unacknowledged message is sent again.
pub const RETRANSMIT_MS: u64 = 100;

/// The same delay in nanoseconds, the unit of the channel's clock.
pub const RETRANSMIT_NS: u64 = RETRANSMIT_MS * 1_000_000;

#[verifier::external_type_specification]
#[verifier::external_body]
pub struct ExInstant(std::time::Instant);

/// The current instant (`std::time::Instant::now`); nothing is stated of it.
#[verifier::external_body]
fn instant_now() -> (t: Instant) {
    Instant::now()
}

/// The time passed since `origin` (`Instant::elapsed`); nothing is stated of it.
#[verifier::external_body]
fn elapsed_since(origin: &Instant) -> (d: Duration) {
    origin.elapsed()
}

/// The nanoseconds in `d` (`Duration::as_nanos`); nothing is stated of them.
#[verifier::external_body]
fn duration_nanos(d: Duration) -> (n: u128) {
    d.as_nanos()
}

/// A message waiting for acknowledgement.
pub struct PendingReliable<M> {
    pub sequence: u16,
    pub payload: M,
    /// When it was last sent (nanoseconds on the channel's clock).
    pub last_sent_at: Option<u64>,
    /// The packet sequence it was last sent in.
    pub last_sent_packet: Option<u16>,
}

/// A message as handed to the packet writer.
pub struct ReliablePayload<M> {
    pub sequence: u16,
    pub message: M,
}

/// Whether a pending message is due to be (re)sent at time `now`: never sent,
/// or last sent at least `RETRANSMIT_MS` ago.
pub open spec fn is_due<M>(p: PendingReliable<M>, now: u64) -> bool {
    match p.last_sent_at {
        None => true,
        Some(t) => now >= t + RETRANSMIT_NS,
    }
}

/// Whether the packet that last carried `p` is covered by the remote
/// acknowledgement `(ack, ack_bits)`.
pub open spec fn is_delivered<M>(p: PendingReliable<M>, ack: u16, ack_bits: u32) -> bool {
    match p.last_sent_packet {
        None => false,
        Some(s) => spec_acked(ack, ack_bits, s),
    }
}

/// `p` after being sent at `now` in packet `packet`.
pub open spec fn mark_sent<M>(p: PendingReliable<M>, now: u64, packet: u16) -> PendingReliable<M> {
    PendingReliable { last_sent_at: Some(now), last_sent_packet: Some(packet), ..p }
}

/// The messages of `s` that are due at `now`, in order.
pub open spec fn due_in<M>(s: Seq<PendingReliable<M>>, now: u64) -> Seq<PendingReliable<M>> {
    s.filter(|p: PendingReliable<M>| is_due(p, now))
}

/// `s` after sending its due messages at `now` in packet `packet`.
pub open spec fn after_send<M>(s: Seq<PendingReliable<M>>, now: u64, packet: u16) -> Seq<PendingReliable<M>> {
    s.map_values(|p: PendingReliable<M>| if is_due(p, now) { mark_sent(p, now, packet) } else { p })
}

/// The messages of `s` not delivered according to `(ack, ack_bits)`, in order.
pub open spec fn undelivered<M>(s: Seq<PendingReliable<M>>, ack: u16, ack_bits: u32) -> Seq<PendingReliable<M>> {
    s.filter(|p: PendingReliable<M>| !is_delivered(p, ack, ack_bits))
}

proof fn lemma_undelivered_push<M>(s: Seq<PendingReliable<M>>, p: PendingReliable<M>, ack: u16, ack_bits: u32)
    ensures
        undelivered(s.push(p), ack, ack_bits) == if !is_delivered(p, ack, ack_bits) {
            undelivered(s, ack, ack_bits).push(p)
        } else {
            undelivered(s, ack, ack_bits)
        },
{
    s.lemma_filter_push(p, |q: PendingReliable<M>| !is_delivered(q, ack, ack_bits));
}

proof fn lemma_due_push<M>(s: Seq<PendingReliable<M>>, p: PendingReliable<M>, now: u64)
    ensures
        due_in(s.push(p), now) == if is_due(p, now) { due_in(s, now).push(p) } else { due_in(s, now) },
{
    s.lemma_filter_push(p, |q: PendingReliable<M>| is_due(q, now));
}

/// Outgoing reliable messages in the order they were enqueued.
pub struct ReliableChannel<M> {
    pending: Vec<PendingReliable<M>>,
    next_sequence: u16,
    /// The start of the channel's clock.
    origin: Instant,
    /// The latest time read from the clock (nanoseconds since `origin`).
    last_now: u64,
}

impl<M> ReliableChannel<M> {
    /// The messages still waiting for acknowledgement, oldest first.
    pub closed spec fn pending(&self) -> Seq<PendingReliable<M>> {
        self.pending@
    }

    /// The sequence number the next enqueued message gets.
    pub closed spec fn next_sequence(&self) -> u16 {
        self.next_sequence
    }

    /// The latest time (nanoseconds since the channel was made) that the
    /// channel has read from its clock; the times it reads never go back.
    pub closed spec fn clock(&self) -> u64 {
        self.last_now
    }

    /// An empty channel whose first message gets sequence 0.
    pub fn new() -> (c: Self)
        ensures
            c.pending() == Seq::<PendingReliable<M>>::empty(),
            c.next_sequence() == 0,
            c.clock() == 0,
    {
        ReliableChannel { pending: Vec::new(), next_sequence: 0, origin: instant_now(), last_now: 0 }
    }

    /// Queues `message` under the next sequence number (which then advances,
    /// wrapping at 65536); it has not been sent yet.
    pub fn enqueue(&mut self, message: M)
        ensures
            final(self).pending() == old(self).pending().push(
                PendingReliable {
                    sequence: old(self).next_sequence(),
                    payload: message,
                    last_sent_at: None,
                    last_sent_packet: None,
                },
            ),
            final(self).next_sequence() == (if old(self).next_sequence() == 65535 {
                0
            } else {
                old(self).next_sequence() + 1
            }),
            final(self).clock() == old(self).clock(),
    {
        self.pending.push(
            PendingReliable {
                sequence: self.next_sequence,
                payload: message,
                last_sent_at: None,
                last_sent_packet: None,
            },
        );
        self.next_sequence = self.next_sequence.wrapping_add(1);
    }

    /// Drops every message whose last carrying packet the remote peer
    /// acknowledges with `(ack, ack_bits)`; the rest keep their order.
    pub fn on_ack(&mut self, ack: u16, ack_bits: u32)
        ensures
            final(self).pending() == undelivered(old(self).pending(), ack, ack_bits),
            final(self).next_sequence() == old(self).next_sequence(),
            final(self).clock() == old(self).clock(),
    {
        let mut old_pending: Vec<PendingReliable<M>> = Vec::new();
        std::mem::swap(&mut old_pending, &mut self.pending);
        let ghost orig = old_pending@;
        let mut kept: Vec<PendingReliable<M>> = Vec::new();
        let mut i: usize = 0;
        let n: usize = old_pending.len();
        proof {
            assert(orig.take(0) =~= Seq::<PendingReliable<M>>::empty());
            reveal(Seq::filter);
        }
        while old_pending.len() > 0
            invariant
                n == orig.len(),
                i + old_pending@.len() == n,
                old_pending@ == orig.skip(i as int),
                kept@ == undelivered(orig.take(i as int), ack, ack_bits),
            decreases old_pending@.len(),
        {
            let ghost before = old_pending@;
            let p = old_pending.remove(0);
            proof {
                assert(p == orig[i as int]);
                assert(orig.take(i + 1) =~= orig.take(i as int).push(p));
                lemma_undelivered_push(orig.take(i as int), p, ack, ack_bits);
                assert(old_pending@ =~= orig.skip(i + 1));
            }
            let delivered: bool = match p.last_sent_packet {
                None => false,
                Some(s) => AckTracker::acked_by_remote(ack, ack_bits, s),
            };
            if !delivered {
                kept.push(p);
            }
            i = i + 1;
        }
        proof {
            assert(orig.take(n as int) =~= orig);
        }
        self.pending = kept;
    }
}

impl<M> Default for ReliableChannel<M> {
    /// An empty channel whose first message gets sequence 0.
    fn default() -> (c: Self)
        ensures
            c.pending() == Seq::<PendingReliable<M>>::empty(),
            c.next_sequence() == 0,
            c.clock() == 0,
    {
        ReliableChannel::new()
    }
}

impl<M: Clone> ReliableChannel<M> {
    /// Marks every due message (never sent, or last sent at least
    /// `RETRANSMIT_MS` before time `now`, in nanoseconds of the channel's
    /// clock) as sent at `now` in packet
    /// `packet_sequence`, and returns copies of those messages, oldest first.
    pub fn collect_for_send_at(&mut self, packet_sequence: u16, now: u64) -> (out: Vec<ReliablePayload<M>>)
        ensures
            final(self).next_sequence() == old(self).next_sequence(),
            final(self).clock() == old(self).clock(),
            final(self).pending() == after_send(old(self).pending(), now, packet_sequence),
            out@.len() == due_in(old(self).pending(), now).len(),
            forall|j: int| 0 <= j < out@.len() ==> {
                &&& out@[j].sequence == (#[trigger] due_in(old(self).pending(), now)[j]).sequence
                &&& cloned(due_in(old(self).pending(), now)[j].payload, out@[j].message)
            },
    {
        let mut old_pending: Vec<PendingReliable<M>> = Vec::new();
        std::mem::swap(&mut old_pending, &mut self.pending);
        let ghost orig = old_pending@;
        let mut updated: Vec<PendingReliable<M>> = Vec::new();
        let mut out: Vec<ReliablePayload<M>> = Vec::new();
        let mut i: usize = 0;
        let n: usize = old_pending.len();
        proof {
            assert(orig.take(0) =~= Seq::<PendingReliable<M>>::empty());
            reveal(Seq::filter);
        }
        while old_pending.len() > 0
            invariant
                n == orig.len(),
                i + old_pending@.len() == n,
                old_pending@ == orig.skip(i as int),
                updated@ == after_send(orig.take(i as int), now, packet_sequence),
                out@.len() == due_in(orig.take(i as int), now).len(),
                forall|j: int| 0 <= j < out@.len() ==> {
                    &&& out@[j].sequence == (#[trigger] due_in(orig.take(i as int), now)[j]).sequence
                    &&& cloned(due_in(orig.take(i as int), now)[j].payload, out@[j].message)
                },
            decreases old_pending@.len(),
        {
            let p = old_pending.remove(0);
            let ghost filtered_before = due_in(orig.take(i as int), now);
            proof {
                assert(p == orig[i as int]);
                assert(orig.take(i + 1) =~= orig.take(i as int).push(p));
                lemma_due_push(orig.take(i as int), p, now);
                assert(old_pending@ =~= orig.skip(i + 1));
            }
            let is_due_now: bool = match p.last_sent_at {
                None => true,
                Some(t) => now >= t && now - t >= RETRANSMIT_NS,
            };
            if is_due_now {
                let message = p.payload.clone();
                out.push(ReliablePayload { sequence: p.sequence, message });
                updated.push(
                    PendingReliable {
                        sequence: p.sequence,
                        payload: p.payload,
                        last_sent_at: Some(now),
                        last_sent_packet: Some(packet_sequence),
                    },
                );
                proof {
                    assert(due_in(orig.take(i + 1), now) == filtered_before.push(p));
                    assert forall|j: int| 0 <= j < out@.len() implies {
                        &&& out@[j].sequence == (#[trigger] due_in(orig.take(i + 1), now)[j]).sequence
                        &&& cloned(due_in(orig.take(i + 1), now)[j].payload, out@[j].message)
                    } by {
                        if j < out@.len() - 1 {
                            assert(due_in(orig.take(i + 1), now)[j] == filtered_before[j]);
                        }
                    }
                }
            } else {
                updated.push(p);
            }
            proof {
                assert(updated@ =~= after_send(orig.take(i + 1), now, packet_sequence));
            }
            i = i + 1;
        }
        proof {
            assert(orig.take(n as int) =~= orig);
        }
        self.pending = updated;
        out
    }

    /// `collect_for_send_at` at the current time of the channel's clock
    /// (nanoseconds since the channel was made, saturating): the time read,
    /// kept from going back by the latest earlier reading, becomes the
    /// channel's `clock()`, and which messages are due depends on it.
    pub fn collect_for_send(&mut self, packet_sequence: u16) -> (out: Vec<ReliablePayload<M>>)
        ensures
            final(self).next_sequence() == old(self).next_sequence(),
            old(self).clock() <= final(self).clock(),
            final(self).pending() == after_send(old(self).pending(), final(self).clock(), packet_sequence),
            out@.len() == due_in(old(self).pending(), final(self).clock()).len(),
            forall|j: int| 0 <= j < out@.len() ==> {
                &&& out@[j].sequence == (#[trigger] due_in(old(self).pending(), final(self).clock())[j]).sequence
                &&& cloned(due_in(old(self).pending(), final(self).clock())[j].payload, out@[j].message)
            },
    {
        let nanos: u128 = duration_nanos(elapsed_since(&self.origin));
        let reading: u64 = if nanos > 0xffff_ffff_ffff_ffffu128 { 0xffff_ffff_ffff_ffffu64 } else { nanos as u64 };
        let now: u64 = if reading > self.last_now { reading } else { self.last_now };
        let out = self.collect_for_send_at(packet_sequence, now);
        self.last_now = now;
        out
    }
}

/// The packet `seq` is covered by the peer's acknowledgement `(ack, bits)`:
/// it is `ack` itself, or it lies `d` = 1..32 packets behind `ack` (counting
/// modulo 65536) and bit `d - 1` of `bits` is set.
pub open spec fn covered_by_ack(ack: u16, bits: u32, seq: u16) -> bool {
    let d = (ack as int - seq as int) % 65536;
    d == 0 || (1 <= d <= 32 && (bits >> ((d - 1) as u32)) & 1u32 == 1u32)
}

/// An acknowledgement drops exactly the pending messages whose last carrying
/// packet it covers: a message never sent, or last sent in a packet the
/// acknowledgement does not cover (such as a lost packet ahead of the
/// history bits that are set), stays pending and is resent.
pub proof fn lemma_on_ack_drops_exactly_covered<M>(s: Seq<PendingReliable<M>>, ack: u16, bits: u32, i: int)
    requires
        0 <= i < s.len(),
    ensures
        undelivered(s, ack, bits).contains(s[i]) <==> match s[i].last_sent_packet {
            None => true,
            Some(q) => !covered_by_ack(ack, bits, q),
        },
{
    lemma_ack_drops_exactly_delivered(s, ack, bits);
    let p = s[i];
    if let Some(q) = p.last_sent_packet {
        let d = (ack as int - q as int) % 65536;
        assert(crate::ack::gap(ack, q) == d);
        if 1 <= d <= 32 {
            let k: u32 = (d - 1) as u32;
            assert((bits & (1u32 << k) != 0) <==> ((bits >> k) & 1u32 == 1u32)) by (bit_vector)
                requires k < 32;
        }
        assert(is_delivered(p, ack, bits) <==> covered_by_ack(ack, bits, q));
    }
    if undelivered(s, ack, bits).contains(p) {
        let j = choose|j: int| 0 <= j < undelivered(s, ack, bits).len() && undelivered(s, ack, bits)[j] == p;
        assert(!is_delivered(undelivered(s, ack, bits)[j], ack, bits));
    }
}

/// After an acknowledgement, no remaining message was carried by an
/// acknowledged packet, and every message that was not is still pending.
pub proof fn lemma_ack_drops_exactly_delivered<M>(s: Seq<PendingReliable<M>>, ack: u16, ack_bits: u32)
    ensures
        forall|i: int| 0 <= i < undelivered(s, ack, ack_bits).len() ==>
            !is_delivered(#[trigger] undelivered(s, ack, ack_bits)[i], ack, ack_bits),
        forall|i: int| 0 <= i < s.len() && !is_delivered(#[trigger] s[i], ack, ack_bits) ==>
            undelivered(s, ack, ack_bits).contains(s[i]),
{
    let pred = |q: PendingReliable<M>| !is_delivered(q, ack, ack_bits);
    assert forall|i: int| 0 <= i < undelivered(s, ack, ack_bits).len() implies
        !is_delivered(#[trigger] undelivered(s, ack, ack_bits)[i], ack, ack_bits) by {
        s.lemma_filter_pred(pred, i);
    }
    assert forall|i: int| 0 <= i < s.len() && !is_delivered(#[trigger] s[i], ack, ack_bits) implies
        undelivered(s, ack, ack_bits).contains(s[i]) by {
        s.lemma_filter_contains(pred, i);
    }
}

/// A message is never sent twice within `RETRANSMIT_MS`: whatever is due at
/// `later` (earlier than `RETRANSMIT_MS` after `now`) among the messages just
/// sent at `now` was not due, and so not sent, at `now`.
pub proof fn lemma_no_early_resend<M>(s: Seq<PendingReliable<M>>, now: u64, packet: u16, later: u64, i: int)
    requires
        now <= later,
        later < now + RETRANSMIT_NS,
        0 <= i < s.len(),
        is_due(after_send(s, now, packet)[i], later),
    ensures
        !is_due(s[i], now),
{
}

/// A freshly enqueued message is sent by the next collection, whenever it happens.
pub proof fn lemma_new_message_is_due<M>(p: PendingReliable<M>, now: u64)
    requires
        p.last_sent_at is None,
    ensures
        is_due(p, now),
{
}

} // verus!
