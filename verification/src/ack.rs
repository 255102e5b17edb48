//! Acknowledgement of received packet sequence numbers: the newest sequence
//! received plus a 32-bit history of the 32 sequences before it.

use vstd::prelude::*;

verus! {

/// How far `b` lies behind `a` on the 16-bit sequence circle (0..65535).
pub open spec fn gap(a: u16, b: u16) -> int {
    if a >= b { a - b } else { a - b + 65536 }
}

/// Bit `k` (0..31) of `bits` is set.
pub open spec fn bit_set(bits: u32, k: int) -> bool {
    bits & (1u32 << (k as u32)) != 0
}

/// Whether `(ack, bits)` acknowledges `seq`: it is `ack` itself, or lies 1..32
/// behind `ack` and its history bit (distance - 1) is set.
pub open spec fn spec_acked(ack: u16, bits: u32, seq: u16) -> bool {
    gap(ack, seq) == 0 || (gap(ack, seq) <= 32 && bit_set(bits, gap(ack, seq) - 1))
}

/// How recording `seq` into the state `old` (newest sequence, history bits)
/// yields `new`:
/// - a repeat of the newest sequence changes nothing;
/// - a newer sequence (less than half the circle ahead) becomes the newest,
///   and afterwards exactly it and the previously acknowledged sequences at
///   most 32 behind it are acknowledged;
/// - an older sequence keeps the newest, and is added to the acknowledged set
///   when it is at most 32 behind.
pub open spec fn record_post(old: (u16, u32), new: (u16, u32), seq: u16) -> bool {
    let g = gap(seq, old.0);
    if g == 0 {
        new == old
    } else if g < 32768 {
        &&& new.0 == seq
        &&& forall|t: u16|
            #[trigger] spec_acked(new.0, new.1, t) == (t == seq || (spec_acked(old.0, old.1, t)
                && gap(seq, t) <= 32))
    } else {
        &&& new.0 == old.0
        &&& forall|t: u16|
            #[trigger] spec_acked(new.0, new.1, t) == (spec_acked(old.0, old.1, t) || (t == seq
                && gap(old.0, seq) <= 32))
    }
}

proof fn lemma_bit_or(x: u32, m: u32, k: u32)
    requires
        m < 32,
        k < 32,
    ensures
        ((x | (1u32 << m)) & (1u32 << k) != 0) == ((x & (1u32 << k) != 0) || k == m),
{
    assert(((x | (1u32 << m)) & (1u32 << k) != 0) == ((x & (1u32 << k) != 0) || k == m))
        by (bit_vector)
        requires m < 32, k < 32;
}

proof fn lemma_bit_shl(x: u32, n: u32, k: u32)
    requires
        n < 32,
        k < 32,
    ensures
        ((x << n) & (1u32 << k) != 0) == (k >= n && (x & (1u32 << ((k - n) as u32)) != 0)),
{
    if k >= n {
        let j: u32 = (k - n) as u32;
        assert(((x << n) & (1u32 << k) != 0) == (x & (1u32 << j) != 0)) by (bit_vector)
            requires n < 32, k < 32, k >= n, j == k - n;
    } else {
        assert((x << n) & (1u32 << k) == 0) by (bit_vector)
            requires n < 32, k < 32, k < n;
    }
}

proof fn lemma_bit_zero(k: u32)
    requires
        k < 32,
    ensures
        (0u32 & (1u32 << k)) == 0,
{
    assert((0u32 & (1u32 << k)) == 0) by (bit_vector);
}

/// Tracks which remote packet sequences have arrived.
pub struct AckTracker {
    last_received_sequence: u16,
    received_bits: u32,
}

impl View for AckTracker {
    type V = (u16, u32);

    /// The newest sequence received and the history bits behind it.
    closed spec fn view(&self) -> (u16, u32) {
        (self.last_received_sequence, self.received_bits)
    }
}

impl Default for AckTracker {
    /// A tracker at sequence 0 with an empty history.
    fn default() -> (t: Self)
        ensures
            t@ == (0u16, 0u32),
    {
        AckTracker { last_received_sequence: 0, received_bits: 0 }
    }
}

impl AckTracker {
    /// Records the arrival of `sequence` (see `record_post`).
    pub fn record(&mut self, sequence: u16)
        ensures
            record_post(old(self)@, final(self)@, sequence),
    {
        let diff: u16 = sequence.wrapping_sub(self.last_received_sequence);
        proof {
            assert(diff == gap(sequence, self.last_received_sequence));
        }
        if diff == 0 {
            return;
        }
        let ghost old_last = self.last_received_sequence;
        let ghost old_bits = self.received_bits;
        if diff < 32768 {
            let shift: u32 = if diff < 32 { diff as u32 } else { 32 };
            self.received_bits = if shift >= 32 { 0 } else { self.received_bits << shift };
            let ghost shifted = self.received_bits;
            if diff <= 32 {
                self.received_bits = self.received_bits | (1u32 << ((diff - 1) as u32));
            }
            self.last_received_sequence = sequence;
            proof {
                let new_bits = self.received_bits;
                assert forall|t: u16|
                    #[trigger] spec_acked(sequence, new_bits, t) == (t == sequence || (spec_acked(
                        old_last,
                        old_bits,
                        t,
                    ) && gap(sequence, t) <= 32)) by {
                    let dp = gap(sequence, t);
                    if dp != 0 && dp <= 32 {
                        let k: u32 = (dp - 1) as u32;
                        let d = gap(old_last, t);
                        assert(dp >= diff ==> d == dp - diff);
                        assert(dp < diff ==> d == dp - diff + 65536);
                        if diff <= 32 {
                            lemma_bit_or(shifted, (diff - 1) as u32, k);
                        }
                        if diff < 32 {
                            lemma_bit_shl(old_bits, diff as u32, k);
                            if k >= diff as u32 {
                                assert(((k - diff as u32) as u32) == (d - 1));
                            }
                        } else {
                            lemma_bit_zero(k);
                        }
                    }
                }
            }
            return;
        }
        let reverse_diff: u16 = self.last_received_sequence.wrapping_sub(sequence);
        proof {
            assert(reverse_diff == gap(self.last_received_sequence, sequence));
        }
        if 1 <= reverse_diff && reverse_diff <= 32 {
            self.received_bits = self.received_bits | (1u32 << ((reverse_diff - 1) as u32));
        }
        proof {
            let new_bits = self.received_bits;
            assert forall|t: u16|
                #[trigger] spec_acked(old_last, new_bits, t) == (spec_acked(old_last, old_bits, t)
                    || (t == sequence && gap(old_last, sequence) <= 32)) by {
                let d = gap(old_last, t);
                if d != 0 && d <= 32 && 1 <= reverse_diff <= 32 {
                    lemma_bit_or(old_bits, (reverse_diff - 1) as u32, (d - 1) as u32);
                    assert((d == reverse_diff) == (t == sequence));
                }
            }
        }
    }

    /// The newest sequence received.
    pub fn ack(&self) -> (a: u16)
        ensures
            a == self@.0,
    {
        self.last_received_sequence
    }

    /// History bits: bit k set means sequence `ack() - (k + 1)` was received.
    pub fn ack_bits(&self) -> (b: u32)
        ensures
            b == self@.1,
    {
        self.received_bits
    }

    /// Whether `sequence` is acknowledged by this tracker.
    pub fn is_acked(&self, sequence: u16) -> (r: bool)
        ensures
            r == spec_acked(self@.0, self@.1, sequence),
    {
        AckTracker::acked_by_remote(self.last_received_sequence, self.received_bits, sequence)
    }

    /// Whether a remote acknowledgement `(ack, ack_bits)` covers `sequence`.
    pub fn acked_by_remote(ack: u16, ack_bits: u32, sequence: u16) -> (r: bool)
        ensures
            r == spec_acked(ack, ack_bits, sequence),
    {
        let diff: u16 = ack.wrapping_sub(sequence);
        proof {
            assert(diff == gap(ack, sequence));
        }
        if diff == 0 {
            return true;
        }
        if diff >= 33 {
            return false;
        }
        ack_bits & (1u32 << ((diff - 1) as u32)) != 0
    }
}

/// A sequence that is recorded is acknowledged afterwards, unless it lies
/// more than 32 behind the newest sequence already received.
pub proof fn lemma_recorded_is_acked(old: (u16, u32), new: (u16, u32), seq: u16)
    requires
        record_post(old, new, seq),
        !(32 < gap(old.0, seq) && gap(seq, old.0) >= 32768),
    ensures
        spec_acked(new.0, new.1, seq),
{
    let g = gap(seq, old.0);
    if g == 0 {
        assert(gap(old.0, seq) == 0);
    } else if g < 32768 {
        assert(spec_acked(new.0, new.1, seq));
    } else {
        assert(gap(old.0, seq) == 65536 - g);
        assert(spec_acked(new.0, new.1, seq));
    }
}

/// Recording never forgets the newest sequence already received while it
/// stays within 32 of the new newest one.
pub proof fn lemma_record_keeps_recent(old: (u16, u32), new: (u16, u32), seq: u16, t: u16)
    requires
        record_post(old, new, seq),
        spec_acked(old.0, old.1, t),
        gap(new.0, t) <= 32,
    ensures
        spec_acked(new.0, new.1, t),
{
    let g = gap(seq, old.0);
    if g != 0 {
        assert(spec_acked(new.0, new.1, t));
    }
}

} // verus!
