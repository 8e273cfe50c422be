//! Bit-level rules of the two-wire link.
//!
//! Both lines idle high. A sender signals a 0 by pulling D0 low and a 1 by
//! pulling D1 low; the receiver acknowledges by pulling the other line low
//! until the sender releases its line. Bytes travel least significant bit
//! first.

use vstd::prelude::*;

verus! {

/// One of the two link lines.
#[derive(Debug, Clone, Copy, PartialEq, Eq, Structural)]
pub enum Line {
    D0,
    D1,
}

/// The line a sender pulls low to signal `bit`.
pub open spec fn spec_signal_line(bit: bool) -> Line {
    if bit {
        Line::D1
    } else {
        Line::D0
    }
}

/// The other line.
pub open spec fn spec_other_line(line: Line) -> Line {
    match line {
        Line::D0 => Line::D1,
        Line::D1 => Line::D0,
    }
}

/// The bit a receiver reads from the line levels: 0 when only D0 is low, 1
/// when only D1 is low, nothing otherwise.
pub open spec fn spec_sensed_bit(d0_high: bool, d1_high: bool) -> Option<bool> {
    if d1_high && !d0_high {
        Some(false)
    } else if d0_high && !d1_high {
        Some(true)
    } else {
        None
    }
}

/// Bit `i` of `b`, counting from the least significant.
pub open spec fn bit_at(b: u8, i: u8) -> bool {
    (b >> i) & 1 == 1
}

/// The line a sender pulls low to signal `bit`; it then waits for the other
/// line to go low, releases its own, and waits for the other to go high.
pub fn signal_line(bit: bool) -> (r: Line)
    ensures
        r == spec_signal_line(bit),
{
    if bit {
        Line::D1
    } else {
        Line::D0
    }
}

/// The other line: the one an acknowledgement is given on.
pub fn other_line(line: Line) -> (r: Line)
    ensures
        r == spec_other_line(line),
{
    match line {
        Line::D0 => Line::D1,
        Line::D1 => Line::D0,
    }
}

/// The bit the line levels announce, if any.
pub fn sensed_bit(d0_high: bool, d1_high: bool) -> (r: Option<bool>)
    ensures
        r == spec_sensed_bit(d0_high, d1_high),
{
    if d1_high && !d0_high {
        return Some(false);
    }
    if d0_high && !d1_high {
        return Some(true);
    }
    None
}

/// Whether the link is idle: both lines high.
pub fn lines_idle(d0_high: bool, d1_high: bool) -> (r: bool)
    ensures
        r == (d0_high && d1_high),
{
    d0_high && d1_high
}

/// The bits of a byte in the order they are sent: least significant first.
pub fn byte_to_bits(byte: u8) -> (r: [bool; 8])
    ensures
        forall|i: int| 0 <= i < 8 ==> #[trigger] r@[i] == bit_at(byte, i as u8),
{
    let mut bits = [false; 8];
    for i in 0..8u8
        invariant
            forall|j: int| 0 <= j < i ==> #[trigger] bits@[j] == bit_at(byte, j as u8),
    {
        bits[i as usize] = (byte >> i) & 1 == 1;
    }
    bits
}

proof fn lemma_set_bit(b: u8, i: u8, j: u8)
    requires
        i < 8,
        j < 8,
    ensures
        bit_at(b | (1u8 << i), j) == (i == j || bit_at(b, j)),
{
    assert(((b | (1u8 << i)) >> j) & 1 == 1 <==> (i == j || (b >> j) & 1 == 1)) by (bit_vector)
        requires
            i < 8,
            j < 8,
    ;
}

/// The byte whose bit `i` (least significant first) is `bits[i]`.
pub fn bits_to_byte(bits: &[bool; 8]) -> (r: u8)
    ensures
        forall|i: int| 0 <= i < 8 ==> bit_at(r, i as u8) == #[trigger] bits@[i],
{
    let mut byte = 0u8;
    assert forall|j: u8| j < 8 implies !bit_at(0u8, j) by {
        assert((0u8 >> j) & 1 == 0) by (bit_vector);
    }
    for i in 0..8u8
        invariant
            forall|j: int| 0 <= j < i ==> bit_at(byte, j as u8) == #[trigger] bits@[j],
            forall|j: u8| i <= j < 8 ==> !#[trigger] bit_at(byte, j),
    {
        let ghost before = byte;
        if bits[i as usize] {
            byte |= 1 << i;
        }
        assert forall|j: u8| j < 8 implies #[trigger] bit_at(byte, j) == (if j == i {
            bits@[i as int]
        } else {
            bit_at(before, j)
        }) by {
            if bits@[i as int] {
                lemma_set_bit(before, i, j);
            }
        }
        assert forall|j: int| 0 <= j < i + 1 implies bit_at(byte, j as u8) == #[trigger] bits@[j] by {
            assert(bit_at(byte, j as u8) == (if j as u8 == i {
                bits@[i as int]
            } else {
                bit_at(before, j as u8)
            }));
        }
    }
    byte
}

/// One move in the handshake of a bit.
#[derive(Debug, Clone, Copy, PartialEq, Eq, Structural)]
pub enum LinkStep {
    /// Pull the line low.
    Pull(Line),
    /// Let the line float high again.
    Release(Line),
    /// Wait until the line reads at the given level.
    Await { line: Line, high: bool },
}

/// How a bit is sent: pull its signal line, wait for the acknowledgement on
/// the other line, release the signal line, wait for the other line to be
/// released.
pub open spec fn spec_send_steps(bit: bool) -> Seq<LinkStep> {
    let line = spec_signal_line(bit);
    let ack = spec_other_line(line);
    seq![
        LinkStep::Pull(line),
        LinkStep::Await { line: ack, high: false },
        LinkStep::Release(line),
        LinkStep::Await { line: ack, high: true },
    ]
}

/// How a sensed bit is acknowledged: pull the other line, wait for the
/// sender to release its signal line, release the other line.
pub open spec fn spec_ack_steps(bit: bool) -> Seq<LinkStep> {
    let line = spec_signal_line(bit);
    let ack = spec_other_line(line);
    seq![LinkStep::Pull(ack), LinkStep::Await { line, high: true }, LinkStep::Release(ack)]
}

/// The handshake a sender performs for `bit`.
pub fn send_steps(bit: bool) -> (r: [LinkStep; 4])
    ensures
        r@ == spec_send_steps(bit),
{
    let line = signal_line(bit);
    let ack = other_line(line);
    let r = [
        LinkStep::Pull(line),
        LinkStep::Await { line: ack, high: false },
        LinkStep::Release(line),
        LinkStep::Await { line: ack, high: true },
    ];
    assert(r@ =~= spec_send_steps(bit));
    r
}

/// The handshake a receiver performs after sensing `bit`.
pub fn ack_steps(bit: bool) -> (r: [LinkStep; 3])
    ensures
        r@ == spec_ack_steps(bit),
{
    let line = signal_line(bit);
    let ack = other_line(line);
    let r = [LinkStep::Pull(ack), LinkStep::Await { line, high: true }, LinkStep::Release(ack)];
    assert(r@ =~= spec_ack_steps(bit));
    r
}

/// How long, in one-millisecond polls, a sender waits for each move of the
/// receiver's acknowledgement.
pub const SEND_WAIT_MS: u32 = 2000;

/// What a wait for a line level does after a poll.
#[derive(Debug, Clone, Copy, PartialEq, Eq, Structural)]
pub enum WaitPoll {
    /// The line is at the awaited level: the wait is over.
    Reached,
    /// Sleep a millisecond and poll again.
    Sleep,
    /// The wait has used up its polls: it fails with a timeout.
    TimedOut,
}

/// What a wait for a sent bit does after a poll.
#[derive(Debug, Clone, Copy, PartialEq, Eq, Structural)]
pub enum BitPoll {
    /// The line levels announce this bit: acknowledge it.
    Sensed(bool),
    /// Sleep a millisecond and poll again.
    Sleep,
    /// The wait has used up its polls: it fails with a timeout.
    TimedOut,
}

/// The next move of a wait, of at most `timeout_ms` polls a millisecond
/// apart, for a line to read at level `want_high`, when `polls` polls have
/// already found it elsewhere and the line now reads at `level_high`.
pub fn wait_poll(polls: u32, timeout_ms: u32, level_high: bool, want_high: bool) -> (r: WaitPoll)
    ensures
        r == if polls >= timeout_ms {
            WaitPoll::TimedOut
        } else if level_high == want_high {
            WaitPoll::Reached
        } else {
            WaitPoll::Sleep
        },
{
    if polls >= timeout_ms {
        WaitPoll::TimedOut
    } else if level_high == want_high {
        WaitPoll::Reached
    } else {
        WaitPoll::Sleep
    }
}

/// The next move of a receiver waiting, for at most `timeout_ms` polls a
/// millisecond apart, for a sender to signal a bit, when `polls` polls have
/// already sensed none and the lines now read at the given levels.
pub fn bit_poll(polls: u32, timeout_ms: u32, d0_high: bool, d1_high: bool) -> (r: BitPoll)
    ensures
        r == if polls >= timeout_ms {
            BitPoll::TimedOut
        } else {
            match spec_sensed_bit(d0_high, d1_high) {
                Some(bit) => BitPoll::Sensed(bit),
                None => BitPoll::Sleep,
            }
        },
{
    if polls >= timeout_ms {
        return BitPoll::TimedOut;
    }
    match sensed_bit(d0_high, d1_high) {
        Some(bit) => BitPoll::Sensed(bit),
        None => BitPoll::Sleep,
    }
}

/// The two sides of a bit's handshake fit together: the receiver
/// acknowledges on the line the sender waits on, and waits for the line the
/// sender pulls; each side releases only the line it pulled.
pub proof fn law_handshake_sides_fit(bit: bool)
    ensures
        ({
            let s = spec_send_steps(bit);
            let a = spec_ack_steps(bit);
            &&& s[0] == LinkStep::Pull(spec_signal_line(bit))
            &&& a[0] == LinkStep::Pull(spec_other_line(spec_signal_line(bit)))
            &&& s[1] == LinkStep::Await { line: spec_other_line(spec_signal_line(bit)), high: false }
            &&& a[1] == LinkStep::Await { line: spec_signal_line(bit), high: true }
            &&& s[2] == LinkStep::Release(spec_signal_line(bit))
            &&& a[2] == LinkStep::Release(spec_other_line(spec_signal_line(bit)))
            &&& s[3] == LinkStep::Await { line: spec_other_line(spec_signal_line(bit)), high: true }
            &&& spec_signal_line(bit) != spec_other_line(spec_signal_line(bit))
        }),
{
}

/// A bit's handshake on the wires: the sender pulls D1 low for a 1 and D0
/// low for a 0, which the receiver, seeing only that line low, senses as the
/// bit; the receiver acknowledges by pulling the other line low, which the
/// sender waits to see; the sender releases its line, which the receiver
/// waits to see high; the receiver releases its line, which the sender waits
/// to see high before the next bit.
pub proof fn law_bit_handshake(bit: bool)
    ensures
        ({
            let sig = if bit {
                Line::D1
            } else {
                Line::D0
            };
            let ack = if bit {
                Line::D0
            } else {
                Line::D1
            };
            &&& spec_send_steps(bit) == seq![
                LinkStep::Pull(sig),
                LinkStep::Await { line: ack, high: false },
                LinkStep::Release(sig),
                LinkStep::Await { line: ack, high: true },
            ]
            &&& spec_ack_steps(bit) == seq![
                LinkStep::Pull(ack),
                LinkStep::Await { line: sig, high: true },
                LinkStep::Release(ack),
            ]
            &&& spec_sensed_bit(sig != Line::D0, sig != Line::D1) == Some(bit)
        }),
{
    let sig = if bit {
        Line::D1
    } else {
        Line::D0
    };
    let ack = if bit {
        Line::D0
    } else {
        Line::D1
    };
    assert(spec_send_steps(bit) =~= seq![
        LinkStep::Pull(sig),
        LinkStep::Await { line: ack, high: false },
        LinkStep::Release(sig),
        LinkStep::Await { line: ack, high: true },
    ]);
    assert(spec_ack_steps(bit) =~= seq![
        LinkStep::Pull(ack),
        LinkStep::Await { line: sig, high: true },
        LinkStep::Release(ack),
    ]);
}

/// When the sender pulls the line that signals `bit` and the other line is
/// still high, the receiver reads `bit`.
pub proof fn law_receiver_reads_signalled_bit(bit: bool)
    ensures
        ({
            let d0_high = spec_signal_line(bit) != Line::D0;
            let d1_high = spec_signal_line(bit) != Line::D1;
            spec_sensed_bit(d0_high, d1_high) == Some(bit)
        }),
{
}

/// Splitting a byte into bits and putting them back together gives the byte.
pub proof fn law_bits_roundtrip(byte: u8, bits: Seq<bool>, back: u8)
    requires
        bits.len() == 8,
        forall|i: int| 0 <= i < 8 ==> #[trigger] bits[i] == bit_at(byte, i as u8),
        forall|i: int| 0 <= i < 8 ==> bit_at(back, i as u8) == #[trigger] bits[i],
    ensures
        back == byte,
{
    assert(bits[0] == bit_at(byte, 0) && bit_at(back, 0) == bits[0]);
    assert(bits[1] == bit_at(byte, 1) && bit_at(back, 1) == bits[1]);
    assert(bits[2] == bit_at(byte, 2) && bit_at(back, 2) == bits[2]);
    assert(bits[3] == bit_at(byte, 3) && bit_at(back, 3) == bits[3]);
    assert(bits[4] == bit_at(byte, 4) && bit_at(back, 4) == bits[4]);
    assert(bits[5] == bit_at(byte, 5) && bit_at(back, 5) == bits[5]);
    assert(bits[6] == bit_at(byte, 6) && bit_at(back, 6) == bits[6]);
    assert(bits[7] == bit_at(byte, 7) && bit_at(back, 7) == bits[7]);
    assert(back == byte) by (bit_vector)
        requires
            ((back >> 0u8) & 1 == 1) == ((byte >> 0u8) & 1 == 1),
            ((back >> 1u8) & 1 == 1) == ((byte >> 1u8) & 1 == 1),
            ((back >> 2u8) & 1 == 1) == ((byte >> 2u8) & 1 == 1),
            ((back >> 3u8) & 1 == 1) == ((byte >> 3u8) & 1 == 1),
            ((back >> 4u8) & 1 == 1) == ((byte >> 4u8) & 1 == 1),
            ((back >> 5u8) & 1 == 1) == ((byte >> 5u8) & 1 == 1),
            ((back >> 6u8) & 1 == 1) == ((byte >> 6u8) & 1 == 1),
            ((back >> 7u8) & 1 == 1) == ((byte >> 7u8) & 1 == 1),
    ;
}

} // verus!
