use ti82_link::link::{
    ack_steps, bit_poll, bits_to_byte, byte_to_bits, lines_idle, other_line, send_steps, sensed_bit, signal_line,
    wait_poll, BitPoll, Line, LinkStep, WaitPoll, SEND_WAIT_MS,
};

#[test]
fn bits_go_least_significant_first() {
    assert_eq!(byte_to_bits(0b1000_0101), [true, false, true, false, false, false, false, true]);
    assert_eq!(bits_to_byte(&[false, true, true, false, false, false, false, false]), 6);
}

#[test]
fn bits_roundtrip_every_byte() {
    for b in 0..=255u8 {
        assert_eq!(bits_to_byte(&byte_to_bits(b)), b);
    }
}

#[test]
fn line_rules() {
    assert_eq!(signal_line(false), Line::D0);
    assert_eq!(signal_line(true), Line::D1);
    assert_eq!(other_line(Line::D0), Line::D1);
    assert_eq!(other_line(Line::D1), Line::D0);
    assert_eq!(sensed_bit(false, true), Some(false));
    assert_eq!(sensed_bit(true, false), Some(true));
    assert_eq!(sensed_bit(true, true), None);
    assert_eq!(sensed_bit(false, false), None);
    assert!(lines_idle(true, true));
    assert!(!lines_idle(true, false));
}

#[test]
fn receiver_reads_signalled_bit() {
    for bit in [false, true] {
        let pulled = signal_line(bit);
        let d0_high = pulled != Line::D0;
        let d1_high = pulled != Line::D1;
        assert_eq!(sensed_bit(d0_high, d1_high), Some(bit));
    }
}

#[test]
fn handshake_steps_fit_together() {
    assert_eq!(
        send_steps(false),
        [
            LinkStep::Pull(Line::D0),
            LinkStep::Await { line: Line::D1, high: false },
            LinkStep::Release(Line::D0),
            LinkStep::Await { line: Line::D1, high: true },
        ]
    );
    assert_eq!(
        ack_steps(true),
        [LinkStep::Pull(Line::D0), LinkStep::Await { line: Line::D1, high: true }, LinkStep::Release(Line::D0)]
    );
    for bit in [false, true] {
        let s = send_steps(bit);
        let a = ack_steps(bit);
        assert!(matches!((s[1], a[0]), (LinkStep::Await { line: l1, high: false }, LinkStep::Pull(l2)) if l1 == l2));
        assert!(matches!((s[0], a[1]), (LinkStep::Pull(l1), LinkStep::Await { line: l2, high: true }) if l1 == l2));
    }
}

#[test]
fn waits_end_at_the_level_or_after_their_polls() {
    assert_eq!(wait_poll(0, 2000, false, false), WaitPoll::Reached);
    assert_eq!(wait_poll(5, 2000, true, false), WaitPoll::Sleep);
    assert_eq!(wait_poll(1999, 2000, true, true), WaitPoll::Reached);
    assert_eq!(wait_poll(2000, 2000, true, true), WaitPoll::TimedOut);
    assert_eq!(wait_poll(0, 0, true, true), WaitPoll::TimedOut);
    assert_eq!(SEND_WAIT_MS, 2000);
}

#[test]
fn bit_waits_sense_or_time_out() {
    assert_eq!(bit_poll(0, 10, true, false), BitPoll::Sensed(true));
    assert_eq!(bit_poll(3, 10, false, true), BitPoll::Sensed(false));
    assert_eq!(bit_poll(3, 10, true, true), BitPoll::Sleep);
    assert_eq!(bit_poll(9, 10, false, false), BitPoll::Sleep);
    assert_eq!(bit_poll(10, 10, true, false), BitPoll::TimedOut);
}
