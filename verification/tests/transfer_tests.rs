use ti82_link::commands::{CMD_ACK, CMD_CTS, CMD_DATA, CMD_EOT, CMD_REQ, CMD_VAR, MACHINE_ID_TI82};
use ti82_link::packet::{DBusError, Packet};
use ti82_link::transfer::{Action, Event, Transfer};
use ti82_link::variables::VariableHeader;

fn expect_send(t: &Transfer, cmd: u8) -> Vec<u8> {
    match t.next_action() {
        Action::Send(p) => {
            assert_eq!(p.command_id, cmd);
            assert_eq!(p.machine_id, 0x03);
            p.data.as_slice().to_vec()
        }
        _ => panic!("expected a packet to send"),
    }
}

fn expect_receive(t: &Transfer, timeout: u32) {
    match t.next_action() {
        Action::Receive { timeout_ms, .. } => assert_eq!(timeout_ms, timeout),
        _ => panic!("expected to receive"),
    }
}

fn calc(cmd: u8, data: &[u8]) -> Event {
    Event::Received(Packet::with_data(MACHINE_ID_TI82, cmd, data))
}

#[test]
fn request_variable_full_exchange() {
    let mut t = Transfer::request_variable(b'A');
    let req = expect_send(&t, CMD_REQ);
    assert_eq!(req, vec![0, 0, 0, b'A', 0, 0, 0, 0, 0, 0, 0]);
    t.on_event(Event::Sent);
    expect_receive(&t, 5000);
    t.on_event(calc(CMD_ACK, &[]));
    expect_receive(&t, 5000);
    let header = VariableHeader::new_real(b'A', 9);
    t.on_event(calc(CMD_VAR, header.to_bytes().as_slice()));
    assert_eq!(t.header().unwrap().data_size, 9);
    expect_send(&t, CMD_ACK);
    t.on_event(Event::Sent);
    expect_send(&t, CMD_CTS);
    t.on_event(Event::Sent);
    expect_receive(&t, 5000);
    t.on_event(calc(CMD_ACK, &[]));
    expect_receive(&t, 5000);
    let number = [0x00, 0x81, 0x42, 0, 0, 0, 0, 0, 0];
    t.on_event(calc(CMD_DATA, &number));
    assert_eq!(t.last_data(), &number);
    expect_send(&t, CMD_ACK);
    assert_eq!(t.outcome_now(), None);
    t.on_event(Event::Sent);
    assert_eq!(t.outcome_now(), Some(Ok(())));
    assert!(matches!(t.next_action(), Action::Finished(Ok(()))));
}

#[test]
fn request_variable_unexpected_reply_is_a_link_error() {
    let mut t = Transfer::request_variable(b'B');
    t.on_event(Event::Sent);
    t.on_event(calc(CMD_CTS, &[]));
    assert_eq!(t.outcome_now(), Some(Err(DBusError::LinkError)));
    t.on_event(calc(CMD_ACK, &[]));
    assert_eq!(t.outcome_now(), Some(Err(DBusError::LinkError)));
}

#[test]
fn request_variable_short_header_is_a_link_error() {
    let mut t = Transfer::request_variable(b'C');
    t.on_event(Event::Sent);
    t.on_event(calc(CMD_ACK, &[]));
    t.on_event(calc(CMD_VAR, &[9, 0, 0]));
    assert_eq!(t.outcome_now(), Some(Err(DBusError::LinkError)));
}

#[test]
fn link_failure_ends_transfer() {
    let mut t = Transfer::request_variable(b'D');
    t.on_event(Event::Failed(DBusError::Timeout));
    assert!(matches!(t.next_action(), Action::Finished(Err(DBusError::Timeout))));
}

#[test]
fn events_that_do_not_fit_the_step_change_nothing() {
    let mut t = Transfer::request_variable(b'E');
    t.on_event(Event::Paused);
    t.on_event(calc(CMD_ACK, &[]));
    expect_send(&t, CMD_REQ);
    assert_eq!(t.outcome_now(), None);
}

#[test]
fn send_real_full_exchange() {
    let mut t = Transfer::send_real(b'A', 42);
    let var = expect_send(&t, CMD_VAR);
    assert_eq!(var, vec![9, 0, 0, b'A', 0, 0, 0, 0, 0, 0, 0]);
    t.on_event(Event::Sent);
    expect_receive(&t, 10000);
    t.on_event(calc(CMD_ACK, &[]));
    expect_receive(&t, 65535);
    t.on_event(calc(CMD_CTS, &[]));
    assert!(matches!(t.next_action(), Action::Pause { ms: 50 }));
    t.on_event(Event::Paused);
    expect_send(&t, CMD_ACK);
    t.on_event(Event::Sent);
    t.on_event(Event::Paused);
    let data = expect_send(&t, CMD_DATA);
    assert_eq!(data, vec![0x00, 0x81, 0x42, 0, 0, 0, 0, 0, 0]);
    t.on_event(Event::Sent);
    expect_receive(&t, 5000);
    t.on_event(calc(CMD_ACK, &[]));
    t.on_event(Event::Paused);
    expect_send(&t, CMD_EOT);
    t.on_event(Event::Sent);
    expect_receive(&t, 5000);
    t.on_event(calc(CMD_ACK, &[]));
    assert_eq!(t.outcome_now(), Some(Ok(())));
}
