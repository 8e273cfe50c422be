use ti82_link::commands::{CMD_ACK, CMD_CTS, CMD_DATA, CMD_EOT, CMD_ERR, CMD_REQ, CMD_VAR, MACHINE_ID_COMPUTER};
use ti82_link::packet::{DBusError, Packet};
use ti82_link::variables::{VariableHeader, TYPE_LIST, TYPE_PROGRAM, TYPE_REAL, TYPE_STRING};

#[test]
fn header_constructors_fill_names() {
    let h = VariableHeader::new_real(b'A', 9);
    assert_eq!((h.data_size, h.type_id, h.name), (9, TYPE_REAL, [b'A', 0, 0, 0, 0, 0, 0, 0]));
    let h = VariableHeader::new_list(3, 20);
    assert_eq!((h.data_size, h.type_id, h.name), (20, TYPE_LIST, [3, 0, 0, 0, 0, 0, 0, 0]));
    let h = VariableHeader::new_string(7, 5);
    assert_eq!((h.data_size, h.type_id, h.name), (5, TYPE_STRING, [0xAA, 7, 0, 0, 0, 0, 0, 0]));
    let h = VariableHeader::new_program(b"COSRULE", 297);
    assert_eq!((h.data_size, h.type_id), (297, TYPE_PROGRAM));
    assert_eq!(&h.name, b"COSRULE\0");
    let h = VariableHeader::new(0x0B, b"WINDOWSETTINGS", 1);
    assert_eq!(&h.name, b"WINDOWSE");
    assert_eq!(h.type_id, 0x0B);
}

#[test]
fn header_to_bytes_layout() {
    let h = VariableHeader::new_program(b"AB", 0x0129);
    let b = h.to_bytes();
    assert_eq!(b.as_slice(), &[0x29, 0x01, TYPE_PROGRAM, b'A', b'B', 0, 0, 0, 0, 0, 0]);
}

#[test]
fn header_roundtrip() {
    let h = VariableHeader::new(4, b"\xAA\x03", 0xBEEF);
    let b = h.to_bytes();
    let back = VariableHeader::from_bytes(b.as_slice()).unwrap();
    assert_eq!((back.data_size, back.type_id, back.name), (h.data_size, h.type_id, h.name));
}

#[test]
fn header_from_bytes_needs_eleven() {
    assert!(VariableHeader::from_bytes(&[0u8; 10]).is_none());
    let mut bytes = vec![9, 0, 0, b'X', 0, 0, 0, 0, 0, 0, 0];
    bytes.extend_from_slice(&[1, 2, 3]);
    let h = VariableHeader::from_bytes(&bytes).unwrap();
    assert_eq!(h.to_bytes().as_slice(), &bytes[..11]);
}

#[test]
fn header_name_str_stops_at_zero() {
    assert_eq!(VariableHeader::new_program(b"HELLO", 0).name_str(), b"HELLO");
    assert_eq!(VariableHeader::new_program(b"ABCDEFGHIJ", 0).name_str(), b"ABCDEFGH");
    assert_eq!(VariableHeader::new_program(b"", 0).name_str(), b"");
}

#[test]
fn checksum_is_byte_sum_mod_65536() {
    assert_eq!(Packet::calculate_checksum(&[]), 0);
    assert_eq!(Packet::calculate_checksum(&[1, 2, 3]), 6);
    assert_eq!(Packet::calculate_checksum(&[0xFF; 300]), ((0xFFu32 * 300) % 65536) as u16);
}

#[test]
fn packet_with_data_refuses_oversized_data() {
    let p = Packet::with_data(1, CMD_DATA, &[5u8; 256]);
    assert_eq!(p.data.len(), 256);
    let p = Packet::with_data(1, CMD_DATA, &[5u8; 257]);
    assert_eq!(p.data.len(), 0);
    let p = Packet::new(2, CMD_ACK);
    assert_eq!((p.machine_id, p.command_id, p.data.len()), (2, CMD_ACK, 0));
}

#[test]
fn wire_bytes_of_bare_and_data_packets() {
    let ack = Packet::new(MACHINE_ID_COMPUTER, CMD_ACK);
    assert_eq!(ack.wire_bytes(), vec![0x03, 0x56, 0, 0]);
    let data = Packet::with_data(MACHINE_ID_COMPUTER, CMD_DATA, &[0x00, 0x81, 0x42, 0, 0, 0, 0, 0, 0]);
    assert_eq!(
        data.wire_bytes(),
        vec![0x03, 0x15, 9, 0, 0x00, 0x81, 0x42, 0, 0, 0, 0, 0, 0, 0xC3, 0x00]
    );
    let odd = Packet::with_data(MACHINE_ID_COMPUTER, CMD_ACK, &[1, 2]);
    assert_eq!(odd.wire_bytes(), vec![0x03, 0x56, 2, 0]);
}

#[test]
fn request_packet_matches_header() {
    let h = VariableHeader::new_real(b'A', 0);
    let p = Packet::with_data(MACHINE_ID_COMPUTER, CMD_REQ, h.to_bytes().as_slice());
    assert_eq!(
        p.wire_bytes(),
        vec![0x03, 0xA2, 11, 0, 0, 0, 0, b'A', 0, 0, 0, 0, 0, 0, 0, 0x41, 0x00]
    );
}

#[test]
fn frame_roundtrip() {
    for (cmd, data) in [
        (CMD_VAR, vec![9u8, 0, 0, b'A', 0, 0, 0, 0, 0, 0, 0]),
        (CMD_CTS, vec![]),
        (CMD_EOT, vec![]),
        (CMD_DATA, (0..=255u8).collect::<Vec<u8>>()),
    ] {
        let p = Packet::with_data(0x82, cmd, &data);
        let wire = p.wire_bytes();
        let header: [u8; 4] = wire[..4].try_into().unwrap();
        assert_eq!(Packet::body_len(&header), wire.len() - 4);
        let back = Packet::from_frame(&header, &wire[4..]).unwrap();
        assert_eq!((back.machine_id, back.command_id), (0x82, cmd));
        assert_eq!(back.data.as_slice(), data.as_slice());
    }
}

#[test]
fn frame_with_bad_checksum_is_a_link_error() {
    let header = [0x82, CMD_DATA, 2, 0];
    assert_eq!(Packet::body_len(&header), 4);
    assert!(matches!(Packet::from_frame(&header, &[1, 2, 3, 0]), Ok(_)));
    assert!(matches!(Packet::from_frame(&header, &[1, 2, 4, 0]), Err(DBusError::LinkError)));
}

#[test]
fn bare_commands_never_carry_data() {
    for cmd in [CMD_ACK, CMD_CTS, CMD_EOT, CMD_ERR] {
        assert_eq!(Packet::body_len(&[0x82, cmd, 5, 0]), 0);
        let p = Packet::from_frame(&[0x82, cmd, 5, 0], &[]).unwrap();
        assert_eq!(p.data.len(), 0);
    }
    assert_eq!(Packet::body_len(&[0x82, CMD_VAR, 0, 0]), 0);
    assert_eq!(Packet::body_len(&[0x82, CMD_VAR, 0x2C, 0x01]), 302);
}

#[test]
fn received_data_beyond_256_bytes_is_dropped_before_checksum() {
    let data: Vec<u8> = (0..300u32).map(|i| i as u8).collect();
    let kept_sum: u32 = data[..256].iter().map(|&b| b as u32).sum();
    let mut body = data.clone();
    body.push((kept_sum & 0xFF) as u8);
    body.push((kept_sum >> 8) as u8);
    let header = [0x82, CMD_DATA, 0x2C, 0x01];
    let p = Packet::from_frame(&header, &body).unwrap();
    assert_eq!(p.data.as_slice(), &data[..256]);
}
