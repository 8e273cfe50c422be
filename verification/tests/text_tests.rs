use ti82_link::bridge::{command_name, i32_from_le, received_report, unexpected_reply_text, Command, CommandReader};
use ti82_link::host::{
    parse_var_name, program_request_command, send_real_command, should_stop, LineBuffer, LineVerdict,
    ResponseCollector,
};
use ti82_link::tokens::TokenDecoder;

#[test]
fn decode_simple_program_text() {
    let d = TokenDecoder::new();
    assert_eq!(d.decode(&[0xD0, 0x41, 0x3D, 0x35]), "If A=5");
    assert_eq!(d.decode(&[0xDE, 0x22, 0x58, 0x3F, 0x22, 0x2C, 0x58]), "Input \"X?\",X");
    assert_eq!(d.decode(&[0x31, 0x04, 0x42, 0x0D, 0xE0, 0x42]), "1→B\nDisp B");
}

#[test]
fn decode_two_byte_and_unknown_tokens() {
    let d = TokenDecoder::default();
    assert_eq!(d.decode(&[0x7E, 0x05]), "LinReg");
    assert_eq!(d.decode(&[0x7E, 0x00, 0x31]), "ClrList 1");
    assert_eq!(d.decode(&[0x7E]), "[7E]");
    assert_eq!(d.decode(&[0x7E, 0x09]), "[7E][09]");
    assert_eq!(d.decode(&[0xF3, 0x00]), "[F3][00]");
    assert_eq!(d.decode(&[]), "");
}

#[test]
fn decode_program_reads_length_prefix() {
    let d = TokenDecoder::new();
    assert_eq!(d.decode_program(&[3, 0, 0x41, 0x2B, 0x42, 0xFF]), Some("A+B".to_string()));
    assert_eq!(d.decode_program(&[0, 0]), Some(String::new()));
    assert_eq!(d.decode_program(&[3, 0, 0x41]), None);
    assert_eq!(d.decode_program(&[3]), None);
}

#[test]
fn var_names() {
    assert_eq!(parse_var_name("a"), Ok('A'));
    assert_eq!(parse_var_name("Z"), Ok('Z'));
    assert_eq!(parse_var_name("ab"), Err("Variable name must be a single character".to_string()));
    assert_eq!(parse_var_name(""), Err("Variable name must be a single character".to_string()));
    assert_eq!(parse_var_name("é"), Err("Variable name must be a single character".to_string()));
    assert_eq!(parse_var_name("1"), Err("Variable name must be a letter A-Z".to_string()));
}

#[test]
fn host_command_bytes() {
    assert_eq!(send_real_command('A', 42), vec![b'M', b'R', b'A', 42, 0, 0, 0]);
    assert_eq!(send_real_command('B', -2), vec![b'M', b'R', b'B', 0xFE, 0xFF, 0xFF, 0xFF]);
    assert_eq!(program_request_command("COSRULE"), b"PCOSRULE\0".to_vec());
    assert_eq!(program_request_command("VERYLONGNAME"), b"PVERYLONG".to_vec());
}

#[test]
fn line_buffer_splits_on_line_ends() {
    let mut lb = LineBuffer::new();
    let mut lines = Vec::new();
    for &b in b"\r\nOK\r\n\nSTATUS: IDLE\rtail" {
        if let Some(line) = lb.push_byte(b) {
            lines.push(line);
        }
    }
    assert_eq!(lines, vec![b"OK".to_vec(), b"STATUS: IDLE".to_vec()]);
    assert_eq!(lb.pending(), b"tail");
}

#[test]
fn collector_gathers_the_dumped_bytes() {
    let mut c = ResponseCollector::new();
    let reply = [
        "TI-82 Bridge Ready",
        "Requesting variable: A",
        "Sending REQ...",
        "Received 9 bytes:",
        "00 82 42 00 00 00 00 00 00 ",
        "Sending final ACK...",
        "Transfer complete!",
        "OK",
        "ignored",
    ];
    let mut verdicts = Vec::new();
    for line in reply.iter() {
        let v = c.on_line(line);
        verdicts.push(v);
        if v == LineVerdict::Finished {
            break;
        }
    }
    assert_eq!(verdicts[0], LineVerdict::Skipped);
    assert_eq!(verdicts[1], LineVerdict::Kept);
    assert_eq!(*verdicts.last().unwrap(), LineVerdict::Finished);
    assert_eq!(verdicts.len(), 8);
    assert_eq!(c.data_bytes(), &[0x00, 0x82, 0x42, 0, 0, 0, 0, 0, 0]);
    assert_eq!(c.kept_count(), 7);
    assert!(c.transcript().starts_with("Requesting variable: A\nSending REQ..."));
    assert!(c.transcript().ends_with("Transfer complete!\nOK"));
}

#[test]
fn collector_reads_hex_words_like_from_str_radix() {
    let mut c = ResponseCollector::new();
    c.on_line("Requesting variable: B");
    c.on_line("Received 4 bytes:");
    c.on_line("+1f\u{a0}ff 100 g0 0A");
    assert_eq!(c.data_bytes(), &[0x1F, 0xFF, 0x0A]);
    c.on_line("xyz!");
    c.on_line("12 34");
    assert_eq!(c.data_bytes(), &[0x1F, 0xFF, 0x0A]);
}

#[test]
fn collector_error_finishes() {
    let mut c = ResponseCollector::new();
    assert_eq!(c.on_line("ERROR"), LineVerdict::Skipped);
    assert!(!c.has_started());
    c.on_line("Requesting variable: Q");
    assert_eq!(c.on_line("Expected ACK, got: 5A"), LineVerdict::Kept);
    assert_eq!(c.on_line("ERROR"), LineVerdict::Finished);
}

#[test]
fn bridge_reads_commands() {
    let mut r = CommandReader::new();
    let mut got = Vec::new();
    let mut input = vec![b'R', b'A', b'S', b'M', b'X', b'?'];
    input.extend_from_slice(&send_real_command('C', -123456));
    for b in input {
        if let Some(c) = r.feed(b) {
            got.push(c);
        }
    }
    assert_eq!(
        got,
        vec![
            Command::RequestVariable(b'A'),
            Command::Status,
            Command::UnknownType(b'X'),
            Command::Unknown(b'?'),
            Command::SendReal { name: b'C', value: -123456 },
        ]
    );
}

#[test]
fn i32_from_little_endian() {
    assert_eq!(i32_from_le(42, 0, 0, 0), 42);
    assert_eq!(i32_from_le(0xFF, 0xFF, 0xFF, 0xFF), -1);
    assert_eq!(i32_from_le(0, 0, 0, 0x80), i32::MIN);
}

#[test]
fn bridge_report_of_received_data() {
    let data = [0x00, 0x81, 0x42, 0, 0, 0, 0, 0, 0];
    assert_eq!(received_report(&data), "Received 9 bytes:\r\n\r00 81 42 00 00 00 00 00 00 \r\n");
    let long: Vec<u8> = (0..17u8).collect();
    let text = received_report(&long);
    assert!(text.starts_with("Received 17 bytes:\r\n\r00 01 02"));
    assert!(text.ends_with("0E 0F \r10 \r\n"));
    assert_eq!(received_report(&[]), "Received 0 bytes:\r\n\r\n");
}

#[test]
fn host_reads_back_bridge_report() {
    let data: Vec<u8> = (0..40u8).map(|i| i.wrapping_mul(37)).collect();
    let mut c = ResponseCollector::new();
    c.on_line("Requesting variable: A");
    let mut lb = LineBuffer::new();
    for b in received_report(&data).bytes().chain(b"OK\r\n".iter().copied()) {
        if let Some(line) = lb.push_byte(b) {
            c.on_line(&String::from_utf8_lossy(&line));
        }
    }
    assert_eq!(c.data_bytes(), data.as_slice());
}

fn std_hex_words(line: &str) -> Vec<u8> {
    line.split_whitespace().filter_map(|w| u8::from_str_radix(w, 16).ok()).collect()
}

#[test]
fn hex_dump_words_agree_with_std_parsing() {
    let lines = [
        "00 82 42 00",
        "  ff\tFe\u{2003}+7 -1 + ++1 0x10 100 0ff 00ff 1\u{85}2\u{3000}3",
        "\u{a0}\u{1680}a\u{200a}b\u{2028}c\u{2029}d\u{202f}e\u{205f}f ",
        "é1 1é ١ 12",
        "",
    ];
    for line in lines {
        let mut c = ResponseCollector::new();
        c.on_line("Requesting variable: A");
        c.on_line("Received 1 bytes:");
        c.on_line(line);
        assert_eq!(c.data_bytes(), std_hex_words(line).as_slice(), "line {:?}", line);
    }
}

#[test]
fn unexpected_reply_messages() {
    assert_eq!(unexpected_reply_text(0x56, 0x5A), "Expected ACK, got: 5A");
    assert_eq!(unexpected_reply_text(0x06, 0x09), "Expected VAR, got: 09");
    assert_eq!(unexpected_reply_text(0x15, 0xFF), "Expected DATA, got: FF");
    assert_eq!(command_name(0x09), "CTS");
    assert_eq!(command_name(0x92), "EOT");
    assert_eq!(command_name(0xA2), "REQ");
    assert_eq!(command_name(0x00), "?");
}

#[test]
fn reply_reading_stops_on_time() {
    assert!(should_stop(30_001, 0, true, true));
    assert!(should_stop(30_001, 0, true, false));
    assert!(!should_stop(30_000, 5_000, false, false));
    assert!(!should_stop(1_000, 2_000, false, true));
    assert!(should_stop(3_000, 2_500, false, true));
    assert!(should_stop(1_000, 2_001, false, true));
    assert!(!should_stop(1_000, 2_001, true, true));
}
