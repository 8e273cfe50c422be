use ti82_link::encoding::{decode_list_raw, decode_string, encode_list_raw, encode_string};

#[test]
fn encode_list_writes_count_then_numbers() {
    let a = [0x00, 0x80, 0x10, 0, 0, 0, 0, 0, 0];
    let b = [0x80, 0x81, 0x25, 0, 0, 0, 0, 0, 0];
    let v = encode_list_raw(&[a, b]);
    let mut expected = vec![2u8, 0];
    expected.extend_from_slice(&a);
    expected.extend_from_slice(&b);
    assert_eq!(v.as_slice(), expected.as_slice());
}

#[test]
fn encode_list_empty() {
    let v = encode_list_raw(&[]);
    assert_eq!(v.as_slice(), &[0u8, 0]);
}

#[test]
fn encode_list_truncates_at_buffer_capacity() {
    let items = vec![[7u8; 9]; 30];
    let v = encode_list_raw(&items);
    assert_eq!(v.len(), 256);
    assert_eq!(v[0], 30);
    assert_eq!(v[1], 0);
    assert!(v[2..].iter().all(|&b| b == 7));
}

#[test]
fn list_roundtrip() {
    let items: Vec<[u8; 9]> = (0..28u8).map(|i| [i, 0x80, i, 1, 2, 3, 4, 5, 6]).collect();
    let bytes = encode_list_raw(&items);
    let back = decode_list_raw(bytes.as_slice()).unwrap();
    assert_eq!(back.as_slice(), items.as_slice());
}

#[test]
fn decode_list_refuses_bad_lengths() {
    assert!(decode_list_raw(&[1]).is_none());
    assert!(decode_list_raw(&[1, 0, 1, 2, 3]).is_none());
    let mut ok = vec![1u8, 0];
    ok.extend_from_slice(&[9u8; 9]);
    ok.push(0);
    assert!(decode_list_raw(&ok).is_none());
}

#[test]
fn decode_list_keeps_first_twenty_eight() {
    let mut bytes = vec![30u8, 0];
    for i in 0..30u8 {
        bytes.extend_from_slice(&[i; 9]);
    }
    let v = decode_list_raw(&bytes).unwrap();
    assert_eq!(v.len(), 28);
    assert_eq!(v[27], [27u8; 9]);
}

#[test]
fn encode_string_writes_length_then_text() {
    let v = encode_string(b"HELLO");
    assert_eq!(v.as_slice(), &[5, 0, b'H', b'E', b'L', b'L', b'O']);
}

#[test]
fn encode_string_caps_length() {
    let text = vec![b'x'; 300];
    let v = encode_string(&text);
    assert_eq!(v.len(), 256);
    assert_eq!(v[0], 254);
    assert_eq!(v[1], 0);
}

#[test]
fn string_roundtrip() {
    let text: Vec<u8> = (0..254u32).map(|i| (i % 251) as u8).collect();
    let v = encode_string(&text);
    let back = decode_string(v.as_slice()).unwrap();
    assert_eq!(back.as_slice(), text.as_slice());
}

#[test]
fn string_of_255_bytes_reads_back_its_first_254() {
    let text: Vec<u8> = (0..255u32).map(|i| i as u8).collect();
    let v = encode_string(&text);
    assert_eq!(v.len(), 256);
    let back = decode_string(v.as_slice()).unwrap();
    assert_eq!(back.as_slice(), &text[..254]);
}

#[test]
fn decode_string_refuses_bad_lengths() {
    assert!(decode_string(&[0]).is_none());
    assert!(decode_string(&[3, 0, b'a', b'b']).is_none());
    assert_eq!(decode_string(&[0, 0]).unwrap().len(), 0);
}

#[test]
fn decode_string_keeps_first_256_bytes() {
    let mut bytes = vec![0x2Cu8, 0x01];
    bytes.extend((0..300u32).map(|i| i as u8));
    let v = decode_string(&bytes).unwrap();
    assert_eq!(v.len(), 256);
    assert_eq!(v[255], 255);
}
