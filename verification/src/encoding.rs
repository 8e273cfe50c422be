//! List and string variable payloads.
//!
//! Both start with a 16-bit little-endian count (of real numbers, or of
//! string bytes) followed by the items. Payloads are built in and read into
//! fixed-capacity buffers: 256 bytes for a payload, 28 entries for a list.

use vstd::prelude::*;
use crate::buffers::{
    bytes256, bytes256_new, bytes256_push, lemma_truncated_push, reals28, reals28_new, reals28_push,
    truncated,
};

verus! {

/// A 16-bit little-endian count; `n` is taken modulo 65536.
pub open spec fn le16(n: nat) -> Seq<u8> {
    seq![(n % 256) as u8, ((n / 256) % 256) as u8]
}

/// The little-endian 16-bit number in the first two bytes.
pub open spec fn le16_value(bytes: Seq<u8>) -> nat {
    bytes[0] as nat + 256 * bytes[1] as nat
}

/// The items one after the other.
pub open spec fn concat_items(items: Seq<Seq<u8>>) -> Seq<u8>
    decreases items.len(),
{
    if items.len() == 0 {
        Seq::empty()
    } else {
        concat_items(items.drop_last()) + items.last()
    }
}

/// The bytes of each 9-byte real number.
pub open spec fn array_views(reals: Seq<[u8; 9]>) -> Seq<Seq<u8>> {
    reals.map_values(|a: [u8; 9]| a@)
}

/// The list payload built from real numbers: the count modulo 65536, then
/// every number's bytes, cut off after 256 bytes.
pub open spec fn list_bytes(items: Seq<Seq<u8>>) -> Seq<u8> {
    truncated(le16(items.len() % 65536) + concat_items(items), 256)
}

/// The `i`-th 9-byte number of a list payload.
pub open spec fn list_entry(bytes: Seq<u8>, i: int) -> Seq<u8> {
    bytes.subrange(2 + 9 * i, 2 + 9 * i + 9)
}

/// The real numbers read from a list payload, at most the first 28; `None`
/// unless the payload is exactly a count and that many 9-byte numbers.
pub open spec fn list_items(bytes: Seq<u8>) -> Option<Seq<Seq<u8>>> {
    if bytes.len() < 2 {
        None
    } else if bytes.len() != 2 + 9 * le16_value(bytes) {
        None
    } else {
        Some(truncated(Seq::new(le16_value(bytes), |i: int| list_entry(bytes, i)), 28))
    }
}

/// How many text bytes a string payload carries: all of the text, up to the
/// 254 that fit after the length in a 256-byte payload.
pub open spec fn string_len(text: Seq<u8>) -> nat {
    if text.len() <= 254 {
        text.len()
    } else {
        254
    }
}

/// The string payload built from text: the number of text bytes it carries
/// as a 16-bit little-endian length, then those bytes.
pub open spec fn string_bytes(text: Seq<u8>) -> Seq<u8> {
    le16(string_len(text)) + text.subrange(0, string_len(text) as int)
}

/// The text read from a string payload, at most its first 256 bytes; `None`
/// unless the payload is exactly a length and that many bytes.
pub open spec fn string_payload(bytes: Seq<u8>) -> Option<Seq<u8>> {
    if bytes.len() < 2 {
        None
    } else if bytes.len() != 2 + le16_value(bytes) {
        None
    } else {
        Some(truncated(bytes.skip(2), 256))
    }
}

proof fn lemma_le16_bytes(size: u16)
    ensures
        (size & 0xFF) as u8 == (size as nat % 256) as u8,
        (size >> 8) as u8 == ((size as nat / 256) % 256) as u8,
{
    assert((size & 0xFF) as u8 == (size % 256) as u8) by (bit_vector);
    assert((size >> 8) as u8 == ((size / 256) % 256) as u8) by (bit_vector);
}

proof fn lemma_le16_read(b0: u8, b1: u8)
    ensures
        ((b1 as u16) << 8 | (b0 as u16)) as nat == b0 as nat + 256 * b1 as nat,
{
    assert(((b1 as u16) << 8 | (b0 as u16)) == b0 as u16 + 256 * (b1 as u16)) by (bit_vector);
}

/// Builds a list payload from real numbers: their count (modulo 65536) as a
/// 16-bit little-endian number, then each number's nine bytes; bytes past the
/// buffer's 256 are dropped.
pub fn encode_list_raw(real_numbers: &[[u8; 9]]) -> (r: heapless::Vec<u8, 256>)
    ensures
        bytes256(r) == list_bytes(array_views(real_numbers@)),
{
    let ghost items = array_views(real_numbers@);
    let mut result = bytes256_new();
    let size = real_numbers.len() as u16;
    assert(size as nat == real_numbers@.len() % 65536) by {
        let n = real_numbers.len();
        assert(n as u16 == n % 65536) by (bit_vector);
    }
    proof {
        lemma_le16_bytes(size);
    }
    let ghost header = le16(real_numbers@.len() % 65536);
    let _ = bytes256_push(&mut result, (size & 0xFF) as u8);
    let _ = bytes256_push(&mut result, (size >> 8) as u8);
    assert(bytes256(result) =~= truncated(header + concat_items(items.subrange(0, 0)), 256)) by {
        assert(header + concat_items(items.subrange(0, 0)) =~= header);
    }

    for i in 0..real_numbers.len()
        invariant
            items == array_views(real_numbers@),
            bytes256(result) == truncated(header + concat_items(items.subrange(0, i as int)), 256),
    {
        let real_num = real_numbers[i];
        let ghost prefix = header + concat_items(items.subrange(0, i as int));
        assert(prefix + real_num@.subrange(0, 0) =~= prefix);
        for j in 0..9
            invariant
                bytes256(result) == truncated(prefix + real_num@.subrange(0, j as int), 256),
        {
            let _ = bytes256_push(&mut result, real_num[j]);
            proof {
                lemma_truncated_push(prefix + real_num@.subrange(0, j as int), real_num@[j as int], 256);
                assert((prefix + real_num@.subrange(0, j as int)).push(real_num@[j as int])
                    =~= prefix + real_num@.subrange(0, j + 1));
            }
        }
        proof {
            let next = items.subrange(0, i + 1);
            assert(next.drop_last() =~= items.subrange(0, i as int));
            assert(next.last() == real_num@);
            assert(real_num@.subrange(0, 9) =~= real_num@);
            assert(header + concat_items(next) =~= prefix + real_num@);
        }
    }
    assert(items.subrange(0, real_numbers@.len() as int) =~= items);
    result
}

/// Reads a list payload into its real numbers: `None` unless the payload is
/// exactly a 16-bit little-endian count followed by that many 9-byte numbers;
/// numbers past the list's 28 entries are dropped.
pub fn decode_list_raw(bytes: &[u8]) -> (r: Option<heapless::Vec<[u8; 9], 28>>)
    ensures
        r is None <==> list_items(bytes@) is None,
        r matches Some(v) ==> list_items(bytes@) == Some(array_views(reals28(v))),
{
    if bytes.len() < 2 {
        return None;
    }
    let size = (bytes[1] as u16) << 8 | (bytes[0] as u16);
    proof {
        lemma_le16_read(bytes@[0], bytes@[1]);
    }
    let expected_len = 2 + (size as usize) * 9;
    if bytes.len() != expected_len {
        return None;
    }
    let ghost entries = Seq::new(size as nat, |i: int| list_entry(bytes@, i));
    let mut result = reals28_new();
    assert(array_views(reals28(result)) =~= truncated(entries.subrange(0, 0), 28));
    for i in 0..size
        invariant
            bytes@.len() == 2 + 9 * size,
            entries == Seq::new(size as nat, |i: int| list_entry(bytes@, i)),
            array_views(reals28(result)) == truncated(entries.subrange(0, i as int), 28),
    {
        let offset = 2 + (i as usize) * 9;
        let mut real_bytes = [0u8; 9];
        for k in 0..9
            invariant
                offset == 2 + 9 * i,
                i < size,
                bytes@.len() == 2 + 9 * size,
                forall|m: int| 0 <= m < k ==> #[trigger] real_bytes@[m] == bytes@[offset + m],
        {
            real_bytes[k] = bytes[offset + k];
        }
        assert(real_bytes@ =~= list_entry(bytes@, i as int));
        let ghost before = reals28(result);
        let _ = reals28_push(&mut result, real_bytes);
        proof {
            assert(array_views(before.push(real_bytes)) =~= array_views(before).push(real_bytes@));
            assert(entries.subrange(0, i + 1) =~= entries.subrange(0, i as int).push(entries[i as int]));
            lemma_truncated_push(entries.subrange(0, i as int), entries[i as int], 28);
        }
    }
    assert(entries.subrange(0, size as int) =~= entries);
    Some(result)
}

/// Builds a string payload in the calculator's string format: a 16-bit
/// little-endian length that counts exactly the bytes after it, then the
/// text, cut after 254 bytes so that the payload fits its 256-byte buffer.
pub fn encode_string(text: &[u8]) -> (r: heapless::Vec<u8, 256>)
    ensures
        bytes256(r) == string_bytes(text@),
        bytes256(r).len() >= 2,
        le16_value(bytes256(r)) == bytes256(r).len() - 2,
        text@.len() <= 254 ==> bytes256(r).skip(2) == text@,
        text@.len() > 254 ==> bytes256(r).skip(2) == text@.subrange(0, 254),
{
    let mut result = bytes256_new();
    let len: u16 = if text.len() < 254 {
        text.len() as u16
    } else {
        254
    };
    proof {
        lemma_le16_bytes(len);
    }
    let ghost header = le16(string_len(text@));
    let _ = bytes256_push(&mut result, (len & 0xFF) as u8);
    let _ = bytes256_push(&mut result, (len >> 8) as u8);
    assert(header + text@.subrange(0, 0) =~= header);
    for i in 0..len as usize
        invariant
            len == string_len(text@),
            len <= text@.len(),
            len <= 254,
            header.len() == 2,
            bytes256(result) == header + text@.subrange(0, i as int),
    {
        let _ = bytes256_push(&mut result, text[i]);
        assert((header + text@.subrange(0, i as int)).push(text@[i as int]) =~= header
            + text@.subrange(0, i + 1));
    }
    assert(bytes256(result).skip(2) =~= text@.subrange(0, len as int));
    assert(text@.len() <= 254 ==> text@.subrange(0, len as int) =~= text@);
    result
}

/// Reads a string payload: `None` unless the payload is exactly a 16-bit
/// little-endian length followed by that many bytes; bytes past the buffer's
/// 256 are dropped.
pub fn decode_string(bytes: &[u8]) -> (r: Option<heapless::Vec<u8, 256>>)
    ensures
        r is None <==> string_payload(bytes@) is None,
        r matches Some(v) ==> string_payload(bytes@) == Some(bytes256(v)),
{
    if bytes.len() < 2 {
        return None;
    }
    let len = (bytes[1] as u16) << 8 | (bytes[0] as u16);
    proof {
        lemma_le16_read(bytes@[0], bytes@[1]);
    }
    let expected_len = 2 + len as usize;
    if bytes.len() != expected_len {
        return None;
    }
    let ghost payload = bytes@.skip(2);
    let mut result = bytes256_new();
    assert(payload.subrange(0, 0) =~= Seq::<u8>::empty());
    for i in 2..expected_len
        invariant
            expected_len == bytes@.len(),
            payload == bytes@.skip(2),
            bytes256(result) == truncated(payload.subrange(0, i - 2), 256),
    {
        let _ = bytes256_push(&mut result, bytes[i]);
        proof {
            lemma_truncated_push(payload.subrange(0, i - 2), bytes@[i as int], 256);
            assert(payload.subrange(0, i - 2).push(bytes@[i as int]) =~= payload.subrange(
                0,
                i + 1 - 2,
            ));
        }
    }
    assert(payload.subrange(0, expected_len - 2) =~= payload);
    Some(result)
}


proof fn lemma_concat_items(items: Seq<Seq<u8>>)
    requires
        forall|i: int| 0 <= i < items.len() ==> (#[trigger] items[i]).len() == 9,
    ensures
        concat_items(items).len() == 9 * items.len(),
        forall|i: int, k: int|
            0 <= i < items.len() && 0 <= k < 9 ==> concat_items(items)[9 * i + k] == #[trigger] items[i][k],
    decreases items.len(),
{
    if items.len() > 0 {
        let init = items.drop_last();
        lemma_concat_items(init);
        assert forall|i: int, k: int|
            0 <= i < items.len() && 0 <= k < 9 implies concat_items(items)[9 * i + k]
            == #[trigger] items[i][k] by {
            if i < items.len() - 1 {
                assert(init[i] == items[i]);
            }
        }
    }
}

/// Reading back a built string payload gives the text, or its first 254
/// bytes when it is longer.
pub proof fn law_decode_after_encode_string(text: Seq<u8>)
    ensures
        string_payload(string_bytes(text)) == Some(text.subrange(0, string_len(text) as int)),
        text.len() <= 254 ==> string_payload(string_bytes(text)) == Some(text),
{
    let b = string_bytes(text);
    assert(le16_value(b) == string_len(text));
    assert(b.skip(2) =~= text.subrange(0, string_len(text) as int));
    assert(text.len() <= 254 ==> text.subrange(0, string_len(text) as int) =~= text);
}

/// A well-formed string payload that fits the 256-byte buffer is rebuilt
/// exactly from the text read out of it.
pub proof fn law_encode_after_decode_string(bytes: Seq<u8>)
    requires
        bytes.len() <= 256,
        string_payload(bytes) is Some,
    ensures
        string_payload(bytes) matches Some(text) && string_bytes(text) == bytes,
{
    let text = bytes.skip(2);
    assert(text.len() <= 254);
    assert(le16(text.len()) =~= bytes.subrange(0, 2));
    assert(le16(text.len()) + text.subrange(0, text.len() as int) =~= bytes);
}

/// A list of at most 28 real numbers survives building its payload and
/// reading it back. (From 29 numbers on the payload no longer fits.)
pub proof fn law_decode_after_encode_list(items: Seq<Seq<u8>>)
    requires
        items.len() <= 28,
        forall|i: int| 0 <= i < items.len() ==> (#[trigger] items[i]).len() == 9,
    ensures
        list_items(list_bytes(items)) == Some(items),
{
    lemma_concat_items(items);
    let b = le16(items.len()) + concat_items(items);
    assert(list_bytes(items) == b);
    assert(le16_value(b) == items.len());
    let entries = Seq::new(items.len(), |i: int| list_entry(b, i));
    assert forall|i: int| 0 <= i < items.len() implies #[trigger] entries[i] == items[i] by {
        assert forall|k: int| 0 <= k < 9 implies entries[i][k] == items[i][k] by {
            assert(entries[i][k] == b[2 + 9 * i + k]);
            assert(b[2 + 9 * i + k] == concat_items(items)[9 * i + k]);
        }
        assert(entries[i] =~= items[i]);
    }
    assert(entries =~= items);
}

/// A well-formed list payload of at most 28 numbers is rebuilt exactly from
/// the numbers read out of it.
pub proof fn law_encode_after_decode_list(bytes: Seq<u8>)
    requires
        list_items(bytes) is Some,
        le16_value(bytes) <= 28,
    ensures
        list_items(bytes) matches Some(items) && list_bytes(items) == bytes,
{
    let n = le16_value(bytes);
    let items = Seq::new(n, |i: int| list_entry(bytes, i));
    assert(truncated(items, 28) == items);
    lemma_concat_items(items);
    let c = concat_items(items);
    assert forall|j: int| 0 <= j < c.len() implies c[j] == bytes[2 + j] by {
        let i = j / 9;
        let k = j % 9;
        assert(j == 9 * i + k);
        assert(c[9 * i + k] == items[i][k]);
    }
    assert(le16(n % 65536) + c =~= bytes);
}
} // verus!
