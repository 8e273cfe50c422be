//! Variable headers: the 11 bytes that name and size a variable in `REQ`,
//! `RTS` and `VAR` packets.

use vstd::prelude::*;
use crate::buffers::{bytes11, bytes11_new, bytes11_push};
use crate::encoding::{le16, le16_value};

verus! {

pub const TYPE_REAL: u8 = 0x00;
pub const TYPE_LIST: u8 = 0x01;
pub const TYPE_MATRIX: u8 = 0x02;
pub const TYPE_EQUATION: u8 = 0x03;
pub const TYPE_STRING: u8 = 0x04;
pub const TYPE_PROGRAM: u8 = 0x05;
pub const TYPE_PROGRAM_LOCKED: u8 = 0x06;
pub const TYPE_PICTURE: u8 = 0x07;
pub const TYPE_GDB: u8 = 0x08;
pub const TYPE_WINDOW: u8 = 0x0B;
pub const TYPE_BACKUP: u8 = 0x0F;

/// A variable's size, type and 8-byte zero-padded name.
pub struct VariableHeader {
    pub data_size: u16,
    pub type_id: u8,
    pub name: [u8; 8],
}

/// The 8-byte name field for a name: its first eight bytes, zero-padded.
pub open spec fn name_field(name: Seq<u8>) -> Seq<u8> {
    if name.len() >= 8 {
        name.subrange(0, 8)
    } else {
        name + Seq::new((8 - name.len()) as nat, |i: int| 0u8)
    }
}

/// The wire form of a header: size (little-endian), type, name.
pub open spec fn header_bytes(data_size: u16, type_id: u8, name: Seq<u8>) -> Seq<u8> {
    le16(data_size as nat) + seq![type_id] + name
}

/// The size, type and name in the first 11 bytes; `None` when there are fewer.
pub open spec fn header_fields(bytes: Seq<u8>) -> Option<(nat, u8, Seq<u8>)> {
    if bytes.len() < 11 {
        None
    } else {
        Some((le16_value(bytes), bytes[2], bytes.subrange(3, 11)))
    }
}

impl VariableHeader {
    /// The wire form of this header.
    pub open spec fn wire(&self) -> Seq<u8> {
        header_bytes(self.data_size, self.type_id, self.name@)
    }

    /// A header of the given type and size whose name is the first eight
    /// bytes of `name`, zero-padded.
    pub fn new(type_id: u8, name: &[u8], data_size: u16) -> (r: Self)
        ensures
            r.type_id == type_id,
            r.data_size == data_size,
            r.name@ == name_field(name@),
    {
        let name_array = name_array_of(name);
        Self { data_size, type_id, name: name_array }
    }

    /// A real-number header: the name is the single byte `name_char`.
    pub fn new_real(name_char: u8, data_size: u16) -> (r: Self)
        ensures
            r.type_id == TYPE_REAL,
            r.data_size == data_size,
            r.name@ == seq![name_char, 0u8, 0u8, 0u8, 0u8, 0u8, 0u8, 0u8],
    {
        let mut name = [0u8; 8];
        name[0] = name_char;
        assert(name@ =~= seq![name_char, 0u8, 0u8, 0u8, 0u8, 0u8, 0u8, 0u8]);
        Self { data_size, type_id: TYPE_REAL, name }
    }

    /// A list header: lists L1-L6 are named by the single byte 1-6.
    pub fn new_list(list_num: u8, data_size: u16) -> (r: Self)
        ensures
            r.type_id == TYPE_LIST,
            r.data_size == data_size,
            r.name@ == seq![list_num, 0u8, 0u8, 0u8, 0u8, 0u8, 0u8, 0u8],
    {
        let mut name = [0u8; 8];
        name[0] = list_num;
        assert(name@ =~= seq![list_num, 0u8, 0u8, 0u8, 0u8, 0u8, 0u8, 0u8]);
        Self { data_size, type_id: TYPE_LIST, name }
    }

    /// A string header: Str0-Str9 are named 0xAA followed by the string number.
    pub fn new_string(string_num: u8, data_size: u16) -> (r: Self)
        ensures
            r.type_id == TYPE_STRING,
            r.data_size == data_size,
            r.name@ == seq![0xAAu8, string_num, 0u8, 0u8, 0u8, 0u8, 0u8, 0u8],
    {
        let mut name = [0u8; 8];
        name[0] = 0xAA;
        name[1] = string_num;
        assert(name@ =~= seq![0xAAu8, string_num, 0u8, 0u8, 0u8, 0u8, 0u8, 0u8]);
        Self { data_size, type_id: TYPE_STRING, name }
    }

    /// A program header whose name is the first eight bytes of `name`, zero-padded.
    pub fn new_program(name: &[u8], data_size: u16) -> (r: Self)
        ensures
            r.type_id == TYPE_PROGRAM,
            r.data_size == data_size,
            r.name@ == name_field(name@),
    {
        let name_array = name_array_of(name);
        Self { data_size, type_id: TYPE_PROGRAM, name: name_array }
    }

    /// The 11 wire bytes: size (little-endian), type, name.
    pub fn to_bytes(&self) -> (r: heapless::Vec<u8, 11>)
        ensures
            bytes11(r) == self.wire(),
    {
        let mut bytes = bytes11_new();
        let lo = (self.data_size & 0xFF) as u8;
        let hi = (self.data_size >> 8) as u8;
        let size = self.data_size;
        assert(lo == (size as nat % 256) as u8 && hi == ((size as nat / 256) % 256) as u8)
            by (bit_vector)
            requires
                lo == (size & 0xFF) as u8,
                hi == (size >> 8) as u8,
        ;
        let _ = bytes11_push(&mut bytes, lo);
        let _ = bytes11_push(&mut bytes, hi);
        let _ = bytes11_push(&mut bytes, self.type_id);
        let ghost head = le16(self.data_size as nat) + seq![self.type_id];
        assert(bytes11(bytes) =~= head);
        for i in 0..8
            invariant
                bytes11(bytes) == head + self.name@.subrange(0, i as int),
                head.len() == 3,
        {
            let _ = bytes11_push(&mut bytes, self.name[i]);
            assert(head + self.name@.subrange(0, i + 1) =~= (head + self.name@.subrange(
                0,
                i as int,
            )).push(self.name@[i as int]));
        }
        assert(self.name@.subrange(0, 8) =~= self.name@);
        bytes
    }

    /// Reads a header from the first 11 bytes; `None` when there are fewer.
    pub fn from_bytes(bytes: &[u8]) -> (r: Option<Self>)
        ensures
            r is None <==> bytes@.len() < 11,
            r matches Some(h) ==> header_fields(bytes@) == Some(
                (h.data_size as nat, h.type_id, h.name@),
            ),
    {
        if bytes.len() < 11 {
            return None;
        }
        let data_size = (bytes[1] as u16) << 8 | (bytes[0] as u16);
        let b0 = bytes[0];
        let b1 = bytes[1];
        assert(data_size == b0 as u16 + 256 * (b1 as u16)) by (bit_vector)
            requires
                data_size == (b1 as u16) << 8 | (b0 as u16),
        ;
        let type_id = bytes[2];
        let mut name = [0u8; 8];
        for i in 0..8
            invariant
                bytes@.len() >= 11,
                forall|j: int| 0 <= j < i ==> #[trigger] name@[j] == bytes@[3 + j],
        {
            name[i] = bytes[3 + i];
        }
        assert(name@ =~= bytes@.subrange(3, 11));
        Some(Self { data_size, type_id, name })
    }

    /// The name up to (not including) its first zero byte.
    pub fn name_str(&self) -> (r: &[u8])
        ensures
            r@.len() <= 8,
            r@ == self.name@.subrange(0, r@.len() as int),
            forall|i: int| 0 <= i < r@.len() ==> #[trigger] self.name@[i] != 0,
            r@.len() < 8 ==> self.name@[r@.len() as int] == 0,
    {
        let mut len: usize = 0;
        while len < 8 && self.name[len] != 0
            invariant
                len <= 8,
                forall|i: int| 0 <= i < len ==> #[trigger] self.name@[i] != 0,
            decreases 8 - len,
        {
            len = len + 1;
        }
        let all = self.name.as_slice();
        &all[0..len]
    }
}

/// The first eight bytes of `name`, zero-padded to eight.
fn name_array_of(name: &[u8]) -> (r: [u8; 8])
    ensures
        r@ == name_field(name@),
{
    let mut name_array = [0u8; 8];
    let len = if name.len() < 8 {
        name.len()
    } else {
        8
    };
    for i in 0..len
        invariant
            len <= name@.len(),
            len <= 8,
            forall|j: int| 0 <= j < i ==> #[trigger] name_array@[j] == name@[j],
            forall|j: int| i <= j < 8 ==> #[trigger] name_array@[j] == 0,
    {
        name_array[i] = name[i];
    }
    assert(name_array@ =~= name_field(name@));
    name_array
}

/// Reading back the wire form of a header gives its size, type and name.
pub proof fn law_header_fields_after_bytes(data_size: u16, type_id: u8, name: Seq<u8>)
    requires
        name.len() == 8,
    ensures
        header_fields(header_bytes(data_size, type_id, name)) == Some(
            (data_size as nat, type_id, name),
        ),
{
    let b = header_bytes(data_size, type_id, name);
    assert(b.subrange(3, 11) =~= name);
    assert(le16_value(b) == data_size as nat);
}

/// Writing out the fields read from at least 11 bytes gives those 11 bytes back.
pub proof fn law_header_bytes_after_fields(bytes: Seq<u8>)
    requires
        bytes.len() >= 11,
    ensures
        header_fields(bytes) matches Some((size, type_id, name)) && size < 65536 && header_bytes(
            size as u16,
            type_id,
            name,
        ) == bytes.subrange(0, 11),
{
    let size = le16_value(bytes);
    assert(size < 65536);
    assert(header_bytes(size as u16, bytes[2], bytes.subrange(3, 11)) =~= bytes.subrange(0, 11));
}

} // verus!
