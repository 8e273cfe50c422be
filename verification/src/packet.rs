//! Link packets: machine id, command id, 16-bit little-endian length, and,
//! for commands that carry data, the data followed by a 16-bit
//! little-endian checksum (the byte sum modulo 65536).
//!
//! Acknowledgement, clear-to-send, end-of-transmission and error packets
//! never carry data, whatever their length field says. A received packet
//! keeps at most 256 data bytes; its checksum is checked over the bytes kept.

use vstd::prelude::*;
use crate::buffers::{bytes256, bytes256_as_slice, bytes256_extend_from_slice, bytes256_new, bytes256_push, lemma_truncated_push, truncated};
use crate::commands::{CMD_ACK, CMD_CTS, CMD_EOT, CMD_ERR};
use crate::encoding::{le16, le16_value};

verus! {

/// Why a link operation failed.
#[derive(Debug, Clone, Copy, PartialEq, Eq, Structural)]
pub enum DBusError {
    /// The other side did not answer in time.
    Timeout,
    /// The other side answered with something unexpected or corrupt.
    LinkError,
}

/// A packet with at most 256 data bytes.
pub struct Packet {
    pub machine_id: u8,
    pub command_id: u8,
    pub data: heapless::Vec<u8, 256>,
}

/// Commands whose packets never carry data.
pub open spec fn is_bare_command(command_id: u8) -> bool {
    command_id == CMD_ACK || command_id == CMD_CTS || command_id == CMD_EOT || command_id
        == CMD_ERR
}

/// Whether a packet with this command and length field carries data.
pub open spec fn carries_data(command_id: u8, len: nat) -> bool {
    !is_bare_command(command_id) && len > 0
}

/// The sum of the bytes.
pub open spec fn byte_sum(data: Seq<u8>) -> nat
    decreases data.len(),
{
    if data.len() == 0 {
        0
    } else {
        byte_sum(data.drop_last()) + data.last() as nat
    }
}

/// The packet checksum: the byte sum modulo 65536.
pub open spec fn checksum(data: Seq<u8>) -> nat {
    byte_sum(data) % 65536
}

/// The bytes sent for a packet.
pub open spec fn packet_wire(machine_id: u8, command_id: u8, data: Seq<u8>) -> Seq<u8> {
    seq![machine_id, command_id] + le16(data.len()) + if carries_data(command_id, data.len()) {
        data + le16(checksum(data))
    } else {
        Seq::empty()
    }
}

/// How many bytes follow a packet's 4-byte header.
pub open spec fn body_len(header: Seq<u8>) -> nat {
    let len = le16_value(header.subrange(2, 4));
    if carries_data(header[1], len) {
        len + 2
    } else {
        0
    }
}

/// The packet read from its 4-byte header and the bytes that follow it: its
/// machine id, command id and kept data (at most 256 bytes), or a link error
/// when the checksum does not match the data kept.
pub open spec fn frame_packet(header: Seq<u8>, body: Seq<u8>) -> Result<(u8, u8, Seq<u8>), DBusError> {
    let len = le16_value(header.subrange(2, 4));
    if !carries_data(header[1], len) {
        Ok((header[0], header[1], Seq::empty()))
    } else {
        let kept = truncated(body.subrange(0, len as int), 256);
        if le16_value(body.subrange(len as int, len + 2int)) == checksum(kept) {
            Ok((header[0], header[1], kept))
        } else {
            Err(DBusError::LinkError)
        }
    }
}

proof fn lemma_byte_sum_push(s: Seq<u8>, b: u8)
    ensures
        byte_sum(s.push(b)) == byte_sum(s) + b,
{
    assert(s.push(b).drop_last() =~= s);
}

impl Packet {
    /// A packet without data.
    pub fn new(machine_id: u8, command_id: u8) -> (r: Self)
        ensures
            r.machine_id == machine_id,
            r.command_id == command_id,
            bytes256(r.data) == Seq::<u8>::empty(),
    {
        Self { machine_id, command_id, data: bytes256_new() }
    }

    /// A packet with the given data, or with none when the data exceeds 256 bytes.
    pub fn with_data(machine_id: u8, command_id: u8, data: &[u8]) -> (r: Self)
        ensures
            r.machine_id == machine_id,
            r.command_id == command_id,
            bytes256(r.data) == if data@.len() <= 256 {
                data@
            } else {
                Seq::<u8>::empty()
            },
    {
        let mut vec = bytes256_new();
        let _ = bytes256_extend_from_slice(&mut vec, data);
        assert(Seq::<u8>::empty() + data@ =~= data@);
        Self { machine_id, command_id, data: vec }
    }

    /// The byte sum of `data` modulo 65536.
    pub fn calculate_checksum(data: &[u8]) -> (r: u16)
        ensures
            r == checksum(data@),
    {
        let mut acc: u16 = 0;
        for i in 0..data.len()
            invariant
                acc == checksum(data@.subrange(0, i as int)),
        {
            proof {
                lemma_byte_sum_push(data@.subrange(0, i as int), data@[i as int]);
                assert(data@.subrange(0, i + 1) =~= data@.subrange(0, i as int).push(data@[i as int]));
                assert((byte_sum(data@.subrange(0, i as int)) % 65536 + data@[i as int]) % 65536
                    == (byte_sum(data@.subrange(0, i as int)) + data@[i as int]) % 65536)
                    by (nonlinear_arith);
            }
            acc = acc.wrapping_add(data[i] as u16);
        }
        assert(data@.subrange(0, data@.len() as int) =~= data@);
        acc
    }

    /// The bytes that sending this packet puts on the link: machine id,
    /// command id, the data length (little-endian), and, unless the command
    /// never carries data or there is none, the data and its checksum.
    pub fn wire_bytes(&self) -> (r: Vec<u8>)
        ensures
            r@ == packet_wire(self.machine_id, self.command_id, bytes256(self.data)),
    {
        let data = bytes256_as_slice(&self.data);
        let mut out: Vec<u8> = Vec::new();
        out.push(self.machine_id);
        out.push(self.command_id);
        let len = data.len() as u16;
        let lo = (len & 0xFF) as u8;
        let hi = (len >> 8) as u8;
        assert(lo == (len as nat % 256) as u8 && hi == ((len as nat / 256) % 256) as u8)
            by (bit_vector)
            requires
                lo == (len & 0xFF) as u8,
                hi == (len >> 8) as u8,
        ;
        out.push(lo);
        out.push(hi);
        let ghost head = seq![self.machine_id, self.command_id] + le16(data@.len());
        assert(out@ =~= head);

        let has_data = match self.command_id {
            0x56 => false,
            0x09 => false,
            0x92 => false,
            0x5A => false,
            _ => data.len() != 0,
        };
        if has_data {
            for i in 0..data.len()
                invariant
                    out@ == head + data@.subrange(0, i as int),
            {
                out.push(data[i]);
                assert(head + data@.subrange(0, i + 1) =~= (head + data@.subrange(0, i as int)).push(
                    data@[i as int],
                ));
            }
            let checksum = Self::calculate_checksum(data);
            let clo = (checksum & 0xFF) as u8;
            let chi = (checksum >> 8) as u8;
            assert(clo == (checksum as nat % 256) as u8 && chi == ((checksum as nat / 256) % 256) as u8)
                by (bit_vector)
                requires
                    clo == (checksum & 0xFF) as u8,
                    chi == (checksum >> 8) as u8,
            ;
            out.push(clo);
            out.push(chi);
            assert(out@ =~= packet_wire(self.machine_id, self.command_id, data@));
        } else {
            assert(out@ =~= packet_wire(self.machine_id, self.command_id, data@));
        }
        out
    }

    /// How many bytes follow the given 4-byte packet header: the data length
    /// plus two checksum bytes when the packet carries data, otherwise none.
    pub fn body_len(header: &[u8; 4]) -> (r: usize)
        ensures
            r == body_len(header@),
    {
        let command_id = header[1];
        let len = (header[3] as u16) << 8 | (header[2] as u16);
        let b2 = header[2];
        let b3 = header[3];
        assert(len == b2 as u16 + 256 * (b3 as u16)) by (bit_vector)
            requires
                len == (b3 as u16) << 8 | (b2 as u16),
        ;
        assert(le16_value(header@.subrange(2, 4)) == len);
        let has_data = match command_id {
            0x56 => false,
            0x09 => false,
            0x92 => false,
            0x5A => false,
            _ => len > 0,
        };
        if has_data {
            len as usize + 2
        } else {
            0
        }
    }

    /// Assembles a received packet from its 4-byte header and the bytes that
    /// followed it. At most 256 data bytes are kept; the packet is refused
    /// with a link error when the received checksum differs from the checksum
    /// of the data kept.
    pub fn from_frame(header: &[u8; 4], body: &[u8]) -> (r: Result<Self, DBusError>)
        requires
            body@.len() == body_len(header@),
        ensures
            r is Ok <==> frame_packet(header@, body@) is Ok,
            r matches Ok(p) ==> frame_packet(header@, body@) == Ok::<(u8, u8, Seq<u8>), DBusError>(
                (p.machine_id, p.command_id, bytes256(p.data)),
            ),
            r matches Err(e) ==> e == DBusError::LinkError,
    {
        let machine_id = header[0];
        let command_id = header[1];
        let n = Self::body_len(header);
        let len = (header[3] as u16) << 8 | (header[2] as u16);
        let b2 = header[2];
        let b3 = header[3];
        assert(len == b2 as u16 + 256 * (b3 as u16)) by (bit_vector)
            requires
                len == (b3 as u16) << 8 | (b2 as u16),
        ;
        assert(le16_value(header@.subrange(2, 4)) == len);
        let mut data = bytes256_new();
        if n == 0 {
            return Ok(Self { machine_id, command_id, data });
        }
        let len = len as usize;
        let ghost received = body@.subrange(0, len as int);
        assert(received.subrange(0, 0) =~= Seq::<u8>::empty());
        for i in 0..len
            invariant
                len + 2 == body@.len(),
                received == body@.subrange(0, len as int),
                bytes256(data) == truncated(received.subrange(0, i as int), 256),
        {
            let _ = bytes256_push(&mut data, body[i]);
            proof {
                lemma_truncated_push(received.subrange(0, i as int), received[i as int], 256);
                assert(received.subrange(0, i + 1) =~= received.subrange(0, i as int).push(
                    received[i as int],
                ));
            }
        }
        assert(received.subrange(0, len as int) =~= received);
        let checksum_low = body[len];
        let checksum_high = body[len + 1];
        let received_checksum = (checksum_high as u16) << 8 | (checksum_low as u16);
        assert(received_checksum == checksum_low as u16 + 256 * (checksum_high as u16)) by (bit_vector)
            requires
                received_checksum == (checksum_high as u16) << 8 | (checksum_low as u16),
        ;
        assert(le16_value(body@.subrange(len as int, len + 2)) == received_checksum);
        let calculated_checksum = Self::calculate_checksum(bytes256_as_slice(&data));
        if received_checksum != calculated_checksum {
            return Err(DBusError::LinkError);
        }
        Ok(Self { machine_id, command_id, data })
    }
}

/// A packet whose data fits the 256-byte buffer, and which either carries no
/// data or has a command that carries data, is received exactly as it was
/// sent: the header announces the right number of following bytes and the
/// frame reads back as the same machine id, command id and data.
pub proof fn law_receive_after_send(machine_id: u8, command_id: u8, data: Seq<u8>)
    requires
        data.len() <= 256,
        data.len() == 0 || !is_bare_command(command_id),
    ensures
        ({
            let wire = packet_wire(machine_id, command_id, data);
            &&& wire.len() >= 4
            &&& body_len(wire.subrange(0, 4)) == wire.len() - 4
            &&& frame_packet(wire.subrange(0, 4), wire.subrange(4, wire.len() as int)) == Ok::<
                (u8, u8, Seq<u8>),
                DBusError,
            >((machine_id, command_id, data))
        }),
{
    let wire = packet_wire(machine_id, command_id, data);
    let header = wire.subrange(0, 4);
    let body = wire.subrange(4, wire.len() as int);
    assert(header.subrange(2, 4) =~= le16(data.len()));
    assert(le16_value(header.subrange(2, 4)) == data.len());
    assert(header[1] == command_id);
    assert(header[0] == machine_id);
    if carries_data(command_id, data.len()) {
        assert(body =~= data + le16(checksum(data)));
        assert(body.subrange(0, data.len() as int) =~= data);
        assert(body.subrange(data.len() as int, data.len() + 2int) =~= le16(checksum(data)));
        assert(le16_value(le16(checksum(data))) == checksum(data));
    } else {
        assert(data.len() == 0);
        assert(data =~= Seq::<u8>::empty());
    }
}


proof fn lemma_byte_sum_update(data: Seq<u8>, i: int, b: u8)
    requires
        0 <= i < data.len(),
    ensures
        byte_sum(data.update(i, b)) + data[i] == byte_sum(data) + b,
    decreases data.len(),
{
    let u = data.update(i, b);
    assert(u.drop_last() =~= if i < data.len() - 1 {
        data.drop_last().update(i, b)
    } else {
        data.drop_last()
    });
    if i < data.len() - 1 {
        lemma_byte_sum_update(data.drop_last(), i, b);
    }
}

/// Changing any one data byte changes the checksum, so a packet whose data
/// arrives with one byte altered is refused.
pub proof fn law_checksum_detects_one_changed_byte(data: Seq<u8>, i: int, b: u8)
    requires
        0 <= i < data.len(),
        b != data[i],
    ensures
        checksum(data.update(i, b)) != checksum(data),
{
    lemma_byte_sum_update(data, i, b);
    let x = byte_sum(data.update(i, b));
    let y = byte_sum(data);
    assert(x % 65536 != y % 65536) by (nonlinear_arith)
        requires
            x + data[i] == y + b,
            b != data[i],
            0 <= b < 256,
            0 <= data[i] < 256,
    ;
}
} // verus!
