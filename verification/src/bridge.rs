//! How the bridge reads the host's commands from its serial port, and the
//! messages and reports it writes back.
//!
//! `R` and a name byte request a real variable from the calculator; `S` asks
//! for the link status; `M`, `R`, a name byte and four little-endian value
//! bytes store an integer in a real variable; `M` followed by another type
//! byte is an unknown type; any other first byte is an unknown command.

use vstd::prelude::*;
use crate::host::{
    announces_dump, contains_text, dump_fold, dump_step, ends_reply, has_hex_digit, hex_dump_bytes,
    hex_digit_value, hex_number, is_line_end_char, is_white_space, le32, scan_hex, split_lines, word_byte,
    word_bytes, word_digits,
};
use crate::commands::{CMD_ACK, CMD_CTS, CMD_DATA, CMD_EOT, CMD_ERR, CMD_REQ, CMD_VAR};
use crate::number::{decimal_digit_list, decimal_digits, lemma_decimal_digits_small};
use crate::text::{digit_char, hex_digit, hex_str};

verus! {

/// A command from the host.
#[derive(Debug, Clone, Copy, PartialEq, Eq, Structural)]
pub enum Command {
    /// Fetch the real variable with this name.
    RequestVariable(u8),
    /// Report whether the link is idle.
    Status,
    /// Store this integer in the real variable with this name.
    SendReal { name: u8, value: i32 },
    /// `M` followed by a type other than `R`.
    UnknownType(u8),
    /// A first byte that starts no command.
    Unknown(u8),
}

/// The little-endian 32-bit number in four bytes.
pub open spec fn le32_value(b: Seq<u8>) -> nat {
    b[0] as nat + 256 * b[1] as nat + 65536 * b[2] as nat + 16777216 * b[3] as nat
}

/// The command that the bytes read since the last command form, or `None`
/// while they are only the start of one.
pub open spec fn command_of(s: Seq<u8>) -> Option<Command> {
    if s.len() == 0 {
        None
    } else if s[0] == 0x52 {
        if s.len() >= 2 {
            Some(Command::RequestVariable(s[1]))
        } else {
            None
        }
    } else if s[0] == 0x53 {
        Some(Command::Status)
    } else if s[0] == 0x4D {
        if s.len() < 2 {
            None
        } else if s[1] != 0x52 {
            Some(Command::UnknownType(s[1]))
        } else if s.len() < 7 {
            None
        } else {
            Some(
                Command::SendReal {
                    name: s[2],
                    value: (le32_value(s.subrange(3, 7)) as u32) as i32,
                },
            )
        }
    } else {
        Some(Command::Unknown(s[0]))
    }
}

/// Collects the bytes of one command at a time.
pub struct CommandReader {
    pending: Vec<u8>,
}

impl CommandReader {
    /// The bytes read since the last complete command.
    pub closed spec fn pending_spec(&self) -> Seq<u8> {
        self.pending@
    }

    /// The pending bytes are the start of a command, never a whole one.
    pub closed spec fn wf(&self) -> bool {
        &&& command_of(self.pending@) is None
        &&& self.pending@.len() < 7
    }

    /// A reader at the start of a command.
    pub fn new() -> (r: Self)
        ensures
            r.wf(),
            r.pending_spec() == Seq::<u8>::empty(),
    {
        CommandReader { pending: Vec::new() }
    }

    /// Whether no byte of a command has been read yet.
    pub fn at_start(&self) -> (r: bool)
        ensures
            r == (self.pending_spec().len() == 0),
    {
        self.pending.len() == 0
    }

    /// Takes the next byte from the host; returns the command it completes,
    /// if any, and then starts over.
    pub fn feed(&mut self, byte: u8) -> (r: Option<Command>)
        requires
            old(self).wf(),
        ensures
            final(self).wf(),
            r == command_of(old(self).pending_spec().push(byte)),
            final(self).pending_spec() == if r is Some {
                Seq::<u8>::empty()
            } else {
                old(self).pending_spec().push(byte)
            },
    {
        self.pending.push(byte);
        let s = self.pending.as_slice();
        let first = s[0];
        let r = if first == 0x52 {
            if s.len() >= 2 {
                Some(Command::RequestVariable(s[1]))
            } else {
                None
            }
        } else if first == 0x53 {
            Some(Command::Status)
        } else if first == 0x4D {
            if s.len() < 2 {
                None
            } else if s[1] != 0x52 {
                Some(Command::UnknownType(s[1]))
            } else if s.len() < 7 {
                None
            } else {
                let value = i32_from_le(s[3], s[4], s[5], s[6]);
                assert(s@.subrange(3, 7) =~= seq![s@[3], s@[4], s@[5], s@[6]]);
                Some(Command::SendReal { name: s[2], value })
            }
        } else {
            Some(Command::Unknown(first))
        };
        if r.is_some() {
            self.pending.clear();
        }
        r
    }
}

/// The signed 32-bit number whose little-endian bytes are given.
pub fn i32_from_le(b0: u8, b1: u8, b2: u8, b3: u8) -> (r: i32)
    ensures
        r == (le32_value(seq![b0, b1, b2, b3]) as u32) as i32,
{
    let u: u32 = (b0 as u32) | ((b1 as u32) << 8) | ((b2 as u32) << 16) | ((b3 as u32) << 24);
    assert(u == b0 as u32 + 256 * (b1 as u32) + 65536 * (b2 as u32) + 16777216 * (b3 as u32))
        by (bit_vector)
        requires
            u == (b0 as u32) | ((b1 as u32) << 8) | ((b2 as u32) << 16) | ((b3 as u32) << 24),
    ;
    u as i32
}

/// The command the host sends to store an integer is read by the bridge as
/// that very request: same name byte, same value.
#[verifier::spinoff_prover]
pub proof fn law_bridge_reads_send_real(name: u8, value: i32)
    ensures
        command_of(seq![0x4Du8, 0x52u8, name] + le32(value as u32)) == Some(
            Command::SendReal { name, value },
        ),
{
    let s = seq![0x4Du8, 0x52u8, name] + le32(value as u32);
    let u = value as u32;
    assert(s.subrange(3, 7) =~= le32(u));
    assert(le32_value(le32(u)) == u as nat);
    assert((u as i32) == value) by (bit_vector)
        requires
            u == value as u32,
    ;
}


/// The name the bridge gives a packet command in its messages.
pub open spec fn command_label(command_id: u8) -> Seq<char> {
    if command_id == CMD_ACK {
        "ACK"@
    } else if command_id == CMD_CTS {
        "CTS"@
    } else if command_id == CMD_DATA {
        "DATA"@
    } else if command_id == CMD_EOT {
        "EOT"@
    } else if command_id == CMD_ERR {
        "ERR"@
    } else if command_id == CMD_REQ {
        "REQ"@
    } else if command_id == CMD_VAR {
        "VAR"@
    } else {
        "?"@
    }
}

/// The name of a packet command, as the bridge's messages give it.
pub fn command_name(command_id: u8) -> (r: &'static str)
    ensures
        r@ == command_label(command_id),
{
    if command_id == CMD_ACK {
        "ACK"
    } else if command_id == CMD_CTS {
        "CTS"
    } else if command_id == CMD_DATA {
        "DATA"
    } else if command_id == CMD_EOT {
        "EOT"
    } else if command_id == CMD_ERR {
        "ERR"
    } else if command_id == CMD_REQ {
        "REQ"
    } else if command_id == CMD_VAR {
        "VAR"
    } else {
        "?"
    }
}

/// What the bridge reports when a reply has the wrong command: `Expected`,
/// the name of the awaited command, `, got: ` and the received command as two
/// upper-case hexadecimal digits.
pub fn unexpected_reply_text(expected: u8, got: u8) -> (r: String)
    ensures
        r@ == "Expected "@ + command_label(expected) + ", got: "@ + seq![
            hex_digit(got / 16),
            hex_digit(got % 16),
        ],
{
    let mut out = String::new();
    out.append("Expected ");
    out.append(command_name(expected));
    out.append(", got: ");
    out.append(hex_str(got / 16));
    out.append(hex_str(got % 16));
    out
}

/// A dumped byte: two upper-case hexadecimal digits and a space.
pub open spec fn byte_hex_text(b: u8) -> Seq<char> {
    seq![hex_digit(b / 16), hex_digit(b % 16)] + " "@
}

/// The dump of `data` from the byte at `i` on: each byte as text, with a
/// carriage return before every byte whose index is a multiple of sixteen.
pub open spec fn dump_from(data: Seq<u8>, i: nat) -> Seq<char>
    decreases data.len() - i,
{
    if i >= data.len() {
        Seq::empty()
    } else {
        (if i % 16 == 0 {
            "\r"@
        } else {
            Seq::empty()
        }) + byte_hex_text(data[i as int]) + dump_from(data, i + 1)
    }
}

/// The hex dump of received data: every byte as text, with a carriage return
/// before the first byte and before every sixteenth after it.
pub open spec fn dump_text(data: Seq<u8>) -> Seq<char> {
    dump_from(data, 0)
}

/// The decimal text of `n`.
pub open spec fn decimal_text(n: nat) -> Seq<char> {
    decimal_digits(n).map_values(|d: u8| digit_char(d))
}

/// What the bridge writes about received data: the count, then the dump,
/// each followed by a line end.
pub open spec fn received_report_text(data: Seq<u8>) -> Seq<char> {
    "Received "@ + decimal_text(data.len()) + " bytes:\r\n"@ + dump_text(data) + "\r\n"@
}

/// Bytes as the dump lists them on one line: each as text, one after the other.
pub open spec fn hex_words(data: Seq<u8>) -> Seq<char>
    decreases data.len(),
{
    if data.len() == 0 {
        Seq::empty()
    } else {
        byte_hex_text(data[0]) + hex_words(data.drop_first())
    }
}

/// The bridge's report of received data: `Received <n> bytes:`, then the
/// bytes in hexadecimal, sixteen to a line, and a final line end.
pub fn received_report(data: &[u8]) -> (r: String)
    ensures
        r@ == received_report_text(data@),
{
    let mut out = String::new();
    out.append("Received ");
    let digits = decimal_digit_list(data.len() as u64);
    proof {
        lemma_decimal_digits_small(data@.len());
    }
    let ghost count = decimal_text(data@.len());
    for k in 0..digits.len()
        invariant
            digits@ == decimal_digits(data@.len()),
            forall|j: int| 0 <= j < digits@.len() ==> #[trigger] digits@[j] < 10,
            count == decimal_text(data@.len()),
            out@ == "Received "@ + count.subrange(0, k as int),
    {
        out.append(hex_str(digits[k]));
        assert(hex_digit(digits@[k as int]) == digit_char(digits@[k as int]));
        assert(out@ =~= "Received "@ + count.subrange(0, k + 1));
    }
    assert(count.subrange(0, digits@.len() as int) =~= count);
    out.append(" bytes:\r\n");
    let ghost head = out@;
    for i in 0..data.len()
        invariant
            out@ + dump_from(data@, i as nat) == head + dump_text(data@),
    {
        let ghost before = out@;
        if i % 16 == 0 {
            out.append("\r");
        }
        let b = data[i];
        out.append(hex_str(b / 16));
        out.append(hex_str(b % 16));
        out.append(" ");
        proof {
            let piece = (if i % 16 == 0 {
                "\r"@
            } else {
                Seq::empty()
            }) + byte_hex_text(b);
            assert(out@ =~= before + piece);
            assert(dump_from(data@, i as nat) == piece + dump_from(data@, (i + 1) as nat));
            assert(before + dump_from(data@, i as nat) =~= out@ + dump_from(data@, (i + 1) as nat));
        }
    }
    assert(out@ + dump_from(data@, data@.len()) =~= out@);
    out.append("\r\n");
    out
}

proof fn lemma_hex_digit_value(n: u8)
    requires
        n < 16,
    ensures
        hex_digit_value(hex_digit(n)) == Some(n as nat),
        !is_white_space(hex_digit(n)),
{
}

/// A line of the dump, read back by the host as a hex-dump line, gives the
/// dumped bytes.
pub proof fn law_host_reads_dump_line(data: Seq<u8>)
    ensures
        hex_dump_bytes(hex_words(data)) == data,
    decreases data.len(),
{
    reveal_strlit(" ");
    if data.len() == 0 {
        assert(word_digits(Seq::<char>::empty()) =~= Seq::<char>::empty());
        assert(word_bytes(Seq::<char>::empty()) =~= Seq::<u8>::empty());
    } else {
        let b = data[0];
        let hi = hex_digit(b / 16);
        let lo = hex_digit(b % 16);
        lemma_hex_digit_value(b / 16);
        lemma_hex_digit_value(b % 16);
        let rest = hex_words(data.drop_first());
        let s = byte_hex_text(b) + rest;
        assert(s =~= seq![hi, lo, ' '] + rest);
        assert(s.drop_first() =~= seq![lo, ' '] + rest);
        assert(s.drop_first().drop_first() =~= seq![' '] + rest);
        assert(s.drop_first().drop_first().drop_first() =~= rest);
        let w = seq![hi, lo];
        assert(Seq::<char>::empty().push(hi).push(lo) =~= w);
        assert(scan_hex(s, Seq::empty()) == scan_hex(s.drop_first(), seq![hi]));
        assert(seq![hi].push(lo) =~= w);
        assert(scan_hex(s.drop_first(), seq![hi]) == scan_hex(s.drop_first().drop_first(), w));
        assert(is_white_space(' '));
        assert(scan_hex(s.drop_first().drop_first(), w) == word_bytes(w) + scan_hex(rest, Seq::empty()));
        assert(word_digits(w) == w);
        assert(w.drop_last() =~= seq![hi]);
        assert(seq![hi].drop_last() =~= Seq::<char>::empty());
        assert(seq![hi].last() == hi);
        assert(hex_number(Seq::<char>::empty()) == 0);
        assert(hex_number(seq![hi]) == (b / 16) as nat);
        assert(hex_number(w) == (b / 16) as nat * 16 + (b % 16) as nat);
        assert(word_byte(w) == Some(b));
        law_host_reads_dump_line(data.drop_first());
        assert(seq![b] + data.drop_first() =~= data);
    }
}

/// A character the dump uses: a space or an upper-case hexadecimal digit.
spec fn is_dump_char(c: char) -> bool {
    let u = c as u32;
    u == 0x20 || (0x30 <= u <= 0x39) || (0x41 <= u <= 0x46)
}

proof fn lemma_hex_words_chars(data: Seq<u8>)
    ensures
        forall|i: int| 0 <= i < hex_words(data).len() ==> is_dump_char(#[trigger] hex_words(data)[i]),
        data.len() > 0 ==> hex_words(data).len() > 0 && hex_digit_value(hex_words(data)[0]) is Some,
    decreases data.len(),
{
    reveal_strlit(" ");
    if data.len() > 0 {
        let b = data[0];
        lemma_hex_digit_value(b / 16);
        lemma_hex_words_chars(data.drop_first());
        let head = byte_hex_text(b);
        assert(head =~= seq![hex_digit(b / 16), hex_digit(b % 16), ' ']);
        assert forall|i: int| 0 <= i < hex_words(data).len() implies is_dump_char(
            #[trigger] hex_words(data)[i],
        ) by {
            if i >= 3 {
                assert(hex_words(data)[i] == hex_words(data.drop_first())[i - 3]);
            }
        }
    }
}

/// A text does not hold `needle` when one of the needle's characters occurs
/// nowhere in it.
proof fn lemma_lacks_char(hay: Seq<char>, needle: Seq<char>, k: int)
    requires
        0 <= k < needle.len(),
        forall|i: int| 0 <= i < hay.len() ==> hay[i] != needle[k],
    ensures
        !contains_text(hay, needle),
{
    if contains_text(hay, needle) {
        let i = choose|i: int|
            0 <= i <= hay.len() - needle.len() && #[trigger] hay.subrange(i, i + needle.len())
                == needle;
        assert(hay.subrange(i, i + needle.len())[k] == hay[i + k]);
    }
}

proof fn lemma_split_plain(a: Seq<char>, t: Seq<char>, p: Seq<char>)
    requires
        forall|i: int| 0 <= i < a.len() ==> !is_line_end_char(#[trigger] a[i]),
    ensures
        split_lines(a + t, p) == split_lines(t, p + a),
    decreases a.len(),
{
    if a.len() == 0 {
        assert(a + t =~= t);
        assert(p + a =~= p);
    } else {
        let s = a + t;
        assert(s[0] == a[0]);
        assert(s.drop_first() =~= a.drop_first() + t);
        lemma_split_plain(a.drop_first(), t, p.push(a[0]));
        assert(p.push(a[0]) + a.drop_first() =~= p + a);
    }
}

proof fn lemma_split_at_end(c: char, t: Seq<char>, p: Seq<char>)
    requires
        is_line_end_char(c),
    ensures
        split_lines(seq![c] + t, p) == (if p.len() > 0 {
            seq![p]
        } else {
            Seq::empty()
        }) + split_lines(t, Seq::empty()),
{
    let s = seq![c] + t;
    assert(s[0] == c);
    assert(s.drop_first() =~= t);
}

proof fn lemma_fold_first(h: bool, d: Seq<u8>, line: Seq<char>, rest: Seq<Seq<char>>)
    ensures
        dump_fold(h, d, seq![line] + rest) == dump_fold(
            dump_step(h, d, line).0,
            dump_step(h, d, line).1,
            rest,
        ),
{
    let lines = seq![line] + rest;
    assert(lines[0] == line);
    assert(lines.drop_first() =~= rest);
}

/// Within one group of sixteen, after its first byte, the dump is the bytes'
/// text with no carriage return.
proof fn lemma_dump_in_group(data: Seq<u8>, i: nat, j: nat, e: nat)
    requires
        i % 16 == 0,
        i < j <= e <= data.len(),
        e <= i + 16,
    ensures
        dump_from(data, j) == hex_words(data.subrange(j as int, e as int)) + dump_from(data, e),
    decreases e - j,
{
    if j == e {
        assert(data.subrange(j as int, e as int) =~= Seq::<u8>::empty());
        assert(Seq::<char>::empty() + dump_from(data, e) =~= dump_from(data, e));
    } else {
        assert(j % 16 != 0) by (nonlinear_arith)
            requires
                i % 16 == 0,
                i < j < i + 16,
        ;
        lemma_dump_in_group(data, i, j + 1, e);
        let sub = data.subrange(j as int, e as int);
        assert(sub.drop_first() =~= data.subrange(j + 1int, e as int));
        assert(sub[0] == data[j as int]);
        assert(Seq::<char>::empty() + byte_hex_text(data[j as int]) =~= byte_hex_text(data[j as int]));
        assert(dump_from(data, j) =~= hex_words(sub) + dump_from(data, e));
    }
}

/// The lines of the dump from a group boundary on, read by a host in its hex
/// dump, add the dumped bytes and keep the dump going; none ends the reply.
proof fn lemma_dump_lines(data: Seq<u8>, i: nat, before: Seq<u8>)
    requires
        i % 16 == 0 || i == data.len(),
        i <= data.len(),
    ensures
        dump_fold(true, before, split_lines(dump_from(data, i) + "\r\n"@, Seq::empty())) == (
            true,
            before + data.subrange(i as int, data.len() as int),
        ),
        forall|k: int|
            0 <= k < split_lines(dump_from(data, i) + "\r\n"@, Seq::empty()).len() ==> !ends_reply(
                #[trigger] split_lines(dump_from(data, i) + "\r\n"@, Seq::empty())[k],
            ),
    decreases data.len() - i,
{
    reveal_strlit("\r\n");
    reveal_strlit("\r");
    let n = data.len();
    let crlf = "\r\n"@;
    assert(crlf =~= seq!['\r'] + seq!['\n']);
    if i == n {
        assert(dump_from(data, i) + crlf =~= seq!['\r'] + (seq!['\n'] + Seq::<char>::empty()));
        lemma_split_at_end('\r', seq!['\n'] + Seq::<char>::empty(), Seq::empty());
        lemma_split_at_end('\n', Seq::<char>::empty(), Seq::empty());
        assert(split_lines(dump_from(data, i) + crlf, Seq::empty()) =~= Seq::<Seq<char>>::empty());
        assert(data.subrange(i as int, n as int) =~= Seq::<u8>::empty());
        assert(before + Seq::<u8>::empty() =~= before);
    } else {
        let e: nat = if i + 16 < n {
            (i + 16) as nat
        } else {
            n as nat
        };
        let chunk = data.subrange(i as int, e as int);
        let w = hex_words(chunk);
        let rest = dump_from(data, e) + crlf;
        // The group's line: a carriage return, then its bytes.
        lemma_dump_in_group(data, i, i + 1, e);
        assert(chunk.drop_first() =~= data.subrange(i + 1int, e as int));
        assert(chunk[0] == data[i as int]);
        assert(w == byte_hex_text(data[i as int]) + hex_words(data.subrange(i + 1int, e as int)));
        assert(dump_from(data, i) + crlf =~= seq!['\r'] + (w + rest));
        lemma_hex_words_chars(chunk);
        assert forall|k: int| 0 <= k < w.len() implies !is_line_end_char(#[trigger] w[k]) by {
            assert(is_dump_char(w[k]));
        }
        lemma_split_at_end('\r', w + rest, Seq::empty());
        lemma_split_plain(w, rest, Seq::empty());
        assert(Seq::<char>::empty() + w =~= w);
        // The line ends at the next carriage return.
        if e < n {
            assert(e % 16 == 0) by (nonlinear_arith)
                requires
                    i % 16 == 0,
                    e == i + 16,
            ;
            let tail = byte_hex_text(data[e as int]) + dump_from(data, e + 1) + crlf;
            assert(rest =~= seq!['\r'] + tail);
            lemma_split_at_end('\r', tail, w);
            lemma_split_at_end('\r', tail, Seq::empty());
        } else {
            assert(rest =~= seq!['\r'] + (seq!['\n'] + Seq::<char>::empty()));
            lemma_split_at_end('\r', seq!['\n'] + Seq::<char>::empty(), w);
            lemma_split_at_end('\n', Seq::<char>::empty(), Seq::empty());
            lemma_split_at_end('\r', seq!['\n'] + Seq::<char>::empty(), Seq::empty());
        }
        let later = split_lines(rest, Seq::empty());
        assert(split_lines(dump_from(data, i) + crlf, Seq::empty()) =~= seq![w] + later);
        // The host reads the group's bytes and stays in the dump.
        law_host_reads_dump_line(chunk);
        assert(has_hex_digit(w));
        assert(!contains_text(w, "Received"@)) by {
            reveal_strlit("Received");
            assert forall|k: int| 0 <= k < w.len() implies w[k] != "Received"@[0] by {
                assert(is_dump_char(w[k]));
            }
            lemma_lacks_char(w, "Received"@, 0);
        }
        assert(!announces_dump(w));
        lemma_fold_first(true, before, w, later);
        lemma_dump_lines(data, e, before + chunk);
        assert(before + chunk + data.subrange(e as int, n as int) =~= before + data.subrange(
            i as int,
            n as int,
        ));
        // No line of the group reports `OK` or `ERROR`.
        assert(!contains_text(w, "OK"@)) by {
            reveal_strlit("OK");
            assert forall|k: int| 0 <= k < w.len() implies w[k] != "OK"@[0] by {
                assert(is_dump_char(w[k]));
            }
            lemma_lacks_char(w, "OK"@, 0);
        }
        assert(!contains_text(w, "ERROR"@)) by {
            reveal_strlit("ERROR");
            assert forall|k: int| 0 <= k < w.len() implies w[k] != "ERROR"@[1] by {
                assert(is_dump_char(w[k]));
            }
            lemma_lacks_char(w, "ERROR"@, 1);
        }
        assert forall|k: int|
            0 <= k < split_lines(dump_from(data, i) + crlf, Seq::empty()).len() implies !ends_reply(
            #[trigger] split_lines(dump_from(data, i) + crlf, Seq::empty())[k],
        ) by {
            if k > 0 {
                assert(split_lines(dump_from(data, i) + crlf, Seq::empty())[k] == later[k - 1]);
            }
        }
    }
}

/// What the bridge writes about received data, split into lines as the host
/// splits them and read by a host that has started collecting the reply,
/// gives back exactly the received bytes after those it had gathered, and
/// none of its lines ends the reply.
pub proof fn law_host_reads_report(data: Seq<u8>, in_hex_dump: bool, before: Seq<u8>)
    ensures
        dump_fold(in_hex_dump, before, split_lines(received_report_text(data), Seq::empty())) == (
            true,
            before + data,
        ),
        forall|k: int|
            0 <= k < split_lines(received_report_text(data), Seq::empty()).len() ==> !ends_reply(
                #[trigger] split_lines(received_report_text(data), Seq::empty())[k],
            ),
{
    reveal_strlit("Received ");
    reveal_strlit(" bytes:\r\n");
    reveal_strlit(" bytes:");
    reveal_strlit("\r\n");
    reveal_strlit("Received");
    reveal_strlit("bytes:");
    reveal_strlit("OK");
    reveal_strlit("ERROR");
    let dec = decimal_text(data.len());
    lemma_decimal_digits_small(data.len());
    assert forall|k: int| 0 <= k < dec.len() implies 0x30 <= (#[trigger] dec[k]) as u32 <= 0x39 by {
        assert(decimal_digits(data.len())[k] < 10);
    }
    let head = "Received "@ + dec + " bytes:"@;
    let body = dump_from(data, 0) + "\r\n"@;
    assert(received_report_text(data) =~= head + (seq!['\r'] + (seq!['\n'] + body)));
    assert forall|k: int| 0 <= k < head.len() implies !is_line_end_char(#[trigger] head[k]) by {
        if 9 <= k < 9 + dec.len() {
            assert(head[k] == dec[k - 9]);
        }
    }
    lemma_split_plain(head, seq!['\r'] + (seq!['\n'] + body), Seq::empty());
    assert(Seq::<char>::empty() + head =~= head);
    lemma_split_at_end('\r', seq!['\n'] + body, head);
    lemma_split_at_end('\n', body, Seq::empty());
    let later = split_lines(body, Seq::empty());
    let lines = split_lines(received_report_text(data), Seq::empty());
    assert(lines =~= seq![head] + later);
    // The first line announces the dump.
    assert(head.subrange(0, 0 + "Received"@.len() as int) =~= "Received"@);
    let at: int = 9 + dec.len() as int + 1;
    assert(head.subrange(at, at + "bytes:"@.len() as int) =~= "bytes:"@);
    assert(announces_dump(head));
    lemma_fold_first(in_hex_dump, before, head, later);
    lemma_dump_lines(data, 0, before);
    assert(data.subrange(0, data.len() as int) =~= data);
    // It reports neither `OK` nor `ERROR`.
    assert forall|k: int| 0 <= k < head.len() implies head[k] != 'O' && head[k] != 'E' by {
        if 9 <= k < 9 + dec.len() {
            assert(head[k] == dec[k - 9]);
        }
    }
    lemma_lacks_char(head, "OK"@, 0);
    lemma_lacks_char(head, "ERROR"@, 0);
    assert forall|k: int| 0 <= k < lines.len() implies !ends_reply(#[trigger] lines[k]) by {
        if k > 0 {
            assert(lines[k] == later[k - 1]);
        }
    }
}
} // verus!
