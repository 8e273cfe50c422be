//! The serial protocol between the host and the bridge: the command bytes
//! the host sends, how the bridge reads them, and how the host splits and
//! reads the bridge's text replies.

use vstd::prelude::*;
use crate::variables::name_field;
use vstd::string::{StrSliceExecFns, StringSliceAdditionalSpecFns};

verus! {

broadcast use vstd::string::group_string_axioms;

/// Upper-cases an ASCII lower-case letter and leaves other bytes alone.
pub open spec fn ascii_upper(b: u8) -> u8 {
    if 0x61 <= b <= 0x7A {
        (b - 32) as u8
    } else {
        b
    }
}

/// Whether `b` is an ASCII letter.
pub open spec fn is_ascii_letter(b: u8) -> bool {
    (0x41 <= b <= 0x5A) || (0x61 <= b <= 0x7A)
}

/// The variable letter named on the command line: a single letter, taken in
/// upper case.
pub open spec fn var_name_of(bytes: Seq<u8>) -> Option<char> {
    if bytes.len() != 1 || !is_ascii_letter(bytes[0]) {
        None
    } else {
        Some(ascii_upper(bytes[0]) as char)
    }
}

/// A variable name is one ASCII letter, taken in upper case: `a` to `z`
/// become `A` to `Z`, `A` to `Z` stay as they are, and any other byte, or any
/// other number of bytes, is refused.
pub proof fn law_var_name_upper_case(bytes: Seq<u8>)
    ensures
        bytes.len() == 1 && 0x61 <= bytes[0] <= 0x7A ==> (var_name_of(bytes) matches Some(c) && c
            as u32 + 32 == bytes[0] as u32),
        bytes.len() == 1 && 0x41 <= bytes[0] <= 0x5A ==> (var_name_of(bytes) matches Some(c) && c
            as u32 == bytes[0] as u32),
        bytes.len() != 1 || !(0x41 <= bytes[0] <= 0x5A || 0x61 <= bytes[0] <= 0x7A) ==> var_name_of(
            bytes,
        ) is None,
        var_name_of(bytes) matches Some(c) ==> 0x41 <= c as u32 <= 0x5A,
{
}

/// Reads a variable name given on the command line: exactly one character,
/// which must be a letter; it is returned in upper case.
pub fn parse_var_name(s: &str) -> (r: Result<char, String>)
    ensures
        r matches Ok(c) ==> var_name_of(s.spec_bytes()) == Some(c),
        r is Err <==> var_name_of(s.spec_bytes()) is None,
        r matches Err(msg) ==> msg@ == if s.spec_bytes().len() != 1 {
            "Variable name must be a single character"@
        } else {
            "Variable name must be a letter A-Z"@
        },
{
    let bytes = s.as_bytes();
    if bytes.len() != 1 {
        return Err("Variable name must be a single character".to_string());
    }
    let b = bytes[0];
    let upper = if 0x61 <= b && b <= 0x7A {
        b - 32
    } else {
        b
    };
    if !(0x41 <= upper && upper <= 0x5A) {
        return Err("Variable name must be a letter A-Z".to_string());
    }
    Ok(upper as char)
}

/// The little-endian bytes of a 32-bit value.
pub open spec fn le32(v: u32) -> Seq<u8> {
    seq![(v % 256) as u8, ((v / 256) % 256) as u8, ((v / 65536) % 256) as u8, (v / 16777216) as u8]
}

/// The command that asks the bridge to store `value` in the real variable
/// `name` on the calculator: `M`, `R`, the name byte, then the value as four
/// little-endian bytes.
pub fn send_real_command(name: char, value: i32) -> (r: Vec<u8>)
    ensures
        r@ == seq![0x4Du8, 0x52u8, name as u8] + le32(value as u32),
{
    let mut cmd: Vec<u8> = Vec::new();
    cmd.push(0x4D);
    cmd.push(0x52);
    cmd.push(name as u8);
    let v = value as u32;
    let b0 = (v & 0xFF) as u8;
    let b1 = ((v >> 8) & 0xFF) as u8;
    let b2 = ((v >> 16) & 0xFF) as u8;
    let b3 = (v >> 24) as u8;
    assert(b0 == (v % 256) as u8 && b1 == ((v / 256) % 256) as u8 && b2 == ((v / 65536) % 256) as u8
        && b3 == (v / 16777216) as u8) by (bit_vector)
        requires
            b0 == (v & 0xFF) as u8,
            b1 == ((v >> 8) & 0xFF) as u8,
            b2 == ((v >> 16) & 0xFF) as u8,
            b3 == (v >> 24) as u8,
    ;
    cmd.push(b0);
    cmd.push(b1);
    cmd.push(b2);
    cmd.push(b3);
    assert(cmd@ =~= seq![0x4Du8, 0x52u8, name as u8] + le32(value as u32));
    cmd
}

/// The command that asks the bridge for a program: `P`, then the program
/// name's first eight bytes, zero-padded to eight.
pub fn program_request_command(name: &str) -> (r: Vec<u8>)
    ensures
        r@ == seq![0x50u8] + name_field(name.spec_bytes()),
{
    let mut cmd: Vec<u8> = Vec::new();
    cmd.push(0x50);
    let name_bytes = name.as_bytes();
    let len = if name_bytes.len() < 8 {
        name_bytes.len()
    } else {
        8
    };
    for i in 0..len
        invariant
            len <= 8,
            len <= name_bytes@.len(),
            cmd@ == seq![0x50u8] + name_bytes@.subrange(0, i as int),
    {
        cmd.push(name_bytes[i]);
        assert(cmd@ =~= seq![0x50u8] + name_bytes@.subrange(0, i + 1));
    }
    for i in len..8
        invariant
            cmd@ == seq![0x50u8] + name_bytes@.subrange(0, len as int) + Seq::new(
                (i - len) as nat,
                |j: int| 0u8,
            ),
    {
        cmd.push(0);
        assert(cmd@ =~= seq![0x50u8] + name_bytes@.subrange(0, len as int) + Seq::new(
            (i + 1 - len) as nat,
            |j: int| 0u8,
        ));
    }
    assert(cmd@ =~= seq![0x50u8] + name_field(name_bytes@));
    cmd
}

/// Whether a byte ends a line of the bridge's output.
pub open spec fn is_line_end(b: u8) -> bool {
    b == 0x0D || b == 0x0A
}

/// Splits the bridge's output into lines: carriage returns and line feeds end
/// a line, and empty lines are dropped.
pub struct LineBuffer {
    pending: Vec<u8>,
}

impl LineBuffer {
    /// The bytes of the line read so far.
    pub closed spec fn pending_spec(&self) -> Seq<u8> {
        self.pending@
    }

    /// A buffer with nothing read.
    pub fn new() -> (r: Self)
        ensures
            r.pending_spec() == Seq::<u8>::empty(),
    {
        LineBuffer { pending: Vec::new() }
    }

    /// Takes the next byte. A line end completes the pending line, which is
    /// returned unless it is empty; any other byte is added to it.
    pub fn push_byte(&mut self, byte: u8) -> (r: Option<Vec<u8>>)
        ensures
            is_line_end(byte) ==> final(self).pending_spec() == Seq::<u8>::empty() && match r {
                Some(line) => old(self).pending_spec().len() > 0 && line@ == old(self).pending_spec(),
                None => old(self).pending_spec().len() == 0,
            },
            !is_line_end(byte) ==> r is None && final(self).pending_spec() == old(self).pending_spec().push(byte),
    {
        if byte == 0x0D || byte == 0x0A {
            if self.pending.len() == 0 {
                return None;
            }
            let mut line: Vec<u8> = Vec::new();
            std::mem::swap(&mut line, &mut self.pending);
            return Some(line);
        }
        self.pending.push(byte);
        None
    }

    /// The bytes of the line read so far.
    pub fn pending(&self) -> (r: &[u8])
        ensures
            r@ == self.pending_spec(),
    {
        self.pending.as_slice()
    }
}


/// Whether `c` is white space as Unicode defines it (what `char::is_whitespace`
/// tests).
pub open spec fn is_white_space(c: char) -> bool {
    let u = c as u32;
    (0x09 <= u <= 0x0D) || u == 0x20 || u == 0x85 || u == 0xA0 || u == 0x1680 || (0x2000 <= u
        <= 0x200A) || u == 0x2028 || u == 0x2029 || u == 0x202F || u == 0x205F || u == 0x3000
}

/// The value of an ASCII hexadecimal digit (either case).
pub open spec fn hex_digit_value(c: char) -> Option<nat> {
    let u = c as u32;
    if 0x30 <= u <= 0x39 {
        Some((u - 0x30) as nat)
    } else if 0x41 <= u <= 0x46 {
        Some((u - 0x41 + 10) as nat)
    } else if 0x61 <= u <= 0x66 {
        Some((u - 0x61 + 10) as nat)
    } else {
        None
    }
}

/// The number that hexadecimal digits spell, most significant first.
pub open spec fn hex_number(digits: Seq<char>) -> nat
    decreases digits.len(),
{
    if digits.len() == 0 {
        0
    } else {
        hex_number(digits.drop_last()) * 16 + match hex_digit_value(digits.last()) {
            Some(v) => v,
            None => 0,
        }
    }
}

/// A word without its leading `+`, if it has one.
pub open spec fn word_digits(word: Seq<char>) -> Seq<char> {
    if word.len() >= 1 && word[0] == '+' {
        word.drop_first()
    } else {
        word
    }
}

/// The byte a word reads as in base 16 (as `u8::from_str_radix` reads it):
/// an optional `+`, then at least one hexadecimal digit, with a value that
/// fits in a byte.
pub open spec fn word_byte(word: Seq<char>) -> Option<u8> {
    let digits = word_digits(word);
    if digits.len() > 0 && (forall|i: int| 0 <= i < digits.len() ==> #[trigger] hex_digit_value(
        digits[i],
    ) is Some) && hex_number(digits) <= 255 {
        Some(hex_number(digits) as u8)
    } else {
        None
    }
}

/// The byte of a word, if it reads as one.
pub open spec fn word_bytes(word: Seq<char>) -> Seq<u8> {
    match word_byte(word) {
        Some(b) => seq![b],
        None => Seq::empty(),
    }
}

/// The bytes of the white-space separated words of `s` that read as
/// hexadecimal bytes, where `word` is the part of a word already passed.
pub open spec fn scan_hex(s: Seq<char>, word: Seq<char>) -> Seq<u8>
    decreases s.len(),
{
    if s.len() == 0 {
        word_bytes(word)
    } else if is_white_space(s[0]) {
        word_bytes(word) + scan_hex(s.drop_first(), Seq::empty())
    } else {
        scan_hex(s.drop_first(), word.push(s[0]))
    }
}

/// The bytes listed on a line of a hex dump: its white-space separated words
/// that read as hexadecimal bytes.
pub open spec fn hex_dump_bytes(line: Seq<char>) -> Seq<u8> {
    scan_hex(line, Seq::empty())
}

/// Whether `needle` occurs in `hay`.
pub open spec fn contains_text(hay: Seq<char>, needle: Seq<char>) -> bool {
    exists|i: int| 0 <= i <= hay.len() - needle.len() && #[trigger] hay.subrange(i, i + needle.len()) == needle
}

/// Whether a line has an ASCII hexadecimal digit.
pub open spec fn has_hex_digit(line: Seq<char>) -> bool {
    exists|i: int| 0 <= i < line.len() && #[trigger] hex_digit_value(line[i]) is Some
}

/// The lines joined with line feeds between them.
pub open spec fn join_lines(lines: Seq<Seq<char>>) -> Seq<char>
    decreases lines.len(),
{
    if lines.len() == 0 {
        Seq::empty()
    } else if lines.len() == 1 {
        lines[0]
    } else {
        join_lines(lines.drop_last()) + "\n"@ + lines.last()
    }
}

/// The characters of a string.
fn chars_of(s: &str) -> (r: Vec<char>)
    ensures
        r@ == s@,
{
    let n = s.unicode_len();
    let mut v: Vec<char> = Vec::new();
    for i in 0..n
        invariant
            n == s@.len(),
            v@ == s@.subrange(0, i as int),
    {
        v.push(s.get_char(i));
        assert(v@ =~= s@.subrange(0, i + 1));
    }
    assert(s@.subrange(0, n as int) =~= s@);
    v
}

/// Whether `needle` occurs in `hay`.
fn text_contains(hay: &Vec<char>, needle: &str) -> (r: bool)
    ensures
        r == contains_text(hay@, needle@),
{
    let pat = chars_of(needle);
    if pat.len() == 0 {
        assert(hay@.subrange(0int, 0int + needle@.len()) =~= needle@);
        return true;
    }
    if pat.len() > hay.len() {
        return false;
    }
    let last = hay.len() - pat.len();
    let mut i: usize = 0;
    while i <= last
        invariant
            pat@ == needle@,
            0 < pat@.len() <= hay@.len(),
            hay@.len() <= usize::MAX,
            last == hay@.len() - pat@.len(),
            forall|k: int| 0 <= k < i ==> #[trigger] hay@.subrange(k, k + pat@.len()) != pat@,
        decreases last + 1 - i,
    {
        let mut j: usize = 0;
        while j < pat.len() && hay[i + j] == pat[j]
            invariant
                j <= pat@.len(),
                0 < pat@.len() <= hay@.len(),
                hay@.len() <= usize::MAX,
                i <= last,
                last == hay@.len() - pat@.len(),
                forall|m: int| 0 <= m < j ==> hay@[i + m] == pat@[m],
            decreases pat@.len() - j,
        {
            j += 1;
        }
        if j == pat.len() {
            assert(hay@.subrange(i as int, i + pat@.len()) =~= pat@);
            return true;
        }
        assert(hay@.subrange(i as int, i + pat@.len())[j as int] != pat@[j as int]);
        i += 1;
    }
    assert forall|k: int| 0 <= k <= hay@.len() - needle@.len() implies #[trigger] hay@.subrange(
        k,
        k + needle@.len(),
    ) != needle@ by {}
    false
}

/// Whether `c` is Unicode white space.
fn white_space(c: char) -> (r: bool)
    ensures
        r == is_white_space(c),
{
    let u = c as u32;
    (0x09 <= u && u <= 0x0D) || u == 0x20 || u == 0x85 || u == 0xA0 || u == 0x1680 || (0x2000 <= u
        && u <= 0x200A) || u == 0x2028 || u == 0x2029 || u == 0x202F || u == 0x205F || u == 0x3000
}

/// The value of an ASCII hexadecimal digit.
fn hex_value(c: char) -> (r: Option<u32>)
    ensures
        match r {
            Some(v) => hex_digit_value(c) == Some(v as nat),
            None => hex_digit_value(c) is None,
        },
{
    let u = c as u32;
    if 0x30 <= u && u <= 0x39 {
        Some(u - 0x30)
    } else if 0x41 <= u && u <= 0x46 {
        Some(u - 0x41 + 10)
    } else if 0x61 <= u && u <= 0x66 {
        Some(u - 0x61 + 10)
    } else {
        None
    }
}

/// The byte a word reads as in base 16, if any.
fn read_word_byte(word: &Vec<char>) -> (r: Option<u8>)
    ensures
        r == word_byte(word@),
{
    let start: usize = if word.len() >= 1 && word[0] == '+' {
        1
    } else {
        0
    };
    let ghost digits = word@.subrange(start as int, word@.len() as int);
    assert(digits =~= word_digits(word@));
    if start >= word.len() {
        return None;
    }
    let mut value: u32 = 0;
    let mut i = start;
    assert(digits.subrange(0, 0) =~= Seq::<char>::empty());
    while i < word.len()
        invariant
            start <= i <= word@.len(),
            digits == word@.subrange(start as int, word@.len() as int),
            digits == word_digits(word@),
            forall|k: int| 0 <= k < i - start ==> #[trigger] hex_digit_value(digits[k]) is Some,
            value <= 255 ==> value == hex_number(digits.subrange(0, i - start)),
            value > 255 ==> hex_number(digits.subrange(0, i - start)) > 255,
            value <= 4095,
        decreases word@.len() - i,
    {
        let c = word[i];
        let d = match hex_value(c) {
            Some(d) => d,
            None => {
                assert(hex_digit_value(digits[i - start]) is None);
                return None;
            },
        };
        let ghost prefix = digits.subrange(0, i - start);
        assert(digits.subrange(0, i + 1 - start).drop_last() =~= prefix);
        assert(digits.subrange(0, i + 1 - start).last() == c);
        if value <= 255 {
            value = value * 16 + d;
        }
        i += 1;
    }
    assert(digits.subrange(0, word@.len() - start) =~= digits);
    if value <= 255 {
        Some(value as u8)
    } else {
        None
    }
}

/// The bytes listed on a hex-dump line.
fn read_hex_dump(line: &Vec<char>) -> (r: Vec<u8>)
    ensures
        r@ == hex_dump_bytes(line@),
{
    let mut out: Vec<u8> = Vec::new();
    let mut word: Vec<char> = Vec::new();
    let mut i: usize = 0;
    assert(line@.skip(0) =~= line@);
    while i < line.len()
        invariant
            i <= line@.len(),
            out@ + scan_hex(line@.skip(i as int), word@) == hex_dump_bytes(line@),
        decreases line@.len() - i,
    {
        let c = line[i];
        let ghost rest = line@.skip(i as int);
        assert(rest.drop_first() =~= line@.skip(i + 1));
        if white_space(c) {
            let ghost before = out@;
            if let Some(b) = read_word_byte(&word) {
                out.push(b);
            }
            assert(out@ == before + word_bytes(word@));
            assert(before + (word_bytes(word@) + scan_hex(rest.drop_first(), Seq::empty())) =~= out@
                + scan_hex(line@.skip(i + 1), Seq::empty()));
            word.clear();
        } else {
            word.push(c);
        }
        i += 1;
    }
    let ghost before = out@;
    if let Some(b) = read_word_byte(&word) {
        out.push(b);
    }
    assert(line@.skip(i as int) =~= Seq::<char>::empty());
    assert(out@ =~= before + word_bytes(word@));
    out
}

/// Whether a line has an ASCII hexadecimal digit.
fn line_has_hex_digit(line: &Vec<char>) -> (r: bool)
    ensures
        r == has_hex_digit(line@),
{
    for i in 0..line.len()
        invariant
            forall|k: int| 0 <= k < i ==> hex_digit_value(#[trigger] line@[k]) is None,
    {
        if hex_value(line[i]).is_some() {
            return true;
        }
    }
    false
}

/// Whether a line announces the variable request that starts a reply.
pub open spec fn announces_request(line: Seq<char>) -> bool {
    contains_text(line, "Requesting variable"@)
}

/// Whether a line announces the hex dump of the received data.
pub open spec fn announces_dump(line: Seq<char>) -> bool {
    contains_text(line, "Received"@) && contains_text(line, "bytes:"@)
}

/// Whether a line ends a reply: it reports `OK` or `ERROR`.
pub open spec fn ends_reply(line: Seq<char>) -> bool {
    contains_text(line, "OK"@) || contains_text(line, "ERROR"@)
}

/// How a line of a started reply changes the hex-dump mode and the gathered
/// bytes: the dump announcement starts the dump; in a dump, a line adds the
/// bytes it lists and the dump goes on while lines have hexadecimal digits;
/// outside a dump nothing is gathered.
pub open spec fn dump_step(in_hex_dump: bool, data: Seq<u8>, line: Seq<char>) -> (bool, Seq<u8>) {
    if announces_dump(line) {
        (true, data)
    } else if in_hex_dump {
        (has_hex_digit(line), data + hex_dump_bytes(line))
    } else {
        (false, data)
    }
}

/// The hex-dump mode and gathered bytes after the lines of a started reply.
pub open spec fn dump_fold(in_hex_dump: bool, data: Seq<u8>, lines: Seq<Seq<char>>) -> (bool, Seq<u8>)
    decreases lines.len(),
{
    if lines.len() == 0 {
        (in_hex_dump, data)
    } else {
        let (h, d) = dump_step(in_hex_dump, data, lines[0]);
        dump_fold(h, d, lines.drop_first())
    }
}

/// Whether a character ends a line.
pub open spec fn is_line_end_char(c: char) -> bool {
    c == '\r' || c == '\n'
}

/// The lines of a text, split at carriage returns and line feeds with empty
/// lines dropped (as `LineBuffer` splits bytes), where `pending` is the part
/// of a line already read; text after the last line end is not a line yet.
pub open spec fn split_lines(s: Seq<char>, pending: Seq<char>) -> Seq<Seq<char>>
    decreases s.len(),
{
    if s.len() == 0 {
        Seq::empty()
    } else if is_line_end_char(s[0]) {
        (if pending.len() > 0 {
            seq![pending]
        } else {
            Seq::empty()
        }) + split_lines(s.drop_first(), Seq::empty())
    } else {
        split_lines(s.drop_first(), pending.push(s[0]))
    }
}

/// What became of a line of the bridge's reply.
#[derive(Debug, Clone, Copy, PartialEq, Eq, Structural)]
pub enum LineVerdict {
    /// The reply has not started yet; the line was passed over.
    Skipped,
    /// The line was kept.
    Kept,
    /// The line was kept and ends the reply (it reports `OK` or `ERROR`).
    Finished,
}

/// Collects the bridge's reply to a variable request: lines before the one
/// announcing the request are passed over; from it on every line is kept,
/// the bytes of the hex dump that follows the "Received ... bytes:" line are
/// gathered, and a line with `OK` or `ERROR` ends the reply.
pub struct ResponseCollector {
    started: bool,
    in_hex_dump: bool,
    lines: Vec<String>,
    data_bytes: Vec<u8>,
}

impl ResponseCollector {
    /// Whether the line announcing the request has been seen.
    pub closed spec fn started(&self) -> bool {
        self.started
    }

    /// Whether the lines now being read are a hex dump.
    pub closed spec fn in_hex_dump(&self) -> bool {
        self.in_hex_dump
    }

    /// The lines kept so far.
    pub closed spec fn kept_lines(&self) -> Seq<Seq<char>> {
        self.lines@.map_values(|l: String| l@)
    }

    /// The bytes gathered from the hex dump so far.
    pub closed spec fn data(&self) -> Seq<u8> {
        self.data_bytes@
    }

    /// A collector before any line.
    pub fn new() -> (r: Self)
        ensures
            !r.started(),
            !r.in_hex_dump(),
            r.kept_lines() == Seq::<Seq<char>>::empty(),
            r.data() == Seq::<u8>::empty(),
    {
        let r = ResponseCollector {
            started: false,
            in_hex_dump: false,
            lines: Vec::new(),
            data_bytes: Vec::new(),
        };
        assert(r.kept_lines() =~= Seq::<Seq<char>>::empty());
        r
    }

    /// Takes the next line of the reply.
    pub fn on_line(&mut self, line: &str) -> (r: LineVerdict)
        ensures
            final(self).started() == (old(self).started() || announces_request(line@)),
            !final(self).started() ==> r == LineVerdict::Skipped && final(self).in_hex_dump()
                == old(self).in_hex_dump() && final(self).kept_lines() == old(self).kept_lines()
                && final(self).data() == old(self).data(),
            final(self).started() ==> final(self).kept_lines() == old(self).kept_lines().push(line@),
            final(self).started() ==> (final(self).in_hex_dump(), final(self).data()) == dump_step(
                old(self).in_hex_dump(),
                old(self).data(),
                line@,
            ),
            final(self).started() ==> r == if ends_reply(line@) {
                LineVerdict::Finished
            } else {
                LineVerdict::Kept
            },
    {
        let chars = chars_of(line);
        if !self.started && text_contains(&chars, "Requesting variable") {
            self.started = true;
        }
        if !self.started {
            return LineVerdict::Skipped;
        }
        if text_contains(&chars, "Received") && text_contains(&chars, "bytes:") {
            self.in_hex_dump = true;
        } else if self.in_hex_dump {
            let bytes = read_hex_dump(&chars);
            let mut data: Vec<u8> = Vec::new();
            std::mem::swap(&mut data, &mut self.data_bytes);
            let ghost before = data@;
            let mut i: usize = 0;
            while i < bytes.len()
                invariant
                    i <= bytes@.len(),
                    data@ == before + bytes@.subrange(0, i as int),
                decreases bytes@.len() - i,
            {
                data.push(bytes[i]);
                assert(data@ =~= before + bytes@.subrange(0, i + 1));
                i += 1;
            }
            assert(bytes@.subrange(0, bytes@.len() as int) =~= bytes@);
            self.data_bytes = data;
            if !line_has_hex_digit(&chars) {
                self.in_hex_dump = false;
            }
        }
        let ghost before_lines = self.lines@;
        self.lines.push(line.to_string());
        assert(self.lines@.map_values(|l: String| l@) =~= before_lines.map_values(|l: String| l@).push(
            line@,
        ));
        if text_contains(&chars, "OK") || text_contains(&chars, "ERROR") {
            LineVerdict::Finished
        } else {
            LineVerdict::Kept
        }
    }

    /// The kept lines joined by line feeds.
    pub fn transcript(&self) -> (r: String)
        ensures
            r@ == join_lines(self.kept_lines()),
    {
        let mut out = String::new();
        let n = self.lines.len();
        let ghost lines = self.kept_lines();
        assert(lines.subrange(0, 0) =~= Seq::<Seq<char>>::empty());
        for i in 0..n
            invariant
                n == self.lines@.len(),
                lines == self.kept_lines(),
                lines.len() == n,
                out@ == join_lines(lines.subrange(0, i as int)),
        {
            let ghost before = out@;
            if i > 0 {
                out.append("\n");
            }
            out.append(self.lines[i].as_str());
            proof {
                let next = lines.subrange(0, i + 1);
                assert(next.drop_last() =~= lines.subrange(0, i as int));
                assert(next.last() == self.lines@[i as int]@);
                if i == 0 {
                    assert(out@ =~= next[0]);
                } else {
                    assert(out@ =~= before + "\n"@ + next.last());
                }
            }
        }
        assert(lines.subrange(0, n as int) =~= lines);
        out
    }

    /// The bytes gathered from the hex dump.
    pub fn data_bytes(&self) -> (r: &[u8])
        ensures
            r@ == self.data(),
    {
        self.data_bytes.as_slice()
    }

    /// Whether the line announcing the request has been seen.
    pub fn has_started(&self) -> (r: bool)
        ensures
            r == self.started(),
    {
        self.started
    }

    /// How many lines have been kept.
    pub fn kept_count(&self) -> (r: usize)
        ensures
            r == self.kept_lines().len(),
    {
        self.lines.len()
    }
}

/// How long, in milliseconds, the host waits for a whole reply at most.
pub const REPLY_WAIT_MS: u64 = 30_000;

/// How long, in milliseconds, the host waits for more output once the
/// bridge has gone quiet.
pub const REPLY_IDLE_MS: u64 = 2_000;

/// Whether the host stops reading a reply: after thirty seconds in all, or,
/// once any byte has come, when this read brought none and nothing has
/// arrived for two seconds.
pub fn should_stop(elapsed_ms: u64, idle_ms: u64, byte_arrived: bool, bytes_seen: bool) -> (stop: bool)
    ensures
        stop == (elapsed_ms > 30_000 || (!byte_arrived && bytes_seen && idle_ms > 2_000)),
{
    if elapsed_ms > REPLY_WAIT_MS {
        return true;
    }
    !byte_arrived && bytes_seen && idle_ms > REPLY_IDLE_MS
}

/// Whether a line of the bridge's output reports how a request ended: it
/// holds `OK` or `ERROR`.
pub fn line_ends_reply(line: &str) -> (r: bool)
    ensures
        r == ends_reply(line@),
{
    let chars = chars_of(line);
    text_contains(&chars, "OK") || text_contains(&chars, "ERROR")
}
} // verus!
