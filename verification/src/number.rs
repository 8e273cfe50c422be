//! The calculator's 9-byte real-number format.
//!
//! Byte 0 carries the sign in its top bit, byte 1 the decimal exponent
//! biased by 0x80, and bytes 2..9 fourteen BCD mantissa digits (two per
//! byte, high nibble first) with the decimal point after the first digit.

use vstd::prelude::*;

verus! {

/// Ten to the power `k`.
pub open spec fn pow10(k: nat) -> nat
    decreases k,
{
    if k == 0 {
        1
    } else {
        10 * pow10((k - 1) as nat)
    }
}

/// Splits every byte into its high and low nibble, high first.
pub open spec fn nibbles(bytes: Seq<u8>) -> Seq<u8> {
    Seq::new(
        2 * bytes.len(),
        |i: int|
            if i % 2 == 0 {
                (bytes[i / 2] / 16) as u8
            } else {
                (bytes[i / 2] % 16) as u8
            },
    )
}

/// Packs pairs of digits into bytes, the first digit of a pair in the high nibble.
pub open spec fn pack_nibbles(digits: Seq<u8>) -> Seq<u8> {
    Seq::new(digits.len() / 2, |k: int| (digits[2 * k] * 16 + digits[2 * k + 1]) as u8)
}

/// The value of a digit string read in base ten, most significant digit first.
pub open spec fn digits_value(digits: Seq<u8>) -> nat
    decreases digits.len(),
{
    if digits.len() == 0 {
        0
    } else {
        digits_value(digits.drop_last()) * 10 + digits.last() as nat
    }
}

/// The decimal digits of `n`, most significant first, without leading zeros
/// (zero itself is the single digit 0).
pub open spec fn decimal_digits(n: nat) -> Seq<u8>
    decreases n,
{
    if n < 10 {
        seq![n as u8]
    } else {
        decimal_digits(n / 10).push((n % 10) as u8)
    }
}

/// Pads a digit string with zeros on the right to the fourteen mantissa digits.
pub open spec fn pad_mantissa(digits: Seq<u8>) -> Seq<u8> {
    digits + Seq::new((14 - digits.len()) as nat, |i: int| 0u8)
}

/// The nine bytes of a real number with the given packed mantissa, unbiased
/// exponent and sign.
pub open spec fn real_bytes(mantissa: Seq<u8>, exponent: int, negative: bool) -> Seq<u8> {
    seq![if negative { 0x80u8 } else { 0u8 }, (exponent + 128) as u8] + mantissa
}

/// The fields of a real number: its fourteen mantissa digits, unbiased
/// exponent and sign; `None` unless exactly nine bytes are given.
pub open spec fn real_fields(bytes: Seq<u8>) -> Option<(Seq<u8>, int, bool)> {
    if bytes.len() != 9 {
        None
    } else {
        Some((nibbles(bytes.subrange(2, 9)), bytes[1] - 128, bytes[0] >= 128))
    }
}

/// The absolute value of an integer.
pub open spec fn magnitude(v: int) -> nat {
    if v < 0 {
        (-v) as nat
    } else {
        v as nat
    }
}

/// The real-number bytes of an integer: its decimal digits left-aligned in
/// the mantissa and the exponent one less than the number of digits.
pub open spec fn integer_real_bytes(v: int) -> Seq<u8> {
    let ds = decimal_digits(magnitude(v));
    real_bytes(pack_nibbles(pad_mantissa(ds)), ds.len() - 1, v < 0)
}

/// The integer parts of a real number as the host reads them: the
/// fourteen-digit mantissa as one number, the unbiased exponent and the sign.
pub struct RealParts {
    pub mantissa: u64,
    pub exponent: i16,
    pub negative: bool,
}

/// Splits a 9-byte real number into its mantissa digits, unbiased exponent and
/// sign; `None` unless exactly nine bytes are given.
pub fn decode_real_raw(bytes: &[u8]) -> (r: Option<([u8; 14], i8, bool)>)
    ensures
        r is None <==> bytes@.len() != 9,
        r matches Some((digits, exponent, negative)) ==> real_fields(bytes@) == Some(
            (digits@, exponent as int, negative),
        ),
{
    if bytes.len() != 9 {
        return None;
    }
    let is_negative = bytes[0] & 0x80 != 0;
    assert(is_negative == (bytes@[0] >= 128)) by {
        let b = bytes@[0];
        assert((b & 0x80 != 0) == (b >= 128)) by (bit_vector);
    }
    let exponent = (bytes[1] as i16 - 0x80) as i8;

    let mut digits = [0u8; 14];
    for i in 0..7
        invariant
            bytes@.len() == 9,
            digits@.len() == 14,
            forall|j: int|
                0 <= j < 2 * i ==> #[trigger] digits@[j] == nibbles(bytes@.subrange(2, 9))[j],
    {
        let digit_pair = bytes[2 + i];
        let high = (digit_pair >> 4) & 0x0F;
        let low = digit_pair & 0x0F;
        assert(high == digit_pair / 16 && low == digit_pair % 16) by (bit_vector)
            requires
                high == (digit_pair >> 4) & 0x0F,
                low == digit_pair & 0x0F,
        ;
        digits[i * 2] = high;
        digits[i * 2 + 1] = low;
    }
    assert(digits@ =~= nibbles(bytes@.subrange(2, 9)));
    Some((digits, exponent, is_negative))
}

/// Assembles a real number from a packed mantissa, an unbiased exponent and a sign.
pub fn encode_real_raw(bcd_mantissa: &[u8; 7], exponent: i8, is_negative: bool) -> (r: [u8; 9])
    ensures
        r@ == real_bytes(bcd_mantissa@, exponent as int, is_negative),
{
    let mut result = [0u8; 9];
    result[0] = if is_negative {
        0x80
    } else {
        0x00
    };
    result[1] = (exponent as i16 + 0x80) as u8;
    for i in 0..7
        invariant
            result@.len() == 9,
            bcd_mantissa@.len() == 7,
            result@[0] == (if is_negative { 0x80u8 } else { 0u8 }),
            result@[1] == (exponent + 128) as u8,
            forall|j: int| 0 <= j < i ==> #[trigger] result@[2 + j] == bcd_mantissa@[j],
    {
        result[2 + i] = bcd_mantissa[i];
    }
    let ghost expected = real_bytes(bcd_mantissa@, exponent as int, is_negative);
    assert forall|j: int| 0 <= j < 9 implies #[trigger] result@[j] == expected[j] by {
        if j >= 2 {
            assert(result@[2 + (j - 2)] == bcd_mantissa@[j - 2]);
        }
    }
    assert(result@ =~= expected);
    result
}

pub proof fn lemma_decimal_digits_small(n: nat)
    ensures
        decimal_digits(n).len() >= 1,
        forall|i: int| 0 <= i < decimal_digits(n).len() ==> #[trigger] decimal_digits(n)[i] < 10,
    decreases n,
{
    if n >= 10 {
        lemma_decimal_digits_small(n / 10);
    }
}

proof fn lemma_decimal_digits_len(n: nat, k: nat)
    requires
        k >= 1,
        n < pow10(k),
    ensures
        decimal_digits(n).len() <= k,
    decreases k,
{
    if n >= 10 {
        assert(k >= 2) by {
            if k == 1 {
                assert(pow10(1) == 10) by {
                    reveal_with_fuel(pow10, 2);
                }
            }
        }
        let p = pow10((k - 1) as nat);
        assert(n / 10 < p) by (nonlinear_arith)
            requires
                n < 10 * p,
        ;
        lemma_decimal_digits_len(n / 10, (k - 1) as nat);
    }
}

proof fn lemma_u32_has_at_most_ten_digits(n: nat)
    requires
        n <= 0xffff_ffff,
    ensures
        1 <= decimal_digits(n).len() <= 10,
{
    assert(pow10(10) == 10_000_000_000) by {
        reveal_with_fuel(pow10, 11);
    }
    lemma_decimal_digits_len(n, 10);
    lemma_decimal_digits_small(n);
}

/// The decimal digits of `n`, most significant first.
pub fn decimal_digit_list(n: u64) -> (r: Vec<u8>)
    ensures
        r@ == decimal_digits(n as nat),
{
    // Digits are produced least significant first and each is put in front.
    let mut ds: Vec<u8> = Vec::new();
    let mut temp = n;
    if temp == 0 {
        ds.push(0);
        assert(ds@ =~= decimal_digits(0));
        return ds;
    }
    loop
        invariant_except_break
            temp > 0,
            decimal_digits(temp as nat) + ds@ == decimal_digits(n as nat),
        ensures
            ds@ == decimal_digits(n as nat),
        decreases temp,
    {
        let d = (temp % 10) as u8;
        let ghost t = temp as nat;
        let ghost before = ds@;
        ds.insert(0, d);
        assert(ds@ =~= seq![d] + before);
        temp = temp / 10;
        if temp == 0 {
            assert(decimal_digits(t) == seq![d]);
            break;
        }
        assert(decimal_digits(t) == decimal_digits(temp as nat).push(d));
        assert(decimal_digits(temp as nat) + ds@ =~= decimal_digits(t) + before);
    }
    ds
}

/// Encodes an integer as a real number: sign byte, exponent equal to the
/// number of decimal digits minus one, and the digits left-aligned in the
/// mantissa.
pub fn encode_integer(value: i32) -> (r: [u8; 9])
    ensures
        r@ == integer_real_bytes(value as int),
{
    let mut result = [0u8; 9];

    if value == 0 {
        result[1] = 0x80;
        assert(decimal_digits(0) == seq![0u8]);
        assert(result@ =~= integer_real_bytes(0));
        return result;
    }
    let is_negative = value < 0;
    let abs_value: u32 = if is_negative {
        (0i64 - value as i64) as u32
    } else {
        value as u32
    };
    let ghost mag = magnitude(value as int);
    assert(abs_value == mag);
    result[0] = if is_negative {
        0x80
    } else {
        0x00
    };

    let ds = decimal_digit_list(abs_value as u64);
    proof {
        lemma_u32_has_at_most_ten_digits(mag);
        lemma_decimal_digits_small(mag);
    }
    let digit_count = ds.len();
    result[1] = ((digit_count - 1) as i16 + 0x80) as u8;

    let mut digits = [0u8; 14];
    for i in 0..digit_count
        invariant
            digit_count == ds@.len(),
            1 <= digit_count <= 10,
            digits@.len() == 14,
            forall|j: int| 0 <= j < i ==> #[trigger] digits@[j] == ds@[j],
            forall|j: int| i <= j < 14 ==> #[trigger] digits@[j] == 0,
    {
        digits[i] = ds[i];
    }
    let ghost padded = pad_mantissa(ds@);
    assert(digits@ =~= padded);
    assert forall|j: int| 0 <= j < 14 implies #[trigger] padded[j] < 10 by {
        if j < digit_count {
            assert(padded[j] == decimal_digits(mag)[j]);
        }
    }

    for k in 0..7
        invariant
            result@.len() == 9,
            digits@ == padded,
            padded.len() == 14,
            forall|j: int| 0 <= j < 14 ==> #[trigger] padded[j] < 10,
            result@[0] == (if is_negative { 0x80u8 } else { 0u8 }),
            result@[1] == (digit_count - 1 + 128) as u8,
            forall|j: int| 0 <= j < k ==> #[trigger] result@[2 + j] == pack_nibbles(padded)[j],
    {
        let hi = digits[k * 2];
        let lo = digits[k * 2 + 1];
        assert(hi < 10 && lo < 10);
        result[2 + k] = hi * 16 + lo;
    }
    let ghost expected = integer_real_bytes(value as int);
    assert(ds@ == decimal_digits(magnitude(value as int)));
    assert(pack_nibbles(padded).len() == 7);
    assert forall|j: int| 0 <= j < 9 implies #[trigger] result@[j] == expected[j] by {
        if j >= 2 {
            assert(result@[2 + (j - 2)] == pack_nibbles(padded)[j - 2]);
        }
    }
    assert(result@ =~= expected);
    result
}


/// The host's reading of a real number: the mantissa digits as one number,
/// the unbiased exponent and the sign; `None` unless exactly nine bytes are given.
pub open spec fn real_parts(bytes: Seq<u8>) -> Option<(nat, int, bool)> {
    if bytes.len() != 9 {
        None
    } else {
        Some((digits_value(nibbles(bytes.subrange(2, 9))), bytes[1] - 128, bytes[0] >= 128))
    }
}

proof fn lemma_nibbles_push(s: Seq<u8>, b: u8)
    ensures
        nibbles(s.push(b)) == nibbles(s).push((b / 16) as u8).push((b % 16) as u8),
{
    let l = nibbles(s.push(b));
    let r = nibbles(s).push((b / 16) as u8).push((b % 16) as u8);
    assert forall|i: int| 0 <= i < l.len() implies l[i] == r[i] by {
        if i < 2 * s.len() {
            assert(s.push(b)[i / 2] == s[i / 2]);
        }
    }
    assert(l =~= r);
}

proof fn lemma_digits_value_push2(x: Seq<u8>, a: u8, b: u8)
    ensures
        digits_value(x.push(a).push(b)) == (digits_value(x) * 10 + a) * 10 + b,
{
    let xa = x.push(a);
    let xab = xa.push(b);
    assert(xab.drop_last() =~= xa);
    assert(xa.drop_last() =~= x);
    assert(digits_value(xab) == digits_value(xa) * 10 + b);
    assert(digits_value(xa) == digits_value(x) * 10 + a);
}

proof fn lemma_pow10_step2(k: nat)
    ensures
        pow10(k + 2) == 100 * pow10(k),
{
    assert(pow10(k + 2) == 10 * pow10(k + 1));
    assert(pow10(k + 1) == 10 * pow10(k));
}

proof fn lemma_pow10_positive(k: nat)
    ensures
        pow10(k) >= 1,
    decreases k,
{
    if k > 0 {
        lemma_pow10_positive((k - 1) as nat);
    }
}

/// Reads a 9-byte real number as the host does: the fourteen mantissa digits
/// as one decimal number, the unbiased exponent and the sign bit; `None`
/// unless exactly nine bytes are given.
pub fn parse_real_parts(bytes: &[u8]) -> (r: Option<RealParts>)
    ensures
        r is None <==> bytes@.len() != 9,
        r matches Some(p) ==> real_parts(bytes@) == Some(
            (p.mantissa as nat, p.exponent as int, p.negative),
        ),
{
    if bytes.len() != 9 {
        return None;
    }
    let sign_byte = bytes[0];
    let exponent = bytes[1] as i16 - 0x80;
    let mut mantissa: u64 = 0;
    assert(bytes@.subrange(2, 2) =~= Seq::<u8>::empty());
    assert(nibbles(Seq::<u8>::empty()) =~= Seq::<u8>::empty());
    for i in 0..7
        invariant
            bytes@.len() == 9,
            mantissa == digits_value(nibbles(bytes@.subrange(2, 2 + i))),
            9 * mantissa <= 16 * (pow10(2 * i as nat) - 1),
    {
        let digit_pair = bytes[2 + i];
        let high = ((digit_pair >> 4) & 0x0F) as u64;
        let low = (digit_pair & 0x0F) as u64;
        assert(high == digit_pair / 16 && low == digit_pair % 16) by (bit_vector)
            requires
                high == ((digit_pair >> 4) & 0x0F) as u64,
                low == (digit_pair & 0x0F) as u64,
        ;
        let ghost p = pow10(2 * i as nat);
        proof {
            lemma_pow10_step2(2 * i as nat);
            assert(p <= 1_000_000_000_000) by {
                lemma_pow10_monotone(2 * i as nat, 12);
                reveal_with_fuel(pow10, 13);
            }
            lemma_pow10_positive(2 * i as nat);
            let m = mantissa as int;
            assert(9 * (m * 100 + high * 10 + low) <= 16 * (100 * p - 1)) by (nonlinear_arith)
                requires
                    9 * m <= 16 * (p - 1),
                    high <= 15,
                    low <= 15,
            ;
            assert(m * 100 + high * 10 + low <= 0xffff_ffff_ffff_ffff) by (nonlinear_arith)
                requires
                    9 * m <= 16 * (p - 1),
                    p <= 1_000_000_000_000,
                    high <= 15,
                    low <= 15,
            ;
            let prefix = bytes@.subrange(2, 2 + i);
            assert(bytes@.subrange(2, 2 + i + 1) =~= prefix.push(digit_pair));
            lemma_nibbles_push(prefix, digit_pair);
            lemma_digits_value_push2(nibbles(prefix), (digit_pair / 16) as u8, (digit_pair % 16) as u8);
        }
        mantissa = mantissa * 100 + high * 10 + low;
    }
    let negative = sign_byte & 0x80 != 0;
    assert(negative == (sign_byte >= 128)) by (bit_vector)
        requires
            negative == (sign_byte & 0x80 != 0),
    ;
    assert(bytes@.subrange(2, 2 + 7int) == bytes@.subrange(2, 9));
    Some(RealParts { mantissa, exponent, negative })
}

proof fn lemma_pow10_monotone(a: nat, b: nat)
    requires
        a <= b,
    ensures
        pow10(a) <= pow10(b),
    decreases b,
{
    if a < b {
        lemma_pow10_monotone(a, (b - 1) as nat);
    }
}


proof fn lemma_nibbles_of_packed(digits: Seq<u8>)
    requires
        digits.len() % 2 == 0,
        forall|i: int| 0 <= i < digits.len() ==> #[trigger] digits[i] < 16,
    ensures
        nibbles(pack_nibbles(digits)) == digits,
{
    let n = nibbles(pack_nibbles(digits));
    assert forall|i: int| 0 <= i < digits.len() implies n[i] == digits[i] by {
        let k = i / 2;
        let a = digits[2 * k];
        let b = digits[2 * k + 1];
        assert(pack_nibbles(digits)[k] == a * 16 + b);
        assert((a * 16 + b) / 16 == a && (a * 16 + b) % 16 == b) by (nonlinear_arith)
            requires
                a < 16,
                b < 16,
        ;
    }
    assert(n =~= digits);
}

proof fn lemma_packed_of_nibbles(bytes: Seq<u8>)
    ensures
        pack_nibbles(nibbles(bytes)) == bytes,
{
    let p = pack_nibbles(nibbles(bytes));
    assert forall|k: int| 0 <= k < bytes.len() implies p[k] == bytes[k] by {
        let b = bytes[k];
        assert((2 * k) / 2 == k && (2 * k + 1) / 2 == k && (2 * k) % 2 == 0 && (2 * k + 1) % 2 == 1);
        assert((b / 16) * 16 + b % 16 == b);
    }
    assert(p =~= bytes);
}

proof fn lemma_pow10_add(a: nat, b: nat)
    ensures
        pow10(a + b) == pow10(a) * pow10(b),
    decreases a,
{
    if a > 0 {
        let a1 = (a - 1) as nat;
        lemma_pow10_add(a1, b);
        let pa1 = pow10(a1);
        let pb = pow10(b);
        assert(pow10(a) == 10 * pa1);
        assert((a + b - 1) as nat == a1 + b);
        assert(pow10(a + b) == 10 * pow10(a1 + b));
        assert(10 * (pa1 * pb) == (10 * pa1) * pb) by (nonlinear_arith);
        assert(pow10(a + b) == 10 * (pa1 * pb));
    } else {
        let pb = pow10(b);
        assert(pow10(0) == 1);
        assert(1 * pb == pb) by (nonlinear_arith);
        assert(a + b == b);
    }
}

proof fn lemma_digits_value_zeros(s: Seq<u8>, k: nat)
    ensures
        digits_value(s + Seq::new(k, |i: int| 0u8)) == digits_value(s) * pow10(k),
    decreases k,
{
    let z = Seq::new(k, |i: int| 0u8);
    if k == 0 {
        assert(s + z =~= s);
        let d = digits_value(s);
        assert(pow10(0) == 1);
        assert(d * 1 == d) by (nonlinear_arith);
    } else {
        let z1 = Seq::new((k - 1) as nat, |i: int| 0u8);
        lemma_digits_value_zeros(s, (k - 1) as nat);
        assert((s + z).drop_last() =~= s + z1);
        assert((s + z).last() == 0);
        assert(digits_value(s + z) == digits_value(s + z1) * 10);
        let d = digits_value(s);
        let p1 = pow10((k - 1) as nat);
        assert(pow10(k) == 10 * p1);
        assert(d * p1 * 10 == d * (10 * p1)) by (nonlinear_arith);
        assert(digits_value(s + z1) == d * p1);
    }
}

/// Decoding the bytes that `encode_real_raw` assembles gives back the
/// mantissa digits of the packed mantissa, the exponent and the sign.
pub proof fn law_decode_after_encode_real(mantissa: Seq<u8>, exponent: int, negative: bool)
    requires
        mantissa.len() == 7,
        -128 <= exponent <= 127,
    ensures
        real_fields(real_bytes(mantissa, exponent, negative)) == Some(
            (nibbles(mantissa), exponent, negative),
        ),
{
    let b = real_bytes(mantissa, exponent, negative);
    assert(b.subrange(2, 9) =~= mantissa);
}

/// Packing the decoded digits and encoding them again with the decoded
/// exponent and sign gives back the same nine bytes, provided the sign
/// byte is exactly 0x00 or 0x80 (other bits of that byte are not kept).
pub proof fn law_encode_after_decode_real(bytes: Seq<u8>)
    requires
        bytes.len() == 9,
        bytes[0] == 0 || bytes[0] == 0x80,
    ensures
        real_fields(bytes) matches Some((digits, exponent, negative)) && real_bytes(
            pack_nibbles(digits),
            exponent,
            negative,
        ) == bytes,
{
    lemma_packed_of_nibbles(bytes.subrange(2, 9));
    assert(real_bytes(pack_nibbles(nibbles(bytes.subrange(2, 9))), bytes[1] - 128, bytes[0] >= 128)
        =~= bytes);
}

/// The decimal digits of `n`, read back in base ten, are `n`.
pub proof fn law_decimal_digits_value(n: nat)
    ensures
        digits_value(decimal_digits(n)) == n,
    decreases n,
{
    if n < 10 {
        assert(seq![n as u8].drop_last() =~= Seq::<u8>::empty());
        assert(digits_value(Seq::<u8>::empty()) == 0);
        assert(digits_value(seq![n as u8]) == 0 * 10 + n);
    } else {
        law_decimal_digits_value(n / 10);
        assert(decimal_digits(n).drop_last() =~= decimal_digits(n / 10));
        assert(decimal_digits(n).last() == n % 10);
        assert(digits_value(decimal_digits(n)) == (n / 10) * 10 + n % 10);
    }
}

/// The bytes `encode_integer` writes for `v` decode to the decimal digits of
/// |v| left-aligned in the mantissa, an exponent one less than the number of
/// digits, and the sign of `v`.
pub proof fn law_integer_fields(v: int)
    requires
        i32::MIN <= v <= i32::MAX,
    ensures
        real_fields(integer_real_bytes(v)) == Some(
            (
                pad_mantissa(decimal_digits(magnitude(v))),
                decimal_digits(magnitude(v)).len() - 1,
                v < 0,
            ),
        ),
{
    let ds = decimal_digits(magnitude(v));
    lemma_u32_has_at_most_ten_digits(magnitude(v));
    lemma_decimal_digits_small(magnitude(v));
    let padded = pad_mantissa(ds);
    assert forall|i: int| 0 <= i < padded.len() implies #[trigger] padded[i] < 16 by {
        if i < ds.len() {
            assert(padded[i] == ds[i]);
        }
    }
    lemma_nibbles_of_packed(padded);
    law_decode_after_encode_real(pack_nibbles(padded), ds.len() - 1, v < 0);
}

/// Reading back what `encode_integer` wrote for `v` gives a mantissa and an
/// exponent with mantissa * 10^exponent == |v| * 10^13, which is |v| once
/// the implied decimal point after the first mantissa digit is applied, and
/// the sign of `v`.
pub proof fn law_integer_value(v: int)
    requires
        i32::MIN <= v <= i32::MAX,
    ensures
        real_parts(integer_real_bytes(v)) matches Some((mantissa, exponent, negative)) && 0
            <= exponent <= 9 && mantissa * pow10(exponent as nat) == magnitude(v) * pow10(13)
            && negative == (v < 0),
{
    let n = magnitude(v);
    let ds = decimal_digits(n);
    law_integer_fields(v);
    lemma_u32_has_at_most_ten_digits(n);
    let bytes = integer_real_bytes(v);
    assert(nibbles(bytes.subrange(2, 9)) == pad_mantissa(ds));
    lemma_digits_value_zeros(ds, (14 - ds.len()) as nat);
    law_decimal_digits_value(n);
    let e = (ds.len() - 1) as nat;
    let z = (14 - ds.len()) as nat;
    lemma_pow10_add(z, e);
    assert(z + e == 13);
    assert(n * pow10(z) * pow10(e) == n * (pow10(z) * pow10(e))) by (nonlinear_arith);
}

} // verus!
