//! String operations: number parsing (plain, big and "computer size"),
//! base64, line splitting and quoting.
use vstd::prelude::*;
use vstd::string::StringSliceAdditionalSpecFns;
use vstd::utf8::encode_utf8;
use crate::numparse::{
    all_dec_digits, ascii_of, digits_in, digit_byte, lemma_decimal_digits,
    lemma_from_str_radix_decimal, lemma_from_str_radix_digits_in, lemma_digit_byte_value,
};
use crate::text::decimal;
use num_bigint::BigInt;
use crate::text::{chars_of, string_of, string_push};
use crate::text::{B_ZERO, B_NINE, B_LOWER_X, B_UPPER_X, B_MINUS, B_NEWLINE};
use crate::numparse::{
    IntErrorKind, from_str_radix_spec, to_u64_result, to_i64_result, digit_of, parse_unsigned,
    parse_i64,
};

verus! {

/// Why a string operation failed.
#[derive(Clone, Copy, Debug, PartialEq, Eq, Structural)]
pub enum StrOpError {
    /// The text is not valid base64.
    InvalidBase64,
    /// The digits did not make an integer of the target type.
    ParseInt { kind: IntErrorKind },
    /// There are no digits after the radix prefix and sign.
    EmptyNumber,
    /// The byte at `index` of the input is not a digit of the radix.
    InvalidDigitAt { index: usize, byte: u8 },
    /// The text does not start with a number, or ends in an unknown unit.
    NotComputerSize,
    /// More than one byte follows the number.
    TrailingText,
}

// ---------------------------------------------------------------- parse_u64

/// Length of the hexadecimal prefix of `b`: 2 for `0x`/`0X`, 1 for `x`/`X`,
/// otherwise 0 (decimal).
pub open spec fn hex_prefix_len(b: Seq<u8>) -> int {
    if b.len() >= 2 && b[0] == B_ZERO && (b[1] == B_LOWER_X || b[1] == B_UPPER_X) {
        2
    } else if b.len() >= 1 && (b[0] == B_LOWER_X || b[0] == B_UPPER_X) {
        1
    } else {
        0
    }
}

/// The integer that the bytes `b` spell: hexadecimal after a prefix
/// `0x`, `0X`, `x` or `X`, decimal otherwise.
pub open spec fn parse_u64_spec(b: Seq<u8>) -> Result<u64, StrOpError> {
    let p = hex_prefix_len(b);
    let radix: nat = if p > 0 {
        16
    } else {
        10
    };
    match to_u64_result(from_str_radix_spec(b.skip(p), radix, false, 0, u64::MAX as int)) {
        Ok(v) => Ok(v),
        Err(k) => Err(StrOpError::ParseInt { kind: k }),
    }
}

/// Parses `instr` as a `u64`, hexadecimal after a `0x`, `0X`, `x` or `X` prefix.
pub fn parse_u64(instr: &str) -> (r: Result<u64, StrOpError>)
    ensures
        r == parse_u64_spec(instr.spec_bytes()),
{
    let b = instr.as_bytes();
    let start: usize = if b.len() >= 2 && b[0] == B_ZERO && (b[1] == B_LOWER_X || b[1] == B_UPPER_X) {
        2
    } else if b.len() >= 1 && (b[0] == B_LOWER_X || b[0] == B_UPPER_X) {
        1
    } else {
        0
    };
    let radix: u32 = if start > 0 {
        16
    } else {
        10
    };
    let digits = &b[start..b.len()];
    assert(digits@ == b@.skip(start as int));
    match parse_unsigned(digits, radix, u64::MAX) {
        Ok(v) => Ok(v),
        Err(k) => Err(StrOpError::ParseInt { kind: k }),
    }
}

/// The bytes of each string of `ss`.
pub open spec fn bytes_of_all(ss: Seq<Seq<char>>) -> Seq<Seq<u8>> {
    ss.map_values(|s: Seq<char>| vstd::utf8::encode_utf8(s))
}

/// Each text parsed with `parse_u64_spec` and cut to its low byte; the first
/// text that does not parse gives the error.
pub open spec fn u8_array_spec(texts: Seq<Seq<u8>>) -> Result<Seq<u8>, StrOpError>
    decreases texts.len(),
{
    if texts.len() == 0 {
        Ok(Seq::empty())
    } else {
        match u8_array_spec(texts.drop_last()) {
            Err(e) => Err(e),
            Ok(front) => match parse_u64_spec(texts.last()) {
                Err(e) => Err(e),
                Ok(v) => Ok(front.push(v as u8)),
            },
        }
    }
}

/// Parses each string with `parse_u64` and keeps its low byte.
pub fn parse_to_u8_array(narr: &[String]) -> (r: Result<Vec<u8>, StrOpError>)
    ensures
        r matches Ok(v) ==> u8_array_spec(bytes_of_all(narr@.map_values(|s: String| s@)))
            == Ok::<Seq<u8>, StrOpError>(v@),
        r matches Err(e) ==> u8_array_spec(bytes_of_all(narr@.map_values(|s: String| s@)))
            == Err::<Seq<u8>, StrOpError>(e),
{
    let ghost texts = bytes_of_all(narr@.map_values(|s: String| s@));
    let mut retv: Vec<u8> = Vec::new();
    let mut i: usize = 0;
    while i < narr.len()
        invariant
            i <= narr@.len(),
            texts == bytes_of_all(narr@.map_values(|s: String| s@)),
            u8_array_spec(texts.take(i as int)) == Ok::<Seq<u8>, StrOpError>(retv@),
        decreases narr@.len() - i,
    {
        assert(texts.take(i + 1).drop_last() == texts.take(i as int));
        assert(texts[i as int] == vstd::utf8::encode_utf8(narr@[i as int]@));
        let v = parse_u64(narr[i].as_str());
        match v {
            Ok(v) => {
                retv.push(v as u8);
            },
            Err(e) => {
                proof {
                    lemma_u8_array_error(texts, i as int);
                }
                return Err(e);
            },
        }
        i = i + 1;
    }
    assert(texts.take(i as int) == texts);
    Ok(retv)
}

/// Parses each string with `parse_u64` and keeps its low byte.
pub fn parse_to_u8_array_str(narr: &[&str]) -> (r: Result<Vec<u8>, StrOpError>)
    ensures
        r matches Ok(v) ==> u8_array_spec(bytes_of_all(narr@.map_values(|s: &str| s@)))
            == Ok::<Seq<u8>, StrOpError>(v@),
        r matches Err(e) ==> u8_array_spec(bytes_of_all(narr@.map_values(|s: &str| s@)))
            == Err::<Seq<u8>, StrOpError>(e),
{
    let ghost texts = bytes_of_all(narr@.map_values(|s: &str| s@));
    let mut retv: Vec<u8> = Vec::new();
    let mut i: usize = 0;
    while i < narr.len()
        invariant
            i <= narr@.len(),
            texts == bytes_of_all(narr@.map_values(|s: &str| s@)),
            u8_array_spec(texts.take(i as int)) == Ok::<Seq<u8>, StrOpError>(retv@),
        decreases narr@.len() - i,
    {
        assert(texts.take(i + 1).drop_last() == texts.take(i as int));
        assert(texts[i as int] == vstd::utf8::encode_utf8(narr@[i as int]@));
        let v = parse_u64(narr[i]);
        match v {
            Ok(v) => {
                retv.push(v as u8);
            },
            Err(e) => {
                proof {
                    lemma_u8_array_error(texts, i as int);
                }
                return Err(e);
            },
        }
        i = i + 1;
    }
    assert(texts.take(i as int) == texts);
    Ok(retv)
}

/// An error at text `i`, after texts that all parse, is the error of the whole.
proof fn lemma_u8_array_error(texts: Seq<Seq<u8>>, i: int)
    requires
        0 <= i < texts.len(),
        u8_array_spec(texts.take(i)) is Ok,
        parse_u64_spec(texts[i]) is Err,
    ensures
        u8_array_spec(texts) == Err::<Seq<u8>, StrOpError>(parse_u64_spec(texts[i])->Err_0),
    decreases texts.len() - i,
{
    if i == texts.len() - 1 {
        assert(texts.drop_last() == texts.take(i));
    } else {
        assert(texts.drop_last().take(i) == texts.take(i));
        assert(texts.drop_last()[i] == texts[i]);
        lemma_u8_array_error(texts.drop_last(), i);
    }
}


// ---------------------------------------------------------- parse_to_bigint

/// The sign, radix and digit values of an integer text, most significant first.
#[derive(Debug)]
pub struct BigIntDigits {
    pub negative: bool,
    pub radix: u32,
    pub digits: Vec<u8>,
}

/// The value of the digits `ds` (most significant first) in `radix`.
pub open spec fn digits_value(ds: Seq<u8>, radix: nat) -> int
    decreases ds.len(),
{
    if ds.len() == 0 {
        0
    } else {
        digits_value(ds.drop_last(), radix) * radix + ds.last()
    }
}

impl BigIntDigits {
    /// The integer these digits stand for.
    pub open spec fn value(&self) -> int {
        signed_digits_value(self.negative, self.digits@, self.radix as nat)
    }
}

/// Whether a `-` follows the radix prefix of `b`.
pub open spec fn bigint_negative(b: Seq<u8>) -> bool {
    let p = hex_prefix_len(b);
    p < b.len() && b[p] == B_MINUS
}

/// Where the digits of `b` start: after the radix prefix and the sign.
pub open spec fn bigint_start(b: Seq<u8>) -> int {
    hex_prefix_len(b) + if bigint_negative(b) {
        1int
    } else {
        0int
    }
}

/// The radix of `b`: 16 after a hexadecimal prefix, else 10.
pub open spec fn bigint_radix(b: Seq<u8>) -> nat {
    if hex_prefix_len(b) > 0 {
        16
    } else {
        10
    }
}

/// How many bytes at the start of `d` are digits of `radix`.
pub open spec fn digit_run(d: Seq<u8>, radix: nat) -> nat
    decreases d.len(),
{
    if d.len() > 0 && digit_of(d[0], radix) is Some {
        1 + digit_run(d.drop_first(), radix)
    } else {
        0
    }
}

/// The sign, radix and digits of the text `b`, or the first fault in it:
/// no digits at all, or the position and value of the first non-digit.
pub open spec fn parse_bigint_spec(b: Seq<u8>) -> Result<(bool, nat, Seq<u8>), StrOpError> {
    let start = bigint_start(b);
    let radix = bigint_radix(b);
    let d = b.skip(start);
    let k = digit_run(d, radix);
    if d.len() == 0 {
        Err(StrOpError::EmptyNumber)
    } else if k < d.len() {
        Err(StrOpError::InvalidDigitAt { index: (start + k) as usize, byte: d[k as int] })
    } else {
        Ok((bigint_negative(b), radix, d.map_values(|x: u8| digit_of(x, radix).unwrap() as u8)))
    }
}

/// Every byte before `digit_run(d, radix)` is a digit of `radix`.
proof fn lemma_digit_run(d: Seq<u8>, radix: nat)
    ensures
        digit_run(d, radix) <= d.len(),
        forall|i: int| 0 <= i < digit_run(d, radix) ==> (#[trigger] digit_of(d[i], radix)) is Some,
        digit_run(d, radix) < d.len() ==> digit_of(d[digit_run(d, radix) as int], radix) is None,
    decreases d.len(),
{
    if d.len() > 0 && digit_of(d[0], radix) is Some {
        lemma_digit_run(d.drop_first(), radix);
        assert forall|i: int| 0 <= i < digit_run(d, radix) implies (#[trigger] digit_of(
            d[i],
            radix,
        )) is Some by {
            if i > 0 {
                assert(d[i] == d.drop_first()[i - 1]);
            }
        }
    }
}

/// If the first `i` bytes of `d` are digits, the run is at least `i`, and it
/// ends at the first non-digit.
proof fn lemma_digit_run_prefix(d: Seq<u8>, radix: nat, i: int)
    requires
        0 <= i <= d.len(),
        forall|j: int| 0 <= j < i ==> (#[trigger] digit_of(d[j], radix)) is Some,
    ensures
        i <= digit_run(d, radix),
        i < d.len() && digit_of(d[i], radix) is None ==> digit_run(d, radix) == i,
    decreases i,
{
    if i > 0 {
        assert forall|j: int| 0 <= j < i - 1 implies (#[trigger] digit_of(
            d.drop_first()[j],
            radix,
        )) is Some by {
            assert(d.drop_first()[j] == d[j + 1]);
        }
        assert(digit_of(d[0], radix) is Some);
        lemma_digit_run_prefix(d.drop_first(), radix, i - 1);
    }
}

/// Reads the sign, radix and digits of an integer text: hexadecimal after a
/// prefix `0x`, `0X`, `x` or `X`, then an optional `-`, then the digits.
pub fn parse_bigint_digits(instr: &str) -> (r: Result<BigIntDigits, StrOpError>)
    ensures
        match parse_bigint_spec(instr.spec_bytes()) {
            Ok((neg, radix, ds)) => r matches Ok(p) && p.negative == neg && p.radix == radix
                && p.digits@ == ds,
            Err(e) => r == Err::<BigIntDigits, StrOpError>(e),
        },
{
    let b = instr.as_bytes();
    let p: usize = if b.len() >= 2 && b[0] == B_ZERO && (b[1] == B_LOWER_X || b[1] == B_UPPER_X) {
        2
    } else if b.len() >= 1 && (b[0] == B_LOWER_X || b[0] == B_UPPER_X) {
        1
    } else {
        0
    };
    let radix: u32 = if p > 0 {
        16
    } else {
        10
    };
    let negative = p < b.len() && b[p] == B_MINUS;
    let start: usize = if negative {
        p + 1
    } else {
        p
    };
    let ghost d = b@.skip(start as int);
    assert(start == bigint_start(b@) && radix == bigint_radix(b@));
    if start == b.len() {
        return Err(StrOpError::EmptyNumber);
    }
    let mut digits: Vec<u8> = Vec::new();
    let mut i: usize = start;
    while i < b.len()
        invariant
            start <= i <= b@.len(),
            radix == 10 || radix == 16,
            start == bigint_start(b@),
            radix == bigint_radix(b@),
            b@ == instr.spec_bytes(),
            d == b@.skip(start as int),
            digits@.len() == i - start,
            forall|j: int| 0 <= j < i - start ==> (#[trigger] digit_of(d[j], radix as nat)) is Some,
            forall|j: int|
                0 <= j < i - start ==> #[trigger] digits@[j] == digit_of(d[j], radix as nat).unwrap(),
        decreases b@.len() - i,
    {
        assert(d[i - start] == b@[i as int]);
        match crate::numparse::digit_value(b[i], radix) {
            Some(v) => {
                digits.push(v as u8);
            },
            None => {
                proof {
                    lemma_digit_run_prefix(d, radix as nat, i - start);
                    assert(digit_run(d, radix as nat) == i - start);
                    assert(d.len() > 0);
                    assert(d[i - start] == b@[i as int]);
                    assert(bigint_start(b@) == start);
                    assert(bigint_radix(b@) == radix);
                }
                return Err(StrOpError::InvalidDigitAt { index: i, byte: b[i] });
            },
        }
        i = i + 1;
    }
    proof {
        lemma_digit_run_prefix(d, radix as nat, d.len() as int);
        lemma_digit_run(d, radix as nat);
        assert(digits@ == d.map_values(|x: u8| digit_of(x, radix as nat).unwrap() as u8));
    }
    Ok(BigIntDigits { negative, radix, digits })
}

// ---------------------------------------------------------- computer sizes

/// How many ASCII digits `b` starts with.
pub open spec fn leading_digits(b: Seq<u8>) -> nat
    decreases b.len(),
{
    if b.len() > 0 && B_ZERO <= b[0] <= B_NINE {
        1 + leading_digits(b.drop_first())
    } else {
        0
    }
}

/// The factor of a unit letter: `k`, `m`, `g`, `t`, `p`, `e` (either case)
/// for the powers of 1024 from the first to the sixth.
pub open spec fn unit_factor(u: u8) -> Option<int> {
    if u == 107 || u == 75 {
        Some(1024int)
    } else if u == 109 || u == 77 {
        Some(1048576int)
    } else if u == 103 || u == 71 {
        Some(1073741824int)
    } else if u == 116 || u == 84 {
        Some(1099511627776int)
    } else if u == 112 || u == 80 {
        Some(1125899906842624int)
    } else if u == 101 || u == 69 {
        Some(1152921504606846976int)
    } else {
        None
    }
}

/// What follows the number `v` that fills the first `k` bytes of `b`:
/// nothing, or exactly one unit letter.
pub open spec fn size_suffix_spec(v: int, b: Seq<u8>, k: int) -> Result<int, StrOpError> {
    if k == b.len() {
        Ok(v)
    } else if k < b.len() - 1 {
        Err(StrOpError::TrailingText)
    } else {
        match unit_factor(b[k]) {
            Some(f) => Ok(v * f),
            None => Err(StrOpError::NotComputerSize),
        }
    }
}

/// A size such as `512`, `4k` or `2G`: decimal digits, then at most one unit
/// byte; the number part must be followed by no line feed.
pub open spec fn computer_size_u64_spec(b: Seq<u8>) -> Result<int, StrOpError> {
    let k = leading_digits(b);
    if k == 0 || b.skip(k as int).contains(B_NEWLINE) {
        Err(StrOpError::NotComputerSize)
    } else {
        match from_str_radix_spec(b.take(k as int), 10, false, 0, u64::MAX as int) {
            Err(kind) => Err(StrOpError::ParseInt { kind }),
            Ok(v) => size_suffix_spec(v, b, k as int),
        }
    }
}

/// As `computer_size_u64_spec`, with an optional `-` before the digits.
pub open spec fn computer_size_i64_spec(b: Seq<u8>) -> Result<int, StrOpError> {
    let s: int = if b.len() > 0 && b[0] == B_MINUS {
        1
    } else {
        0
    };
    let n = leading_digits(b.skip(s));
    let k = s + n;
    if n == 0 || b.skip(k).contains(B_NEWLINE) {
        Err(StrOpError::NotComputerSize)
    } else {
        match from_str_radix_spec(b.take(k), 10, true, i64::MIN as int, i64::MAX as int) {
            Err(kind) => Err(StrOpError::ParseInt { kind }),
            Ok(v) => size_suffix_spec(v, b, k),
        }
    }
}

/// The first `leading_digits(b)` bytes are digits and the next one is not.
proof fn lemma_leading_digits(b: Seq<u8>)
    ensures
        leading_digits(b) <= b.len(),
        forall|i: int| 0 <= i < leading_digits(b) ==> B_ZERO <= #[trigger] b[i] <= B_NINE,
        leading_digits(b) < b.len() ==> !(B_ZERO <= b[leading_digits(b) as int] <= B_NINE),
    decreases b.len(),
{
    if b.len() > 0 && B_ZERO <= b[0] <= B_NINE {
        lemma_leading_digits(b.drop_first());
        assert forall|i: int| 0 <= i < leading_digits(b) implies B_ZERO <= #[trigger] b[i]
            <= B_NINE by {
            if i > 0 {
                assert(b[i] == b.drop_first()[i - 1]);
            }
        }
    }
}

/// Counts the ASCII digits at the start of `b` from index `from` on.
fn count_leading_digits(b: &[u8], from: usize) -> (r: usize)
    requires
        from <= b@.len(),
    ensures
        r == leading_digits(b@.skip(from as int)),
        from + r <= b@.len(),
{
    let mut i = from;
    while i < b.len() && B_ZERO <= b[i] && b[i] <= B_NINE
        invariant
            from <= i <= b@.len(),
            forall|j: int| from <= j < i ==> B_ZERO <= #[trigger] b@[j] <= B_NINE,
        decreases b@.len() - i,
    {
        i = i + 1;
    }
    proof {
        lemma_leading_digits_exact(b@.skip(from as int), i - from);
    }
    i - from
}

/// A digit run of length exactly `n` gives `leading_digits == n`.
proof fn lemma_leading_digits_exact(b: Seq<u8>, n: int)
    requires
        0 <= n <= b.len(),
        forall|j: int| 0 <= j < n ==> B_ZERO <= #[trigger] b[j] <= B_NINE,
        n < b.len() ==> !(B_ZERO <= b[n] <= B_NINE),
    ensures
        leading_digits(b) == n,
    decreases n,
{
    if n > 0 {
        assert forall|j: int| 0 <= j < n - 1 implies B_ZERO <= #[trigger] b.drop_first()[j]
            <= B_NINE by {
            assert(b.drop_first()[j] == b[j + 1]);
        }
        assert(B_ZERO <= b[0] <= B_NINE);
        lemma_leading_digits_exact(b.drop_first(), n - 1);
    }
}

/// Whether a line feed occurs in `b` at index `from` or later.
fn has_newline_from(b: &[u8], from: usize) -> (r: bool)
    requires
        from <= b@.len(),
    ensures
        r == b@.skip(from as int).contains(B_NEWLINE),
{
    let mut i = from;
    while i < b.len()
        invariant
            from <= i <= b@.len(),
            forall|j: int| from <= j < i ==> b@[j] != B_NEWLINE,
        decreases b@.len() - i,
    {
        if b[i] == B_NEWLINE {
            assert(b@.skip(from as int)[i - from] == B_NEWLINE);
            return true;
        }
        i = i + 1;
    }
    assert forall|j: int| 0 <= j < b@.skip(from as int).len() implies b@.skip(from as int)[j]
        != B_NEWLINE by {
        assert(b@.skip(from as int)[j] == b@[from + j]);
    }
    false
}

/// `v` times the factor of the unit byte `u`, if `u` is a unit.
fn scale_u64(v: u64, u: u8) -> (r: Option<u64>)
    requires
        unit_factor(u) matches Some(f) ==> v * f <= u64::MAX,
    ensures
        match unit_factor(u) {
            Some(f) => r == Some((v * f) as u64),
            None => r is None,
        },
{
    if u == 107 || u == 75 {
        Some(v * 1024)
    } else if u == 109 || u == 77 {
        Some(v * 1048576)
    } else if u == 103 || u == 71 {
        Some(v * 1073741824)
    } else if u == 116 || u == 84 {
        Some(v * 1099511627776)
    } else if u == 112 || u == 80 {
        Some(v * 1125899906842624)
    } else if u == 101 || u == 69 {
        Some(v * 1152921504606846976)
    } else {
        None
    }
}

/// `v` times the factor of the unit byte `u`, if `u` is a unit.
fn scale_i64(v: i64, u: u8) -> (r: Option<i64>)
    requires
        unit_factor(u) matches Some(f) ==> i64::MIN <= v * f <= i64::MAX,
    ensures
        match unit_factor(u) {
            Some(f) => r == Some((v * f) as i64),
            None => r is None,
        },
{
    if u == 107 || u == 75 {
        Some(v * 1024)
    } else if u == 109 || u == 77 {
        Some(v * 1048576)
    } else if u == 103 || u == 71 {
        Some(v * 1073741824)
    } else if u == 116 || u == 84 {
        Some(v * 1099511627776)
    } else if u == 112 || u == 80 {
        Some(v * 1125899906842624)
    } else if u == 101 || u == 69 {
        Some(v * 1152921504606846976)
    } else {
        None
    }
}

/// Parses a size such as `512`, `4k` or `2G` into bytes (units are powers
/// of 1024). Sizes too large for a `u64` are outside the domain.
pub fn parse_computer_size_u64(s: &str) -> (r: Result<u64, StrOpError>)
    requires
        computer_size_u64_spec(s.spec_bytes()) matches Ok(v) ==> v <= u64::MAX,
    ensures
        r == match computer_size_u64_spec(s.spec_bytes()) {
            Ok(v) => Ok::<u64, StrOpError>(v as u64),
            Err(e) => Err(e),
        },
{
    let b = s.as_bytes();
    let k = count_leading_digits(b, 0);
    assert(b@.skip(0) == b@);
    if k == 0 || has_newline_from(b, k) {
        return Err(StrOpError::NotComputerSize);
    }
    let digits = &b[0..k];
    assert(digits@ == b@.take(k as int));
    let retv = match parse_unsigned(digits, 10, u64::MAX) {
        Ok(v) => v,
        Err(kind) => {
            return Err(StrOpError::ParseInt { kind });
        },
    };
    if k == b.len() {
        return Ok(retv);
    } else if k < b.len() - 1 {
        return Err(StrOpError::TrailingText);
    }
    match scale_u64(retv, b[k]) {
        Some(v) => Ok(v),
        None => Err(StrOpError::NotComputerSize),
    }
}

/// Parses a signed size such as `-4k` into bytes (units are powers of 1024).
/// Sizes outside the `i64` range are outside the domain.
pub fn parse_computer_size_i64(s: &str) -> (r: Result<i64, StrOpError>)
    requires
        computer_size_i64_spec(s.spec_bytes()) matches Ok(v) ==> i64::MIN <= v <= i64::MAX,
    ensures
        r == match computer_size_i64_spec(s.spec_bytes()) {
            Ok(v) => Ok::<i64, StrOpError>(v as i64),
            Err(e) => Err(e),
        },
{
    let b = s.as_bytes();
    let sign: usize = if b.len() > 0 && b[0] == B_MINUS {
        1
    } else {
        0
    };
    let n = count_leading_digits(b, sign);
    let k = sign + n;
    assert(b@.skip(sign as int).skip(n as int) =~= b@.skip(k as int));
    if n == 0 || has_newline_from(b, k) {
        return Err(StrOpError::NotComputerSize);
    }
    let digits = &b[0..k];
    assert(digits@ == b@.take(k as int));
    let retv = match parse_i64(digits, 10) {
        Ok(v) => v,
        Err(kind) => {
            return Err(StrOpError::ParseInt { kind });
        },
    };
    if k == b.len() {
        return Ok(retv);
    } else if k < b.len() - 1 {
        return Err(StrOpError::TrailingText);
    }
    match scale_i64(retv, b[k]) {
        Some(v) => Ok(v),
        None => Err(StrOpError::NotComputerSize),
    }
}


/// Reads an integer text (see `parse_bigint_digits`) into a `BigInt`: the
/// value of its digits in its radix, negated after a `-`.
pub fn parse_to_bigint(instr: &str) -> (r: Result<BigInt, StrOpError>)
    ensures
        r is Ok <==> parse_bigint_spec(instr.spec_bytes()) is Ok,
        r matches Err(e) ==> parse_bigint_spec(instr.spec_bytes()) == Err::<
            (bool, nat, Seq<u8>),
            StrOpError,
        >(e),
        r matches Ok(v) ==> parse_bigint_spec(instr.spec_bytes()) matches Ok((neg, radix, ds))
            && bigint_value(v) == signed_digits_value(neg, ds, radix),
{
    let parts = match parse_bigint_digits(instr) {
        Ok(p) => p,
        Err(e) => {
            return Err(e);
        },
    };
    proof {
        let b = instr.spec_bytes();
        let d = b.skip(bigint_start(b));
        lemma_digit_run(d, parts.radix as nat);
        assert forall|i: int| 0 <= i < parts.digits@.len() implies parts.digits@[i] < parts.radix by {
            assert(parts.digits@[i] == digit_of(d[i], parts.radix as nat).unwrap() as u8);
        }
    }
    match bigint_from_radix_be(parts.negative, parts.digits.as_slice(), parts.radix) {
        Some(v) => Ok(v),
        None => {
            proof {
                assert(false);
            }
            Err(StrOpError::EmptyNumber)
        },
    }
}

/// A `-` before the digits negates the value: after no prefix, and after a
/// `0x` prefix, a text of digits and the same text behind a `-` read the same
/// digits, and their values are opposite.
pub proof fn lemma_bigint_minus_negates(d: Seq<u8>)
    requires
        d.len() >= 1,
        d[0] != B_MINUS,
    ensures
        hex_prefix_len(d) == 0 ==> (parse_bigint_spec(d) matches Ok((neg, radix, ds)) ==> !neg
            && parse_bigint_spec(seq![B_MINUS] + d) == Ok::<(bool, nat, Seq<u8>), StrOpError>(
            (true, radix, ds),
        ) && signed_digits_value(true, ds, radix) == -signed_digits_value(false, ds, radix)),
        parse_bigint_spec(seq![B_ZERO, B_LOWER_X] + d) matches Ok((neg, radix, ds)) ==> !neg
            && parse_bigint_spec(seq![B_ZERO, B_LOWER_X, B_MINUS] + d) == Ok::<
            (bool, nat, Seq<u8>),
            StrOpError,
        >((true, radix, ds)) && signed_digits_value(true, ds, radix) == -signed_digits_value(
            false,
            ds,
            radix,
        ),
{
    let m = seq![B_MINUS] + d;
    assert(m[0] == B_MINUS);
    assert(m.skip(1) =~= d);
    assert(d.skip(0) =~= d);
    let h = seq![B_ZERO, B_LOWER_X] + d;
    let hm = seq![B_ZERO, B_LOWER_X, B_MINUS] + d;
    assert(h[0] == B_ZERO && h[1] == B_LOWER_X && h[2] == d[0]);
    assert(hm[0] == B_ZERO && hm[1] == B_LOWER_X && hm[2] == B_MINUS);
    assert(h.skip(2) =~= d);
    assert(hm.skip(3) =~= d);
}

/// Whether `x` is an ASCII hexadecimal digit: `0-9`, `a-f` or `A-F`.
pub open spec fn is_hex_byte(x: u8) -> bool {
    (48 <= x <= 57) || (97 <= x <= 102) || (65 <= x <= 70)
}

/// Behind any of the hexadecimal prefixes, a text of hexadecimal digits reads
/// as the positive number whose base-16 digits they are, one digit per byte.
proof fn lemma_hex_parse(p: Seq<u8>, h: Seq<u8>)
    requires
        p == seq![B_ZERO, B_LOWER_X] || p == seq![B_ZERO, B_UPPER_X] || p == seq![B_LOWER_X] || p
            == seq![B_UPPER_X],
        h.len() >= 1,
        forall|i: int| 0 <= i < h.len() ==> is_hex_byte(#[trigger] h[i]),
    ensures
        parse_bigint_spec(p + h) matches Ok((neg, radix, ds)) && !neg && radix == 16 && ds.len()
            == h.len() && forall|i: int|
            0 <= i < h.len() ==> #[trigger] ds[i] == digit_of(h[i], 16).unwrap() as u8,
{
    let b = p + h;
    assert(is_hex_byte(h[0]));
    assert(b[p.len() as int] == h[0]);
    if p.len() == 2 {
        assert(b[0] == B_ZERO && (b[1] == B_LOWER_X || b[1] == B_UPPER_X));
    } else {
        assert(b[0] == B_LOWER_X || b[0] == B_UPPER_X);
    }
    assert(hex_prefix_len(b) == p.len());
    assert(!bigint_negative(b));
    assert(bigint_start(b) == p.len());
    let d = b.skip(p.len() as int);
    assert(d =~= h);
    assert forall|j: int| 0 <= j < d.len() implies (#[trigger] digit_of(d[j], 16)) is Some by {
        assert(is_hex_byte(h[j]));
    }
    lemma_digit_run_prefix(d, 16, d.len() as int);
    lemma_digit_run(d, 16);
}

/// Reading the digits of `n` in `radix` one by one gives back `n`.
proof fn lemma_digits_value_of_digits_in(n: nat, radix: nat, ds: Seq<u8>)
    requires
        2 <= radix <= 36,
        ds.len() == digits_in(n, radix).len(),
        forall|i: int|
            0 <= i < ds.len() ==> #[trigger] ds[i] == digit_of(digits_in(n, radix)[i], radix).unwrap() as u8,
    ensures
        digits_value(ds, radix) == n,
    decreases n,
{
    if n < radix {
        lemma_digit_byte_value(n, radix);
        assert(ds[0] == n);
        assert(ds.drop_last() =~= Seq::<u8>::empty());
        assert(digits_value(ds.drop_last(), radix) == 0);
        assert(0 * radix + n == n) by (nonlinear_arith);
    } else {
        let q = n / radix;
        let r = n % radix;
        assert(q * radix + r == n && q < n && r < radix) by (nonlinear_arith)
            requires
                radix >= 2,
                n >= radix,
                q == n / radix,
                r == n % radix,
        ;
        let t = digits_in(n, radix);
        let tq = digits_in(q, radix);
        assert(t == tq.push(digit_byte(r)));
        let dq = ds.drop_last();
        assert forall|i: int| 0 <= i < dq.len() implies #[trigger] dq[i] == digit_of(
            tq[i],
            radix,
        ).unwrap() as u8 by {
            assert(dq[i] == ds[i]);
            assert(t[i] == tq[i]);
        }
        lemma_digits_value_of_digits_in(q, radix, dq);
        lemma_digit_byte_value(r, radix);
        assert(ds.last() == ds[ds.len() - 1]);
        assert(t[ds.len() - 1] == digit_byte(r));
        assert(ds.last() == r);
    }
}

/// The radix prefix is read without regard to case: behind `0X` and `X` a
/// text of hexadecimal digits reads exactly as behind `0x` and `x`, as a
/// positive base-16 number with one digit per byte; and the lowercase
/// hexadecimal digits of every `n`, behind any of these prefixes, have the
/// value `n`.
pub proof fn lemma_bigint_hex_prefix_any_case(h: Seq<u8>, n: nat)
    requires
        h.len() >= 1,
        forall|i: int| 0 <= i < h.len() ==> is_hex_byte(#[trigger] h[i]),
    ensures
        parse_bigint_spec(seq![B_ZERO, B_UPPER_X] + h) == parse_bigint_spec(
            seq![B_ZERO, B_LOWER_X] + h,
        ),
        parse_bigint_spec(seq![B_UPPER_X] + h) == parse_bigint_spec(seq![B_ZERO, B_LOWER_X] + h),
        parse_bigint_spec(seq![B_LOWER_X] + h) == parse_bigint_spec(seq![B_ZERO, B_LOWER_X] + h),
        parse_bigint_spec(seq![B_ZERO, B_LOWER_X] + h) matches Ok((neg, radix, ds)) && !neg && radix
            == 16 && ds.len() == h.len(),
        parse_bigint_spec(seq![B_ZERO, B_UPPER_X] + digits_in(n, 16)) matches Ok((neg, radix, ds))
            && !neg && radix == 16 && digits_value(ds, 16) == n,
        parse_bigint_spec(seq![B_UPPER_X] + digits_in(n, 16)) matches Ok((neg, radix, ds)) && !neg
            && radix == 16 && digits_value(ds, 16) == n,
        parse_bigint_spec(seq![B_ZERO, B_LOWER_X] + digits_in(n, 16)) matches Ok((neg, radix, ds))
            && !neg && radix == 16 && digits_value(ds, 16) == n,
{
    lemma_hex_parse(seq![B_ZERO, B_UPPER_X], h);
    lemma_hex_parse(seq![B_ZERO, B_LOWER_X], h);
    lemma_hex_parse(seq![B_UPPER_X], h);
    lemma_hex_parse(seq![B_LOWER_X], h);
    let a = parse_bigint_spec(seq![B_ZERO, B_LOWER_X] + h)->Ok_0.2;
    let b = parse_bigint_spec(seq![B_ZERO, B_UPPER_X] + h)->Ok_0.2;
    let c = parse_bigint_spec(seq![B_UPPER_X] + h)->Ok_0.2;
    let e = parse_bigint_spec(seq![B_LOWER_X] + h)->Ok_0.2;
    assert(a =~= b);
    assert(a =~= c);
    assert(a =~= e);
    let t = digits_in(n, 16);
    crate::numparse::lemma_digits_in_hex(n);
    lemma_hex_parse(seq![B_ZERO, B_UPPER_X], t);
    lemma_hex_parse(seq![B_ZERO, B_LOWER_X], t);
    lemma_hex_parse(seq![B_UPPER_X], t);
    lemma_digits_value_of_digits_in(n, 16, parse_bigint_spec(seq![B_ZERO, B_UPPER_X] + t)->Ok_0.2);
    lemma_digits_value_of_digits_in(n, 16, parse_bigint_spec(seq![B_ZERO, B_LOWER_X] + t)->Ok_0.2);
    lemma_digits_value_of_digits_in(n, 16, parse_bigint_spec(seq![B_UPPER_X] + t)->Ok_0.2);
}

/// `num_bigint::BigInt`, carried through as an opaque value.
#[verifier::external_type_specification]
#[verifier::external_body]
pub struct ExBigInt(BigInt);

/// The integer that a `BigInt` holds.
pub uninterp spec fn bigint_value(b: BigInt) -> int;

/// The integer whose digits, most significant first, are `ds` in `radix`,
/// negated when `negative`.
pub open spec fn signed_digits_value(negative: bool, ds: Seq<u8>, radix: nat) -> int {
    if negative {
        -digits_value(ds, radix)
    } else {
        digits_value(ds, radix)
    }
}

/// `BigInt::from_radix_be`: the integer whose big-endian digits in `radix`
/// are `digits`, negated when `negative` (a negated zero is zero). The crate
/// returns `None` exactly when some digit is not below `radix` (any byte is a
/// digit of radix 256) and panics when `radix` is outside `2..=256`.
#[verifier::external_body]
fn bigint_from_radix_be(negative: bool, digits: &[u8], radix: u32) -> (r: Option<BigInt>)
    requires
        2 <= radix <= 256,
    ensures
        r is Some <==> (radix == 256 || forall|i: int|
            0 <= i < digits@.len() ==> digits@[i] < radix),
        r matches Some(v) ==> bigint_value(v) == signed_digits_value(
            negative,
            digits@,
            radix as nat,
        ),
{
    let sign = if negative {
        num_bigint::Sign::Minus
    } else {
        num_bigint::Sign::Plus
    };
    BigInt::from_radix_be(sign, digits, radix)
}

// ------------------------------------------------------------------ base64

/// `base64::DecodeError`, carried through as an opaque value.
#[verifier::external_type_specification]
#[verifier::external_body]
pub struct ExDecodeError(base64::DecodeError);

/// The text that base64's standard engine (standard alphabet, `=` padding)
/// makes of `bytes`.
pub uninterp spec fn base64_encoded(bytes: Seq<u8>) -> Seq<char>;

/// The bytes that base64's standard engine reads from the text `text`
/// (canonical padding required), or `None` when it refuses the text.
pub uninterp spec fn base64_decoded(text: Seq<u8>) -> Option<Seq<u8>>;

/// `base64::encode`: the standard-alphabet, padded encoding of `bytes`.
/// The engine's output is canonical, so its own decoder reads it back.
#[verifier::external_body]
#[allow(deprecated)]
fn base64_encode_standard(bytes: &[u8]) -> (r: String)
    ensures
        r@ == base64_encoded(bytes@),
        base64_decoded(encode_utf8(r@)) == Some(bytes@),
{
    base64::encode(bytes)
}

/// `base64::decode`: the bytes that `text` encodes, or the crate's error.
#[verifier::external_body]
#[allow(deprecated)]
fn base64_decode_standard(text: &[u8]) -> (r: Result<Vec<u8>, base64::DecodeError>)
    ensures
        match r {
            Ok(v) => base64_decoded(text@) == Some(v@),
            Err(_) => base64_decoded(text@) is None,
        },
{
    base64::decode(text)
}

/// The standard base64 text of `bb`; decoding it gives `bb` back.
pub fn encode_base64(bb: &[u8]) -> (r: String)
    ensures
        r@ == base64_encoded(bb@),
        base64_decoded(encode_utf8(r@)) == Some(bb@),
{
    base64_encode_standard(bb)
}

/// The bytes that the base64 text `instr` encodes.
pub fn decode_base64(instr: &str) -> (r: Result<Vec<u8>, StrOpError>)
    ensures
        match base64_decoded(instr.spec_bytes()) {
            Some(v) => r matches Ok(w) && w@ == v,
            None => r == Err::<Vec<u8>, StrOpError>(StrOpError::InvalidBase64),
        },
{
    match base64_decode_standard(instr.as_bytes()) {
        Ok(v) => Ok(v),
        Err(_) => Err(StrOpError::InvalidBase64),
    }
}

// ------------------------------------------------------------ quote_string

/// `s` with every backslash doubled.
pub open spec fn escape_backslashes(s: Seq<char>) -> Seq<char>
    decreases s.len(),
{
    if s.len() == 0 {
        Seq::empty()
    } else {
        escape_backslashes(s.drop_last()) + if s.last() == '\\' {
            seq!['\\', '\\']
        } else {
            seq![s.last()]
        }
    }
}

/// `ins` in double quotes, with every backslash doubled.
pub fn quote_string(ins: &str) -> (r: Result<String, StrOpError>)
    ensures
        r matches Ok(q) && q@ == seq!['"'] + escape_backslashes(ins@) + seq!['"'],
{
    let v = chars_of(ins);
    let mut outs = String::new();
    string_push(&mut outs, '"');
    let mut i: usize = 0;
    while i < v.len()
        invariant
            i <= v@.len(),
            outs@ == seq!['"'] + escape_backslashes(v@.take(i as int)),
        decreases v@.len() - i,
    {
        assert(v@.take(i + 1).drop_last() == v@.take(i as int));
        let c = v[i];
        if c == '\\' {
            string_push(&mut outs, '\\');
            string_push(&mut outs, '\\');
        } else {
            string_push(&mut outs, c);
        }
        i = i + 1;
    }
    assert(v@.take(i as int) == v@);
    string_push(&mut outs, '"');
    Ok(outs)
}

/// Quoting doubles every backslash and leaves every other character alone,
/// character by character: the escaping of two texts one after the other is
/// their escapings one after the other, a backslash becomes two backslashes,
/// any other character stays itself, and so the text between the quotes has
/// the input's length plus one for each backslash in it.
pub proof fn lemma_escape_backslashes_doubles(a: Seq<char>, b: Seq<char>, c: char)
    ensures
        escape_backslashes(a + b) == escape_backslashes(a) + escape_backslashes(b),
        escape_backslashes(seq!['\\']) == seq!['\\', '\\'],
        c != '\\' ==> escape_backslashes(seq![c]) == seq![c],
        escape_backslashes(a).len() == a.len() + count_backslashes(a),
{
    lemma_escape_concat(a, b);
    let one = seq!['\\'];
    assert(one.drop_last() =~= Seq::<char>::empty());
    assert(escape_backslashes(Seq::<char>::empty()) =~= Seq::<char>::empty());
    assert(one.last() == '\\');
    assert(Seq::<char>::empty() + seq!['\\', '\\'] =~= seq!['\\', '\\']);
    assert(escape_backslashes(one) =~= seq!['\\', '\\']);
    let other = seq![c];
    assert(other.drop_last() =~= Seq::<char>::empty());
    if c != '\\' {
        assert(other.last() == c);
        assert(Seq::<char>::empty() + seq![c] =~= seq![c]);
        assert(escape_backslashes(other) =~= seq![c]);
    }
    lemma_escape_len(a);
}

/// How many backslashes `s` holds.
pub open spec fn count_backslashes(s: Seq<char>) -> nat
    decreases s.len(),
{
    if s.len() == 0 {
        0
    } else {
        count_backslashes(s.drop_last()) + if s.last() == '\\' {
            1nat
        } else {
            0nat
        }
    }
}

proof fn lemma_escape_concat(a: Seq<char>, b: Seq<char>)
    ensures
        escape_backslashes(a + b) == escape_backslashes(a) + escape_backslashes(b),
    decreases b.len(),
{
    if b.len() == 0 {
        assert(a + b =~= a);
        assert(escape_backslashes(b) =~= Seq::<char>::empty());
        assert(escape_backslashes(a) + escape_backslashes(b) =~= escape_backslashes(a));
    } else {
        lemma_escape_concat(a, b.drop_last());
        assert((a + b).drop_last() =~= a + b.drop_last());
        assert((a + b).last() == b.last());
        let tail = if b.last() == '\\' {
            seq!['\\', '\\']
        } else {
            seq![b.last()]
        };
        assert(escape_backslashes(a) + escape_backslashes(b.drop_last()) + tail =~= escape_backslashes(
            a,
        ) + (escape_backslashes(b.drop_last()) + tail));
    }
}

proof fn lemma_escape_len(a: Seq<char>)
    ensures
        escape_backslashes(a).len() == a.len() + count_backslashes(a),
    decreases a.len(),
{
    if a.len() > 0 {
        lemma_escape_len(a.drop_last());
    }
}

// ------------------------------------------------------------- split_lines

/// The pieces of `s` between occurrences of `sep` (one more piece than
/// there are separators).
pub open spec fn split_on(s: Seq<char>, sep: char) -> Seq<Seq<char>>
    decreases s.len(),
{
    if s.len() == 0 {
        seq![Seq::empty()]
    } else {
        let rest = split_on(s.drop_first(), sep);
        if s[0] == sep {
            seq![Seq::empty()] + rest
        } else {
            rest.update(0, seq![s[0]] + rest[0])
        }
    }
}

/// `p` without its trailing carriage returns.
pub open spec fn trim_end_cr(p: Seq<char>) -> Seq<char>
    decreases p.len(),
{
    if p.len() > 0 && p.last() == '\r' {
        trim_end_cr(p.drop_last())
    } else {
        p
    }
}

/// The lines of `s`: the pieces between line feeds, each without its
/// trailing carriage returns.
pub open spec fn lines_spec(s: Seq<char>) -> Seq<Seq<char>> {
    split_on(s, '\n').map_values(|p: Seq<char>| trim_end_cr(p))
}

/// `split_on` never yields an empty list of pieces.
proof fn lemma_split_on_nonempty(s: Seq<char>, sep: char)
    ensures
        split_on(s, sep).len() >= 1,
    decreases s.len(),
{
    if s.len() > 0 {
        lemma_split_on_nonempty(s.drop_first(), sep);
    }
}

/// Where the carriage returns at the end of `v[start..end]` begin.
fn trimmed_end(v: &[char], start: usize, end: usize) -> (r: usize)
    requires
        start <= end <= v@.len(),
    ensures
        start <= r <= end,
        trim_end_cr(v@.subrange(start as int, end as int)) == v@.subrange(start as int, r as int),
{
    let mut e = end;
    while e > start && v[e - 1] == '\r'
        invariant
            start <= e <= end <= v@.len(),
            trim_end_cr(v@.subrange(start as int, end as int)) == trim_end_cr(
                v@.subrange(start as int, e as int),
            ),
        decreases e,
    {
        assert(v@.subrange(start as int, e as int).drop_last() == v@.subrange(
            start as int,
            e - 1,
        ));
        e = e - 1;
    }
    e
}

/// Putting a line in front keeps the lines in step with their raw pieces.
proof fn lemma_insert_front_map(
    lines: Seq<String>,
    line: String,
    raw: Seq<Seq<char>>,
    piece: Seq<char>,
)
    requires
        lines.map_values(|l: String| l@) == raw.map_values(|p: Seq<char>| trim_end_cr(p)),
        line@ == trim_end_cr(piece),
    ensures
        lines.insert(0, line).map_values(|l: String| l@) == (seq![piece] + raw).map_values(
            |p: Seq<char>| trim_end_cr(p),
        ),
{
    let a = lines.insert(0, line).map_values(|l: String| l@);
    let b = (seq![piece] + raw).map_values(|p: Seq<char>| trim_end_cr(p));
    let la = lines.map_values(|l: String| l@);
    let lb = raw.map_values(|p: Seq<char>| trim_end_cr(p));
    assert(la.len() == lines.len());
    assert(lb.len() == raw.len());
    assert(lines.len() == raw.len());
    assert forall|j: int| 0 <= j < a.len() implies a[j] == b[j] by {
        if j > 0 {
            assert(lines.map_values(|l: String| l@)[j - 1] == raw.map_values(
                |p: Seq<char>| trim_end_cr(p),
            )[j - 1]);
        }
    }
    assert(a =~= b);
}

/// Splits `s` at line feeds and drops the carriage returns that end each line.
pub fn split_lines(s: &str) -> (r: Vec<String>)
    ensures
        r@.map_values(|l: String| l@) == lines_spec(s@),
{
    let v = chars_of(s);
    let mut retv: Vec<String> = Vec::new();
    let ghost mut raw: Seq<Seq<char>> = Seq::empty();
    let mut end: usize = v.len();
    let mut i: usize = v.len();
    assert(v@.skip(i as int) == Seq::<char>::empty());
    assert(split_on(v@.skip(i as int), '\n') == seq![v@.subrange(i as int, end as int)] + raw);
    while i > 0
        invariant
            i <= end <= v@.len(),
            split_on(v@.skip(i as int), '\n') == seq![v@.subrange(i as int, end as int)] + raw,
            retv@.map_values(|l: String| l@) == raw.map_values(|p: Seq<char>| trim_end_cr(p)),
        decreases i,
    {
        let ghost old_raw = raw;
        assert(v@.skip(i - 1).drop_first() == v@.skip(i as int));
        assert(v@.skip(i - 1)[0] == v@[i - 1]);
        if v[i - 1] == '\n' {
            let e = trimmed_end(v.as_slice(), i, end);
            let line = string_of(&v.as_slice()[i..e]);
            let ghost old_retv = retv@;
            retv.insert(0, line);
            proof {
                raw = seq![v@.subrange(i as int, end as int)] + old_raw;
                lemma_insert_front_map(old_retv, line, old_raw, v@.subrange(i as int, end as int));
            }
            end = i - 1;
            assert(v@.subrange(i - 1, i - 1) == Seq::<char>::empty());
            assert(split_on(v@.skip(i - 1), '\n') =~= seq![v@.subrange(i - 1, end as int)] + raw);
        } else {
            assert(seq![v@[i - 1]] + v@.subrange(i as int, end as int) == v@.subrange(
                i - 1,
                end as int,
            ));
            assert(split_on(v@.skip(i - 1), '\n') =~= seq![v@.subrange(i - 1, end as int)] + raw);
        }
        i = i - 1;
    }
    assert(v@.skip(0) == v@);
    let e = trimmed_end(v.as_slice(), 0, end);
    let line = string_of(&v.as_slice()[0..e]);
    let ghost old_retv = retv@;
    retv.insert(0, line);
    proof {
        lemma_insert_front_map(old_retv, line, raw, v@.subrange(0, end as int));
    }
    retv
}

// ------------------------------------------------------------------- laws

/// Digit texts are ASCII, so their bytes are their characters.
proof fn lemma_digit_text_bytes(s: Seq<char>)
    requires
        all_dec_digits(s),
    ensures
        encode_utf8(s) == ascii_of(s),
{
    assert(vstd::utf8::is_ascii_chars(s)) by {
        assert forall|i: int| 0 <= i < s.len() implies '\0' <= #[trigger] s[i] <= '\u{7f}' by {
            assert('0' <= s[i] <= '9');
        }
    }
    vstd::utf8::is_ascii_chars_encode_utf8(s);
    assert(encode_utf8(s) =~= ascii_of(s));
}

/// `parse_u64` reads back the decimal text of every `u64`.
pub proof fn lemma_parse_u64_reads_decimal(n: u64)
    ensures
        parse_u64_spec(encode_utf8(decimal(n as nat))) == Ok::<u64, StrOpError>(n),
{
    let d = decimal(n as nat);
    lemma_decimal_digits(n as nat);
    lemma_digit_text_bytes(d);
    let b = encode_utf8(d);
    assert(b[0] == d[0] as u8);
    assert('0' <= d[0] <= '9');
    if b.len() >= 2 {
        assert(b[1] == d[1] as u8);
        assert('0' <= d[1] <= '9');
    }
    assert(hex_prefix_len(b) == 0);
    assert(b.skip(0) == b);
    lemma_from_str_radix_decimal(d, false, 0, u64::MAX as int);
}

/// `parse_u64` reads back the lowercase hexadecimal digits of every `u64`
/// after a `0x` or an `x` prefix.
pub proof fn lemma_parse_u64_reads_hex(n: u64)
    ensures
        parse_u64_spec(seq![B_ZERO, B_LOWER_X] + digits_in(n as nat, 16)) == Ok::<u64, StrOpError>(n),
        parse_u64_spec(seq![B_LOWER_X] + digits_in(n as nat, 16)) == Ok::<u64, StrOpError>(n),
{
    let d = digits_in(n as nat, 16);
    lemma_from_str_radix_digits_in(n as nat, 16, false, 0, u64::MAX as int);
    let b2 = seq![B_ZERO, B_LOWER_X] + d;
    assert(b2[0] == B_ZERO && b2[1] == B_LOWER_X);
    assert(b2.skip(2) =~= d);
    let b1 = seq![B_LOWER_X] + d;
    assert(b1[0] == B_LOWER_X);
    assert(b1.skip(1) =~= d);
}

/// A size written as plain decimal digits is that many bytes, for every
/// `u64`.
pub proof fn lemma_computer_size_of_decimal(n: u64)
    ensures
        computer_size_u64_spec(encode_utf8(decimal(n as nat))) == Ok::<int, StrOpError>(n as int),
{
    let d = decimal(n as nat);
    lemma_decimal_digits(n as nat);
    lemma_digit_text_bytes(d);
    let b = encode_utf8(d);
    assert(forall|i: int| 0 <= i < b.len() ==> B_ZERO <= #[trigger] b[i] <= B_NINE) by {
        assert forall|i: int| 0 <= i < b.len() implies B_ZERO <= #[trigger] b[i] <= B_NINE by {
            assert(b[i] == d[i] as u8);
            assert('0' <= d[i] <= '9');
        }
    }
    lemma_leading_digits_exact(b, b.len() as int);
    assert(b.skip(b.len() as int) =~= Seq::<u8>::empty());
    assert(b.take(b.len() as int) == b);
    lemma_from_str_radix_decimal(d, false, 0, u64::MAX as int);
}

/// A size written as decimal digits and one unit letter is that many times
/// the unit's power of 1024, for every `u64` count.
pub proof fn lemma_computer_size_with_unit(n: u64, unit: u8)
    requires
        unit_factor(unit) is Some,
    ensures
        computer_size_u64_spec(encode_utf8(decimal(n as nat)).push(unit)) == Ok::<int, StrOpError>(
            n * unit_factor(unit)->Some_0,
        ),
        n <= i64::MAX ==> computer_size_i64_spec(encode_utf8(decimal(n as nat)).push(unit)) == Ok::<
            int,
            StrOpError,
        >(n * unit_factor(unit)->Some_0),
{
    let d = decimal(n as nat);
    lemma_decimal_digits(n as nat);
    lemma_digit_text_bytes(d);
    let digits = encode_utf8(d);
    let b = digits.push(unit);
    let k = digits.len() as int;
    assert forall|i: int| 0 <= i < k implies B_ZERO <= #[trigger] b[i] <= B_NINE by {
        assert(b[i] == digits[i]);
        assert(digits[i] == d[i] as u8);
        assert('0' <= d[i] <= '9');
    }
    assert(b[k] == unit);
    lemma_leading_digits_exact(b, k);
    assert(b.skip(k) =~= seq![unit]);
    assert(!seq![unit].contains(B_NEWLINE)) by {
        if seq![unit].contains(B_NEWLINE) {
            assert(seq![unit][0] == B_NEWLINE);
        }
    }
    assert(b.take(k) =~= digits);
    lemma_from_str_radix_decimal(d, false, 0, u64::MAX as int);
    if n <= i64::MAX {
        assert(b[0] != B_MINUS);
        assert(b.skip(0) =~= b);
        lemma_from_str_radix_decimal(d, true, i64::MIN as int, i64::MAX as int);
    }
}

/// The unit letters and their factors, either case alike: `k` is 1024, `m`
/// 1024^2, `g` 1024^3, `t` 1024^4, `p` 1024^5 and `e` 1024^6; a size written
/// as the decimal digits of `n` and one of them is `n` times its factor, as
/// a signed size too.
pub proof fn lemma_computer_size_units(n: u64)
    ensures
        ({
            let t = encode_utf8(decimal(n as nat));
            &&& computer_size_u64_spec(t.push(107)) == Ok::<int, StrOpError>(n * 1024)
            &&& computer_size_u64_spec(t.push(75)) == Ok::<int, StrOpError>(n * 1024)
            &&& computer_size_u64_spec(t.push(109)) == Ok::<int, StrOpError>(n * (1024 * 1024))
            &&& computer_size_u64_spec(t.push(77)) == Ok::<int, StrOpError>(n * (1024 * 1024))
            &&& computer_size_u64_spec(t.push(103)) == Ok::<int, StrOpError>(
                n * (1024 * 1024 * 1024),
            )
            &&& computer_size_u64_spec(t.push(71)) == Ok::<int, StrOpError>(
                n * (1024 * 1024 * 1024),
            )
            &&& computer_size_u64_spec(t.push(116)) == Ok::<int, StrOpError>(
                n * (1024 * 1024 * 1024 * 1024),
            )
            &&& computer_size_u64_spec(t.push(84)) == Ok::<int, StrOpError>(
                n * (1024 * 1024 * 1024 * 1024),
            )
            &&& computer_size_u64_spec(t.push(112)) == Ok::<int, StrOpError>(
                n * (1024 * 1024 * 1024 * 1024 * 1024),
            )
            &&& computer_size_u64_spec(t.push(80)) == Ok::<int, StrOpError>(
                n * (1024 * 1024 * 1024 * 1024 * 1024),
            )
            &&& computer_size_u64_spec(t.push(101)) == Ok::<int, StrOpError>(
                n * (1024 * 1024 * 1024 * 1024 * 1024 * 1024),
            )
            &&& computer_size_u64_spec(t.push(69)) == Ok::<int, StrOpError>(
                n * (1024 * 1024 * 1024 * 1024 * 1024 * 1024),
            )
            &&& n <= i64::MAX ==> forall|u: u8|
                u == 107 || u == 75 || u == 109 || u == 77 || u == 103 || u == 71 || u == 116 || u
                    == 84 || u == 112 || u == 80 || u == 101 || u == 69 ==> #[trigger] computer_size_i64_spec(
                    t.push(u),
                ) == computer_size_u64_spec(t.push(u))
        }),
{
    lemma_computer_size_with_unit(n, 107);
    lemma_computer_size_with_unit(n, 75);
    lemma_computer_size_with_unit(n, 109);
    lemma_computer_size_with_unit(n, 77);
    lemma_computer_size_with_unit(n, 103);
    lemma_computer_size_with_unit(n, 71);
    lemma_computer_size_with_unit(n, 116);
    lemma_computer_size_with_unit(n, 84);
    lemma_computer_size_with_unit(n, 112);
    lemma_computer_size_with_unit(n, 80);
    lemma_computer_size_with_unit(n, 101);
    lemma_computer_size_with_unit(n, 69);
}

/// How many times `c` occurs in `s`.
pub open spec fn count_char(s: Seq<char>, c: char) -> nat
    decreases s.len(),
{
    if s.len() == 0 {
        0
    } else {
        (if s[0] == c {
            1nat
        } else {
            0nat
        }) + count_char(s.drop_first(), c)
    }
}

/// `split_on` yields one piece more than there are separators, and no piece
/// holds a separator.
proof fn lemma_split_on_shape(s: Seq<char>, sep: char)
    ensures
        split_on(s, sep).len() == count_char(s, sep) + 1,
        forall|i: int| 0 <= i < split_on(s, sep).len() ==> !(#[trigger] split_on(s, sep)[i]).contains(sep),
    decreases s.len(),
{
    if s.len() > 0 {
        lemma_split_on_shape(s.drop_first(), sep);
        let rest = split_on(s.drop_first(), sep);
        let pieces = split_on(s, sep);
        if s[0] == sep {
            assert forall|i: int| 0 <= i < pieces.len() implies !(#[trigger] pieces[i]).contains(sep) by {
                if i > 0 {
                    assert(pieces[i] == rest[i - 1]);
                }
            }
        } else {
            assert forall|i: int| 0 <= i < pieces.len() implies !(#[trigger] pieces[i]).contains(sep) by {
                if i == 0 {
                    let p = seq![s[0]] + rest[0];
                    assert(!rest[0].contains(sep));
                    if p.contains(sep) {
                        let k = choose|k: int| 0 <= k < p.len() && p[k] == sep;
                        if k > 0 {
                            assert(rest[0][k - 1] == sep);
                        }
                    }
                } else {
                    assert(pieces[i] == rest[i]);
                }
            }
        }
    }
}

/// `trim_end_cr` keeps a prefix and leaves no carriage return at the end.
proof fn lemma_trim_end_cr(p: Seq<char>)
    ensures
        trim_end_cr(p).len() <= p.len(),
        trim_end_cr(p) == p.take(trim_end_cr(p).len() as int),
        trim_end_cr(p).len() > 0 ==> trim_end_cr(p).last() != '\r',
    decreases p.len(),
{
    if p.len() > 0 && p.last() == '\r' {
        lemma_trim_end_cr(p.drop_last());
        let t = trim_end_cr(p.drop_last());
        assert(p.drop_last().take(t.len() as int) == p.take(t.len() as int));
    } else {
        assert(p.take(p.len() as int) == p);
    }
}

/// `split_lines` gives one line more than there are line feeds; no line
/// holds a line feed, and none ends in a carriage return.
pub proof fn lemma_lines_shape(s: Seq<char>)
    ensures
        lines_spec(s).len() == count_char(s, '\n') + 1,
        forall|i: int|
            0 <= i < lines_spec(s).len() ==> {
                &&& !(#[trigger] lines_spec(s)[i]).contains('\n')
                &&& lines_spec(s)[i].len() > 0 ==> lines_spec(s)[i].last() != '\r'
            },
{
    lemma_split_on_shape(s, '\n');
    let pieces = split_on(s, '\n');
    assert forall|i: int| 0 <= i < lines_spec(s).len() implies {
        &&& !(#[trigger] lines_spec(s)[i]).contains('\n')
        &&& lines_spec(s)[i].len() > 0 ==> lines_spec(s)[i].last() != '\r'
    } by {
        let p = pieces[i];
        lemma_trim_end_cr(p);
        let t = trim_end_cr(p);
        assert(lines_spec(s)[i] == t);
        assert(!p.contains('\n'));
        if t.contains('\n') {
            let k = choose|k: int| 0 <= k < t.len() && t[k] == '\n';
            assert(p[k] == t[k]);
        }
    }
}

/// The pieces put back together, `sep` between each two.
pub open spec fn join_with(parts: Seq<Seq<char>>, sep: char) -> Seq<char>
    decreases parts.len(),
{
    if parts.len() == 0 {
        Seq::empty()
    } else if parts.len() == 1 {
        parts[0]
    } else {
        parts[0] + seq![sep] + join_with(parts.drop_first(), sep)
    }
}

/// Joining the pieces of `s` with the separator gives `s` back, and every
/// character of a piece is a character of `s`.
proof fn lemma_split_on_join(s: Seq<char>, sep: char)
    ensures
        join_with(split_on(s, sep), sep) == s,
        forall|i: int, c: char|
            #![trigger split_on(s, sep)[i].contains(c)]
            0 <= i < split_on(s, sep).len() && split_on(s, sep)[i].contains(c) ==> s.contains(c),
    decreases s.len(),
{
    if s.len() > 0 {
        lemma_split_on_join(s.drop_first(), sep);
        lemma_split_on_nonempty(s.drop_first(), sep);
        let rest = split_on(s.drop_first(), sep);
        let pieces = split_on(s, sep);
        assert(s =~= seq![s[0]] + s.drop_first());
        if s[0] == sep {
            assert(pieces.drop_first() =~= rest);
            assert(join_with(pieces, sep) =~= seq![sep] + join_with(rest, sep));
        } else {
            if rest.len() > 1 {
                assert(pieces.drop_first() =~= rest.drop_first());
                assert(join_with(pieces, sep) =~= (seq![s[0]] + rest[0]) + seq![sep] + join_with(
                    rest.drop_first(),
                    sep,
                ));
            }
        }
        assert forall|i: int, c: char|
            #![trigger pieces[i].contains(c)]
            0 <= i < pieces.len() && pieces[i].contains(c) implies s.contains(c) by {
            let k = choose|k: int| 0 <= k < pieces[i].len() && pieces[i][k] == c;
            if s[0] != sep && i == 0 {
                if k == 0 {
                    assert(s[0] == c);
                } else {
                    assert(rest[0][k - 1] == c);
                    assert(rest[0].contains(c));
                    let m = choose|m: int| 0 <= m < s.drop_first().len() && s.drop_first()[m] == c;
                    assert(s[m + 1] == c);
                }
            } else {
                let j = if s[0] == sep {
                    i - 1
                } else {
                    i
                };
                assert(pieces[i] == rest[j]);
                assert(rest[j].contains(c));
                let m = choose|m: int| 0 <= m < s.drop_first().len() && s.drop_first()[m] == c;
                assert(s[m + 1] == c);
            }
        }
    }
}

/// `split_lines` loses nothing but the carriage returns at line ends: on a
/// text without carriage returns, its lines joined by line feeds give the
/// text back.
pub proof fn lemma_lines_rejoin(s: Seq<char>)
    requires
        !s.contains('\r'),
    ensures
        join_with(lines_spec(s), '\n') == s,
{
    lemma_split_on_join(s, '\n');
    let pieces = split_on(s, '\n');
    assert forall|i: int| 0 <= i < pieces.len() implies trim_end_cr(#[trigger] pieces[i]) == pieces[i] by {
        if pieces[i].len() > 0 && pieces[i].last() == '\r' {
            assert(pieces[i].contains('\r'));
        }
    }
    assert(lines_spec(s) =~= pieces);
}

} // verus!
