//! Integer text parsing with the rules of the standard `from_str_radix`:
//! an optional sign, then digits of the radix, read left to right; the first
//! failure (empty text, a bad digit, an overflow) decides the error.
use vstd::prelude::*;
use crate::text::{decimal, digit_char};

verus! {

/// Why a text is not an integer (the kinds that `from_str_radix` reports).
#[derive(Clone, Copy, Debug, PartialEq, Eq, Structural)]
pub enum IntErrorKind {
    Empty,
    InvalidDigit,
    PosOverflow,
    NegOverflow,
}

/// The value of byte `b` as a digit of `radix`, if it is one
/// (`0-9`, then `a-z` or `A-Z` for the values from ten up).
pub open spec fn digit_of(b: u8, radix: nat) -> Option<nat> {
    let v: int = if 48 <= b <= 57 {
        b - 48
    } else if 97 <= b <= 122 {
        b - 97 + 10
    } else if 65 <= b <= 90 {
        b - 65 + 10
    } else {
        36
    };
    if v < radix {
        Some(v as nat)
    } else {
        None
    }
}

/// Reads `digits` into `acc`, one digit at a time, staying within `[lo, hi]`.
pub open spec fn accumulate(
    digits: Seq<u8>,
    radix: nat,
    neg: bool,
    lo: int,
    hi: int,
    acc: int,
) -> Result<int, IntErrorKind>
    decreases digits.len(),
{
    if digits.len() == 0 {
        Ok(acc)
    } else {
        match digit_of(digits[0], radix) {
            None => Err(IntErrorKind::InvalidDigit),
            Some(d) => {
                let next = if neg {
                    acc * radix - d
                } else {
                    acc * radix + d
                };
                if next < lo || next > hi {
                    Err(
                        if neg {
                            IntErrorKind::NegOverflow
                        } else {
                            IntErrorKind::PosOverflow
                        },
                    )
                } else {
                    accumulate(digits.drop_first(), radix, neg, lo, hi, next)
                }
            },
        }
    }
}

/// The integer that `src` spells in `radix`, for a type whose values are
/// `[lo, hi]`; `signed` says whether a leading `-` is accepted.
pub open spec fn from_str_radix_spec(
    src: Seq<u8>,
    radix: nat,
    signed: bool,
    lo: int,
    hi: int,
) -> Result<int, IntErrorKind> {
    if src.len() == 0 {
        Err(IntErrorKind::Empty)
    } else if src.len() == 1 && (src[0] == 43 || src[0] == 45) {
        Err(IntErrorKind::InvalidDigit)
    } else if src[0] == 43 {
        accumulate(src.drop_first(), radix, false, lo, hi, 0)
    } else if signed && src[0] == 45 {
        accumulate(src.drop_first(), radix, true, lo, hi, 0)
    } else {
        accumulate(src, radix, false, lo, hi, 0)
    }
}

/// A result over `int` narrowed to `u64`.
pub open spec fn to_u64_result(r: Result<int, IntErrorKind>) -> Result<u64, IntErrorKind> {
    match r {
        Ok(v) => Ok(v as u64),
        Err(e) => Err(e),
    }
}

/// A result over `int` narrowed to `i64`.
pub open spec fn to_i64_result(r: Result<int, IntErrorKind>) -> Result<i64, IntErrorKind> {
    match r {
        Ok(v) => Ok(v as i64),
        Err(e) => Err(e),
    }
}

/// Every value that `accumulate` yields lies in `[lo, hi]`.
pub proof fn lemma_accumulate_in_range(
    digits: Seq<u8>,
    radix: nat,
    neg: bool,
    lo: int,
    hi: int,
    acc: int,
)
    requires
        lo <= acc <= hi,
    ensures
        accumulate(digits, radix, neg, lo, hi, acc) matches Ok(v) ==> lo <= v <= hi,
    decreases digits.len(),
{
    if digits.len() > 0 {
        if let Some(d) = digit_of(digits[0], radix) {
            let next = if neg {
                acc * radix - d
            } else {
                acc * radix + d
            };
            if lo <= next <= hi {
                lemma_accumulate_in_range(digits.drop_first(), radix, neg, lo, hi, next);
            }
        }
    }
}

/// The digit value of byte `b` in `radix`.
pub fn digit_value(b: u8, radix: u32) -> (r: Option<u32>)
    requires
        radix <= 36,
    ensures
        match digit_of(b, radix as nat) {
            Some(d) => r == Some(d as u32),
            None => r is None,
        },
{
    let v: u32 = if 48 <= b && b <= 57 {
        (b - 48) as u32
    } else if 97 <= b && b <= 122 {
        (b - 97) as u32 + 10
    } else if 65 <= b && b <= 90 {
        (b - 65) as u32 + 10
    } else {
        36
    };
    if v < radix {
        Some(v)
    } else {
        None
    }
}

/// Reads the unsigned integer that `src` spells in `radix`, for a type whose
/// largest value is `max` (`u64::from_str_radix` when `max` is `u64::MAX`).
pub fn parse_unsigned(src: &[u8], radix: u32, max: u64) -> (r: Result<u64, IntErrorKind>)
    requires
        2 <= radix <= 36,
    ensures
        r == to_u64_result(from_str_radix_spec(src@, radix as nat, false, 0, max as int)),
        r matches Ok(v) ==> v <= max && from_str_radix_spec(src@, radix as nat, false, 0, max as int)
            == Ok::<int, IntErrorKind>(v as int),
        r matches Err(e) ==> from_str_radix_spec(src@, radix as nat, false, 0, max as int) == Err::<
            int,
            IntErrorKind,
        >(e),
{
    if src.len() == 0 {
        return Err(IntErrorKind::Empty);
    }
    if src.len() == 1 && (src[0] == 43 || src[0] == 45) {
        return Err(IntErrorKind::InvalidDigit);
    }
    let start: usize = if src[0] == 43 {
        1
    } else {
        0
    };
    let ghost digits = src@.subrange(start as int, src@.len() as int);
    assert(from_str_radix_spec(src@, radix as nat, false, 0, max as int) == accumulate(
        digits,
        radix as nat,
        false,
        0,
        max as int,
        0,
    )) by {
        if start == 0 {
            assert(digits == src@);
        } else {
            assert(digits == src@.drop_first());
        }
    }
    let mut acc: u64 = 0;
    let mut i: usize = start;
    while i < src.len()
        invariant
            start <= i <= src@.len(),
            2 <= radix <= 36,
            acc <= max,
            digits == src@.subrange(start as int, src@.len() as int),
            from_str_radix_spec(src@, radix as nat, false, 0, max as int) == accumulate(
                digits,
                radix as nat,
                false,
                0,
                max as int,
                0,
            ),
            accumulate(digits, radix as nat, false, 0, max as int, 0) == accumulate(
                src@.subrange(i as int, src@.len() as int),
                radix as nat,
                false,
                0,
                max as int,
                acc as int,
            ),
        decreases src@.len() - i,
    {
        let ghost rest = src@.subrange(i as int, src@.len() as int);
        assert(rest[0] == src@[i as int]);
        assert(rest.drop_first() == src@.subrange(i + 1, src@.len() as int));
        let d = match digit_value(src[i], radix) {
            Some(d) => d,
            None => {
                assert(accumulate(rest, radix as nat, false, 0, max as int, acc as int) == Err::<
                    int,
                    IntErrorKind,
                >(IntErrorKind::InvalidDigit));
                return Err(IntErrorKind::InvalidDigit);
            },
        };
        let next = match acc.checked_mul(radix as u64) {
            Some(m) => m.checked_add(d as u64),
            None => None,
        };
        match next {
            Some(n) if n <= max => {
                acc = n;
            },
            _ => {
                proof {
                    if acc * radix <= u64::MAX {
                        assert(acc * radix + d > max);
                    } else {
                        assert(acc * radix + d > max);
                    }
                    assert(accumulate(rest, radix as nat, false, 0, max as int, acc as int) == Err::<
                        int,
                        IntErrorKind,
                    >(IntErrorKind::PosOverflow));
                }
                return Err(IntErrorKind::PosOverflow);
            },
        }
        i = i + 1;
    }
    assert(src@.subrange(i as int, src@.len() as int).len() == 0);
    Ok(acc)
}

/// Reads the `i64` that `src` spells in `radix` (`i64::from_str_radix`).
pub fn parse_i64(src: &[u8], radix: u32) -> (r: Result<i64, IntErrorKind>)
    requires
        2 <= radix <= 36,
    ensures
        r == to_i64_result(
            from_str_radix_spec(src@, radix as nat, true, i64::MIN as int, i64::MAX as int),
        ),
        r matches Ok(v) ==> from_str_radix_spec(
            src@,
            radix as nat,
            true,
            i64::MIN as int,
            i64::MAX as int,
        ) == Ok::<int, IntErrorKind>(v as int),
        r matches Err(e) ==> from_str_radix_spec(
            src@,
            radix as nat,
            true,
            i64::MIN as int,
            i64::MAX as int,
        ) == Err::<int, IntErrorKind>(e),
{
    if src.len() == 0 {
        return Err(IntErrorKind::Empty);
    }
    if src.len() == 1 && (src[0] == 43 || src[0] == 45) {
        return Err(IntErrorKind::InvalidDigit);
    }
    let neg = src[0] == 45;
    let start: usize = if src[0] == 43 || src[0] == 45 {
        1
    } else {
        0
    };
    let ghost lo = i64::MIN as int;
    let ghost hi = i64::MAX as int;
    let ghost digits = src@.subrange(start as int, src@.len() as int);
    assert(from_str_radix_spec(src@, radix as nat, true, lo, hi) == accumulate(
        digits,
        radix as nat,
        neg,
        lo,
        hi,
        0,
    )) by {
        if start == 0 {
            assert(digits == src@);
        } else {
            assert(digits == src@.drop_first());
        }
    }
    let mut acc: i64 = 0;
    let mut i: usize = start;
    while i < src.len()
        invariant
            start <= i <= src@.len(),
            2 <= radix <= 36,
            lo == i64::MIN as int,
            hi == i64::MAX as int,
            neg ==> acc <= 0,
            !neg ==> acc >= 0,
            digits == src@.subrange(start as int, src@.len() as int),
            from_str_radix_spec(src@, radix as nat, true, lo, hi) == accumulate(
                digits,
                radix as nat,
                neg,
                lo,
                hi,
                0,
            ),
            accumulate(digits, radix as nat, neg, lo, hi, 0) == accumulate(
                src@.subrange(i as int, src@.len() as int),
                radix as nat,
                neg,
                lo,
                hi,
                acc as int,
            ),
        decreases src@.len() - i,
    {
        let ghost rest = src@.subrange(i as int, src@.len() as int);
        assert(rest[0] == src@[i as int]);
        assert(rest.drop_first() == src@.subrange(i + 1, src@.len() as int));
        let d = match digit_value(src[i], radix) {
            Some(d) => d,
            None => {
                assert(accumulate(rest, radix as nat, neg, lo, hi, acc as int) == Err::<
                    int,
                    IntErrorKind,
                >(IntErrorKind::InvalidDigit));
                return Err(IntErrorKind::InvalidDigit);
            },
        };
        let next = match acc.checked_mul(radix as i64) {
            Some(m) => if neg {
                m.checked_sub(d as i64)
            } else {
                m.checked_add(d as i64)
            },
            None => None,
        };
        match next {
            Some(n) => {
                proof {
                    if neg {
                        assert(acc * radix <= 0) by (nonlinear_arith)
                            requires
                                acc <= 0,
                                radix >= 2,
                        ;
                    } else {
                        assert(acc * radix >= 0) by (nonlinear_arith)
                            requires
                                acc >= 0,
                                radix >= 2,
                        ;
                    }
                }
                acc = n;
            },
            None => {
                proof {
                    if neg {
                        assert(acc * radix <= 0) by (nonlinear_arith)
                            requires
                                acc <= 0,
                                radix >= 2,
                        ;
                    } else {
                        assert(acc * radix >= 0) by (nonlinear_arith)
                            requires
                                acc >= 0,
                                radix >= 2,
                        ;
                    }
                    assert(accumulate(rest, radix as nat, neg, lo, hi, acc as int) == Err::<
                        int,
                        IntErrorKind,
                    >(
                        if neg {
                            IntErrorKind::NegOverflow
                        } else {
                            IntErrorKind::PosOverflow
                        },
                    ));
                }
                return Err(
                    if neg {
                        IntErrorKind::NegOverflow
                    } else {
                        IntErrorKind::PosOverflow
                    },
                );
            },
        }
        i = i + 1;
    }
    assert(src@.subrange(i as int, src@.len() as int).len() == 0);
    proof {
        lemma_accumulate_in_range(digits, radix as nat, neg, lo, hi, 0);
    }
    Ok(acc)
}

// ------------------------------------------------- reading decimal texts

/// `b` to the power `n`.
pub open spec fn pow_nat(b: nat, n: nat) -> nat
    decreases n,
{
    if n == 0 {
        1
    } else {
        b * pow_nat(b, (n - 1) as nat)
    }
}

/// Whether every character of `s` is an ASCII decimal digit.
pub open spec fn all_dec_digits(s: Seq<char>) -> bool {
    forall|i: int| 0 <= i < s.len() ==> '0' <= #[trigger] s[i] <= '9'
}

/// The value of the decimal digits `s`, most significant first.
pub open spec fn dec_value(s: Seq<char>) -> int
    decreases s.len(),
{
    if s.len() == 0 {
        0
    } else {
        (s[0] as int - 48) * pow_nat(10, (s.len() - 1) as nat) + dec_value(s.drop_first())
    }
}

/// The ASCII bytes of a text.
pub open spec fn ascii_of(s: Seq<char>) -> Seq<u8> {
    s.map_values(|c: char| c as u8)
}

/// Powers add their exponents.
pub proof fn lemma_pow_adds(b: nat, m: nat, n: nat)
    ensures
        pow_nat(b, m + n) == pow_nat(b, m) * pow_nat(b, n),
    decreases m,
{
    if m == 0 {
        assert(pow_nat(b, 0) == 1);
        assert(m + n == n);
    } else {
        lemma_pow_adds(b, (m - 1) as nat, n);
        assert(pow_nat(b, m) == b * pow_nat(b, (m - 1) as nat));
        assert((m + n - 1) as nat == ((m - 1) as nat + n) as nat);
        assert(pow_nat(b, m + n) == b * pow_nat(b, (m - 1 + n) as nat));
        assert(b * (pow_nat(b, (m - 1) as nat) * pow_nat(b, n)) == (b * pow_nat(b, (m - 1) as nat))
            * pow_nat(b, n)) by (nonlinear_arith);
    }
}

/// A power of ten is positive.
pub proof fn lemma_pow10_positive(n: nat)
    ensures
        pow_nat(10, n) >= 1,
    decreases n,
{
    if n > 0 {
        lemma_pow10_positive((n - 1) as nat);
    }
}

/// The value of digits is below ten to their count.
pub proof fn lemma_dec_value_bound(s: Seq<char>)
    requires
        all_dec_digits(s),
    ensures
        0 <= dec_value(s) < pow_nat(10, s.len()),
    decreases s.len(),
{
    if s.len() > 0 {
        assert(all_dec_digits(s.drop_first())) by {
            assert forall|i: int| 0 <= i < s.drop_first().len() implies '0' <= #[trigger] s.drop_first()[i]
                <= '9' by {
                assert(s.drop_first()[i] == s[i + 1]);
            }
        }
        lemma_dec_value_bound(s.drop_first());
        let p = pow_nat(10, (s.len() - 1) as nat);
        let d = s[0] as int - 48;
        assert('0' <= s[0] <= '9');
        assert(0 <= d <= 9);
        assert(pow_nat(10, s.len()) == 10 * p);
        assert(0 <= d * p + dec_value(s.drop_first()) < 10 * p) by (nonlinear_arith)
            requires
                0 <= d <= 9,
                0 <= dec_value(s.drop_first()) < p,
        ;
    }
}

/// The value of two texts one after the other.
pub proof fn lemma_dec_value_concat(a: Seq<char>, b: Seq<char>)
    ensures
        dec_value(a + b) == dec_value(a) * pow_nat(10, b.len()) + dec_value(b),
    decreases a.len(),
{
    if a.len() == 0 {
        assert(a + b =~= b);
    } else {
        assert((a + b).drop_first() =~= a.drop_first() + b);
        assert((a + b)[0] == a[0]);
        lemma_dec_value_concat(a.drop_first(), b);
        lemma_pow_adds(10, (a.len() - 1) as nat, b.len());
        let d = a[0] as int - 48;
        let pa = pow_nat(10, (a.len() - 1) as nat);
        let pb = pow_nat(10, b.len());
        assert((a.len() + b.len() - 1) as nat == ((a.len() - 1) as nat + b.len()) as nat);
        assert(d * (pa * pb) + (dec_value(a.drop_first()) * pb + dec_value(b)) == (d * pa
            + dec_value(a.drop_first())) * pb + dec_value(b)) by (nonlinear_arith);
    }
}

/// Reading decimal digits into `acc` appends their value.
pub proof fn lemma_accumulate_decimal(s: Seq<char>, lo: int, hi: int, acc: int)
    requires
        all_dec_digits(s),
        lo <= 0 <= acc,
        acc * pow_nat(10, s.len()) + dec_value(s) <= hi,
    ensures
        accumulate(ascii_of(s), 10, false, lo, hi, acc) == Ok::<int, IntErrorKind>(
            acc * pow_nat(10, s.len()) + dec_value(s),
        ),
    decreases s.len(),
{
    if s.len() == 0 {
        assert(ascii_of(s) =~= Seq::<u8>::empty());
        assert(pow_nat(10, 0) == 1);
        assert(accumulate(ascii_of(s), 10, false, lo, hi, acc) == Ok::<int, IntErrorKind>(acc));
        assert(dec_value(s) == 0);
        assert(pow_nat(10, s.len()) == 1);
        assert(acc * pow_nat(10, s.len()) == acc) by (nonlinear_arith)
            requires
                pow_nat(10, s.len()) == 1,
        ;
    } else {
        let t = s.drop_first();
        assert(ascii_of(s).drop_first() =~= ascii_of(t));
        assert('0' <= s[0] <= '9');
        let b = s[0] as u8;
        assert(ascii_of(s)[0] == b);
        let d = s[0] as int - 48;
        assert(b as int == s[0] as int);
        assert(digit_of(b, 10) == Some(d as nat));
        let next = acc * 10 + d;
        assert(all_dec_digits(t)) by {
            assert forall|i: int| 0 <= i < t.len() implies '0' <= #[trigger] t[i] <= '9' by {
                assert(t[i] == s[i + 1]);
            }
        }
        let p = pow_nat(10, t.len());
        lemma_pow10_positive(t.len());
        assert(pow_nat(10, s.len()) == 10 * p);
        assert(acc * (10 * p) + (d * p + dec_value(t)) == next * p + dec_value(t)) by (nonlinear_arith)
            requires
                next == acc * 10 + d,
        ;
        assert(next >= 0);
        assert(next <= next * p) by (nonlinear_arith)
            requires
                p >= 1,
                next >= 0,
        ;
        lemma_dec_value_bound(t);
        assert(lo <= next <= hi);
        assert(accumulate(ascii_of(s), 10, false, lo, hi, acc) == accumulate(
            ascii_of(t),
            10,
            false,
            lo,
            hi,
            next,
        ));
        lemma_accumulate_decimal(t, lo, hi, next);
        assert(dec_value(s) == d * p + dec_value(t));
        let q = pow_nat(10, s.len());
        assert(acc * q == acc * (10 * p)) by (nonlinear_arith)
            requires
                q == 10 * p,
        ;
        assert(acc * q + dec_value(s) == next * p + dec_value(t));
        assert(accumulate(ascii_of(t), 10, false, lo, hi, next) == Ok::<int, IntErrorKind>(
            next * p + dec_value(t),
        ));
    }
}

/// The standard reading of a decimal digit text gives its value, when the
/// value fits `hi`.
pub proof fn lemma_from_str_radix_decimal(s: Seq<char>, signed: bool, lo: int, hi: int)
    requires
        s.len() >= 1,
        all_dec_digits(s),
        lo <= 0,
        dec_value(s) <= hi,
    ensures
        from_str_radix_spec(ascii_of(s), 10, signed, lo, hi) == Ok::<int, IntErrorKind>(
            dec_value(s),
        ),
{
    lemma_pow10_positive(s.len());
    lemma_accumulate_decimal(s, lo, hi, 0);
    assert(ascii_of(s)[0] == s[0] as u8);
    assert('0' <= s[0] <= '9');
}

/// The value of a single digit.
pub proof fn lemma_dec_value_single(c: char)
    ensures
        dec_value(seq![c]) == c as int - 48,
{
    let one = seq![c];
    assert(one.drop_first() =~= Seq::<char>::empty());
    assert(dec_value(one.drop_first()) == 0);
    assert(one[0] == c);
    assert(pow_nat(10, 0) == 1);
    let d = c as int - 48;
    assert(dec_value(one) == d * pow_nat(10, 0) + dec_value(one.drop_first()));
    assert(d * pow_nat(10, 0) == d) by (nonlinear_arith)
        requires
            pow_nat(10, 0) == 1,
    ;
}

/// The decimal text of `v` is made of digits and has the value `v`.
pub proof fn lemma_decimal_digits(v: nat)
    ensures
        all_dec_digits(decimal(v)),
        dec_value(decimal(v)) == v,
        decimal(v).len() >= 1,
    decreases v,
{
    if v < 10 {
        let c = digit_char(v);
        assert(c as int == v + 48);
        assert(decimal(v) =~= seq![c]);
        lemma_dec_value_single(c);
    } else {
        lemma_decimal_digits(v / 10);
        let c = digit_char(v % 10);
        assert(c as int == v % 10 + 48);
        let head = decimal(v / 10);
        lemma_dec_value_concat(head, seq![c]);
        lemma_dec_value_single(c);
        assert(pow_nat(10, 1) == 10) by {
            assert(pow_nat(10, 0) == 1);
        }
        assert(dec_value(head) * pow_nat(10, 1) + v % 10 == v) by (nonlinear_arith)
            requires
                dec_value(head) == v / 10,
                pow_nat(10, 1) == 10,
        ;
        assert forall|i: int| 0 <= i < decimal(v).len() implies '0' <= #[trigger] decimal(v)[i]
            <= '9' by {
            if i < head.len() {
                assert(decimal(v)[i] == head[i]);
            }
        }
    }
}

/// The decimal text of a value below `10^k` has at most `k` digits.
pub proof fn lemma_decimal_len(v: nat, k: nat)
    requires
        k >= 1,
        v < pow_nat(10, k),
    ensures
        decimal(v).len() <= k,
    decreases v,
{
    if v >= 10 {
        assert(pow_nat(10, k) == 10 * pow_nat(10, (k - 1) as nat));
        if k == 1 {
            assert(pow_nat(10, 0) == 1);
        } else {
            lemma_decimal_len(v / 10, (k - 1) as nat);
        }
    }
}


// ------------------------------------------------- reading digits in a radix

/// The ASCII byte of digit `d`: `0-9`, then `a-z` from ten up.
pub open spec fn digit_byte(d: nat) -> u8 {
    if d < 10 {
        (48 + d) as u8
    } else {
        (87 + d) as u8
    }
}

/// The digits of `n` in `radix`, as ASCII bytes, most significant first and
/// without leading zeros.
pub open spec fn digits_in(n: nat, radix: nat) -> Seq<u8>
    decreases n,
{
    if radix < 2 || n < radix {
        seq![digit_byte(n)]
    } else {
        proof {
            assert(n / radix < n) by (nonlinear_arith)
                requires
                    radix >= 2,
                    n >= radix,
            ;
        }
        digits_in(n / radix, radix).push(digit_byte(n % radix))
    }
}

/// Reading one more digit after an accumulated value.
proof fn lemma_accumulate_push(
    a: Seq<u8>,
    x: u8,
    radix: nat,
    lo: int,
    hi: int,
    acc: int,
    v: int,
    d: nat,
)
    requires
        accumulate(a, radix, false, lo, hi, acc) == Ok::<int, IntErrorKind>(v),
        digit_of(x, radix) == Some(d),
        lo <= v * radix + d <= hi,
    ensures
        accumulate(a.push(x), radix, false, lo, hi, acc) == Ok::<int, IntErrorKind>(v * radix + d),
    decreases a.len(),
{
    if a.len() == 0 {
        assert(v == acc);
        let one = a.push(x);
        assert(one.len() == 1 && one[0] == x);
        assert(one.drop_first() =~= Seq::<u8>::empty());
        assert(accumulate(one.drop_first(), radix, false, lo, hi, v * radix + d) == Ok::<
            int,
            IntErrorKind,
        >(v * radix + d));
    } else {
        let d0 = digit_of(a[0], radix)->Some_0;
        let next = acc * radix + d0;
        assert(accumulate(a, radix, false, lo, hi, acc) == accumulate(
            a.drop_first(),
            radix,
            false,
            lo,
            hi,
            next,
        ));
        assert(a.push(x).drop_first() =~= a.drop_first().push(x));
        assert(a.push(x)[0] == a[0]);
        lemma_accumulate_push(a.drop_first(), x, radix, lo, hi, next, v, d);
    }
}

/// The standard reading of the digits of `n` in `radix` gives `n`, when `n`
/// fits `hi`.
pub proof fn lemma_from_str_radix_digits_in(n: nat, radix: nat, signed: bool, lo: int, hi: int)
    requires
        2 <= radix <= 36,
        lo <= 0,
        n <= hi,
    ensures
        from_str_radix_spec(digits_in(n, radix), radix, signed, lo, hi) == Ok::<int, IntErrorKind>(
            n as int,
        ),
{
    lemma_accumulate_digits_in(n, radix, lo, hi);
    lemma_digits_in_first(n, radix);
}

/// The first byte of the digits of `n` is a digit byte, never a sign.
proof fn lemma_digits_in_first(n: nat, radix: nat)
    requires
        2 <= radix <= 36,
    ensures
        digits_in(n, radix).len() >= 1,
        digits_in(n, radix)[0] != 43 && digits_in(n, radix)[0] != 45,
    decreases n,
{
    if n >= radix {
        assert(n / radix < n) by (nonlinear_arith)
            requires
                radix >= 2,
                n >= radix,
        ;
        lemma_digits_in_first(n / radix, radix);
        assert(digits_in(n, radix)[0] == digits_in(n / radix, radix)[0]);
    }
}

/// Reading the digits of `n` in `radix` from zero gives `n`.
proof fn lemma_accumulate_digits_in(n: nat, radix: nat, lo: int, hi: int)
    requires
        2 <= radix <= 36,
        lo <= 0,
        n <= hi,
    ensures
        accumulate(digits_in(n, radix), radix, false, lo, hi, 0) == Ok::<int, IntErrorKind>(n as int),
    decreases n,
{
    if n < radix {
        lemma_digit_byte_value(n, radix);
        let b = digits_in(n, radix);
        assert(b =~= seq![digit_byte(n)]);
        assert(b.drop_first() =~= Seq::<u8>::empty());
        assert(0 * radix + n == n) by (nonlinear_arith);
        assert(accumulate(b.drop_first(), radix, false, lo, hi, n as int) == Ok::<int, IntErrorKind>(
            n as int,
        ));
    } else {
        let q = n / radix;
        let r = n % radix;
        assert(q * radix + r == n && q <= n && r < radix) by (nonlinear_arith)
            requires
                radix >= 2,
                q == n / radix,
                r == n % radix,
        ;
        lemma_accumulate_digits_in(q, radix, lo, hi);
        lemma_digit_byte_value(r, radix);
        lemma_accumulate_push(digits_in(q, radix), digit_byte(r), radix, lo, hi, 0, q as int, r);
    }
}

/// A digit byte reads back as its digit.
pub proof fn lemma_digit_byte_value(d: nat, radix: nat)
    requires
        d < radix <= 36,
    ensures
        digit_of(digit_byte(d), radix) == Some(d),
{
}


/// The digits of `n` in base 16 are nonempty lowercase hexadecimal bytes.
pub proof fn lemma_digits_in_hex(n: nat)
    ensures
        digits_in(n, 16).len() >= 1,
        forall|i: int|
            0 <= i < digits_in(n, 16).len() ==> {
                let x = #[trigger] digits_in(n, 16)[i];
                (48 <= x <= 57) || (97 <= x <= 102)
            },
    decreases n,
{
    if n >= 16 {
        lemma_digits_in_hex(n / 16);
        let t = digits_in(n, 16);
        let tq = digits_in(n / 16, 16);
        assert forall|i: int| 0 <= i < t.len() implies {
            let x = #[trigger] t[i];
            (48 <= x <= 57) || (97 <= x <= 102)
        } by {
            if i < tq.len() {
                assert(t[i] == tq[i]);
            }
        }
    }
}
} // verus!
