//! Time helpers: compact time stamps, reading a time stamp back, timestamp
//! text, tick arithmetic and remaining-time computation.
use vstd::prelude::*;
use vstd::string::StringSliceAdditionalSpecFns;
use chrono::{Datelike, Timelike, TimeZone};
use crate::numparse::{
    IntErrorKind, accumulate, digit_of, from_str_radix_spec, parse_unsigned, pow_nat,
    all_dec_digits, dec_value, ascii_of, lemma_decimal_digits, lemma_decimal_len,
    lemma_dec_value_concat, lemma_from_str_radix_decimal,
};
use vstd::utf8::{encode_utf8, is_ascii_chars, is_ascii_chars_encode_utf8};
use crate::text::{decimal, push_decimal, string_push, chars_of};

verus! {

/// Why a time could not be read.
#[derive(Clone, Copy, Debug, PartialEq, Eq, Structural)]
pub enum TimeOpError {
    /// The text is not 14 bytes long.
    BadLength { len: usize },
    /// The field starting at byte `start` is not a number.
    BadField { start: usize },
    /// The fields do not make a calendar date and time of day.
    NotADate,
}

/// A civil date and time of day, field by field.
#[derive(Clone, Copy, Debug, PartialEq, Eq, Structural)]
pub struct CivilTime {
    pub year: i32,
    pub month: u32,
    pub day: u32,
    pub hour: u32,
    pub minute: u32,
    pub second: u32,
}

/// Whether `y` is a leap year of the proleptic Gregorian calendar.
pub open spec fn is_leap_year(y: int) -> bool {
    (y % 4 == 0 && y % 100 != 0) || y % 400 == 0
}

/// The number of days of month `m` of year `y`.
pub open spec fn days_in_month(y: int, m: int) -> int {
    if m == 2 {
        if is_leap_year(y) {
            29
        } else {
            28
        }
    } else if m == 4 || m == 6 || m == 9 || m == 11 {
        30
    } else {
        31
    }
}

/// Whether the fields name a real day and a time of day (no leap second).
pub open spec fn valid_civil(y: int, mo: int, d: int, h: int, mi: int, s: int) -> bool {
    &&& 1 <= mo <= 12
    &&& 1 <= d <= days_in_month(y, mo)
    &&& 0 <= h < 24
    &&& 0 <= mi < 60
    &&& 0 <= s < 60
}

/// Whether `c` names a real day and a time of day.
pub open spec fn civil_valid(c: CivilTime) -> bool {
    valid_civil(
        c.year as int,
        c.month as int,
        c.day as int,
        c.hour as int,
        c.minute as int,
        c.second as int,
    )
}

// ------------------------------------------------------- compact stamps

/// `digits` padded on the left with zeros to `width`.
pub open spec fn zero_pad(digits: Seq<char>, width: nat) -> Seq<char> {
    if digits.len() >= width {
        digits
    } else {
        Seq::new((width - digits.len()) as nat, |i: int| '0') + digits
    }
}

/// The text of `v` padded with zeros to `width`, a minus sign counting
/// toward the width (as `{:0width$}` writes it).
pub open spec fn padded_int(v: int, width: nat) -> Seq<char> {
    if v < 0 {
        seq!['-'] + zero_pad(decimal((-v) as nat), (width - 1) as nat)
    } else {
        zero_pad(decimal(v as nat), width)
    }
}

/// The compact stamp `YYYYMMDDhhmmss` of `c`.
pub open spec fn compact_time_spec(c: CivilTime) -> Seq<char> {
    padded_int(c.year as int, 4) + padded_int(c.month as int, 2) + padded_int(c.day as int, 2)
        + padded_int(c.hour as int, 2) + padded_int(c.minute as int, 2) + padded_int(
        c.second as int,
        2,
    )
}

/// Appends `v` padded with zeros to `width`, a minus sign counting toward it.
fn push_padded(s: &mut String, v: i64, width: usize)
    requires
        width >= 1,
    ensures
        final(s)@ == old(s)@ + padded_int(v as int, width as nat),
{
    let mut digits = String::new();
    let mag: u64 = if v < 0 {
        if v == i64::MIN {
            9223372036854775808u64
        } else {
            (-v) as u64
        }
    } else {
        v as u64
    };
    push_decimal(&mut digits, mag);
    assert(digits@ == decimal(mag as nat));
    let dv = chars_of(digits.as_str());
    let w: usize = if v < 0 {
        width - 1
    } else {
        width
    };
    let ghost start = if v < 0 {
        old(s)@ + seq!['-']
    } else {
        old(s)@
    };
    if v < 0 {
        string_push(s, '-');
    }
    let mut k: usize = dv.len();
    let ghost zeros_start = s@;
    assert(zeros_start == start);
    while k < w
        invariant
            dv.len() <= k <= w || (k == dv.len() && k >= w),
            s@ == start + Seq::new((k - dv@.len()) as nat, |i: int| '0'),
        decreases w - k,
    {
        string_push(s, '0');
        k = k + 1;
        assert(s@ =~= start + Seq::new((k - dv@.len()) as nat, |i: int| '0'));
    }
    let ghost mid = s@;
    let mut j: usize = 0;
    while j < dv.len()
        invariant
            j <= dv@.len(),
            s@ == mid + dv@.take(j as int),
        decreases dv@.len() - j,
    {
        string_push(s, dv[j]);
        j = j + 1;
        assert(s@ =~= mid + dv@.take(j as int));
    }
    assert(dv@.take(j as int) == dv@);
    proof {
        let pad = zero_pad(decimal(mag as nat), w as nat);
        if dv@.len() >= w {
            assert(Seq::new((k - dv@.len()) as nat, |i: int| '0') =~= Seq::<char>::empty());
            assert(s@ =~= start + pad);
        } else {
            assert(s@ =~= start + pad);
        }
        if v < 0 {
            assert(mag as int == -(v as int));
        }
    }
}

/// The compact stamp `YYYYMMDDhhmmss` of `c`, each field zero-padded.
pub fn compact_time_text(c: &CivilTime) -> (r: String)
    ensures
        r@ == compact_time_spec(*c),
{
    let mut s = String::new();
    push_padded(&mut s, c.year as i64, 4);
    push_padded(&mut s, c.month as i64, 2);
    push_padded(&mut s, c.day as i64, 2);
    push_padded(&mut s, c.hour as i64, 2);
    push_padded(&mut s, c.minute as i64, 2);
    push_padded(&mut s, c.second as i64, 2);
    assert(s@ =~= compact_time_spec(*c));
    s
}

/// The current UTC date and time (`chrono::Utc::now` and its field accessors).
/// The clock decides the value; chrono's dates are real days of the
/// proleptic Gregorian calendar and its seconds run from 0 to 59.
#[verifier::external_body]
fn utc_now_civil() -> (r: CivilTime)
    ensures
        civil_valid(r),
{
    let now = chrono::Utc::now();
    CivilTime {
        year: now.year(),
        month: now.month(),
        day: now.day(),
        hour: now.hour(),
        minute: now.minute(),
        second: now.second(),
    }
}

/// The current local date and time (`chrono::Local::now` and its field
/// accessors). The clock and the time zone decide the value; chrono's dates
/// are real days of the proleptic Gregorian calendar and its seconds run
/// from 0 to 59.
#[verifier::external_body]
fn local_now_civil() -> (r: CivilTime)
    ensures
        civil_valid(r),
{
    let now = chrono::Local::now();
    CivilTime {
        year: now.year(),
        month: now.month(),
        day: now.day(),
        hour: now.hour(),
        minute: now.minute(),
        second: now.second(),
    }
}

/// The current UTC time as `YYYYMMDDhhmmss`.
pub fn get_time_utc_str() -> (r: Result<String, TimeOpError>)
    ensures
        r matches Ok(s) && exists|c: CivilTime| civil_valid(c) && s@ == compact_time_spec(c),
{
    let now = utc_now_civil();
    Ok(compact_time_text(&now))
}

/// The current local time as `YYYYMMDDhhmmss`.
pub fn get_time_local_str() -> (r: Result<String, TimeOpError>)
    ensures
        r matches Ok(s) && exists|c: CivilTime| civil_valid(c) && s@ == compact_time_spec(c),
{
    let now = local_now_civil();
    Ok(compact_time_text(&now))
}

// ------------------------------------------------------ reading a stamp

/// The number in bytes `s..e` of `b`, as `u32::from_str_radix` reads it.
pub open spec fn field_value(b: Seq<u8>, s: int, e: int) -> Result<int, IntErrorKind> {
    from_str_radix_spec(b.subrange(s, e), 10, false, 0, u32::MAX as int)
}

/// The time that the 14-byte stamp `b` (`YYYYMMDDhhmmss`) names, or the
/// first fault: a wrong length, a field that is not a number (fields are
/// read in order), or fields that are no real date and time.
pub open spec fn tran_time_spec(b: Seq<u8>) -> Result<CivilTime, TimeOpError> {
    if b.len() != 14 {
        Err(TimeOpError::BadLength { len: b.len() as usize })
    } else {
        match (
            field_value(b, 0, 4),
            field_value(b, 4, 6),
            field_value(b, 6, 8),
            field_value(b, 8, 10),
            field_value(b, 10, 12),
            field_value(b, 12, 14),
        ) {
            (Err(_), _, _, _, _, _) => Err(TimeOpError::BadField { start: 0 }),
            (Ok(_), Err(_), _, _, _, _) => Err(TimeOpError::BadField { start: 4 }),
            (Ok(_), Ok(_), Err(_), _, _, _) => Err(TimeOpError::BadField { start: 6 }),
            (Ok(_), Ok(_), Ok(_), Err(_), _, _) => Err(TimeOpError::BadField { start: 8 }),
            (Ok(_), Ok(_), Ok(_), Ok(_), Err(_), _) => Err(TimeOpError::BadField { start: 10 }),
            (Ok(_), Ok(_), Ok(_), Ok(_), Ok(_), Err(_)) => Err(TimeOpError::BadField { start: 12 }),
            (Ok(y), Ok(mo), Ok(d), Ok(h), Ok(mi), Ok(s)) => if valid_civil(y, mo, d, h, mi, s) {
                Ok(
                    CivilTime {
                        year: y as i32,
                        month: mo as u32,
                        day: d as u32,
                        hour: h as u32,
                        minute: mi as u32,
                        second: s as u32,
                    },
                )
            } else {
                Err(TimeOpError::NotADate)
            },
        }
    }
}

/// Whether chrono accepts the fields as a UTC date and time
/// (`Utc.with_ymd_and_hms` gives a single time). Chrono uses the proleptic
/// Gregorian calendar and refuses a month outside 1 to 12, a day past the
/// end of its month, an hour from 24, and a minute or second from 60; for
/// the years 0 to 9999 nothing else is refused.
#[verifier::external_body]
fn chrono_accepts_utc(y: i32, mo: u32, d: u32, h: u32, mi: u32, s: u32) -> (r: bool)
    ensures
        0 <= y <= 9999 ==> (r <==> valid_civil(y as int, mo as int, d as int, h as int, mi as int, s as int)),
{
    match chrono::Utc.with_ymd_and_hms(y, mo, d, h, mi, s) {
        chrono::LocalResult::Single(_) => true,
        chrono::LocalResult::Ambiguous(_, _) => false,
        chrono::LocalResult::None => false,
    }
}

/// Reads the number in bytes `s..e` of `b`.
fn read_field(b: &[u8], s: usize, e: usize) -> (r: Result<u32, IntErrorKind>)
    requires
        s <= e <= b@.len(),
    ensures
        r matches Ok(v) ==> field_value(b@, s as int, e as int) == Ok::<int, IntErrorKind>(v as int),
        r is Err ==> field_value(b@, s as int, e as int) is Err,
{
    let part = &b[s..e];
    match parse_unsigned(part, 10, 4294967295u64) {
        Ok(v) => Ok(v as u32),
        Err(k) => Err(k),
    }
}

/// Reads a compact UTC stamp `YYYYMMDDhhmmss` back into its fields.
pub fn tran_time_utc_from_str(ins: &str) -> (r: Result<CivilTime, TimeOpError>)
    ensures
        r == tran_time_spec(ins.spec_bytes()),
{
    let b = ins.as_bytes();
    if b.len() != 14 {
        return Err(TimeOpError::BadLength { len: b.len() });
    }
    let y = match read_field(b, 0, 4) {
        Ok(v) => v,
        Err(_) => {
            return Err(TimeOpError::BadField { start: 0 });
        },
    };
    let mo = match read_field(b, 4, 6) {
        Ok(v) => v,
        Err(_) => {
            return Err(TimeOpError::BadField { start: 4 });
        },
    };
    let d = match read_field(b, 6, 8) {
        Ok(v) => v,
        Err(_) => {
            return Err(TimeOpError::BadField { start: 6 });
        },
    };
    let h = match read_field(b, 8, 10) {
        Ok(v) => v,
        Err(_) => {
            return Err(TimeOpError::BadField { start: 8 });
        },
    };
    let mi = match read_field(b, 10, 12) {
        Ok(v) => v,
        Err(_) => {
            return Err(TimeOpError::BadField { start: 10 });
        },
    };
    let s = match read_field(b, 12, 14) {
        Ok(v) => v,
        Err(_) => {
            return Err(TimeOpError::BadField { start: 12 });
        },
    };
    proof {
        lemma_four_digit_bound(b@.subrange(0, 4));
    }
    if chrono_accepts_utc(y as i32, mo, d, h, mi, s) {
        Ok(CivilTime { year: y as i32, month: mo, day: d, hour: h, minute: mi, second: s })
    } else {
        Err(TimeOpError::NotADate)
    }
}

/// Reading `n` more digits into `acc` stays below `(acc + 1) * radix^n`.
proof fn lemma_accumulate_bound(digits: Seq<u8>, radix: nat, lo: int, hi: int, acc: int)
    requires
        acc >= 0,
        radix >= 1,
    ensures
        accumulate(digits, radix, false, lo, hi, acc) matches Ok(v) ==> v < (acc + 1) * pow_nat(
            radix,
            digits.len(),
        ),
    decreases digits.len(),
{
    if digits.len() == 0 {
        assert(pow_nat(radix, 0) == 1);
    } else {
        if let Some(d) = digit_of(digits[0], radix) {
            let next = acc * radix + d;
            if lo <= next <= hi {
                assert(next >= 0) by (nonlinear_arith)
                    requires
                        acc >= 0,
                        radix >= 1,
                        d >= 0,
                        next == acc * radix + d,
                ;
                lemma_accumulate_bound(digits.drop_first(), radix, lo, hi, next);
                let p = pow_nat(radix, (digits.len() - 1) as nat);
                assert(pow_nat(radix, digits.len()) == radix * p);
                assert((next + 1) * p <= (acc + 1) * (radix * p)) by (nonlinear_arith)
                    requires
                        next == acc * radix + d,
                        d < radix,
                        p >= 0,
                        acc >= 0,
                ;
            }
        }
    }
}

/// A number read from four bytes is at most 9999.
proof fn lemma_four_digit_bound(b: Seq<u8>)
    requires
        b.len() == 4,
    ensures
        from_str_radix_spec(b, 10, false, 0, u32::MAX as int) matches Ok(v) ==> 0 <= v <= 9999,
{
    let hi = u32::MAX as int;
    assert(pow_nat(10, 4) == 10000) by {
        reveal_with_fuel(pow_nat, 5);
    }
    assert(pow_nat(10, 3) == 1000) by {
        reveal_with_fuel(pow_nat, 4);
    }
    if b[0] == 43 && b.len() != 1 {
        lemma_accumulate_bound(b.drop_first(), 10, 0, hi, 0);
        crate::numparse::lemma_accumulate_in_range(b.drop_first(), 10, false, 0, hi, 0);
    } else {
        lemma_accumulate_bound(b, 10, 0, hi, 0);
        crate::numparse::lemma_accumulate_in_range(b, 10, false, 0, hi, 0);
    }
}

// --------------------------------------------------------- timestamp text

/// The format `%Y-%m-%d %H:%M:%S`.
pub open spec fn dashed_format() -> Seq<char> {
    seq!['%', 'Y', '-', '%', 'm', '-', '%', 'd', ' ', '%', 'H', ':', '%', 'M', ':', '%', 'S']
}

/// The text `YYYY-MM-DD hh:mm:ss` of `c`, each field zero-padded.
pub open spec fn dashed_time_spec(c: CivilTime) -> Seq<char> {
    padded_int(c.year as int, 4) + seq!['-'] + padded_int(c.month as int, 2) + seq!['-']
        + padded_int(c.day as int, 2) + seq![' '] + padded_int(c.hour as int, 2) + seq![':']
        + padded_int(c.minute as int, 2) + seq![':'] + padded_int(c.second as int, 2)
}

/// Whether `s` is the dashed text of a real date and time; for years outside
/// 0 to 9999 (which chrono writes with a sign) only that some such time is
/// meant.
pub open spec fn is_dashed_time(s: Seq<char>) -> bool {
    exists|c: CivilTime| civil_valid(c) && (0 <= c.year <= 9999 ==> s == dashed_time_spec(c))
}

/// The text that chrono's `format` gives for the UTC time `t` seconds after
/// the Unix epoch, or `None` when the time is outside chrono's range.
pub uninterp spec fn chrono_utc_text(t: i64, fmt: Seq<char>) -> Option<Seq<char>>;

/// `DateTime::<Utc>::from_timestamp(t, 0)`, formatted with `fmt`
/// (`DateTime::format`). Chrono panics while writing a format with an unknown
/// specifier, so only the dashed format is taken. Its dates are real days of
/// the proleptic Gregorian calendar, its seconds run from 0 to 59, and `%Y`
/// writes a year of 0 to 9999 as four digits, the other fields as two.
#[verifier::external_body]
fn chrono_format_timestamp(t: i64, fmt: &str) -> (r: Option<String>)
    requires
        fmt@ == dashed_format(),
    ensures
        match r {
            Some(s) => chrono_utc_text(t, fmt@) == Some(s@) && is_dashed_time(s@),
            None => chrono_utc_text(t, fmt@) is None,
        },
{
    chrono::DateTime::<chrono::Utc>::from_timestamp(t, 0).map(|dt| dt.format(fmt).to_string())
}

/// The current UTC time formatted with `fmt` (`Utc::now`, then
/// `DateTime::format`). The clock decides which time; the text is the dashed
/// text of a real date and time, as for `chrono_format_timestamp`.
#[verifier::external_body]
fn chrono_format_now(fmt: &str) -> (r: String)
    requires
        fmt@ == dashed_format(),
    ensures
        is_dashed_time(r@),
{
    chrono::Utc::now().format(fmt).to_string()
}

/// The UTC time `tmval` seconds after the Unix epoch as
/// `YYYY-MM-DD hh:mm:ss`; outside chrono's range, the current time instead.
pub fn utc_time_trans_value(tmval: i64) -> (r: String)
    ensures
        chrono_utc_text(tmval, dashed_format()) matches Some(s) ==> r@ == s,
        is_dashed_time(r@),
{
    let fmt = "%Y-%m-%d %H:%M:%S";
    proof {
        reveal_strlit("%Y-%m-%d %H:%M:%S");
        assert(fmt@ =~= dashed_format());
    }
    match chrono_format_timestamp(tmval, fmt) {
        Some(s) => s,
        None => chrono_format_now(fmt),
    }
}

// ---------------------------------------------------------------- ticks

/// Milliseconds of a clock reading of `sec` seconds and `nsec` nanoseconds,
/// both taken as unsigned.
pub open spec fn ticks_spec(sec: i64, nsec: i64) -> int {
    (sec as u64) * 1000 + ((nsec as u64) % 1000000000) / 1000000
}

/// Milliseconds of a clock reading (seconds and nanoseconds), as the tick
/// counter counts them. Readings whose count does not fit a `u64` are
/// outside the domain.
pub fn ticks_from_timespec(sec: i64, nsec: i64) -> (r: u64)
    requires
        ticks_spec(sec, nsec) <= u64::MAX,
    ensures
        r == ticks_spec(sec, nsec),
{
    let s = #[verifier::truncate] (sec as u64);
    let n = #[verifier::truncate] (nsec as u64);
    let mut retmills: u64 = 0;
    assert((n % 1000000000) / 1000000 >= 0);
    retmills = retmills + s * 1000;
    retmills = retmills + (n % 1000000000) / 1000000;
    retmills
}

/// The milliseconds left of a span of `leftmills` (taken as unsigned) that
/// started at tick `sticks`, at tick `cticks`, or -1 when `cticks` is outside
/// the span. The end tick is computed modulo `2^64`; when the span runs past
/// `u64::MAX`, ticks from `sticks` up to (not including) `u64::MAX` count down
/// from `leftmills`, and ticks after the counter wrapped, from 1 on, count
/// down from the part of the span left over beyond `u64::MAX`.
pub open spec fn time_left_spec(sticks: u64, cticks: u64, leftmills: i32) -> int {
    let left = leftmills as u64;
    let eticks = ((sticks + left) % 0x1_0000_0000_0000_0000) as u64;
    if sticks <= cticks && cticks < eticks {
        ((eticks - cticks) as i32) as int
    } else if u64::MAX - sticks < left {
        let over = left - (u64::MAX - sticks);
        if 0 < cticks && cticks < over {
            ((over - cticks) as i32) as int
        } else if sticks <= cticks && cticks < u64::MAX {
            ((left - (cticks - sticks)) as i32) as int
        } else {
            -1
        }
    } else {
        -1
    }
}

/// Within a span, the time left is exactly the ticks from now to the span's
/// end; when the span runs past `u64::MAX`, it counts down from `leftmills`
/// before the counter wraps and from what is left over after it.
pub proof fn lemma_time_left_counts_down(sticks: u64, cticks: u64, leftmills: i32)
    requires
        0 <= leftmills,
    ensures
        sticks <= cticks < sticks + leftmills <= u64::MAX ==> time_left_spec(sticks, cticks, leftmills)
            == sticks + leftmills - cticks,
        u64::MAX - sticks < leftmills && sticks <= cticks < u64::MAX ==> time_left_spec(
            sticks,
            cticks,
            leftmills,
        ) == leftmills - (cticks - sticks),
        u64::MAX - sticks < leftmills && 0 < cticks < leftmills - (u64::MAX - sticks)
            ==> time_left_spec(sticks, cticks, leftmills) == leftmills - (u64::MAX - sticks) - cticks,
{
}

/// The largest `u64`.
pub const MAX_U64_VAL: u64 = 0xffffffffffffffff;

/// The milliseconds left of a span of `leftmills` started at tick `sticks`,
/// at tick `cticks`, or -1 when `cticks` is not within the span; a span that
/// runs past `u64::MAX` continues after the tick counter wraps.
pub fn time_left(sticks: u64, cticks: u64, leftmills: i32) -> (r: i32)
    ensures
        r == time_left_spec(sticks, cticks, leftmills),
        0 <= leftmills ==> (r == -1 || 1 <= r <= leftmills),
        0 <= leftmills && sticks + leftmills <= u64::MAX ==> (r == -1 <==> !(sticks <= cticks
            < sticks + leftmills)),
        0 <= leftmills && sticks <= cticks < sticks + leftmills <= u64::MAX ==> r == sticks
            + leftmills - cticks,
        0 <= leftmills && u64::MAX - sticks < leftmills && sticks <= cticks < u64::MAX ==> r
            == leftmills - (cticks - sticks),
        0 <= leftmills && u64::MAX - sticks < leftmills && 0 < cticks < leftmills - (u64::MAX
            - sticks) ==> r == leftmills - (u64::MAX - sticks) - cticks,
{
    let left = #[verifier::truncate] (leftmills as u64);
    let eticks = sticks.wrapping_add(left);
    if cticks < eticks && cticks >= sticks {
        return #[verifier::truncate] ((eticks - cticks) as i32);
    }
    if (MAX_U64_VAL - sticks) < left {
        if cticks > 0 && cticks < (left - (MAX_U64_VAL - sticks)) {
            return #[verifier::truncate] ((left - (MAX_U64_VAL - sticks) - cticks) as i32);
        }
        if cticks >= sticks && cticks < MAX_U64_VAL {
            return #[verifier::truncate] ((left - (cticks - sticks)) as i32);
        }
    }
    -1
}

// ------------------------------------------------------ the stamp law

/// A run of zeros has the value 0.
proof fn lemma_zeros_value(n: nat)
    ensures
        dec_value(Seq::new(n, |i: int| '0')) == 0,
        all_dec_digits(Seq::new(n, |i: int| '0')),
    decreases n,
{
    let z = Seq::new(n, |i: int| '0');
    if n > 0 {
        lemma_zeros_value((n - 1) as nat);
        assert(z.drop_first() =~= Seq::new((n - 1) as nat, |i: int| '0'));
        assert(z[0] == '0');
        assert(('0' as int - 48) * pow_nat(10, (n - 1) as nat) == 0);
    }
}

/// A value below `10^w`, zero-padded to `w`, is `w` digits worth the value.
proof fn lemma_padded_value(v: int, w: nat)
    requires
        w >= 1,
        0 <= v < pow_nat(10, w),
    ensures
        padded_int(v, w).len() == w,
        all_dec_digits(padded_int(v, w)),
        dec_value(padded_int(v, w)) == v,
{
    let d = decimal(v as nat);
    lemma_decimal_digits(v as nat);
    lemma_decimal_len(v as nat, w);
    let z = Seq::new((w - d.len()) as nat, |i: int| '0');
    lemma_zeros_value((w - d.len()) as nat);
    if d.len() < w {
        assert(padded_int(v, w) == z + d);
        lemma_dec_value_concat(z, d);
        assert(dec_value(z) * pow_nat(10, d.len()) == 0) by (nonlinear_arith)
            requires
                dec_value(z) == 0,
        ;
        assert forall|i: int| 0 <= i < (z + d).len() implies '0' <= #[trigger] (z + d)[i] <= '9' by {
            if i < z.len() {
                assert((z + d)[i] == z[i]);
            } else {
                assert((z + d)[i] == d[i - z.len()]);
            }
        }
    } else {
        assert(padded_int(v, w) == d);
    }
}

/// Digit texts are ASCII, so their bytes are their characters.
proof fn lemma_digits_ascii(s: Seq<char>)
    requires
        all_dec_digits(s),
    ensures
        encode_utf8(s) == ascii_of(s),
{
    assert(is_ascii_chars(s)) by {
        assert forall|i: int| 0 <= i < s.len() implies '\0' <= #[trigger] s[i] <= '\u{7f}' by {
            assert('0' <= s[i] <= '9');
        }
    }
    is_ascii_chars_encode_utf8(s);
    assert(encode_utf8(s) =~= ascii_of(s));
}

/// Reading back the compact stamp of a real date and time of the years 0 to
/// 9999 gives that date and time.
pub proof fn lemma_compact_time_round_trip(c: CivilTime)
    requires
        0 <= c.year <= 9999,
        civil_valid(c),
    ensures
        tran_time_spec(encode_utf8(compact_time_spec(c))) == Ok::<CivilTime, TimeOpError>(c),
{
    assert(pow_nat(10, 2) == 100) by {
        reveal_with_fuel(pow_nat, 3);
    }
    assert(pow_nat(10, 4) == 10000) by {
        reveal_with_fuel(pow_nat, 5);
    }
    let p1 = padded_int(c.year as int, 4);
    let p2 = padded_int(c.month as int, 2);
    let p3 = padded_int(c.day as int, 2);
    let p4 = padded_int(c.hour as int, 2);
    let p5 = padded_int(c.minute as int, 2);
    let p6 = padded_int(c.second as int, 2);
    lemma_padded_value(c.year as int, 4);
    lemma_padded_value(c.month as int, 2);
    lemma_padded_value(c.day as int, 2);
    lemma_padded_value(c.hour as int, 2);
    lemma_padded_value(c.minute as int, 2);
    lemma_padded_value(c.second as int, 2);
    let t = compact_time_spec(c);
    assert(t == p1 + p2 + p3 + p4 + p5 + p6);
    assert(t.len() == 14);
    assert(all_dec_digits(t)) by {
        assert forall|i: int| 0 <= i < 14 implies '0' <= #[trigger] t[i] <= '9' by {
            if i < 4 {
                assert(t[i] == p1[i]);
            } else if i < 6 {
                assert(t[i] == p2[i - 4]);
            } else if i < 8 {
                assert(t[i] == p3[i - 6]);
            } else if i < 10 {
                assert(t[i] == p4[i - 8]);
            } else if i < 12 {
                assert(t[i] == p5[i - 10]);
            } else {
                assert(t[i] == p6[i - 12]);
            }
        }
    }
    lemma_digits_ascii(t);
    let b = encode_utf8(t);
    assert(b.subrange(0, 4) =~= ascii_of(p1));
    assert(b.subrange(4, 6) =~= ascii_of(p2));
    assert(b.subrange(6, 8) =~= ascii_of(p3));
    assert(b.subrange(8, 10) =~= ascii_of(p4));
    assert(b.subrange(10, 12) =~= ascii_of(p5));
    assert(b.subrange(12, 14) =~= ascii_of(p6));
    let hi = u32::MAX as int;
    lemma_from_str_radix_decimal(p1, false, 0, hi);
    lemma_from_str_radix_decimal(p2, false, 0, hi);
    lemma_from_str_radix_decimal(p3, false, 0, hi);
    lemma_from_str_radix_decimal(p4, false, 0, hi);
    lemma_from_str_radix_decimal(p5, false, 0, hi);
    lemma_from_str_radix_decimal(p6, false, 0, hi);
}

} // verus!
