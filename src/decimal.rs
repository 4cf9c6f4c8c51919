//! Decimal text, read as exact integers or as fixed-point values.
//!
//! Coordinates are held in billionths of a degree, so that binning works on
//! integers and never depends on the rounding of floating-point division.
use vstd::prelude::*;

verus! {

/// Number of fixed-point units in one whole unit (one degree).
pub const SCALE: i64 = 1_000_000_000;

/// Number of fractional digits that a fixed-point value keeps.
pub const FRACTION_DIGITS: usize = 9;

/// Why a field could not be read as a number.
#[derive(Debug, Clone, Copy, PartialEq, Eq, Structural)]
pub enum NumberError {
    /// The text is not a number of the accepted form.
    Malformed,
    /// The text is a number, but its value does not fit in an `i64`.
    OutOfRange,
}

pub open spec fn is_digit(b: u8) -> bool {
    48 <= b <= 57
}

pub open spec fn all_digits(s: Seq<u8>) -> bool {
    forall|i: int| 0 <= i < s.len() ==> is_digit(#[trigger] s[i])
}

/// The value of a run of decimal digits, most significant first.
pub open spec fn digits_value(s: Seq<u8>) -> int
    decreases s.len(),
{
    if s.len() == 0 {
        0
    } else {
        10 * digits_value(s.drop_last()) + (s.last() - 48)
    }
}

/// Length of a leading `+` or `-`.
pub open spec fn sign_len(s: Seq<u8>) -> int {
    if s.len() > 0 && (s[0] == 43 || s[0] == 45) {
        1
    } else {
        0
    }
}

pub open spec fn is_negative(s: Seq<u8>) -> bool {
    s.len() > 0 && s[0] == 45
}

/// The text after its sign.
pub open spec fn unsigned_part(s: Seq<u8>) -> Seq<u8> {
    s.skip(sign_len(s))
}

/// An optional sign followed by one or more digits.
pub open spec fn integer_value(s: Seq<u8>) -> Option<int> {
    let d = unsigned_part(s);
    if d.len() > 0 && all_digits(d) {
        Some(if is_negative(s) { -digits_value(d) } else { digits_value(d) })
    } else {
        None
    }
}

/// Number of digits at the start of `s`.
pub open spec fn digit_run(s: Seq<u8>) -> nat
    decreases s.len(),
{
    if s.len() > 0 && is_digit(s[0]) {
        1 + digit_run(s.drop_first())
    } else {
        0
    }
}

/// The digits before the decimal point.
pub open spec fn whole_digits(s: Seq<u8>) -> Seq<u8> {
    let d = unsigned_part(s);
    d.take(digit_run(d) as int)
}

/// The text after the decimal point (empty where there is none).
pub open spec fn fraction_digits(s: Seq<u8>) -> Seq<u8> {
    let d = unsigned_part(s);
    let p = digit_run(d) as int;
    if p < d.len() {
        d.skip(p + 1)
    } else {
        Seq::empty()
    }
}

/// An optional sign, digits, and optionally a point followed by digits;
/// at least one digit in all.
pub open spec fn is_decimal(s: Seq<u8>) -> bool {
    let d = unsigned_part(s);
    let p = digit_run(d) as int;
    &&& (p == d.len() || (d[p] == 46 && all_digits(d.skip(p + 1))))
    &&& whole_digits(s).len() + fraction_digits(s).len() > 0
}

/// The first nine fractional digits, padded with zeros.
pub open spec fn padded_fraction(f: Seq<u8>) -> Seq<u8> {
    Seq::new(FRACTION_DIGITS as nat, |j: int| if j < f.len() { f[j] } else { 48u8 })
}

/// Whether a non-zero digit lies beyond the ninth fractional place.
pub open spec fn fraction_truncated(f: Seq<u8>) -> bool {
    exists|j: int| FRACTION_DIGITS <= j < f.len() && f[j] != 48
}

/// The decimal `s` times `SCALE`, rounded down to an integer.
pub open spec fn scaled_decimal(s: Seq<u8>) -> int {
    let f = fraction_digits(s);
    let m = digits_value(whole_digits(s)) * SCALE + digits_value(padded_fraction(f));
    if is_negative(s) {
        -(m + if fraction_truncated(f) { 1int } else { 0int })
    } else {
        m
    }
}

pub open spec fn fits_i64(v: int) -> bool {
    i64::MIN <= v <= i64::MAX
}

/// What reading `s` as an integer gives.
pub open spec fn integer_result(s: Seq<u8>) -> Result<i64, NumberError> {
    match integer_value(s) {
        None => Err(NumberError::Malformed),
        Some(v) => if fits_i64(v) {
            Ok(v as i64)
        } else {
            Err(NumberError::OutOfRange)
        },
    }
}

/// What reading `s` as a fixed-point decimal gives.
pub open spec fn fixed_result(s: Seq<u8>) -> Result<i64, NumberError> {
    if !is_decimal(s) {
        Err(NumberError::Malformed)
    } else if fits_i64(scaled_decimal(s)) {
        Ok(scaled_decimal(s) as i64)
    } else {
        Err(NumberError::OutOfRange)
    }
}

proof fn lemma_digits_value_step(s: Seq<u8>, i: int)
    requires
        0 <= i < s.len(),
    ensures
        digits_value(s.take(i + 1)) == 10 * digits_value(s.take(i)) + (s[i] - 48),
{
    assert(s.take(i + 1).drop_last() =~= s.take(i));
}

proof fn lemma_digits_value_nonneg(s: Seq<u8>)
    requires
        all_digits(s),
    ensures
        digits_value(s) >= 0,
    decreases s.len(),
{
    if s.len() > 0 {
        assert(all_digits(s.drop_last())) by {
            assert forall|i: int| 0 <= i < s.drop_last().len() implies is_digit(
                #[trigger] s.drop_last()[i],
            ) by {
                assert(is_digit(s[i]));
            }
        }
        lemma_digits_value_nonneg(s.drop_last());
        assert(is_digit(s[s.len() - 1]));
    }
}

proof fn lemma_digit_run(s: Seq<u8>, p: int)
    requires
        0 <= p <= s.len(),
        all_digits(s.take(p)),
        p == s.len() || !is_digit(s[p]),
    ensures
        digit_run(s) == p,
    decreases p,
{
    if p > 0 {
        let t = s.drop_first();
        assert(is_digit(s.take(p)[0]));
        assert(all_digits(t.take(p - 1))) by {
            assert forall|k: int| 0 <= k < p - 1 implies is_digit(#[trigger] t.take(p - 1)[k]) by {
                assert(is_digit(s.take(p)[k + 1]));
            }
        }
        if p < s.len() {
            assert(t[p - 1] == s[p]);
        }
        lemma_digit_run(t, p - 1);
    }
}

/// Limit above which an accumulated magnitude is known to be out of range.
const BIG: i128 = 10_000_000_000_000_000_000;

/// Reads an integer: an optional `+` or `-` followed by one or more digits.
pub fn parse_integer(s: &[u8]) -> (r: Result<i64, NumberError>)
    ensures
        r == integer_result(s@),
{
    let len = s.len();
    let negative = len > 0 && s[0] == 45u8;
    let start: usize = if len > 0 && (s[0] == 43u8 || s[0] == 45u8) {
        1
    } else {
        0
    };
    let ghost d = unsigned_part(s@);
    assert(d =~= s@.skip(start as int));
    if start == len {
        return Err(NumberError::Malformed);
    }
    let mut acc: i128 = 0;
    let mut i: usize = start;
    while i < len
        invariant
            start <= i <= len,
            len == s@.len(),
            d == unsigned_part(s@),
            d =~= s@.skip(start as int),
            all_digits(d.take(i - start)),
            0 <= acc <= BIG * 10 + 9,
            acc == digits_value(d.take(i - start)) || (acc > BIG && digits_value(d.take(i - start))
                > BIG),
        decreases len - i,
    {
        let b = s[i];
        if b < 48u8 || b > 57u8 {
            proof {
                assert(d[i - start] == b);
                assert(!is_digit(d[i - start]));
            }
            return Err(NumberError::Malformed);
        }
        proof {
            assert(d[i - start] == b);
            lemma_digits_value_step(d, i - start);
            assert(all_digits(d.take(i + 1 - start))) by {
                assert forall|k: int| 0 <= k < i + 1 - start implies is_digit(
                    #[trigger] d.take(i + 1 - start)[k],
                ) by {
                    if k < i - start {
                        assert(d.take(i + 1 - start)[k] == d.take(i - start)[k]);
                    }
                }
            }
            lemma_digits_value_nonneg(d.take(i - start));
        }
        if acc <= BIG {
            acc = acc * 10 + (b - 48u8) as i128;
        }
        i = i + 1;
    }
    proof {
        assert(d.take(len - start) =~= d);
    }
    let magnitude = acc;
    if magnitude > BIG {
        return Err(NumberError::OutOfRange);
    }
    let value: i128 = if negative {
        -magnitude
    } else {
        magnitude
    };
    if value < i64::MIN as i128 || value > i64::MAX as i128 {
        Err(NumberError::OutOfRange)
    } else {
        Ok(value as i64)
    }
}


pub open spec fn pow10(n: nat) -> int
    decreases n,
{
    if n == 0 {
        1
    } else {
        10 * pow10((n - 1) as nat)
    }
}

proof fn lemma_digits_value_bound(s: Seq<u8>)
    requires
        all_digits(s),
    ensures
        0 <= digits_value(s) < pow10(s.len()),
    decreases s.len(),
{
    if s.len() > 0 {
        let t = s.drop_last();
        assert(all_digits(t)) by {
            assert forall|k: int| 0 <= k < t.len() implies is_digit(#[trigger] t[k]) by {
                assert(is_digit(s[k]));
            }
        }
        lemma_digits_value_bound(t);
        assert(is_digit(s[s.len() - 1]));
    }
}

proof fn lemma_extend_all_digits(s: Seq<u8>, i: int)
    requires
        0 <= i < s.len(),
        all_digits(s.take(i)),
        is_digit(s[i]),
    ensures
        all_digits(s.take(i + 1)),
{
    assert forall|k: int| 0 <= k < i + 1 implies is_digit(#[trigger] s.take(i + 1)[k]) by {
        if k < i {
            assert(s.take(i + 1)[k] == s.take(i)[k]);
        }
    }
}

proof fn lemma_pow10_value()
    ensures
        pow10(9) == 1_000_000_000,
{
    reveal_with_fuel(pow10, 10);
}

proof fn lemma_pow10_mono(a: nat, b: nat)
    requires
        a <= b,
    ensures
        1 <= pow10(a) <= pow10(b),
    decreases b,
{
    if a < b {
        lemma_pow10_mono(a, (b - 1) as nat);
    } else if a > 0 {
        lemma_pow10_mono((a - 1) as nat, (a - 1) as nat);
    }
}

fn is_digit_byte(b: u8) -> (r: bool)
    ensures
        r == is_digit(b),
{
    48u8 <= b && b <= 57u8
}

/// Reads a decimal number as a fixed-point value in units of `1 / SCALE`:
/// an optional sign, digits, and optionally a point and more digits, with at
/// least one digit in all. Digits beyond the ninth fractional place round the
/// value down. Only plain decimal notation is read: exponent notation
/// (`1e5`), `inf` and `NaN` are refused as malformed.
pub fn parse_fixed(s: &[u8]) -> (r: Result<i64, NumberError>)
    ensures
        r == fixed_result(s@),
{
    let len = s.len();
    let negative = len > 0 && s[0] == 45u8;
    let start: usize = if len > 0 && (s[0] == 43u8 || s[0] == 45u8) {
        1
    } else {
        0
    };
    let ghost d = unsigned_part(s@);
    assert(d =~= s@.skip(start as int));
    let mut whole: i128 = 0;
    let mut i: usize = start;
    while i < len && is_digit_byte(s[i])
        invariant
            start <= i <= len,
            len == s@.len(),
            d == unsigned_part(s@),
            d =~= s@.skip(start as int),
            all_digits(d.take(i - start)),
            0 <= whole <= BIG * 10 + 9,
            whole == digits_value(d.take(i - start)) || (whole > BIG && digits_value(
                d.take(i - start),
            ) > BIG),
        decreases len - i,
    {
        proof {
            assert(d[i - start] == s@[i as int]);
            lemma_digits_value_step(d, i - start);
            lemma_extend_all_digits(d, i - start);
            lemma_digits_value_nonneg(d.take(i - start));
        }
        if whole <= BIG {
            whole = whole * 10 + (s[i] - 48u8) as i128;
        }
        i = i + 1;
    }
    let p = i;
    proof {
        if p < len {
            assert(d[p - start] == s@[p as int]);
        }
        lemma_digit_run(d, p - start);
        assert(whole_digits(s@) == d.take(p - start));
    }
    let mut frac_start: usize = len;
    if p < len {
        if s[p] != 46u8 {
            proof {
                assert(d[p - start] == s@[p as int]);
            }
            return Err(NumberError::Malformed);
        }
        frac_start = p + 1;
    }
    let ghost f = fraction_digits(s@);
    let ghost pf = padded_fraction(f);
    assert(f =~= s@.skip(frac_start as int));
    proof {
        lemma_pow10_value();
    }
    let mut frac: i64 = 0;
    let mut k: usize = 0;
    let mut truncated = false;
    i = frac_start;
    while i < len
        invariant
            start <= p <= len,
            frac_start <= i <= len,
            frac_start < len ==> frac_start == p + 1,
            len == s@.len(),
            unsigned_part(s@) =~= s@.skip(start as int),
            f == fraction_digits(s@),
            pf == padded_fraction(f),
            f =~= s@.skip(frac_start as int),
            k == i - frac_start,
            all_digits(f.take(k as int)),
            pow10(9) == 1_000_000_000,
            0 <= frac < pow10(if k <= 9 { k as nat } else { 9 }),
            frac == digits_value(pf.take(if k <= 9 { k as int } else { 9 })),
            truncated == exists|j: int| FRACTION_DIGITS <= j < k && f[j] != 48,
        decreases len - i,
    {
        let b = s[i];
        assert(f[k as int] == b);
        if !is_digit_byte(b) {
            proof {
                let d = unsigned_part(s@);
                assert(f =~= d.skip(p - start + 1));
                assert(!is_digit(d.skip(p - start + 1)[k as int]));
            }
            return Err(NumberError::Malformed);
        }
        proof {
            lemma_extend_all_digits(f, k as int);
        }
        if k < FRACTION_DIGITS {
            proof {
                assert(pf[k as int] == b);
                lemma_digits_value_step(pf, k as int);
                assert(all_digits(pf.take(k as int + 1))) by {
                    assert forall|j: int| 0 <= j < k + 1 implies is_digit(
                        #[trigger] pf.take(k as int + 1)[j],
                    ) by {
                        assert(f.take(k as int + 1)[j] == f[j]);
                    }
                }
                lemma_digits_value_bound(pf.take(k as int + 1));
                lemma_pow10_mono((k + 1) as nat, 9);
            }
            frac = frac * 10 + (b - 48u8) as i64;
        } else if b != 48u8 {
            truncated = true;
        }
        k = k + 1;
        i = i + 1;
    }
    let digits_seen = (p - start) + k;
    if digits_seen == 0 {
        return Err(NumberError::Malformed);
    }
    let mut m: usize = if k < FRACTION_DIGITS {
        k
    } else {
        FRACTION_DIGITS
    };
    while m < FRACTION_DIGITS
        invariant
            f == fraction_digits(s@),
            pf == padded_fraction(f),
            m <= 9,
            m < 9 ==> f.len() <= m,
            pow10(9) == 1_000_000_000,
            0 <= frac < pow10(m as nat),
            frac == digits_value(pf.take(m as int)),
        decreases 9 - m,
    {
        proof {
            assert(pf[m as int] == 48u8);
            lemma_digits_value_step(pf, m as int);
            lemma_pow10_mono((m + 1) as nat, 9);
        }
        frac = frac * 10;
        m = m + 1;
    }
    proof {
        assert(pf.take(9) =~= pf);
        let d = unsigned_part(s@);
        assert(digit_run(d) == p - start);
        assert(f.take(k as int) =~= f);
        if p < len {
            assert(d.skip(p - start + 1) =~= f);
            assert(d[p - start] == 46);
        }
        assert(whole_digits(s@).len() == p - start);
        assert(is_decimal(s@));
    }
    if whole > BIG {
        proof {
            lemma_digits_value_nonneg(pf);
        }
        return Err(NumberError::OutOfRange);
    }
    let magnitude: i128 = whole * 1_000_000_000 + frac as i128;
    let value: i128 = if negative {
        if truncated {
            -(magnitude + 1)
        } else {
            -magnitude
        }
    } else {
        magnitude
    };
    if value < i64::MIN as i128 || value > i64::MAX as i128 {
        Err(NumberError::OutOfRange)
    } else {
        Ok(value as i64)
    }
}

} // verus!
