//! Conversion between physical lengths and device pixels.
//!
//! Physical lengths are held as integer thousandths of a millimeter, so all
//! conversions are exact integer arithmetic with round-to-nearest.

use vstd::prelude::*;
use vstd::arithmetic::div_mod::lemma_fundamental_div_mod;

verus! {

/// Pixels covered by `mm` thousandths of a millimeter at `dpi`,
/// rounded to the nearest pixel.
pub open spec fn px_of_mm(mm: int, dpi: int) -> int {
    (mm * dpi + 12700) / 25400
}

/// Thousandths of a millimeter covered by `px` pixels at `dpi`,
/// rounded to the nearest thousandth.
pub open spec fn mm_of_px(px: int, dpi: int) -> int {
    (px * 25400 + dpi / 2) / dpi
}

/// Converts a physical length in thousandths of a millimeter to pixels.
pub fn to_px(mm: u64, dpi: u32) -> (r: u64)
    requires
        1 <= dpi,
        mm * dpi + 12700 <= u64::MAX,
    ensures
        r == px_of_mm(mm as int, dpi as int),
{
    (mm * (dpi as u64) + 12700) / 25400
}

/// Converts a pixel count to a physical length in thousandths of a millimeter.
pub fn to_mm(px: u64, dpi: u32) -> (r: u64)
    requires
        1 <= dpi,
        px * 25400 + dpi / 2 <= u64::MAX,
    ensures
        r == mm_of_px(px as int, dpi as int),
{
    (px * 25400 + (dpi / 2) as u64) / (dpi as u64)
}

/// Converting a pixel count to a physical length and back returns the exact
/// pixel count for any resolution below 25400 dots per inch (one dot per
/// thousandth of a millimeter) — in particular the whole 72 to 1200 range:
/// the rounding error of the length, at most half a pixel's worth, is
/// absorbed by the rounding of the reverse conversion.
pub proof fn lemma_px_roundtrip_exact(px: int, dpi: int)
    requires
        0 <= px,
        1 <= dpi < 25400,
    ensures
        px_of_mm(mm_of_px(px, dpi), dpi) == px,
{
    let h = dpi / 2;
    let m = (px * 25400 + h) / dpi;
    lemma_fundamental_div_mod(px * 25400 + h, dpi);
    assert(0 <= (px * 25400 + h) % dpi < dpi) by (nonlinear_arith)
        requires 0 <= px, 1 <= dpi;
    let e = m * dpi - px * 25400;
    assert(h - dpi < e <= h);
    assert(m * dpi + 12700 == px * 25400 + (e + 12700));
    assert(0 <= e + 12700 < 25400);
    assert((px * 25400 + (e + 12700)) / 25400 == px) by (nonlinear_arith)
        requires 0 <= px, 0 <= e + 12700 < 25400;
}

/// The derived sizes of one run: the page's content area in pixels and
/// the border and per-image margin in pixels.
#[derive(Clone, Copy, Debug, PartialEq, Eq, Structural)]
pub struct PageSetup {
    pub width_px: u64,
    pub height_px: u64,
    pub border_px: u64,
    pub margin_px: u64,
}

/// Derives the fixed container of one page and the margin: each length is
/// converted to pixels at the resolution, the border is taken off both
/// sides of the page, and the margin is halved because it is applied as
/// padding on every image edge. Nothing is returned when the border
/// leaves no room on the page.
pub fn page_setup(
    paper_width_mm: u64,
    paper_height_mm: u64,
    border_mm: u64,
    margin_mm: u64,
    dpi: u32,
) -> (r: Option<PageSetup>)
    requires
        1 <= dpi,
        paper_width_mm * dpi + 12700 <= u64::MAX,
        paper_height_mm * dpi + 12700 <= u64::MAX,
        border_mm * dpi + 12700 <= u64::MAX,
        margin_mm * dpi + 12700 <= u64::MAX,
    ensures
        ({
            let pw = px_of_mm(paper_width_mm as int, dpi as int);
            let ph = px_of_mm(paper_height_mm as int, dpi as int);
            let b = px_of_mm(border_mm as int, dpi as int);
            match r {
                Some(c) => {
                    &&& pw > 2 * b && ph > 2 * b
                    &&& c.width_px == pw - 2 * b
                    &&& c.height_px == ph - 2 * b
                    &&& c.border_px == b
                    &&& c.margin_px == px_of_mm(margin_mm as int, dpi as int) / 2
                },
                None => pw <= 2 * b || ph <= 2 * b,
            }
        }),
{
    let b = to_px(border_mm, dpi);
    let pw = to_px(paper_width_mm, dpi);
    let ph = to_px(paper_height_mm, dpi);
    let m = to_px(margin_mm, dpi) / 2;
    proof {
        assert(b * 25400 <= border_mm * dpi + 12700) by (nonlinear_arith)
            requires b == (border_mm * dpi + 12700) as int / 25400, border_mm * dpi + 12700 >= 0;
    }
    if pw <= 2 * b || ph <= 2 * b {
        None
    } else {
        Some(PageSetup { width_px: pw - 2 * b, height_px: ph - 2 * b, border_px: b, margin_px: m })
    }
}

/// A decimal digit.
pub open spec fn is_digit(c: char) -> bool {
    48 <= c as int <= 57
}

/// The numeric value of one decimal digit.
pub open spec fn digit_val(c: char) -> int {
    c as int - 48
}

/// Every character of the sequence is a decimal digit.
pub open spec fn all_digits(s: Seq<char>) -> bool {
    forall|i: int| 0 <= i < s.len() ==> is_digit(#[trigger] s[i])
}

/// The value of a run of decimal digits, most significant first.
pub open spec fn digits_value(s: Seq<char>) -> int
    decreases s.len(),
{
    if s.len() == 0 {
        0
    } else {
        10 * digits_value(s.drop_last()) + digit_val(s.last())
    }
}

/// The index of the first decimal point, or the length when there is none.
pub open spec fn dot_pos(s: Seq<char>) -> int
    decreases s.len(),
{
    if s.len() == 0 {
        0
    } else if s[0] == '.' {
        0
    } else {
        1 + dot_pos(s.drop_first())
    }
}

pub proof fn lemma_dot_pos(s: Seq<char>)
    ensures
        0 <= dot_pos(s) <= s.len(),
        dot_pos(s) < s.len() ==> s[dot_pos(s)] == '.',
        forall|i: int| 0 <= i < dot_pos(s) ==> s[i] != '.',
    decreases s.len(),
{
    if s.len() > 0 && s[0] != '.' {
        lemma_dot_pos(s.drop_first());
        assert forall|i: int| 0 <= i < dot_pos(s) implies s[i] != '.' by {
            if i > 0 {
                assert(s.drop_first()[i - 1] != '.');
            }
        }
    }
}

/// The index of the first exponent marker `e` or `E`, or the length when
/// there is none.
pub open spec fn e_pos(s: Seq<char>) -> int
    decreases s.len(),
{
    if s.len() == 0 {
        0
    } else if s[0] == 'e' || s[0] == 'E' {
        0
    } else {
        1 + e_pos(s.drop_first())
    }
}

pub proof fn lemma_e_pos(s: Seq<char>)
    ensures
        0 <= e_pos(s) <= s.len(),
        e_pos(s) < s.len() ==> s[e_pos(s)] == 'e' || s[e_pos(s)] == 'E',
        forall|i: int| 0 <= i < e_pos(s) ==> s[i] != 'e' && s[i] != 'E',
    decreases s.len(),
{
    if s.len() > 0 && s[0] != 'e' && s[0] != 'E' {
        lemma_e_pos(s.drop_first());
        assert forall|i: int| 0 <= i < e_pos(s) implies s[i] != 'e' && s[i] != 'E' by {
            if i > 0 {
                assert(s.drop_first()[i - 1] != 'e' && s.drop_first()[i - 1] != 'E');
            }
        }
    }
}

/// The length of an optional leading plus sign.
pub open spec fn sign_len(s: Seq<char>) -> int {
    if s.len() > 0 && s[0] == '+' {
        1
    } else {
        0
    }
}

/// The mantissa: everything between the optional sign and the exponent
/// marker.
pub open spec fn mantissa_of(s: Seq<char>) -> Seq<char> {
    if sign_len(s) <= e_pos(s) {
        s.subrange(sign_len(s), e_pos(s))
    } else {
        Seq::empty()
    }
}

/// The mantissa's digits, the decimal point dropped: whole part then
/// fraction part.
pub open spec fn whole_of(s: Seq<char>) -> Seq<char> {
    mantissa_of(s).take(dot_pos(mantissa_of(s)))
}

pub open spec fn frac_of(s: Seq<char>) -> Seq<char> {
    let m = mantissa_of(s);
    if dot_pos(m) == m.len() {
        Seq::empty()
    } else {
        m.skip(dot_pos(m) + 1)
    }
}

pub open spec fn mant_digits(s: Seq<char>) -> Seq<char> {
    whole_of(s) + frac_of(s)
}

/// Whether an exponent part is written.
pub open spec fn exp_present(s: Seq<char>) -> bool {
    e_pos(s) < s.len()
}

/// The exponent's digits, after the marker and an optional plus sign.
pub open spec fn exp_digits(s: Seq<char>) -> Seq<char> {
    let t = s.skip(e_pos(s) + 1);
    if t.len() > 0 && t[0] == '+' {
        t.skip(1)
    } else {
        t
    }
}

/// The exponent's value: the power of ten the mantissa is scaled by.
pub open spec fn exp_value(s: Seq<char>) -> int {
    if exp_present(s) {
        digits_value(exp_digits(s))
    } else {
        0
    }
}

/// A length in millimeters as a decimal numeral: an optional plus sign,
/// digits around an optional decimal point (at least one digit in all),
/// and an optional exponent `e`/`E` with an optional plus sign and digits.
pub open spec fn valid_mm_string(s: Seq<char>) -> bool {
    &&& all_digits(whole_of(s))
    &&& all_digits(frac_of(s))
    &&& mant_digits(s).len() >= 1
    &&& (exp_present(s) ==> exp_digits(s).len() >= 1 && all_digits(exp_digits(s)))
}

pub open spec fn pow10(k: nat) -> int
    decreases k,
{
    if k == 0 {
        1
    } else {
        10 * pow10((k - 1) as nat)
    }
}

/// How many decimal places the mantissa's digits move left to give the
/// value in thousandths of a millimeter: the exponent, plus three for the
/// thousandths, minus the digits already behind the decimal point.
pub open spec fn mm_shift(s: Seq<char>) -> int {
    dot_pos(mantissa_of(s)) + exp_value(s) + 3 - mant_digits(s).len()
}

/// A digit value moved `shift` decimal places: scaled up for a
/// non-negative shift, truncated toward zero for a negative one.
pub open spec fn scaled(v: int, shift: int) -> int {
    if shift >= 0 {
        v * pow10(shift as nat)
    } else {
        v / pow10((-shift) as nat)
    }
}

/// The value of a millimeter numeral in thousandths of a millimeter:
/// the mantissa's digits scaled by the shift (digits beyond the
/// thousandth are dropped).
pub open spec fn mm_string_value(s: Seq<char>) -> int {
    scaled(digits_value(mant_digits(s)), mm_shift(s))
}

/// The largest mantissa `parse_mm` reads: fifteen decimal digits.
pub const MANTISSA_MAX: u64 = 1000000000000000;

/// The largest exponent `parse_mm` reads.
pub const EXP_MAX: u64 = 1000000;

/// The largest value `parse_mm` accepts, in thousandths of a millimeter.
pub const MM_MAX: u64 = 100000000000;

proof fn lemma_pow10_pos(k: nat)
    ensures
        pow10(k) >= 1,
    decreases k,
{
    if k > 0 {
        lemma_pow10_pos((k - 1) as nat);
    }
}

proof fn lemma_pow10_increases(a: nat, b: nat)
    requires
        a <= b,
    ensures
        pow10(a) <= pow10(b),
    decreases b,
{
    if a < b {
        lemma_pow10_increases(a, (b - 1) as nat);
        lemma_pow10_pos((b - 1) as nat);
    }
}

proof fn lemma_pow10_adds(a: nat, b: nat)
    ensures
        pow10(a + b) == pow10(a) * pow10(b),
    decreases a,
{
    if a > 0 {
        lemma_pow10_adds((a - 1) as nat, b);
        assert(pow10(a + b) == 10 * pow10((a + b - 1) as nat));
        assert(10 * (pow10((a - 1) as nat) * pow10(b)) == (10 * pow10((a - 1) as nat)) * pow10(b))
            by (nonlinear_arith);
    }
}

proof fn lemma_digits_value_nonneg(s: Seq<char>, j: int)
    requires
        0 <= j <= s.len(),
        forall|k: int| 0 <= k < j ==> is_digit(#[trigger] s[k]),
    ensures
        digits_value(s.take(j)) >= 0,
    decreases j,
{
    if j > 0 {
        lemma_digits_value_nonneg(s, j - 1);
        assert(s.take(j).drop_last() =~= s.take(j - 1));
        assert(s.take(j).last() == s[j - 1]);
    }
}

proof fn lemma_digits_value_prefix_le(s: Seq<char>, i: int, j: int)
    requires
        0 <= i <= j <= s.len(),
        forall|k: int| 0 <= k < j ==> is_digit(#[trigger] s[k]),
    ensures
        digits_value(s.take(i)) <= digits_value(s.take(j)),
    decreases j - i,
{
    if i < j {
        lemma_digits_value_prefix_le(s, i, j - 1);
        lemma_digits_value_nonneg(s, j - 1);
        assert(s.take(j).drop_last() =~= s.take(j - 1));
        assert(s.take(j).last() == s[j - 1]);
    }
}

/// Moves a digit value `shift` decimal places, refusing a result over
/// `MM_MAX`.
fn scale_value(v: u64, shift: i128) -> (r: Option<u64>)
    requires
        v <= MANTISSA_MAX,
        -0xffffffffffffffff <= shift <= 0xffffffffffffffff,
    ensures
        match r {
            Some(out) => out == scaled(v as int, shift as int) && out <= MM_MAX,
            None => scaled(v as int, shift as int) > MM_MAX,
        },
{
    let ghost dv0 = v as int;
    let mut mval = v;
    if mval == 0 {
        proof {
            if shift >= 0 {
                assert(0 * pow10(shift as nat) == 0) by (nonlinear_arith);
            } else {
                lemma_pow10_pos((-shift) as nat);
                vstd::arithmetic::div_mod::lemma_div_of0(pow10((-shift) as nat));
            }
        }
        return Some(0);
    }
    if shift >= 0 {
        let kk: u64 = shift as u64;
        let mut t: u64 = 0;
        while t < kk
            invariant
                0 <= t <= kk,
                kk == shift,
                mval as int == dv0 * pow10(t as nat),
                mval <= 10 * MM_MAX || mval as int == dv0,
                dv0 == v,
            decreases kk - t,
        {
            if mval > MM_MAX {
                proof {
                    lemma_pow10_adds(t as nat, (kk - t) as nat);
                    lemma_pow10_pos((kk - t) as nat);
                    assert(dv0 * pow10(kk as nat) == (dv0 * pow10(t as nat)) * pow10(
                        (kk - t) as nat,
                    )) by (nonlinear_arith)
                        requires pow10(kk as nat) == pow10(t as nat) * pow10((kk - t) as nat);
                    assert((mval as int) * pow10((kk - t) as nat) >= mval as int)
                        by (nonlinear_arith)
                        requires mval as int >= 0, pow10((kk - t) as nat) >= 1;
                }
                return None;
            }
            proof {
                assert(pow10((t + 1) as nat) == 10 * pow10(t as nat));
                assert((dv0 * pow10(t as nat)) * 10 == dv0 * (10 * pow10(t as nat)))
                    by (nonlinear_arith);
            }
            mval = mval * 10;
            t = t + 1;
        }
    } else {
        let jj: u64 = (-shift) as u64;
        let mut t: u64 = 0;
        while t < jj && mval > 0
            invariant
                0 <= t <= jj,
                jj == -shift,
                mval as int == dv0 / pow10(t as nat),
                mval <= MANTISSA_MAX,
                dv0 == v,
            decreases jj - t,
        {
            proof {
                lemma_pow10_pos(t as nat);
                vstd::arithmetic::div_mod::lemma_div_denominator(dv0, pow10(t as nat), 10);
                assert(pow10((t + 1) as nat) == 10 * pow10(t as nat));
            }
            mval = mval / 10;
            t = t + 1;
        }
        proof {
            if t < jj {
                lemma_pow10_pos(t as nat);
                lemma_fundamental_div_mod(dv0, pow10(t as nat));
                assert(dv0 / pow10(t as nat) == 0);
                assert(pow10(t as nat) * 0 == 0) by (nonlinear_arith);
                assert(0 <= dv0 % pow10(t as nat) < pow10(t as nat)) by (nonlinear_arith)
                    requires dv0 >= 0, pow10(t as nat) >= 1;
                assert(dv0 == dv0 % pow10(t as nat));
                assert(dv0 < pow10(t as nat));
                lemma_pow10_increases(t as nat, jj as nat);
                assert(dv0 / pow10(jj as nat) == 0) by (nonlinear_arith)
                    requires 0 <= dv0 < pow10(jj as nat), pow10(jj as nat) >= 1;
            }
            assert(mval as int == scaled(v as int, shift as int));
        }
    }
    if mval > MM_MAX {
        return None;
    }
    Some(mval)
}


/// Reads the mantissa's and the exponent's digit values of a well-formed
/// numeral, refusing a mantissa over `MANTISSA_MAX` or an exponent over
/// `EXP_MAX`.
#[verifier::loop_isolation(false)]
#[verifier::rlimit(100)]
fn digits_and_exp(s: &str, start: usize, dm: usize, ep: usize) -> (r: Result<(u64, u64), String>)
    requires
        valid_mm_string(s@),
        start == sign_len(s@),
        ep == e_pos(s@),
        start <= dm <= ep <= s@.len(),
        dm - start == dot_pos(mantissa_of(s@)),
    ensures
        match r {
            Ok(p) => p.0 == digits_value(mant_digits(s@)) && p.0 <= MANTISSA_MAX && p.1
                == exp_value(s@) && p.1 <= EXP_MAX,
            Err(_) => digits_value(mant_digits(s@)) > MANTISSA_MAX || exp_value(s@) > EXP_MAX,
        },
{
    let n = s.unicode_len();
    let ghost m = mantissa_of(s@);
    let wlen: usize = dm - start;
    proof {
        lemma_dot_pos(m);
        assert(m == s@.subrange(start as int, ep as int));
        assert(whole_of(s@).len() == wlen);
    }
    let flen: usize = if dm < ep {
        ep - dm - 1
    } else {
        0
    };
    let cnt: usize = wlen + flen;
    let ghost md = mant_digits(s@);
    proof {
        assert(frac_of(s@).len() == flen);
        assert(md.len() == cnt);
        assert forall|q: int| 0 <= q < cnt implies md[q] == (if q < wlen {
            s@[start + q]
        } else {
            s@[dm + 1 + (q - wlen)]
        }) by {
            if q < wlen {
                assert(md[q] == whole_of(s@)[q]);
                assert(whole_of(s@)[q] == m[q]);
            } else {
                assert(md[q] == frac_of(s@)[q - wlen]);
                assert(frac_of(s@)[q - wlen] == m[dot_pos(m) + 1 + (q - wlen)]);
            }
        }
        assert forall|q: int| 0 <= q < cnt implies is_digit(#[trigger] md[q]) by {
            if q < wlen {
                assert(is_digit(whole_of(s@)[q]));
            } else {
                assert(is_digit(frac_of(s@)[q - wlen]));
            }
        }
        assert(md.take(cnt as int) =~= md);
    }
    let mut mval: u64 = 0;
    let mut q: usize = 0;
    while q < cnt
        invariant
            0 <= q <= cnt,
            mval == digits_value(md.take(q as int)),
            mval <= MANTISSA_MAX,
        decreases cnt - q,
    {
        let idx: usize = if q < wlen {
            start + q
        } else {
            dm + 1 + (q - wlen)
        };
        proof {
            assert(md[q as int] == s@[idx as int]);
            assert(is_digit(md[q as int]));
        }
        let u = s.get_char(idx) as u32;
        proof {
            assert(48 <= u <= 57);
        }
        let next = mval * 10 + ((u - 48) as u64);
        proof {
            assert(md.take(q + 1).drop_last() =~= md.take(q as int));
            assert(md.take(q + 1).last() == md[q as int]);
        }
        if next > MANTISSA_MAX {
            proof {
                lemma_digits_value_prefix_le(md, q + 1, cnt as int);
            }
            return Err("the length in millimeters is too precise to read".to_owned());
        }
        mval = next;
        q = q + 1;
    }

    let mut ev: u64 = 0;
    if ep < n {
        let es: usize = if ep + 1 < n && s.get_char(ep + 1) == '+' {
            ep + 2
        } else {
            ep + 1
        };
        let ghost ed = exp_digits(s@);
        proof {
            assert(ed =~= s@.subrange(es as int, n as int));
            assert(ed.take(ed.len() as int) =~= ed);
        }
        let mut t: usize = es;
        while t < n
            invariant
                es <= t <= n,
                ev == digits_value(ed.take(t - es)),
                ev <= EXP_MAX,
            decreases n - t,
        {
            proof {
                assert(ed[t - es] == s@[t as int]);
                assert(is_digit(ed[t - es]));
            }
            let u = s.get_char(t) as u32;
            proof {
                assert(48 <= u <= 57);
            }
            let next = ev * 10 + ((u - 48) as u64);
            proof {
                assert(ed.take(t - es + 1).drop_last() =~= ed.take(t - es));
                assert(ed.take(t - es + 1).last() == ed[t - es]);
            }
            if next > EXP_MAX {
                proof {
                    lemma_digits_value_prefix_le(ed, t - es + 1, ed.len() as int);
                }
                return Err("the exponent is too large".to_owned());
            }
            ev = next;
            t = t + 1;
        }
    }
    proof {
        assert(mval == digits_value(mant_digits(s@)));
        assert(ev == exp_value(s@));
    }
    Ok((mval, ev))
}

/// Parses a length in millimeters, given as a decimal numeral — an
/// optional plus sign, digits around an optional decimal point, and an
/// optional exponent such as `1e3` — into thousandths of a millimeter.
/// Digits beyond the thousandth of a millimeter are truncated. Rejected
/// are malformed numerals, mantissas of more than fifteen digits' worth,
/// exponents over `EXP_MAX`, and values over `MM_MAX`.
#[verifier::loop_isolation(false)]
#[verifier::rlimit(100)]
pub fn parse_mm(s: &str) -> (r: Result<u64, String>)
    ensures
        match r {
            Ok(v) => {
                &&& valid_mm_string(s@)
                &&& digits_value(mant_digits(s@)) <= MANTISSA_MAX
                &&& exp_value(s@) <= EXP_MAX
                &&& mm_string_value(s@) <= MM_MAX
                &&& v == mm_string_value(s@)
            },
            Err(_) => {
                ||| !valid_mm_string(s@)
                ||| digits_value(mant_digits(s@)) > MANTISSA_MAX
                ||| exp_value(s@) > EXP_MAX
                ||| mm_string_value(s@) > MM_MAX
            },
        },
{
    let n = s.unicode_len();

    // the optional sign
    let start: usize = if n > 0 && s.get_char(0) == '+' {
        1
    } else {
        0
    };
    assert(start == sign_len(s@));

    // the exponent marker, or the end
    let mut ep: usize = 0;
    while ep < n && s.get_char(ep) != 'e' && s.get_char(ep) != 'E'
        invariant
            0 <= ep <= n,
            forall|j: int| 0 <= j < ep ==> s@[j] != 'e' && s@[j] != 'E',
        decreases n - ep,
    {
        ep = ep + 1;
    }
    proof {
        lemma_e_pos(s@);
        if e_pos(s@) < ep {
            assert(s@[e_pos(s@)] == 'e' || s@[e_pos(s@)] == 'E');
        }
        if ep < e_pos(s@) {
            assert(s@[ep as int] == 'e' || s@[ep as int] == 'E');
        }
        assert(ep == e_pos(s@));
        assert(start <= ep);
    }
    let ghost m = mantissa_of(s@);
    proof {
        assert(m == s@.subrange(start as int, ep as int));
    }

    // the decimal point inside the mantissa, or its end
    let mut dm: usize = start;
    while dm < ep && s.get_char(dm) != '.'
        invariant
            start <= dm <= ep,
            forall|j: int| start <= j < dm ==> s@[j] != '.',
        decreases ep - dm,
    {
        dm = dm + 1;
    }
    proof {
        lemma_dot_pos(m);
        if dot_pos(m) < dm - start {
            assert(m[dot_pos(m)] == '.');
            assert(s@[start + dot_pos(m)] == '.');
        }
        if dm - start < dot_pos(m) {
            assert(m[dm - start] == '.');
        }
        assert(dot_pos(m) == dm - start);
    }
    let wlen: usize = dm - start;
    let flen: usize = if dm < ep {
        ep - dm - 1
    } else {
        0
    };
    proof {
        assert(whole_of(s@).len() == wlen);
        assert(frac_of(s@).len() == flen);
        assert(mant_digits(s@).len() == wlen + flen);
    }
    if wlen + flen == 0 {
        return Err("expected a decimal number of millimeters".to_owned());
    }

    // every whole-part character must be a digit
    let mut i: usize = start;
    while i < dm
        invariant
            start <= i <= dm,
            forall|x: int| 0 <= x < i - start ==> is_digit(#[trigger] whole_of(s@)[x]),
        decreases dm - i,
    {
        let u = s.get_char(i) as u32;
        proof {
            assert(whole_of(s@)[i - start] == s@[i as int]);
        }
        if u < 48 || u > 57 {
            return Err("expected a decimal number of millimeters".to_owned());
        }
        i = i + 1;
    }

    // every fraction character must be a digit
    if dm < ep {
        let mut j: usize = dm + 1;
        while j < ep
            invariant
                dm + 1 <= j <= ep,
                forall|x: int| 0 <= x < j - dm - 1 ==> is_digit(#[trigger] frac_of(s@)[x]),
            decreases ep - j,
        {
            let u = s.get_char(j) as u32;
            proof {
                assert(frac_of(s@)[j - dm - 1] == m[dot_pos(m) + 1 + (j - dm - 1)]);
                assert(frac_of(s@)[j - dm - 1] == s@[j as int]);
            }
            if u < 48 || u > 57 {
                return Err("expected a decimal number of millimeters".to_owned());
            }
            j = j + 1;
        }
    }

    // the exponent, when written, must be a plus sign and digits
    if ep < n {
        let es: usize = if ep + 1 < n && s.get_char(ep + 1) == '+' {
            ep + 2
        } else {
            ep + 1
        };
        proof {
            assert(exp_digits(s@) =~= s@.subrange(es as int, n as int));
        }
        if es == n {
            return Err("expected digits in the exponent".to_owned());
        }
        let mut t: usize = es;
        while t < n
            invariant
                es <= t <= n,
                forall|x: int| 0 <= x < t - es ==> is_digit(#[trigger] exp_digits(s@)[x]),
            decreases n - t,
        {
            let u = s.get_char(t) as u32;
            proof {
                assert(exp_digits(s@)[t - es] == s@[t as int]);
            }
            if u < 48 || u > 57 {
                return Err("expected digits in the exponent".to_owned());
            }
            t = t + 1;
        }
    }
    proof {
        assert(valid_mm_string(s@));
    }

    let pair = match digits_and_exp(s, start, dm, ep) {
        Ok(p) => p,
        Err(e) => {
            return Err(e);
        },
    };

    // scale the digits into thousandths of a millimeter
    let shift: i128 = wlen as i128 + (pair.1 as i128) + 3 - ((wlen + flen) as i128);
    proof {
        assert(shift == mm_shift(s@));
    }
    match scale_value(pair.0, shift) {
        Some(out) => Ok(out),
        None => Err("the length in millimeters is too large".to_owned()),
    }
}

} // verus!
