//! Non-negative-scale decimal numbers.
//!
//! Price multipliers and level-resource commonness values are decimal
//! literals in the source data. The catalog stores them exactly as a
//! sign, a mantissa and a power-of-ten scale, so the value is
//! `mant / 10^scale`, negated when `neg` is set.

use vstd::prelude::*;

use crate::text::{
    digits_value, find_char_from, spec_digit, spec_digit_char, spec_digits_value, spec_split_sign,
    spec_u64_str, u64_to_string,
};

verus! {

/// A decimal number `(-1)^neg * mant / 10^scale`, kept in canonical
/// form: no trailing zero in the fraction, no negative zero, and a
/// fraction of at most [`MAX_SCALE`] digits.
#[derive(Clone, Copy, PartialEq, Eq, Structural, Debug)]
pub struct Decimal {
    pub neg: bool,
    pub mant: u64,
    pub scale: u32,
}

/// The longest fraction the catalog stores.
pub const MAX_SCALE: u32 = 9;

impl View for Decimal {
    type V = Decimal;

    open spec fn view(&self) -> Decimal {
        *self
    }
}

impl DeepView for Decimal {
    type V = Decimal;

    open spec fn deep_view(&self) -> Decimal {
        *self
    }
}

impl Decimal {
    /// Canonical form: the scale is minimal and zero is not negative.
    pub open spec fn wf(self) -> bool {
        &&& self.scale <= MAX_SCALE
        &&& (self.mant % 10 == 0 ==> self.scale == 0)
        &&& (self.neg ==> self.mant > 0)
    }
}

/// `10^k`.
pub open spec fn spec_pow10(k: int) -> int
    decreases k,
{
    if k <= 0 {
        1
    } else {
        10 * spec_pow10(k - 1)
    }
}

/// Computes a small power of ten.
pub fn pow10(k: u32) -> (r: u64)
    requires
        k <= 19,
    ensures
        r as int == spec_pow10(k as int),
{
    let mut r: u64 = 1;
    let mut i: u32 = 0;
    while i < k
        invariant
            i <= k,
            k <= 19,
            r as int == spec_pow10(i as int),
        decreases k - i,
    {
        proof {
            lemma_pow10_bounds(i as int + 1);
        }
        r = r * 10;
        i = i + 1;
    }
    r
}

/// `10^k` is monotone in `k` and always at least one.
proof fn lemma_pow10_mono(a: int, b: int)
    requires
        a <= b,
    ensures
        1 <= spec_pow10(a),
        spec_pow10(a) <= spec_pow10(b),
    decreases (if b >= 0 {
        b + 1
    } else {
        0
    }),
{
    if b <= 0 {
    } else if a == b {
        lemma_pow10_mono(a - 1, b - 1);
    } else {
        lemma_pow10_mono(a, b - 1);
    }
}

/// `10^k` grows but stays within `u64` while `k` is at most 19.
proof fn lemma_pow10_bounds(k: int)
    ensures
        k >= 0 ==> spec_pow10(k) >= 1,
        0 <= k <= 19 ==> spec_pow10(k) <= 10000000000000000000,
{
    if k >= 0 {
        lemma_pow10_mono(0, k);
    }
    if 0 <= k <= 19 {
        lemma_pow10_mono(k, 19);
        assert(spec_pow10(19) == 10000000000000000000) by {
            reveal_with_fuel(spec_pow10, 21);
        }
    }
}

/// A fraction with its trailing zero digits removed.
pub open spec fn spec_trim_zeros(s: Seq<char>) -> Seq<char>
    decreases s.len(),
{
    if s.len() > 0 && s.last() == '0' {
        spec_trim_zeros(s.drop_last())
    } else {
        s
    }
}

/// Canonical decimal built from a sign, mantissa and scale.
pub open spec fn spec_make_decimal(neg: bool, mant: u64, scale: u32) -> Decimal {
    Decimal { neg: neg && mant > 0, mant, scale }
}

/// A decimal literal with optional sign, integer digits, and an
/// optional fraction, at least one side of the point non-empty:
/// `None` when malformed, when the canonical mantissa does not fit in
/// a `u64`, or when the canonical fraction is longer than
/// [`MAX_SCALE`] digits.
pub open spec fn spec_parse_decimal(s: Seq<char>) -> Option<Decimal> {
    let (body, neg) = spec_split_sign(s);
    match crate::text::first_index_of(body, '.') {
        None => match spec_digits_value(body) {
            None => None,
            Some(m) => Some(spec_make_decimal(neg, m, 0)),
        },
        Some(i) => if 0 <= i < body.len() {
            let ints = body.subrange(0, i);
            let frac = body.subrange(i + 1, body.len() as int);
            if ints.len() == 0 && frac.len() == 0 {
                None
            } else {
                let whole = if ints.len() == 0 {
                    Some(0u64)
                } else {
                    spec_digits_value(ints)
                };
                match whole {
                    None => None,
                    Some(iv) => {
                        let trimmed = spec_trim_zeros(frac);
                        if trimmed.len() == 0 {
                            Some(spec_make_decimal(neg, iv, 0))
                        } else if trimmed.len() > MAX_SCALE {
                            None
                        } else {
                            match spec_digits_value(trimmed) {
                                None => None,
                                Some(fv) => {
                                    let m = iv as int * spec_pow10(trimmed.len() as int)
                                        + fv as int;
                                    if m <= u64::MAX as int {
                                        Some(
                                            spec_make_decimal(neg, m as u64, trimmed.len() as u32),
                                        )
                                    } else {
                                        None
                                    }
                                },
                            }
                        }
                    },
                }
            }
        } else {
            None
        },
    }
}

/// The value of a digit string ends in its last digit.
proof fn lemma_digits_value_mod10(s: Seq<char>)
    requires
        s.len() > 0,
        spec_digits_value(s) is Some,
    ensures
        spec_digit(s.last()) is Some,
        spec_digits_value(s)->0 as int % 10 == spec_digit(s.last())->0 as int,
{
    let d = spec_digit(s.last())->0 as int;
    if s.len() == 1 {
    } else {
        let v = spec_digits_value(s.drop_last())->0 as int;
        assert((v * 10 + d) % 10 == d) by (nonlinear_arith)
            requires
                v >= 0,
                0 <= d < 10,
        ;
    }
}

/// Parses a decimal literal.
pub fn parse_decimal(s: &str) -> (r: Option<Decimal>)
    ensures
        r == spec_parse_decimal(s@),
        r is Some ==> r->0.wf(),
{
    let len = s.unicode_len();
    let mut neg = false;
    let mut start: usize = 0;
    if len > 0 {
        let c = s.get_char(0);
        if c == '-' {
            neg = true;
            start = 1;
        } else if c == '+' {
            start = 1;
        }
    }
    let body = s.substring_char(start, len);
    proof {
        assert(body@ =~= spec_split_sign(s@).0);
        assert(neg == spec_split_sign(s@).1);
    }
    let body_len = body.unicode_len();
    match find_char_from(body, 0, '.') {
        None => {
            proof {
                assert(body@.subrange(0, body@.len() as int) =~= body@);
            }
            match digits_value(body) {
                None => None,
                Some(m) => Some(Decimal { neg: neg && m > 0, mant: m, scale: 0 }),
            }
        },
        Some(i) => {
            proof {
                assert(body@.subrange(0, body@.len() as int) =~= body@);
            }
            let ints = body.substring_char(0, i);
            let frac = body.substring_char(i + 1, body_len);
            let ghost frac_view = body@.subrange(i as int + 1, body@.len() as int);
            let frac_len = body_len - (i + 1);
            if i == 0 && frac_len == 0 {
                return None;
            }
            proof {
                assert(body@.subrange(0, i as int) == ints@);
            }
            let iv = if i == 0 {
                0u64
            } else {
                match digits_value(ints) {
                    None => {
                        return None;
                    },
                    Some(v) => v,
                }
            };
            // Length of the fraction once trailing zeros are removed.
            let mut t: usize = frac_len;
            proof {
                assert(frac@.subrange(0, frac_len as int) =~= frac@);
            }
            while t > 0 && frac.get_char(t - 1) == '0'
                invariant
                    t <= frac_len,
                    frac_len == frac@.len(),
                    frac@ == frac_view,
                    spec_trim_zeros(frac@.subrange(0, t as int)) == spec_trim_zeros(frac@),
                decreases t,
            {
                proof {
                    assert(frac@.subrange(0, t as int).last() == frac@[t - 1]);
                    assert(frac@.subrange(0, t as int).drop_last() =~= frac@.subrange(
                        0,
                        t as int - 1,
                    ));
                }
                t = t - 1;
            }
            let ghost trimmed = spec_trim_zeros(frac@);
            proof {
                if t > 0 {
                    assert(frac@.subrange(0, t as int).last() == frac@[t - 1]);
                    assert(frac@.subrange(0, t as int).last() != '0');
                }
                assert(frac@.subrange(0, t as int) == trimmed);
            }
            if t == 0 {
                return Some(Decimal { neg: neg && iv > 0, mant: iv, scale: 0 });
            }
            if t > MAX_SCALE as usize {
                return None;
            }
            let trimmed_str = frac.substring_char(0, t);
            proof {
                assert(trimmed_str@ == trimmed);
            }
            match digits_value(trimmed_str) {
                None => None,
                Some(fv) => {
                    let p = pow10(t as u32);
                    proof {
                        lemma_pow10_bounds(t as int);
                    }
                    if iv <= (u64::MAX - fv) / p {
                        proof {
                            lemma_mul_le_max(iv as int, p as int, (u64::MAX - fv) as int);
                        }
                        let m = iv * p + fv;
                        proof {
                            lemma_digits_value_mod10(trimmed);
                            assert(spec_digit(trimmed.last())->0 != 0);
                            lemma_mant_mod10(iv as int, p as int, fv as int, t as int);
                            assert(m % 10 != 0);
                        }
                        Some(Decimal { neg, mant: m, scale: t as u32 })
                    } else {
                        proof {
                            lemma_div_mul_bound(iv as int, p as int, (u64::MAX - fv) as int);
                        }
                        None
                    }
                },
            }
        },
    }
}

/// Adding a multiple of `10^t` (with `t >= 1`) does not change a
/// value's last decimal digit.
proof fn lemma_mant_mod10(iv: int, p: int, fv: int, t: int)
    requires
        t >= 1,
        p == spec_pow10(t),
        iv >= 0,
        fv >= 0,
    ensures
        (iv * p + fv) % 10 == fv % 10,
{
    lemma_pow10_bounds(t - 1);
    assert(p == 10 * spec_pow10(t - 1));
    let q = spec_pow10(t - 1);
    assert(iv * (10 * q) == (iv * q) * 10) by (nonlinear_arith);
    assert(((iv * q) * 10 + fv) % 10 == fv % 10) by (nonlinear_arith)
        requires
            iv * q >= 0,
            fv >= 0,
    ;
}

/// Zero-padded decimal digits: the low `width` digits of `n`.
pub open spec fn spec_padded_digits(n: int, width: int) -> Seq<char>
    decreases width,
{
    if width <= 1 {
        seq![spec_digit_char(n % 10)]
    } else {
        spec_padded_digits(n / 10, width - 1).push(spec_digit_char(n % 10))
    }
}

/// Renders the low `width` digits of `n`, zero padded.
pub fn padded_digits(n: u64, width: u32) -> (r: String)
    requires
        width >= 1,
    ensures
        r@ == spec_padded_digits(n as int, width as int),
    decreases width,
{
    if width == 1 {
        let mut s = String::new();
        s.append(crate::text::u64_to_string(n % 10).as_str());
        proof {
            assert(s@ =~= spec_padded_digits(n as int, 1));
        }
        s
    } else {
        let mut s = padded_digits(n / 10, width - 1);
        s.append(crate::text::u64_to_string(n % 10).as_str());
        proof {
            assert(s@ =~= spec_padded_digits(n as int, width as int));
        }
        s
    }
}

/// Canonical text of a decimal: sign, integer digits, a point, and at
/// least one fraction digit.
pub open spec fn spec_format_decimal(d: Decimal) -> Seq<char> {
    let sign = if d.neg {
        "-"@
    } else {
        Seq::<char>::empty()
    };
    let ipart = d.mant as int / spec_pow10(d.scale as int);
    let width = if d.scale == 0 {
        1int
    } else {
        d.scale as int
    };
    sign + spec_u64_str(ipart) + "."@ + spec_padded_digits(
        d.mant as int % spec_pow10(d.scale as int),
        width,
    )
}

/// Renders a decimal in its canonical text form.
pub fn format_decimal(d: &Decimal) -> (r: String)
    requires
        d.wf(),
    ensures
        r@ == spec_format_decimal(*d),
{
    let p = pow10(d.scale);
    proof {
        lemma_pow10_bounds(d.scale as int);
    }
    let mut out = if d.neg {
        String::from_str("-")
    } else {
        String::new()
    };
    out.append(u64_to_string(d.mant / p).as_str());
    out.append(".");
    let width = if d.scale == 0 {
        1u32
    } else {
        d.scale
    };
    out.append(padded_digits(d.mant % p, width).as_str());
    proof {
        assert(out@ =~= spec_format_decimal(*d));
    }
    out
}

/// One hundred times the decimal, rounded half away from zero:
/// the sign and the magnitude, or `None` when the magnitude does not
/// fit in a `u64`.
pub open spec fn spec_times100_round(d: Decimal) -> Option<(bool, u64)> {
    let mag = if d.scale <= 2 {
        d.mant as int * spec_pow10(2 - d.scale as int)
    } else {
        let p = spec_pow10(d.scale as int - 2);
        let q = d.mant as int / p;
        let r = d.mant as int % p;
        if 2 * r >= p {
            q + 1
        } else {
            q
        }
    };
    if mag <= u64::MAX as int {
        Some((d.neg && mag > 0, mag as u64))
    } else {
        None
    }
}

/// Computes one hundred times the decimal, rounded half away from zero.
pub fn times100_round(d: &Decimal) -> (r: Option<(bool, u64)>)
    requires
        d.wf(),
    ensures
        r == spec_times100_round(*d),
{
    if d.scale <= 2 {
        let p = pow10(2 - d.scale);
        proof {
            lemma_pow10_bounds(2 - d.scale as int);
        }
        if d.mant <= u64::MAX / p {
            proof {
                lemma_mul_le_max(d.mant as int, p as int, u64::MAX as int);
            }
            let mag = d.mant * p;
            Some((d.neg && mag > 0, mag))
        } else {
            proof {
                lemma_div_mul_bound(d.mant as int, p as int, u64::MAX as int);
            }
            None
        }
    } else {
        let p = pow10(d.scale - 2);
        proof {
            lemma_pow10_bounds(d.scale as int - 2);
        }
        let q = d.mant / p;
        let r = d.mant % p;
        proof {
            assert(p >= 10);
            vstd::arithmetic::div_mod::lemma_div_is_ordered_by_denominator(
                d.mant as int,
                10,
                p as int,
            );
            vstd::arithmetic::div_mod::lemma_div_is_ordered(
                d.mant as int,
                u64::MAX as int,
                10,
            );
            assert(q <= u64::MAX / 10);
            lemma_pow10_mono(d.scale as int - 2, 7);
            assert(spec_pow10(7) == 10000000) by {
                reveal_with_fuel(spec_pow10, 9);
            }
        }
        let mag = if 2 * r >= p {
            q + 1
        } else {
            q
        };
        Some((d.neg && mag > 0, mag))
    }
}

/// If `a <= max / p` (integer division) then `a * p <= max`.
proof fn lemma_mul_le_max(a: int, p: int, max: int)
    requires
        p >= 1,
        0 <= a,
        a <= max / p,
        max >= 0,
    ensures
        a * p <= max,
{
    assert(a * p <= (max / p) * p) by (nonlinear_arith)
        requires
            p >= 1,
            0 <= a,
            a <= max / p,
    ;
    assert((max / p) * p <= max) by (nonlinear_arith)
        requires
            p >= 1,
            max >= 0,
    ;
}

/// If `a > max / p` (integer division) then `a * p > max`.
proof fn lemma_div_mul_bound(a: int, p: int, max: int)
    requires
        p >= 1,
        a >= 0,
        max >= 0,
        a > max / p,
    ensures
        a * p > max,
{
    assert(a >= max / p + 1);
    assert((max / p + 1) * p == (max / p) * p + p) by (nonlinear_arith);
    assert((max / p) * p + p > max) by (nonlinear_arith)
        requires
            p >= 1,
            max >= 0,
    ;
    assert(a * p >= (max / p + 1) * p) by (nonlinear_arith)
        requires
            a >= max / p + 1,
            p >= 1,
    ;
}

} // verus!

verus! {

/// Every character of a zero-padded digit run is a digit, the run is
/// as wide as asked, it ends in the number's last digit, and it reads
/// back as the number's low digits.
proof fn lemma_padded_digits_value(n: int, w: int)
    requires
        0 <= n,
        1 <= w <= 9,
    ensures
        spec_padded_digits(n, w).len() == w,
        forall|i: int| 0 <= i < w ==> crate::text::spec_digit(
            #[trigger] spec_padded_digits(n, w)[i],
        ) is Some,
        spec_padded_digits(n, w).last() == crate::text::spec_digit_char(n % 10),
        spec_digits_value(spec_padded_digits(n, w)) == Some((n % spec_pow10(w)) as u64),
    decreases w,
{
    crate::text::lemma_digit_char_value(n % 10);
    lemma_pow10_bounds(w);
    lemma_pow10_mono(w, 9);
    assert(spec_pow10(9) == 1000000000) by {
        reveal_with_fuel(spec_pow10, 11);
    }
    if w == 1 {
        let s = spec_padded_digits(n, 1);
        assert(s =~= seq![crate::text::spec_digit_char(n % 10)]);
        assert(s.last() == crate::text::spec_digit_char(n % 10));
        assert(spec_pow10(1) == 10) by {
            reveal_with_fuel(spec_pow10, 3);
        }
    } else {
        lemma_padded_digits_value(n / 10, w - 1);
        let p = spec_padded_digits(n / 10, w - 1);
        let s = spec_padded_digits(n, w);
        assert(s == p.push(crate::text::spec_digit_char(n % 10)));
        assert(s.drop_last() =~= p);
        assert(s.last() == crate::text::spec_digit_char(n % 10));
        assert forall|i: int| 0 <= i < w implies crate::text::spec_digit(
            #[trigger] s[i],
        ) is Some by {
            if i < p.len() {
                assert(s[i] == p[i]);
            }
        }
        let big = spec_pow10(w - 1);
        let v = (n / 10) % big;
        assert(0 <= v < big) by {
            lemma_pow10_bounds(w - 1);
        }
        // The value of the padded run: v * 10 + n % 10 is n's remainder
        // modulo 10^w.
        let q = (n / 10) / big;
        vstd::arithmetic::div_mod::lemma_fundamental_div_mod(n, 10);
        vstd::arithmetic::div_mod::lemma_fundamental_div_mod(n / 10, big);
        assert(n == 10 * (big * q + v) + n % 10);
        assert(10 * (big * q + v) == (10 * big) * q + 10 * v) by (nonlinear_arith);
        assert(n == q * (10 * big) + (10 * v + n % 10)) by (nonlinear_arith)
            requires
                n == (10 * big) * q + 10 * v + n % 10,
        ;
        assert(0 <= 10 * v + n % 10 < 10 * big) by (nonlinear_arith)
            requires
                0 <= v < big,
                0 <= n % 10 < 10,
        ;
        vstd::arithmetic::div_mod::lemma_fundamental_div_mod_converse_mod(
            n,
            10 * big,
            q,
            10 * v + n % 10,
        );
        assert(spec_pow10(w) == 10 * big);
        assert(n % spec_pow10(w) == 10 * v + n % 10);
        assert(spec_digits_value(s) == Some((10 * v + n % 10) as u64));
    }
}

/// The printer-parser round trip: a canonical decimal's text reads
/// back as exactly that decimal.
pub proof fn lemma_decimal_round_trip(d: Decimal)
    requires
        d.wf(),
    ensures
        spec_parse_decimal(spec_format_decimal(d)) == Some(d),
{
    lemma_pow10_bounds(d.scale as int);
    let p = spec_pow10(d.scale as int);
    let ipart = d.mant as int / p;
    let fpart = d.mant as int % p;
    let width = if d.scale == 0 {
        1int
    } else {
        d.scale as int
    };
    let istr = crate::text::spec_u64_str(ipart);
    let fstr = spec_padded_digits(fpart, width);
    let body = istr + "."@ + fstr;
    let text = spec_format_decimal(d);
    vstd::arithmetic::div_mod::lemma_fundamental_div_mod(d.mant as int, p);
    assert(0 <= ipart <= u64::MAX) by {
        vstd::arithmetic::div_mod::lemma_div_is_ordered_by_denominator(d.mant as int, 1, p);
    }
    crate::text::lemma_u64_str_value(ipart);
    lemma_padded_digits_value(fpart, width);
    reveal_strlit("-");
    reveal_strlit(".");
    assert("."@ =~= seq!['.']);
    assert(body =~= istr + seq!['.'] + fstr);
    crate::text::lemma_first_point_after_digits(istr, fstr);
    // The optional sign splits off exactly the body.
    assert(crate::text::spec_split_sign(text) == (body, d.neg)) by {
        if d.neg {
            assert(text =~= seq!['-'] + body);
            assert(text[0] == '-');
            assert(text.drop_first() =~= body);
        } else {
            assert(text =~= body);
            assert(text[0] == istr[0]);
            assert(crate::text::spec_digit(istr[0]) is Some);
            assert(text[0] != '-' && text[0] != '+') by {
                assert(crate::text::spec_digit('-') is None);
                assert(crate::text::spec_digit('+') is None);
            }
        }
    }
    let k = istr.len() as int;
    assert(body.subrange(0, k) =~= istr);
    assert(body.subrange(k + 1, body.len() as int) =~= fstr);
    assert(fstr.len() == width >= 1);
    if d.scale == 0 {
        assert(p == 1);
        assert(fpart == 0);
        assert(fstr =~= seq![crate::text::spec_digit_char(0)]);
        assert(crate::text::spec_digit_char(0) == '0') by {
            crate::text::lemma_digit_char_value(0);
            reveal_strlit("0");
            assert("0"@[0] as u32 == 48);
            vstd::utf8::char_u32_cast("0"@[0], 48);
            vstd::utf8::char_u32_cast(crate::text::spec_digit_char(0), 48);
        }
        assert(spec_trim_zeros(fstr) =~= Seq::<char>::empty()) by {
            assert(fstr.last() == '0');
            assert(spec_trim_zeros(fstr) == spec_trim_zeros(fstr.drop_last()));
            assert(fstr.drop_last() =~= Seq::<char>::empty());
            assert(spec_trim_zeros(Seq::<char>::empty()) =~= Seq::<char>::empty());
        }
        assert(ipart == d.mant);
        assert(spec_parse_decimal(text) == Some(spec_make_decimal(d.neg, d.mant, 0)));
        assert(spec_make_decimal(d.neg, d.mant, 0) == d);
    } else {
        assert(d.mant % 10 != 0);
        // The padded fraction ends in the mantissa's last digit, which
        // is not zero, so nothing is trimmed.
        let big = spec_pow10(d.scale as int - 1);
        lemma_pow10_bounds(d.scale as int - 1);
        assert(p == 10 * big);
        assert(fpart % 10 == d.mant as int % 10) by {
            let q = d.mant as int / p;
            assert(d.mant as int == q * (10 * big) + fpart);
            assert(q * (10 * big) == (q * big) * 10) by (nonlinear_arith);
            vstd::arithmetic::div_mod::lemma_fundamental_div_mod(fpart, 10);
            assert(d.mant as int == ((q * big) + fpart / 10) * 10 + fpart % 10) by (nonlinear_arith)
                requires
                    d.mant as int == (q * big) * 10 + fpart,
                    fpart == (fpart / 10) * 10 + fpart % 10,
            ;
            vstd::arithmetic::div_mod::lemma_fundamental_div_mod_converse_mod(
                d.mant as int,
                10,
                (q * big) + fpart / 10,
                fpart % 10,
            );
        }
        assert(fstr.last() == crate::text::spec_digit_char(fpart % 10));
        assert(fstr.last() != '0') by {
            crate::text::lemma_digit_char_value(fpart % 10);
            crate::text::lemma_digit_char_value(0);
            reveal_strlit("0");
            assert("0"@[0] as u32 == 48);
            vstd::utf8::char_u32_cast("0"@[0], 48);
            if fstr.last() == '0' {
                assert(fstr.last() as u32 == 48);
            }
        }
        assert(spec_trim_zeros(fstr) == fstr);
        assert(spec_digits_value(fstr) == Some((fpart % p) as u64));
        vstd::arithmetic::div_mod::lemma_small_mod(fpart as nat, p as nat);
        assert(fpart % p == fpart);
        assert(ipart * p + fpart == d.mant);
        assert(spec_parse_decimal(text) == Some(
            spec_make_decimal(d.neg, d.mant, d.scale),
        ));
        assert(spec_make_decimal(d.neg, d.mant, d.scale) == d);
    }
}

} // verus!
