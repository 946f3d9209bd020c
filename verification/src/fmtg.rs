//! The digit-level half of C's `printf("%.14g", x)`: given the rounded
//! scientific form `d.ddddddddddddde±N` of a number (14 significant digits),
//! choose between exponent and fixed notation as `%g` does, drop trailing
//! zeros and a bare trailing point, and pad the exponent to two digits.
use vstd::prelude::*;

use crate::ops::{decimal, itoa, push_bytes};

verus! {

/// Significant digits of `%.14g`.
pub const P: i64 = 14;

// ---------------------------------------------------------------------
// Splitting the scientific form
// ---------------------------------------------------------------------

/// The position of the first `e` in `s`, if any.
pub open spec fn first_e(s: Seq<u8>) -> Option<int>
    decreases s.len(),
{
    if s.len() == 0 {
        None
    } else if s[0] == 101 {
        Some(0)
    } else {
        match first_e(s.drop_first()) {
            Some(k) => Some(k + 1),
            None => None,
        }
    }
}

/// `s` without its `.` bytes.
pub open spec fn without_dots(s: Seq<u8>) -> Seq<u8>
    decreases s.len(),
{
    if s.len() == 0 {
        Seq::empty()
    } else if s.last() == 46 {
        without_dots(s.drop_last())
    } else {
        without_dots(s.drop_last()).push(s.last())
    }
}

proof fn lemma_first_e_at(s: Seq<u8>, i: int)
    requires
        0 <= i <= s.len(),
        forall|k: int| 0 <= k < i ==> s[k] != 101,
    ensures
        i < s.len() && s[i] == 101 ==> first_e(s) == Some(i),
        i == s.len() ==> first_e(s) is None,
    decreases i,
{
    if i > 0 {
        let t = s.drop_first();
        assert forall|k: int| 0 <= k < i - 1 implies t[k] != 101 by {
            assert(t[k] == s[k + 1]);
        }
        if i < s.len() {
            assert(t[i - 1] == s[i]);
        }
        lemma_first_e_at(t, i - 1);
    }
}

/// The digits before the first `e` of `s` (without the point) and the text
/// after it; `None` when `s` has no `e`.
pub fn split_e(s: &[u8]) -> (r: Option<(Vec<u8>, Vec<u8>)>)
    ensures
        match first_e(s@) {
            None => r is None,
            Some(p) => r matches Some((digits, exp)) && digits@ == without_dots(s@.take(p))
                && exp@ == s@.skip(p + 1),
        },
{
    let n = s.len();
    let mut epos: usize = 0;
    while epos < n && s[epos] != 101
        invariant
            n == s@.len(),
            epos <= n,
            forall|k: int| 0 <= k < epos ==> s@[k] != 101,
        decreases n - epos,
    {
        epos = epos + 1;
    }
    proof {
        lemma_first_e_at(s@, epos as int);
    }
    if epos == n {
        return None;
    }
    let exp = vstd::slice::slice_to_vec(&s[epos + 1..n]);
    let mut digits: Vec<u8> = Vec::new();
    let mut i: usize = 0;
    proof {
        assert(s@.take(0) =~= Seq::<u8>::empty());
    }
    while i < epos
        invariant
            n == s@.len(),
            epos < n,
            i <= epos,
            digits@ == without_dots(s@.take(i as int)),
        decreases epos - i,
    {
        let b = s[i];
        if b != 46 {
            digits.push(b);
        }
        proof {
            let t = s@.take(i + 1);
            assert(t.drop_last() =~= s@.take(i as int));
            assert(t.last() == b);
        }
        i = i + 1;
    }
    proof {
        assert(exp@ =~= s@.skip(epos + 1));
    }
    Some((digits, exp))
}

// ---------------------------------------------------------------------
// The exponent
// ---------------------------------------------------------------------

/// An ASCII decimal digit.
pub open spec fn is_digit_byte(b: u8) -> bool {
    48 <= b <= 57
}

/// Every byte of `d` is a decimal digit.
pub open spec fn all_digit_bytes(d: Seq<u8>) -> bool {
    forall|k: int| 0 <= k < d.len() ==> is_digit_byte(#[trigger] d[k])
}

/// The value of a string of decimal digits.
pub open spec fn digit_bytes_value(d: Seq<u8>) -> nat
    decreases d.len(),
{
    if d.len() == 0 {
        0
    } else {
        digit_bytes_value(d.drop_last()) * 10 + (d.last() - 48) as nat
    }
}

/// `s` without one leading sign.
pub open spec fn signed_digits(s: Seq<u8>) -> Seq<u8> {
    if s.len() > 0 && (s[0] == 45 || s[0] == 43) {
        s.drop_first()
    } else {
        s
    }
}

/// What `i32::from_str` gives: an optional sign, then one or more decimal
/// digits whose signed value fits in an `i32`.
pub open spec fn parse_i32_spec(s: Seq<u8>) -> Option<int> {
    let neg = s.len() > 0 && s[0] == 45;
    let d = signed_digits(s);
    if d.len() == 0 || !all_digit_bytes(d) {
        None
    } else if neg {
        if digit_bytes_value(d) <= 0x8000_0000 {
            Some(-digit_bytes_value(d))
        } else {
            None
        }
    } else if digit_bytes_value(d) <= 0x7fff_ffff {
        Some(digit_bytes_value(d) as int)
    } else {
        None
    }
}

proof fn lemma_digit_bytes_value_grows(d: Seq<u8>, i: int)
    requires
        0 <= i <= d.len(),
        all_digit_bytes(d),
    ensures
        digit_bytes_value(d.take(i)) <= digit_bytes_value(d),
    decreases d.len() - i,
{
    if i < d.len() {
        let t = d.take(i + 1);
        assert(t.drop_last() =~= d.take(i));
        assert(t.last() == d[i]);
        lemma_digit_bytes_value_grows(d, i + 1);
    } else {
        assert(d.take(i) =~= d);
    }
}

/// The exponent `s` spells, as `i32::from_str` reads it.
pub fn parse_exponent(s: &[u8]) -> (r: Option<i32>)
    ensures
        match parse_i32_spec(s@) {
            Some(v) => r == Some(v as i32),
            None => r is None,
        },
{
    let n = s.len();
    let neg = n > 0 && s[0] == 45;
    let start: usize = if n > 0 && (s[0] == 45 || s[0] == 43) {
        1
    } else {
        0
    };
    let ghost d = s@.skip(start as int);
    proof {
        if start == 1 {
            assert(d =~= s@.drop_first());
        } else {
            assert(d =~= s@);
        }
    }
    if start == n {
        return None;
    }
    let mut value: u64 = 0;
    let mut i: usize = start;
    proof {
        assert(d.take(0) =~= Seq::<u8>::empty());
    }
    while i < n
        invariant
            n == s@.len(),
            start < n,
            start <= i <= n,
            d == s@.skip(start as int),
            d == signed_digits(s@),
            forall|k: int| 0 <= k < i - start ==> is_digit_byte(#[trigger] d[k]),
            value == digit_bytes_value(d.take(i - start)),
            value <= 0x8000_0000,
        decreases n - i,
    {
        let b = s[i];
        proof {
            assert(d[i - start] == b);
        }
        if !(48 <= b && b <= 57) {
            proof {
                assert(!all_digit_bytes(d));
            }
            return None;
        }
        proof {
            let t = d.take(i - start + 1);
            assert(t.drop_last() =~= d.take(i - start));
            assert(t.last() == b);
        }
        value = value * 10 + (b - 48) as u64;
        if value > 0x8000_0000 {
            proof {
                if all_digit_bytes(d) {
                    lemma_digit_bytes_value_grows(d, i - start + 1);
                }
            }
            return None;
        }
        i = i + 1;
    }
    proof {
        assert(d.take(n - start) =~= d);
    }
    if neg {
        if value == 0x8000_0000 {
            Some(i32::MIN)
        } else {
            Some(-(value as i32))
        }
    } else if value <= 0x7fff_ffff {
        Some(value as i32)
    } else {
        None
    }
}

// ---------------------------------------------------------------------
// Exponent and fixed notation
// ---------------------------------------------------------------------

/// `d` without trailing zeros, keeping at least one digit.
pub open spec fn trim_zeros_spec(d: Seq<u8>) -> Seq<u8>
    decreases d.len(),
{
    if d.len() > 1 && d.last() == 48 {
        trim_zeros_spec(d.drop_last())
    } else {
        d
    }
}

/// Drop trailing zeros from `digits`, keeping at least one digit.
pub fn trim_zeros(digits: &mut Vec<u8>)
    ensures
        final(digits)@ == trim_zeros_spec(old(digits)@),
{
    while digits.len() > 1 && digits[digits.len() - 1] == 48
        invariant
            trim_zeros_spec(digits@) == trim_zeros_spec(old(digits)@),
        decreases digits@.len(),
    {
        digits.pop();
    }
}

/// `n` zero digits.
pub open spec fn zeros(n: nat) -> Seq<u8> {
    Seq::new(n, |_i: int| 48u8)
}

/// The exponent digits `printf` writes: at least two.
pub open spec fn exp_digits(e: nat) -> Seq<u8> {
    if e < 10 {
        seq![48u8, (48 + e) as u8]
    } else {
        decimal(e)
    }
}

/// Exponent notation: the first digit, a point and the other digits when
/// there are any (trailing zeros dropped), then `e`, the sign and the
/// exponent.
pub open spec fn emit_e_spec(m: Seq<u8>, exp: int) -> Seq<u8> {
    let d = trim_zeros_spec(m);
    let head = if d.len() > 1 {
        seq![d[0], 46u8] + d.skip(1)
    } else {
        seq![d[0]]
    };
    head + seq![101u8, if exp < 0 {
        45u8
    } else {
        43u8
    }] + exp_digits(if exp < 0 {
        (-exp) as nat
    } else {
        exp as nat
    })
}

/// Fixed notation for digits `m` whose decimal point sits after digit
/// `exp + 1` (before the first when that is not positive).
pub open spec fn emit_f_spec(m: Seq<u8>, exp: int) -> Seq<u8> {
    let point = exp + 1;
    if point <= 0 {
        seq![48u8, 46u8] + trim_zeros_spec(zeros((-point) as nat) + m)
    } else if point >= m.len() {
        m + zeros((point - m.len()) as nat)
    } else {
        let frac = trim_zeros_spec(m.skip(point));
        if frac == seq![48u8] {
            m.take(point)
        } else {
            m.take(point) + seq![46u8] + frac
        }
    }
}

/// Append `n` zero digits to `out`.
fn push_zeros(out: &mut Vec<u8>, n: usize)
    ensures
        final(out)@ == old(out)@ + zeros(n as nat),
{
    let mut i: usize = 0;
    while i < n
        invariant
            i <= n,
            out@ == old(out)@ + zeros(i as nat),
        decreases n - i,
    {
        out.push(48);
        i = i + 1;
        proof {
            assert(zeros(i as nat) =~= zeros((i - 1) as nat).push(48));
        }
    }
}

/// Append `mantissa` in exponent notation with exponent `exp` to `out`.
pub fn emit_e(mantissa: &[u8], exp: i32, out: &mut Vec<u8>)
    requires
        mantissa@.len() > 0,
    ensures
        final(out)@ == old(out)@ + emit_e_spec(mantissa@, exp as int),
{
    let mut d = vstd::slice::slice_to_vec(mantissa);
    trim_zeros(&mut d);
    proof {
        lemma_trim_zeros_len(mantissa@);
    }
    let ghost start = out@;
    out.push(d[0]);
    if d.len() > 1 {
        out.push(46);
        push_bytes(out, &d.as_slice()[1..d.len()]);
    }
    out.push(101);
    out.push(if exp < 0 {
        45
    } else {
        43
    });
    let e: u32 = if exp < 0 {
        if exp == i32::MIN {
            0x8000_0000
        } else {
            (-exp) as u32
        }
    } else {
        exp as u32
    };
    if e < 10 {
        out.push(48);
        out.push(48 + e as u8);
    } else {
        let digits = itoa(e as u64);
        push_bytes(out, digits.as_slice());
    }
    proof {
        let dd = trim_zeros_spec(mantissa@);
        if dd.len() > 1 {
            assert(d@.subrange(1, d@.len() as int) =~= dd.skip(1));
        }
        assert(out@ =~= start + emit_e_spec(mantissa@, exp as int));
    }
}

/// Trimming zeros leaves at least one digit when there was one.
proof fn lemma_trim_zeros_len(d: Seq<u8>)
    ensures
        d.len() > 0 ==> trim_zeros_spec(d).len() > 0,
        trim_zeros_spec(d).len() <= d.len(),
    decreases d.len(),
{
    if d.len() > 1 && d.last() == 48 {
        lemma_trim_zeros_len(d.drop_last());
    }
}

/// Append `mantissa` in fixed notation, its decimal point after digit
/// `exp + 1`, to `out`.
pub fn emit_f(mantissa: &[u8], exp: i32, out: &mut Vec<u8>)
    requires
        exp < i32::MAX,
    ensures
        final(out)@ == old(out)@ + emit_f_spec(mantissa@, exp as int),
{
    let d = mantissa;
    let point: i64 = exp as i64 + 1;
    let ghost start = out@;
    if point <= 0 {
        let lead = (-point) as usize;
        let mut frac: Vec<u8> = Vec::new();
        push_zeros(&mut frac, lead);
        push_bytes(&mut frac, d);
        let ghost before_trim = frac@;
        trim_zeros(&mut frac);
        out.push(48);
        out.push(46);
        push_bytes(out, frac.as_slice());
        proof {
            assert(before_trim =~= zeros((-point) as nat) + mantissa@);
            assert(out@ =~= start + emit_f_spec(mantissa@, exp as int));
        }
    } else {
        let point = point as usize;
        if point >= d.len() {
            push_bytes(out, d);
            push_zeros(out, point - d.len());
            proof {
                assert(out@ =~= start + emit_f_spec(mantissa@, exp as int));
            }
        } else {
            push_bytes(out, &d[0..point]);
            let mut frac = vstd::slice::slice_to_vec(&d[point..d.len()]);
            let ghost before_trim = frac@;
            trim_zeros(&mut frac);
            let lone_zero = frac.len() == 1 && frac[0] == 48;
            proof {
                assert(before_trim =~= mantissa@.skip(point as int));
                assert(lone_zero == (frac@ =~= seq![48u8]));
            }
            if !lone_zero {
                out.push(46);
                push_bytes(out, frac.as_slice());
            }
            proof {
                assert(mantissa@.subrange(0, point as int) =~= mantissa@.take(point as int));
                assert(out@ =~= start + emit_f_spec(mantissa@, exp as int));
            }
        }
    }
}

/// The `%.14g` text for the scientific form `sci` of a positive number:
/// exponent notation when the exponent is below -4 or at least 14, fixed
/// notation otherwise. `None` when `sci` has no `e` followed by an `i32`, or
/// (in exponent notation) no digits before the `e`.
pub open spec fn g_spec(sci: Seq<u8>) -> Option<Seq<u8>> {
    match first_e(sci) {
        None => None,
        Some(p) => match parse_i32_spec(sci.skip(p + 1)) {
            None => None,
            Some(exp) => {
                let m = without_dots(sci.take(p));
                if exp < -4 || exp >= P {
                    if m.len() == 0 {
                        None
                    } else {
                        Some(emit_e_spec(m, exp))
                    }
                } else {
                    Some(emit_f_spec(m, exp))
                }
            },
        },
    }
}

/// Append the `%.14g` text for the scientific form `sci` to `out`; `false`
/// (and `out` unchanged) when `sci` is not such a form.
pub fn write_g_sci(sci: &[u8], out: &mut Vec<u8>) -> (ok: bool)
    ensures
        match g_spec(sci@) {
            Some(t) => ok && final(out)@ == old(out)@ + t,
            None => !ok && final(out)@ == old(out)@,
        },
{
    let (mantissa, exp_text) = match split_e(sci) {
        Some(parts) => parts,
        None => return false,
    };
    let exp = match parse_exponent(exp_text.as_slice()) {
        Some(e) => e,
        None => return false,
    };
    if (exp as i64) < -4 || (exp as i64) >= P {
        if mantissa.len() == 0 {
            return false;
        }
        emit_e(mantissa.as_slice(), exp, out);
    } else {
        emit_f(mantissa.as_slice(), exp, out);
    }
    true
}

} // verus!
