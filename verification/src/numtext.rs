//! The `%.14g` text read back: fixed and exponent notation give the number
//! their digits and exponent stand for, in the shortest such text.
use vstd::prelude::*;

use crate::fmtg::{
    all_digit_bytes, digit_bytes_value, emit_e_spec, emit_f_spec, exp_digits, first_e, g_spec,
    is_digit_byte, parse_i32_spec, signed_digits, trim_zeros_spec, without_dots, zeros,
};
use crate::config::{
    all_digits, digits_value, field_number_ok, is_digit, pair_ok, parse_usize_spec, trim, trim_end,
    trim_start, unsigned_digits,
};
use crate::ops::decimal;
use crate::text::{lemma_split_on_last, lemma_split_on_none, split_on};
use crate::CrosstabError;

verus! {

/// Where the decimal point of `t` is: its index, or the length of `t` when
/// it has none.
pub open spec fn point_at(t: Seq<u8>) -> int
    decreases t.len(),
{
    if t.len() == 0 {
        0
    } else if t[0] == 46 {
        0
    } else {
        point_at(t.drop_first()) + 1
    }
}

/// Digit `k` of `a`, a zero before or after its digits.
pub open spec fn digit_at(a: Seq<u8>, k: int) -> u8 {
    if 0 <= k < a.len() {
        a[k]
    } else {
        48
    }
}

/// `t` is a decimal text: digits and at most one point.
pub open spec fn decimal_text(t: Seq<u8>) -> bool {
    forall|k: int| 0 <= k < t.len() ==> (#[trigger] t[k] == 46 ==> k == point_at(t)) && (t[k] != 46
        ==> is_digit_byte(t[k]))
}

/// `t` reads as the number with digits `m` and decimal exponent `e` (the
/// value `m[0].m[1]m[2]... * 10^e`): counting digits from the point of `t`,
/// they are the digits of `m` counted from after digit `e + 1`, zeros
/// where either runs out.
pub open spec fn reads_as(t: Seq<u8>, m: Seq<u8>, e: int) -> bool {
    forall|k: int|
        #![trigger digit_at(without_dots(t), k)]
        0 <= k ==> digit_at(without_dots(t), k) == digit_at(m, k - (point_at(t) - (e + 1)))
}

proof fn lemma_point_at_none(a: Seq<u8>)
    requires
        forall|k: int| 0 <= k < a.len() ==> a[k] != 46,
    ensures
        point_at(a) == a.len(),
    decreases a.len(),
{
    if a.len() > 0 {
        assert forall|k: int| 0 <= k < a.drop_first().len() implies a.drop_first()[k] != 46 by {
            assert(a.drop_first()[k] == a[k + 1]);
        }
        lemma_point_at_none(a.drop_first());
    }
}

proof fn lemma_point_at_first(a: Seq<u8>, b: Seq<u8>)
    requires
        forall|k: int| 0 <= k < a.len() ==> a[k] != 46,
    ensures
        point_at(a + seq![46u8] + b) == a.len(),
    decreases a.len(),
{
    let s = a + seq![46u8] + b;
    if a.len() > 0 {
        assert forall|k: int| 0 <= k < a.drop_first().len() implies a.drop_first()[k] != 46 by {
            assert(a.drop_first()[k] == a[k + 1]);
        }
        lemma_point_at_first(a.drop_first(), b);
        assert(s.drop_first() =~= a.drop_first() + seq![46u8] + b);
    }
}

proof fn lemma_without_dots_none(a: Seq<u8>)
    requires
        forall|k: int| 0 <= k < a.len() ==> a[k] != 46,
    ensures
        without_dots(a) == a,
    decreases a.len(),
{
    if a.len() > 0 {
        lemma_without_dots_none(a.drop_last());
        assert(a.drop_last().push(a.last()) =~= a);
    }
}

proof fn lemma_without_dots_append(a: Seq<u8>, b: Seq<u8>)
    requires
        forall|k: int| 0 <= k < b.len() ==> b[k] != 46,
    ensures
        without_dots(a + b) == without_dots(a) + b,
    decreases b.len(),
{
    if b.len() > 0 {
        lemma_without_dots_append(a, b.drop_last());
        assert((a + b).drop_last() =~= a + b.drop_last());
        assert((without_dots(a) + b.drop_last()).push(b.last()) =~= without_dots(a) + b);
    } else {
        assert(a + b =~= a);
        assert(without_dots(a) + b =~= without_dots(a));
    }
}

/// Trimming drops only trailing zeros, keeps at least one digit, and ends
/// with a non-zero digit unless one zero is left.
proof fn lemma_trim(d: Seq<u8>)
    requires
        d.len() > 0,
    ensures
        ({
            let n = trim_zeros_spec(d).len();
            &&& 1 <= n <= d.len()
            &&& trim_zeros_spec(d) == d.take(n as int)
            &&& forall|k: int| n <= k < d.len() ==> d[k] == 48
            &&& n > 1 ==> d[n - 1] != 48
            &&& n == 1 && d[0] == 48 ==> forall|k: int| 0 <= k < d.len() ==> d[k] == 48
        }),
    decreases d.len(),
{
    if d.len() > 1 && d.last() == 48 {
        lemma_trim(d.drop_last());
        let n = trim_zeros_spec(d).len();
        assert(d.drop_last().take(n as int) =~= d.take(n as int));
        assert forall|k: int| n <= k < d.len() implies d[k] == 48 by {
            if k < d.len() - 1 {
                assert(d[k] == d.drop_last()[k]);
            }
        }
        if n == 1 && d[0] == 48 {
            assert forall|k: int| 0 <= k < d.len() implies d[k] == 48 by {
                if k < d.len() - 1 {
                    assert(d[k] == d.drop_last()[k]);
                }
            }
        }
    } else {
        assert(d.take(d.len() as int) =~= d);
    }
}

/// The fixed notation of a positive number, with significant digits `m`
/// (the first not zero) and decimal exponent `e`, reads back as that
/// number: its point sits after `e + 1` digits (after a lone `0` when `e` is
/// negative), the digits around the point are those of the number, and the
/// text is the shortest such: no point without digits after it, no zero
/// ending the digits after the point.
pub proof fn law_fixed_reads_back(m: Seq<u8>, e: int)
    requires
        m.len() > 0,
        all_digit_bytes(m),
        m[0] != 48,
    ensures
        ({
            let t = emit_f_spec(m, e);
            &&& point_at(t) == if e >= 0 {
                e + 1
            } else {
                1
            }
            &&& reads_as(t, m, e)
            &&& decimal_text(t)
            &&& point_at(t) < t.len() ==> t.last() != 48 && t.last() != 46
        }),
{
    let t = emit_f_spec(m, e);
    let point = e + 1;
    assert forall|k: int| 0 <= k < m.len() implies m[k] != 46 by {
        assert(is_digit_byte(m[k]));
    }
    if point <= 0 {
        let z = zeros((-point) as nat) + m;
        let tr = trim_zeros_spec(z);
        lemma_trim(z);
        let n = tr.len();
        assert forall|k: int| 0 <= k < z.len() implies is_digit_byte(#[trigger] z[k]) by {
            if k >= -point {
                assert(z[k] == m[k + point]);
            }
        }
        assert forall|k: int| 0 <= k < tr.len() implies tr[k] != 46 && is_digit_byte(#[trigger] tr[k]) by {
            assert(tr[k] == z[k]);
        }
        assert(z[-point] == m[0]);
        assert(n > -point) by {
            if n <= -point {
                assert(z[-point] == 48);
            }
        }
        assert(t == seq![48u8] + seq![46u8] + tr);
        lemma_point_at_first(seq![48u8], tr);
        lemma_without_dots_append(seq![48u8, 46u8], tr);
        assert(without_dots(seq![48u8, 46u8]) =~= seq![48u8]) by {
            assert(seq![48u8, 46u8].drop_last() =~= seq![48u8]);
            lemma_without_dots_none(seq![48u8]);
        }
        let wd = without_dots(t);
        assert(wd == seq![48u8] + tr);
        assert forall|k: int| 0 <= k implies digit_at(without_dots(t), k) == digit_at(
            m,
            k - (point_at(t) - (e + 1)),
        ) by {
            if k >= 1 && k - 1 < n {
                assert(wd[k] == tr[k - 1]);
                assert(tr[k - 1] == z[k - 1]);
            }
            if k >= 1 && k - 1 >= n && k - 1 < z.len() {
                assert(z[k - 1] == 48);
            }
            if k >= 1 && k - 1 >= -point && k - 1 < z.len() {
                assert(z[k - 1] == m[k - 1 + point]);
            }
        }
        assert forall|k: int| 0 <= k < t.len() implies (#[trigger] t[k] == 46 ==> k == point_at(t))
            && (t[k] != 46 ==> is_digit_byte(t[k])) by {
            if k >= 2 {
                assert(t[k] == tr[k - 2]);
            }
        }
        assert(tr[n - 1] == z[n - 1]);
        assert(t.last() == tr[n - 1]);
        assert(point_at(t) == 1);
        assert(reads_as(t, m, e));
        assert(decimal_text(t));
        assert(t.last() != 48);
    } else if point >= m.len() {
        let zs = zeros((point - m.len()) as nat);
        assert(t == m + zs);
        assert forall|k: int| 0 <= k < t.len() implies t[k] != 46 && is_digit_byte(#[trigger] t[k]) by {
            if k >= m.len() {
                assert(t[k] == zs[k - m.len()]);
            } else {
                assert(t[k] == m[k]);
            }
        }
        lemma_point_at_none(t);
        lemma_without_dots_none(t);
        assert forall|k: int| 0 <= k implies digit_at(without_dots(t), k) == digit_at(
            m,
            k - (point_at(t) - (e + 1)),
        ) by {
            if k < t.len() && k >= m.len() {
                assert(t[k] == zs[k - m.len()]);
            }
        }
        assert(point_at(t) == e + 1);
        assert(reads_as(t, m, e));
        assert(decimal_text(t));
    } else {
        let sk = m.skip(point);
        let frac = trim_zeros_spec(sk);
        lemma_trim(sk);
        let n = frac.len();
        let head = m.take(point);
        assert forall|k: int| 0 <= k < head.len() implies head[k] != 46 && is_digit_byte(
            #[trigger] head[k],
        ) by {
            assert(head[k] == m[k]);
        }
        assert forall|k: int| 0 <= k < frac.len() implies frac[k] != 46 && is_digit_byte(
            #[trigger] frac[k],
        ) by {
            assert(frac[k] == sk[k]);
            assert(sk[k] == m[k + point]);
        }
        if frac == seq![48u8] {
            assert(t == head);
            lemma_point_at_none(head);
            lemma_without_dots_none(head);
            assert forall|k: int| 0 <= k implies digit_at(without_dots(t), k) == digit_at(
                m,
                k - (point_at(t) - (e + 1)),
            ) by {
                if point <= k < m.len() {
                    assert(sk[k - point] == m[k]);
                    assert(frac[0] == 48);
                    assert(frac[0] == sk[0]);
                }
            }
            assert(point_at(t) == e + 1);
            assert(reads_as(t, m, e));
            assert(decimal_text(t));
        } else {
            assert(t == head + seq![46u8] + frac);
            lemma_point_at_first(head, frac);
            lemma_without_dots_append(head + seq![46u8], frac);
            assert(without_dots(head + seq![46u8]) == without_dots(head)) by {
                assert((head + seq![46u8]).drop_last() =~= head);
            }
            lemma_without_dots_none(head);
            let wd = without_dots(t);
            assert(wd == head + frac);
            assert forall|k: int| 0 <= k implies digit_at(without_dots(t), k) == digit_at(
                m,
                k - (point_at(t) - (e + 1)),
            ) by {
                if k < point {
                    assert(wd[k] == head[k]);
                } else if k < point + n {
                    assert(wd[k] == frac[k - point]);
                    assert(frac[k - point] == sk[k - point]);
                } else if k < m.len() {
                    assert(sk[k - point] == m[k]);
                }
            }
            assert forall|k: int| 0 <= k < t.len() implies (#[trigger] t[k] == 46 ==> k
                == point_at(t)) && (t[k] != 46 ==> is_digit_byte(t[k])) by {
                if k < point {
                    assert(t[k] == head[k]);
                } else if k > point {
                    assert(t[k] == frac[k - point - 1]);
                }
            }
            assert(t.last() == frac[n - 1]);
            if n == 1 {
                assert(frac[0] != 48) by {
                    if frac[0] == 48 {
                        assert(frac =~= seq![48u8]);
                    }
                }
            } else {
                assert(frac[n - 1] == sk[n - 1]);
            }
            assert(point_at(t) == e + 1);
            assert(reads_as(t, m, e));
            assert(decimal_text(t));
            assert(t.last() != 48);
        }
    }
}

/// The decimal text of `n` is digits that read back as `n`, with no
/// leading zero (but for `n` zero itself).
pub proof fn law_decimal_reads_back(n: nat)
    ensures
        all_digit_bytes(decimal(n)),
        digit_bytes_value(decimal(n)) == n,
        decimal(n).len() >= 1,
        n >= 1 ==> decimal(n)[0] != 48,
        n >= 10 ==> decimal(n).len() >= 2,
    decreases n,
{
    if n >= 10 {
        law_decimal_reads_back(n / 10);
        let d = decimal(n / 10);
        let r = decimal(n);
        assert(r == d.push((48 + n % 10) as u8));
        assert(r.drop_last() =~= d);
        assert forall|k: int| 0 <= k < r.len() implies is_digit_byte(#[trigger] r[k]) by {
            if k < d.len() {
                assert(r[k] == d[k]);
            }
        }
        assert((n / 10) * 10 + n % 10 == n);
        assert(r.last() == (48 + n % 10) as u8);
        assert(r.last() - 48 == n % 10);
        assert(digit_bytes_value(r) == digit_bytes_value(d) * 10 + (r.last() - 48) as nat);
        assert(r[0] == d[0]);
    } else {
        let r = decimal(n);
        assert(r.drop_last() =~= Seq::<u8>::empty());
        assert(digit_bytes_value(r.drop_last()) == 0);
        assert(r.last() - 48 == n);
    }
}

/// The first `e` of `a + b` is the first of `b`, when `a` has none.
proof fn lemma_first_e_after(a: Seq<u8>, b: Seq<u8>)
    requires
        forall|k: int| 0 <= k < a.len() ==> a[k] != 101,
        b.len() > 0,
        b[0] == 101,
    ensures
        first_e(a + b) == Some(a.len() as int),
    decreases a.len(),
{
    if a.len() > 0 {
        assert forall|k: int| 0 <= k < a.drop_first().len() implies a.drop_first()[k] != 101 by {
            assert(a.drop_first()[k] == a[k + 1]);
        }
        lemma_first_e_after(a.drop_first(), b);
        assert((a + b).drop_first() =~= a.drop_first() + b);
    } else {
        assert(a + b =~= b);
    }
}

/// The exponent notation of a positive number, with significant digits `m`
/// (the first not zero) and decimal exponent `e`, reads back as that
/// number: before the `e` comes the number scaled to one digit before the
/// point, in its shortest text; after it the sign of the exponent, then
/// at least two digits (no leading zero beyond those two) reading back as
/// its size.
pub proof fn law_exponent_reads_back(m: Seq<u8>, e: int)
    requires
        m.len() > 0,
        all_digit_bytes(m),
        m[0] != 48,
    ensures
        ({
            let t = emit_e_spec(m, e);
            let q = first_e(t)->Some_0;
            let h = t.take(q);
            let x = t.skip(q + 2);
            let size = if e < 0 {
                -e
            } else {
                e
            };
            &&& first_e(t) is Some
            &&& q + 2 <= t.len()
            &&& point_at(h) == 1
            &&& reads_as(h, m, 0)
            &&& decimal_text(h)
            &&& point_at(h) < h.len() ==> h.last() != 48 && h.last() != 46
            &&& t[q + 1] == if e < 0 {
                45u8
            } else {
                43u8
            }
            &&& all_digit_bytes(x)
            &&& digit_bytes_value(x) == size
            &&& x.len() >= 2
            &&& x.len() > 2 ==> x[0] != 48
        }),
{
    let t = emit_e_spec(m, e);
    let d = trim_zeros_spec(m);
    lemma_trim(m);
    let n = d.len();
    let size: nat = if e < 0 {
        (-e) as nat
    } else {
        e as nat
    };
    let head = if n > 1 {
        seq![d[0], 46u8] + d.skip(1)
    } else {
        seq![d[0]]
    };
    let x = exp_digits(size);
    let sign: u8 = if e < 0 {
        45u8
    } else {
        43u8
    };
    assert(t == head + (seq![101u8, sign] + x));
    assert forall|k: int| 0 <= k < d.len() implies d[k] != 46 && d[k] != 101 && is_digit_byte(
        #[trigger] d[k],
    ) by {
        assert(d[k] == m[k]);
        assert(is_digit_byte(m[k]));
    }
    assert forall|k: int| 0 <= k < head.len() implies head[k] != 101 by {
        if n > 1 && k >= 2 {
            assert(head[k] == d[k - 1]);
        }
    }
    lemma_first_e_after(head, seq![101u8, sign] + x);
    let q = head.len() as int;
    assert(t.take(q) =~= head);
    assert(t.skip(q + 2) =~= x);
    assert(t[q + 1] == sign);
    if n > 1 {
        let rest = d.skip(1);
        assert forall|k: int| 0 <= k < rest.len() implies rest[k] != 46 by {
            assert(rest[k] == d[k + 1]);
        }
        assert(head =~= seq![d[0]] + seq![46u8] + rest);
        lemma_point_at_first(seq![d[0]], rest);
        lemma_without_dots_append(seq![d[0], 46u8], rest);
        assert(without_dots(seq![d[0], 46u8]) =~= seq![d[0]]) by {
            assert(seq![d[0], 46u8].drop_last() =~= seq![d[0]]);
            lemma_without_dots_none(seq![d[0]]);
        }
        assert(without_dots(head) =~= d);
        assert forall|k: int| 0 <= k < head.len() implies (#[trigger] head[k] == 46 ==> k
            == point_at(head)) && (head[k] != 46 ==> is_digit_byte(head[k])) by {
            if k >= 2 {
                assert(head[k] == d[k - 1]);
            }
        }
        assert(head.last() == d[n - 1]);
    } else {
        lemma_point_at_none(head);
        lemma_without_dots_none(head);
        assert(head =~= d);
    }
    assert forall|k: int| 0 <= k implies digit_at(without_dots(head), k) == digit_at(
        m,
        k - (point_at(head) - (0 + 1)),
    ) by {
        if k < n {
            assert(d[k] == m[k]);
        }
    }
    law_decimal_reads_back(size);
    if size < 10 {
        assert(x =~= seq![48u8, (48 + size) as u8]);
        assert(x.drop_last() =~= seq![48u8]);
        assert(seq![48u8].drop_last() =~= Seq::<u8>::empty());
        assert(digit_bytes_value(Seq::<u8>::empty()) == 0);
        assert(seq![48u8].last() == 48);
        assert(digit_bytes_value(seq![48u8]) == 0);
        assert(x.last() == (48 + size) as u8);
        assert forall|k: int| 0 <= k < x.len() implies is_digit_byte(#[trigger] x[k]) by {}
    }
}

/// Rust's scientific form (`{:e}`) of a positive number with significant
/// digits `m` and decimal exponent `exp`: the first digit, a point and the
/// other digits when there are any, `e`, then the exponent.
pub open spec fn sci_text(m: Seq<u8>, exp: int) -> Seq<u8> {
    (if m.len() > 1 {
        seq![m[0], 46u8] + m.skip(1)
    } else {
        seq![m[0]]
    }) + seq![101u8] + (if exp < 0 {
        seq![45u8] + decimal((-exp) as nat)
    } else {
        decimal(exp as nat)
    })
}

/// From the scientific form of a positive number, `%.14g` writes fixed
/// notation when the exponent is from -4 to 13 and exponent notation
/// otherwise, of exactly the digits and exponent of that form (each of
/// which reads back as the number: `law_fixed_reads_back`,
/// `law_exponent_reads_back`).
pub proof fn law_g_notation(m: Seq<u8>, exp: int)
    requires
        m.len() > 0,
        all_digit_bytes(m),
        m[0] != 48,
        -0x8000_0000 <= exp <= 0x7fff_ffff,
    ensures
        g_spec(sci_text(m, exp)) == Some(
            if -4 <= exp < 14 {
                emit_f_spec(m, exp)
            } else {
                emit_e_spec(m, exp)
            },
        ),
{
    let sci = sci_text(m, exp);
    let head = if m.len() > 1 {
        seq![m[0], 46u8] + m.skip(1)
    } else {
        seq![m[0]]
    };
    let et = if exp < 0 {
        seq![45u8] + decimal((-exp) as nat)
    } else {
        decimal(exp as nat)
    };
    assert(sci == head + (seq![101u8] + et));
    assert forall|k: int| 0 <= k < m.len() implies m[k] != 46 && m[k] != 101 by {
        assert(is_digit_byte(m[k]));
    }
    assert forall|k: int| 0 <= k < head.len() implies head[k] != 101 by {
        if m.len() > 1 && k >= 2 {
            assert(head[k] == m[k - 1]);
        }
    }
    lemma_first_e_after(head, seq![101u8] + et);
    let p = head.len() as int;
    assert(sci.take(p) =~= head);
    assert(sci.skip(p + 1) =~= et);
    if m.len() > 1 {
        let rest = m.skip(1);
        assert forall|k: int| 0 <= k < rest.len() implies rest[k] != 46 by {
            assert(rest[k] == m[k + 1]);
        }
        lemma_without_dots_append(seq![m[0], 46u8], rest);
        assert(without_dots(seq![m[0], 46u8]) =~= seq![m[0]]) by {
            assert(seq![m[0], 46u8].drop_last() =~= seq![m[0]]);
            lemma_without_dots_none(seq![m[0]]);
        }
        assert(without_dots(head) =~= m);
    } else {
        lemma_without_dots_none(head);
        assert(head =~= m);
    }
    if exp < 0 {
        law_decimal_reads_back((-exp) as nat);
        assert(signed_digits(et) =~= decimal((-exp) as nat));
    } else {
        law_decimal_reads_back(exp as nat);
        assert(et[0] != 45 && et[0] != 43) by {
            assert(is_digit_byte(et[0]));
        }
        assert(signed_digits(et) == et);
    }
    assert(parse_i32_spec(et) == Some(exp));
}

/// The decimal text of `n`, as characters.
pub open spec fn decimal_chars(n: nat) -> Seq<char> {
    decimal(n).map_values(|b: u8| b as char)
}

proof fn lemma_decimal_chars(n: nat, k: int)
    requires
        0 <= k <= decimal(n).len(),
    ensures
        all_digits(decimal_chars(n).take(k)),
        digits_value(decimal_chars(n).take(k)) == digit_bytes_value(decimal(n).take(k)),
    decreases k,
{
    law_decimal_reads_back(n);
    let c = decimal_chars(n).take(k);
    assert forall|j: int| 0 <= j < c.len() implies is_digit(#[trigger] c[j]) by {
        assert(c[j] == decimal(n)[j] as char);
        assert(is_digit_byte(decimal(n)[j]));
    }
    if k > 0 {
        lemma_decimal_chars(n, k - 1);
        assert(c.drop_last() =~= decimal_chars(n).take(k - 1));
        assert(decimal(n).take(k).drop_last() =~= decimal(n).take(k - 1));
        assert(c.last() == decimal(n)[k - 1] as char);
        assert(is_digit_byte(decimal(n)[k - 1]));
    }
}

/// A field number reads back: the decimal text of a number from 1 up is
/// that field number, and 0 is refused (fields are 1-based).
pub proof fn law_field_number_reads_back(n: usize)
    ensures
        n >= 1 ==> field_number_ok(decimal_chars(n as nat), Ok(n)),
        n == 0 ==> field_number_ok(decimal_chars(n as nat), Err(CrosstabError::ZeroFieldNumber)),
{
    let c = decimal_chars(n as nat);
    law_decimal_reads_back(n as nat);
    lemma_decimal_chars(n as nat, decimal(n as nat).len() as int);
    assert(decimal(n as nat).take(decimal(n as nat).len() as int) =~= decimal(n as nat));
    assert(c.take(c.len() as int) =~= c);
    assert(is_digit(c[0]) && is_digit(c.last()));
    assert(trim_start(c) == c);
    assert(trim_end(c) == c);
    assert(trim(c) == c);
    assert(unsigned_digits(c) == c);
    assert(parse_usize_spec(trim(c)) == Some(n));
}

/// A field list reads back: the decimal texts of two field numbers from 1
/// up, joined by a comma, are those two fields.
pub proof fn law_field_pair_reads_back(x: usize, y: usize)
    requires
        x >= 1,
        y >= 1,
    ensures
        pair_ok(decimal_chars(x as nat) + seq![','] + decimal_chars(y as nat), Ok((x, y))),
{
    let cx = decimal_chars(x as nat);
    let cy = decimal_chars(y as nat);
    let s = cx + seq![','] + cy;
    law_field_number_reads_back(x);
    law_field_number_reads_back(y);
    lemma_decimal_chars(x as nat, decimal(x as nat).len() as int);
    lemma_decimal_chars(y as nat, decimal(y as nat).len() as int);
    assert(cx.take(cx.len() as int) =~= cx);
    assert(cy.take(cy.len() as int) =~= cy);
    assert forall|k: int| 0 <= k < cx.len() implies cx[k] != ',' by {
        assert(is_digit(cx[k]));
    }
    assert forall|k: int| cx.len() < k < s.len() implies s[k] != ',' by {
        assert(s[k] == cy[k - cx.len() - 1]);
        assert(is_digit(cy[k - cx.len() - 1]));
    }
    lemma_split_on_last(s, ',', cx.len() as int);
    assert(s.take(cx.len() as int) =~= cx);
    assert(s.skip(cx.len() as int + 1) =~= cy);
    lemma_split_on_none(cx, ',');
    assert(split_on(s, ',') =~= seq![cx, cy]);
}

} // verus!
