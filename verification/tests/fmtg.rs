use rsomics_tsv_crosstab::fmtg::{
    emit_e, emit_f, parse_exponent, split_e, trim_zeros, write_g_sci,
};

/// `printf("%.14g", x)`: the float handling around the library's digit logic.
fn g14(x: f64) -> Vec<u8> {
    let mut out = Vec::new();
    if x.is_nan() {
        out.extend_from_slice(b"nan");
        return out;
    }
    if x.is_infinite() {
        out.extend_from_slice(if x < 0.0 { b"-inf" } else { b"inf" });
        return out;
    }
    if x == 0.0 {
        if x.is_sign_negative() {
            out.push(b'-');
        }
        out.push(b'0');
        return out;
    }
    if x < 0.0 {
        out.push(b'-');
    }
    let e = format!("{:.*e}", 13, x.abs());
    assert!(write_g_sci(e.as_bytes(), &mut out));
    out
}

fn s(x: f64) -> String {
    String::from_utf8(g14(x)).unwrap()
}

#[test]
fn matches_printf_14g() {
    assert_eq!(s(1.5), "1.5");
    assert_eq!(s(2.0), "2");
    assert_eq!(s(3.75), "3.75");
    assert_eq!(s(3000000.0), "3000000");
    assert_eq!(s(5.0 / 3.0), "1.6666666666667");
    assert_eq!(s(2.0 / 3.0), "0.66666666666667");
    assert_eq!(s(6.0), "6");
    assert_eq!(s(0.3), "0.3");
    assert_eq!(s(1.25), "1.25");
    assert_eq!(s(123456789012345.0), "1.2345678901234e+14");
    assert_eq!(s(1e14), "1e+14");
    assert_eq!(s(99999999999999.0 + 1.0), "1e+14");
    assert_eq!(s(0.0), "0");
    assert_eq!(s(-2.5), "-2.5");
    assert_eq!(s(0.0001), "0.0001");
    assert_eq!(s(0.00001), "1e-05");
}

#[test]
fn g_rejects_text_without_exponent() {
    let mut out = b"x".to_vec();
    assert!(!write_g_sci(b"1.5", &mut out));
    assert_eq!(out, b"x");
    assert!(!write_g_sci(b"1.5e", &mut out));
    assert!(!write_g_sci(b"e20", &mut out));
    assert_eq!(out, b"x");
}

#[test]
fn g_exponent_boundaries() {
    let mut out = Vec::new();
    assert!(write_g_sci(b"1.0000000000000e-4", &mut out));
    assert_eq!(out, b"0.0001");
    out.clear();
    assert!(write_g_sci(b"1.0000000000000e-5", &mut out));
    assert_eq!(out, b"1e-05");
    out.clear();
    assert!(write_g_sci(b"9.9999999999999e13", &mut out));
    assert_eq!(out, b"99999999999999");
    out.clear();
    assert!(write_g_sci(b"2.5000000000000e123", &mut out));
    assert_eq!(out, b"2.5e+123");
}

#[test]
fn split_e_parts() {
    let (digits, exp) = split_e(b"1.6666666666667e0").unwrap();
    assert_eq!(digits, b"16666666666667");
    assert_eq!(exp, b"0");
    assert!(split_e(b"12.5").is_none());
}

#[test]
fn trim_zeros_keeps_one_digit() {
    let mut d = b"1200".to_vec();
    trim_zeros(&mut d);
    assert_eq!(d, b"12");
    let mut z = b"000".to_vec();
    trim_zeros(&mut z);
    assert_eq!(z, b"0");
}

#[test]
fn emit_e_pads_exponent() {
    let mut out = Vec::new();
    emit_e(b"12000", -7, &mut out);
    assert_eq!(out, b"1.2e-07");
    out.clear();
    emit_e(b"50000", 21, &mut out);
    assert_eq!(out, b"5e+21");
}

#[test]
fn emit_f_places_point() {
    let mut out = Vec::new();
    emit_f(b"12500", -2, &mut out);
    assert_eq!(out, b"0.0125");
    out.clear();
    emit_f(b"12500", 1, &mut out);
    assert_eq!(out, b"12.5");
    out.clear();
    emit_f(b"12", 4, &mut out);
    assert_eq!(out, b"12000");
    out.clear();
    emit_f(b"12000", 1, &mut out);
    assert_eq!(out, b"12");
}

#[test]
fn parse_exponent_values() {
    assert_eq!(parse_exponent(b"-5"), Some(-5));
    assert_eq!(parse_exponent(b"+12"), Some(12));
    assert_eq!(parse_exponent(b"0"), Some(0));
    assert_eq!(parse_exponent(b"-2147483648"), Some(i32::MIN));
    assert_eq!(parse_exponent(b"2147483648"), None);
    assert_eq!(parse_exponent(b"-"), None);
    assert_eq!(parse_exponent(b""), None);
    assert_eq!(parse_exponent(b"1x"), None);
}
