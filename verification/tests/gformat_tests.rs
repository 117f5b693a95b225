use tiny3d_core::gformat::{exponent_suffix, g_style, strip_fraction_zeros, GStyle};

fn g(v: f64, p: usize) -> String {
    let e = format!("{:.*e}", p - 1, v);
    match g_style(e.as_bytes(), p).unwrap() {
        GStyle::Exponential(t) => String::from_utf8(t).unwrap(),
        GStyle::Fixed(d) => {
            let f = format!("{:.*}", d, v);
            String::from_utf8(strip_fraction_zeros(f.as_bytes())).unwrap()
        }
    }
}

#[test]
fn percent_g_matches_printf() {
    assert_eq!(g(0.0001, 6), "0.0001");
    assert_eq!(g(0.00001, 6), "1e-05");
    assert_eq!(g(123456.0, 6), "123456");
    assert_eq!(g(1234567.0, 6), "1.23457e+06");
    assert_eq!(g(100.0, 6), "100");
    assert_eq!(g(0.5, 6), "0.5");
    assert_eq!(g(-2.5, 6), "-2.5");
    assert_eq!(g(1e100, 6), "1e+100");
    assert_eq!(g(3.14159265, 3), "3.14");
    assert_eq!(g(999999.5, 6), "1e+06");
    assert_eq!(g(1.0 / 3.0, 6), "0.333333");
}

#[test]
fn styles_and_pieces() {
    assert_eq!(g_style(b"1.23457e6", 6), Some(GStyle::Exponential(b"1.23457e+06".to_vec())));
    assert_eq!(g_style(b"1.00000e-4", 6), Some(GStyle::Fixed(9)));
    assert_eq!(g_style(b"1.23456e5", 6), Some(GStyle::Fixed(0)));
    assert_eq!(g_style(b"-1.50000e-5", 6), Some(GStyle::Exponential(b"-1.5e-05".to_vec())));
    assert_eq!(g_style(b"1.5", 6), None);
    assert_eq!(g_style(b"1.5e", 6), None);
    assert_eq!(g_style(b"1e-2147483648", 6), None);
    assert_eq!(strip_fraction_zeros(b"2.500"), b"2.5".to_vec());
    assert_eq!(strip_fraction_zeros(b"2.000"), b"2".to_vec());
    assert_eq!(strip_fraction_zeros(b"1200"), b"1200".to_vec());
    assert_eq!(exponent_suffix(-5), b"e-05".to_vec());
    assert_eq!(exponent_suffix(123), b"e+123".to_vec());
    assert_eq!(exponent_suffix(0), b"e+00".to_vec());
}
