use z1::engine::fmt_params;
use z1::float::{is_number, less_or_equal, place};

fn floats() -> Vec<f32> {
    vec![
        f32::NEG_INFINITY,
        -3.5,
        -1.0,
        -f32::MIN_POSITIVE,
        -f32::from_bits(1),
        -0.0,
        0.0,
        f32::from_bits(1),
        0.7,
        1.0,
        1.1,
        f32::MAX,
        f32::INFINITY,
        f32::NAN,
        -f32::NAN,
    ]
}

#[test]
fn order_of_bits_is_order_of_floats() {
    for a in floats() {
        assert_eq!(is_number(a.to_bits()), !a.is_nan());
        for b in floats() {
            assert_eq!(less_or_equal(a.to_bits(), b.to_bits()), a <= b);
            if let Some(o) = a.partial_cmp(&b) {
                assert_eq!(place(a.to_bits()).cmp(&place(b.to_bits())), o);
            }
        }
    }
}

fn by_floats(n: u64) -> String {
    if n >= 1_000_000_000 {
        format!("{:.1}B", n as f64 / 1e9)
    } else if n >= 1_000_000 {
        format!("{:.1}M", n as f64 / 1e6)
    } else {
        format!("{}", n)
    }
}

#[test]
fn counts_in_words() {
    assert_eq!(fmt_params(0), "0");
    assert_eq!(fmt_params(999_999), "999999");
    assert_eq!(fmt_params(1_000_000), "1.0M");
    assert_eq!(fmt_params(1_050_000), "1.1M");
    assert_eq!(fmt_params(1_250_000), "1.2M");
    assert_eq!(fmt_params(999_999_999), "1000.0M");
    assert_eq!(fmt_params(8_030_261_312), "8.0B");
    assert_eq!(fmt_params(70_553_706_496), "70.6B");
    assert_eq!(fmt_params(u64::MAX), "18446744073.7B");
}

#[test]
fn counts_round_as_floats_do() {
    let mut n: u64 = 1;
    while n < u64::MAX / 3 {
        for d in [0u64, 1, 2, 7] {
            assert_eq!(fmt_params(n + d), by_floats(n + d));
            assert_eq!(fmt_params(n - n.min(d)), by_floats(n - n.min(d)));
        }
        n = n + n / 2 + 1;
    }
    let mut k: u64 = 0;
    while k < 20_000 {
        for n in [
            1_000_000 + k * 50_000,
            1_000_000_000 + k * 50_000_000,
            1_000_000 + k * 12_500,
            (1u64 << 53) - 10_000 + k,
            u64::MAX - k,
        ] {
            assert_eq!(fmt_params(n), by_floats(n));
        }
        k += 1;
    }
}
