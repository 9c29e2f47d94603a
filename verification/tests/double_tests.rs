use placard::double::{multiply, round};

#[test]
fn rounding_keeps_53_bits() {
    let one = 1u128 << 53;
    assert_eq!(round(0), 0);
    assert_eq!(round(one - 1), one - 1);
    // Halves go to the even neighbour, anything else to the nearest one.
    assert_eq!(round(one + 1), one);
    assert_eq!(round(one + 3), one + 4);
    assert_eq!(round((one << 4) + 16), one << 4);
    assert_eq!(round((one << 4) + 17), (one << 4) + 32);
    assert_eq!(round((one << 4) - 1), one << 4);
    let mut n: u128 = 1;
    for i in 0..2000u32 {
        n = n.wrapping_mul(0x2360_ed05_1fc6_5da4_4385_df64_9fcc_f645).wrapping_add(1);
        let m = (n >> 1) >> (i % 100);
        assert_eq!(round(m), (m as f64) as u128, "{m}");
    }
}

#[test]
fn products_are_those_of_doubles() {
    let unit = 2f64.powi(54);
    for (a, b) in [(0.3, 159.0), (0.4, 160.0), (1.3, 4.8), (5200.0, 4294967295.0), (0.55, 0.6),
        (1.2000000000000002, 160.0), (0.0, 7.0)]
    {
        let product = multiply((a * unit) as u128, (b * unit) as u128);
        assert_eq!(product as f64 / 2f64.powi(56), a * b, "{a} * {b}");
    }
}
