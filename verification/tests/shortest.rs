use countries::area::Area;
use countries::wide::Wide;

fn holding(value: f32) -> Area {
    Area::from_bits(value.to_bits()).expect("a finite area that is not negative")
}

fn check(bits: u32) {
    let value = f32::from_bits(bits);
    assert_eq!(holding(value).shortest_text(), format!("{}", value), "{:#x}", bits);
}

#[test]
fn shortest_text_of_known_areas() {
    assert_eq!(holding(0.0).shortest_text(), "0");
    assert_eq!(holding(1580.0).shortest_text(), "1580");
    assert_eq!(holding(0.44).shortest_text(), "0.44");
    assert_eq!(holding(2.02).shortest_text(), "2.02");
    assert_eq!(holding(0.1).shortest_text(), "0.1");
    assert_eq!(holding(0.2).shortest_text(), "0.2");
    assert_eq!(holding(30528.0).shortest_text(), "30528");
    assert_eq!(holding(17098242.0).shortest_text(), "17098242");
    assert_eq!(holding(16777216.0).shortest_text(), "16777216");
    assert_eq!(holding(1.0e10).shortest_text(), "10000000000");
    assert_eq!(holding(0.000001).shortest_text(), "0.000001");
    assert_eq!(holding(1.5).shortest_text(), "1.5");
    assert_eq!(holding(123456.79).shortest_text(), "123456.79");
}

#[test]
fn shortest_text_matches_the_formatter_on_samples() {
    let samples: [f32; 30] = [
        1.0,
        2.0,
        3.0,
        9.0,
        10.0,
        99.0,
        100.0,
        0.5,
        0.25,
        0.125,
        0.3,
        0.7,
        0.9,
        0.99,
        0.999,
        1.0e-3,
        1.0e-10,
        1.0e-20,
        1.0e-30,
        1.0e-38,
        1.0e-40,
        1.0e-45,
        1.17549435e-38,
        3.4028235e38,
        1.0e38,
        1.0e30,
        1.0e20,
        8388608.0,
        8388607.5,
        33554432.0,
    ];
    for value in samples {
        check(value.to_bits());
    }
}

#[test]
fn shortest_text_matches_the_formatter_under_every_exponent() {
    let fractions: [u32; 12] = [
        0, 1, 2, 3, 0x20_0000, 0x3f_ffff, 0x40_0000, 0x40_0001, 0x55_5555, 0x7f_fffd, 0x7f_fffe,
        0x7f_ffff,
    ];
    let mut field: u32 = 0;
    while field < 255 {
        for fraction in fractions {
            let bits = field * 0x80_0000 + fraction;
            if bits > 0 {
                check(bits);
            }
        }
        field += 1;
    }
}

#[test]
fn shortest_text_matches_the_formatter_on_whole_numbers() {
    let mut n: u32 = 0;
    while n < 200_000 {
        check((n as f32).to_bits());
        check((n as f32 + 0.5).to_bits());
        check((n as f32 / 100.0).to_bits());
        n += 1;
    }
}

#[test]
fn shortest_text_matches_the_formatter_near_powers_of_ten() {
    let mut power = 1.0e-44f32;
    while power < 1.0e38 {
        let bits = power.to_bits();
        let mut near = bits.saturating_sub(40).max(1);
        while near <= bits + 40 {
            check(near);
            near += 1;
        }
        power *= 10.0;
    }
}

#[test]
fn shortest_text_matches_the_formatter_on_a_sweep() {
    let mut bits: u32 = 1;
    while bits <= 0x7f7f_ffff {
        check(bits);
        bits = match bits.checked_add(0x0000_0d3b) {
            Some(next) => next,
            None => break,
        };
    }
}

#[test]
fn shortest_text_matches_the_formatter_on_scattered_patterns() {
    let mut seed: u64 = 0x6a09_e667_f3bc_c909;
    for _ in 0..600_000 {
        seed ^= seed << 13;
        seed ^= seed >> 7;
        seed ^= seed << 17;
        let bits = (seed >> 33) as u32 % 0x7f7f_ffff + 1;
        check(bits);
    }
}

fn same(a: &Wide, b: &Wide) -> bool {
    !a.is_below(b) && !b.is_below(a)
}

#[test]
fn wide_numbers_add_and_compare() {
    let a = Wide::from(u128::MAX);
    let b = a.times_ten();
    assert!(a.is_below(&b));
    assert!(!b.is_below(&a));
    assert!(!a.is_below(&a));
    let mut c = b;
    for _ in 0..9 {
        c = c.minus(&a);
    }
    assert!(same(&c, &a));
    assert!(same(&c.minus(&a), &Wide::from(0)));
    assert!(same(&Wide::from(7).plus(&Wide::from(8)), &Wide::from(15)));
    assert!(same(
        &Wide::from(u128::MAX).plus(&Wide::from(1)).minus(&Wide::from(2)),
        &Wide::from(u128::MAX - 1)
    ));
    assert!(same(&Wide::power_of_two(0), &Wide::from(1)));
    assert!(same(&Wide::power_of_two(127), &Wide::from(1 << 127)));
    assert!(Wide::from(u128::MAX).is_below(&Wide::power_of_two(128)));
    assert!(same(&Wide::power_of_two(128).minus(&Wide::from(1)), &Wide::from(u128::MAX)));
    assert!(same(&Wide::power_of_two(128), &Wide::from(u128::MAX).plus(&Wide::from(1))));
    assert!(Wide::power_of_two(150).is_below(&Wide::power_of_two(191)));
    assert!(same(
        &Wide::power_of_two(191).minus(&Wide::power_of_two(190)).minus(&Wide::power_of_two(190)),
        &Wide::from(0)
    ));
    assert!(same(&Wide::power_of_two(190).plus(&Wide::power_of_two(190)), &Wide::power_of_two(191)));
    assert!(same(&Wide::from(12_345).times_ten(), &Wide::from(123_450)));
    assert!(same(
        &Wide::power_of_two(64).times_ten(),
        &Wide::from(10 * (1u128 << 64))
    ));
}
