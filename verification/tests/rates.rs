//! Exact rational rate arithmetic.

use uniswap_routing::rate::{rate_from_price, Decimal, Rate};

#[test]
fn fraction_comparisons_are_exact() {
    let half = Rate::from_fraction(1, 2);
    let two_thirds = Rate::from_fraction(2, 3);
    assert!(half.lt(&two_thirds));
    assert!(!two_thirds.lt(&half));
    assert!(half.le(&two_thirds));
    assert!(half.le(&half));
    assert!(half.eq_rate(&Rate::from_fraction(2, 4)));
    assert!(!half.eq_rate(&two_thirds));
}

#[test]
fn product_is_exact() {
    let a = Rate::from_fraction(2, 3);
    let b = Rate::from_fraction(3, 7);
    let p = a.times(&b);
    assert!(p.eq_rate(&Rate::from_fraction(6, 21)));
    assert!(p.eq_rate(&Rate::from_fraction(2, 7)));
    assert!(!p.eq_rate(&a));
    assert!(!p.eq_rate(&b));
}

#[test]
fn duplicate_keeps_the_value() {
    let a = Rate::from_fraction(355, 113);
    let b = a.duplicate();
    assert!(a.eq_rate(&b));
}

#[test]
fn effective_rate_nets_the_fee() {
    // fee 0.3%, price 0.0005 (mantissa 5, scale 4): 0.997 / 0.0005 == 1994.
    let rate = rate_from_price(3000, &Decimal { mantissa: 5, scale: 4 });
    assert!(rate.eq_rate(&Rate::from_fraction(1994, 1)));
    // fee 0.3%, price 2000: 0.997 / 2000.
    let rate = rate_from_price(3000, &Decimal { mantissa: 2000, scale: 0 });
    assert!(rate.eq_rate(&Rate::from_fraction(997_000, 2_000_000_000)));
    // zero fee, price 1: exactly 1.
    let rate = rate_from_price(0, &Decimal { mantissa: 1, scale: 0 });
    assert!(rate.eq_rate(&Rate::from_fraction(1, 1)));
}
