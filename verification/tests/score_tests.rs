use zed_browser::score::contribution;
use zed_browser::score::ln_fixed;

#[test]
fn ln_fixed_reference_points() {
    // micro fixed point: one unit is 1_000_000
    assert_eq!(ln_fixed(1_000_000), 0);
    assert_eq!(ln_fixed(2_000_000), 693_147);
    assert_eq!(ln_fixed(4_000_000), 2 * 693_147);
    // ln 1.5 to within a few micro units of 405_465
    let v = ln_fixed(1_500_000);
    assert!(v >= 405_400 && v <= 405_500, "ln 1.5 was {}", v);
    // ln e (2.718282) close to one unit
    let e = ln_fixed(2_718_282);
    assert!(e >= 999_000 && e <= 1_001_000, "ln e was {}", e);
}

#[test]
fn contribution_formula() {
    // tf 2 in a store of one document where the term sits in one list:
    // (1 + ln 2) * ln(1 + 1/2)
    assert_eq!(contribution(2, 1, 1), 686_506);
    // tf 1 gives the idf alone
    assert_eq!(contribution(1, 1, 1), 405_462);
    // a rarer term outweighs a common one at the same tf
    assert!(contribution(1, 100, 1) > contribution(1, 100, 50));
    // higher tf never scores lower
    assert!(contribution(5, 10, 3) >= contribution(2, 10, 3));
}
