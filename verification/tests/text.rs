use word_legend_app::text::{decimal, thousands};

#[test]
fn thousands_groups_digits() {
    assert_eq!(thousands(0), "0");
    assert_eq!(thousands(999), "999");
    assert_eq!(thousands(1_000), "1,000");
    assert_eq!(thousands(370_105), "370,105");
}

#[test]
fn thousands_pads_the_inner_groups() {
    assert_eq!(thousands(1_000_007), "1,000,007");
    assert_eq!(thousands(12_045), "12,045");
}

#[test]
fn decimal_writes_plain_digits() {
    assert_eq!(decimal(0), "0");
    assert_eq!(decimal(18_000), "18000");
    assert_eq!(decimal(u64::MAX), "18446744073709551615");
}
