use stormforge_core::format::group_thousands;

#[test]
fn groups_digits_in_threes_from_the_right() {
    assert_eq!(group_thousands(0), "0");
    assert_eq!(group_thousands(7), "7");
    assert_eq!(group_thousands(999), "999");
    assert_eq!(group_thousands(1000), "1,000");
    assert_eq!(group_thousands(15000), "15,000");
    assert_eq!(group_thousands(1234567), "1,234,567");
    assert_eq!(group_thousands(100000), "100,000");
}
