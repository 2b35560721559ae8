use psst::threshold::threshold_for;

#[test]
fn degenerate_sizes_are_clamped() {
    assert_eq!(threshold_for(0), 0);
    assert_eq!(threshold_for(1), 0);
}

#[test]
fn formula_exact_values() {
    // cube root of n^2 * floor(log2 n), rounded down
    assert_eq!(threshold_for(2), 1); // 4 * 1 = 4
    assert_eq!(threshold_for(11), 7); // 121 * 3 = 363, 7^3 = 343
    assert_eq!(threshold_for(19), 11); // 361 * 4 = 1444, 11^3 = 1331
    assert_eq!(threshold_for(100), 39); // 10000 * 6 = 60000, 39^3 = 59319
    assert_eq!(threshold_for(1000), 208); // 10^6 * 9, 208^3 = 8998912
}
