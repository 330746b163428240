use wisard::filter::lut::{LUTFilterBuilder, PackedLUTFilterBuilder};
use wisard::filter::{BuildFilter, CountingFilter, Filter};

#[test]
fn lut_filter_single() {
    let value = 0usize;
    let builder = LUTFilterBuilder::new(0, 1u8);
    let mut filter = builder.build_filter();
    assert_eq!(filter.counter(&value), Some(0));
    assert!(!filter.contains(&value));
    filter.include_item(&value);
    assert_eq!(filter.counter(&value), Some(1));
    assert!(!filter.contains(&value));
    filter.include_item(&value);
    assert_eq!(filter.counter(&value), Some(2));
    assert!(filter.contains(&value));
}

#[test]
fn packed_lut_filter_single() {
    let value = 0usize;
    let builder = PackedLUTFilterBuilder::new(0, 2, 1);
    let mut filter = builder.build_filter();
    assert_eq!(filter.counter(&value), Some(0));
    assert!(!filter.contains(&value));
    filter.include_item(&value);
    assert_eq!(filter.counter(&value), Some(1));
    assert!(!filter.contains(&value));
    filter.include_item(&value);
    assert_eq!(filter.counter(&value), Some(2));
    assert!(filter.contains(&value));
}
