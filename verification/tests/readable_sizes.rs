use disk_usage::readable::readable_size;

#[test]
fn correct_kilobytes_of_sector() {
    assert_eq!("4.09 kB", readable_size(&4096));
}

#[test]
fn correct_number_of_digits() {
    assert_eq!("6.72 kB", readable_size(&6725));
}

#[test]
fn readable_size_spec_examples() {
    assert_eq!("4.09 kB", readable_size(&4096));
    assert_eq!("6.72 kB", readable_size(&6725));
    assert_eq!("999 B", readable_size(&999));
    assert_eq!("1 kB", readable_size(&1000));
    assert_eq!("100 kB", readable_size(&100000));
}

#[test]
fn readable_size_zero() {
    assert_eq!("0 B", readable_size(&0));
}

#[test]
fn readable_size_hides_zero_decimals() {
    // below 10 the two decimals are shown only when nonzero
    assert_eq!("4 kB", readable_size(&4005));
    // from 10 to 99 the single decimal is shown only when nonzero
    assert_eq!("10 kB", readable_size(&10049));
    assert_eq!("10.5 kB", readable_size(&10500));
    assert_eq!("99.9 kB", readable_size(&99999));
}

#[test]
fn readable_size_unit_walk() {
    assert_eq!("1 MB", readable_size(&1_000_000));
    assert_eq!("1 GB", readable_size(&1_000_000_000));
    assert_eq!("1 TB", readable_size(&1_000_000_000_000));
    assert_eq!("1 PB", readable_size(&1_000_000_000_000_000));
    assert_eq!("999 PB", readable_size(&999_999_999_999_999_999));
}

#[test]
fn readable_size_past_petabytes_falls_back_to_raw_bytes() {
    assert_eq!("1000000000000000000 B", readable_size(&1_000_000_000_000_000_000));
    assert_eq!("18446744073709551615 B", readable_size(&u64::MAX));
}
