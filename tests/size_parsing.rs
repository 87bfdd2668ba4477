use fscan::size::{
    bytes_from_size_text, parse_filter_option, parse_human_input_to_bytes, SizeOption,
};

#[test]
fn named_bucket_one_gigabyte() {
    assert_eq!(parse_filter_option("1 GB", None), 1073741824);
}

#[test]
fn named_bucket_five_hundred_megabytes() {
    assert_eq!(parse_filter_option("500 MB", None), 524288000);
}

#[test]
fn named_buckets_other_sizes() {
    assert_eq!(parse_filter_option("100 MB", None), 104857600);
    assert_eq!(parse_filter_option("5 GB", None), 5368709120);
}

#[test]
fn unknown_bucket_is_zero() {
    assert_eq!(parse_filter_option("> 100 MB", None), 0);
    assert_eq!(parse_filter_option("", Some("1 GB")), 0);
}

#[test]
fn custom_bucket_reads_the_text() {
    assert_eq!(parse_filter_option("Custom", Some("1.5 GB")), 1610612736);
    assert_eq!(parse_filter_option("Custom", Some("nonsense")), 0);
    assert_eq!(parse_filter_option("Custom", None), 0);
}

#[test]
fn free_text_bare_number_is_megabytes() {
    assert_eq!(parse_human_input_to_bytes("150"), Some(157286400));
}

#[test]
fn free_text_decimal_gigabytes() {
    assert_eq!(parse_human_input_to_bytes("1.5 GB"), Some(1610612736));
}

#[test]
fn free_text_empty_is_unparseable() {
    assert_eq!(parse_human_input_to_bytes(""), None);
    assert_eq!(parse_human_input_to_bytes("   "), None);
}

#[test]
fn free_text_unknown_unit_is_unparseable() {
    assert_eq!(parse_human_input_to_bytes("150 XB"), None);
}

#[test]
fn free_text_edge_values() {
    assert_eq!(parse_human_input_to_bytes("0 B"), Some(0));
    assert_eq!(parse_human_input_to_bytes("0.5 MB"), Some(524288));
    assert_eq!(parse_human_input_to_bytes("1 B"), Some(1));
    assert_eq!(parse_human_input_to_bytes(".5 KB"), Some(512));
    assert_eq!(parse_human_input_to_bytes("2. KB"), Some(2048));
    assert_eq!(parse_human_input_to_bytes("0.1 KB"), Some(102));
}

#[test]
fn free_text_is_case_insensitive_and_trimmed() {
    assert_eq!(parse_human_input_to_bytes("  2 kb \n"), Some(2048));
    assert_eq!(parse_human_input_to_bytes("3 Mb"), Some(3145728));
    assert_eq!(parse_human_input_to_bytes("1\t\tgb"), Some(1073741824));
}

#[test]
fn free_text_other_shapes_fail() {
    assert_eq!(parse_human_input_to_bytes("1 2 3"), None);
    assert_eq!(parse_human_input_to_bytes("abc"), None);
    assert_eq!(parse_human_input_to_bytes("1.2.3 MB"), None);
    assert_eq!(parse_human_input_to_bytes(". MB"), None);
    assert_eq!(parse_human_input_to_bytes("MB 5"), None);
}

#[test]
fn free_text_accepts_a_sign() {
    assert_eq!(parse_human_input_to_bytes("+5"), Some(5242880));
    assert_eq!(parse_human_input_to_bytes("+1.5 KB"), Some(1536));
    assert_eq!(parse_human_input_to_bytes("-1"), Some(0));
    assert_eq!(parse_human_input_to_bytes("-5 MB"), Some(0));
    assert_eq!(parse_human_input_to_bytes("-0.5 GB"), Some(0));
    assert_eq!(parse_human_input_to_bytes("+"), None);
    assert_eq!(parse_human_input_to_bytes("- MB"), None);
    assert_eq!(parse_human_input_to_bytes("+-1"), None);
    assert_eq!(parse_human_input_to_bytes("-x"), None);
}

#[test]
fn free_text_saturates_at_the_largest_size() {
    assert_eq!(
        parse_human_input_to_bytes("99999999999999999999 GB"),
        Some(u64::MAX)
    );
    assert_eq!(
        parse_human_input_to_bytes("18446744073709551615 B"),
        Some(u64::MAX)
    );
    assert_eq!(
        parse_human_input_to_bytes("17179869183.999 GB"),
        Some(18446744073708477874)
    );
}

#[test]
fn normalized_text_needs_upper_case_units() {
    assert_eq!(bytes_from_size_text("1 GB"), Some(1073741824));
    assert_eq!(bytes_from_size_text("1 gb"), None);
    assert_eq!(bytes_from_size_text("250"), Some(262144000));
}

#[test]
fn size_option_labels_round_trip() {
    for option in SizeOption::all() {
        assert_eq!(SizeOption::from_label(option.label()), Some(option));
    }
    assert_eq!(SizeOption::all().len(), 5);
    assert_eq!(SizeOption::from_label("2 GB"), None);
    assert!(SizeOption::Custom.is_custom());
    assert!(!SizeOption::Gb1.is_custom());
}

#[test]
fn size_option_thresholds() {
    assert_eq!(SizeOption::Mb100.min_bytes(None), 104857600);
    assert_eq!(SizeOption::Gb5.min_bytes(Some("7 MB")), 5368709120);
    assert_eq!(SizeOption::Custom.min_bytes(Some(" 2 MB ")), 2097152);
    assert_eq!(SizeOption::Custom.min_bytes(None), 0);
}
