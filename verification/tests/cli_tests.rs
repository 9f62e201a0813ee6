use ablations::cli::{is_deterministic, method_from_name, methods_from_str, parse_seeds, Method, SeedError};

#[test]
fn parse_single_seed() {
    assert_eq!(parse_seeds("1000"), Ok(vec![1000]));
    assert_eq!(parse_seeds("+7"), Ok(vec![7]));
    assert_eq!(parse_seeds("18446744073709551615"), Ok(vec![u64::MAX]));
}

#[test]
fn parse_seed_range() {
    assert_eq!(parse_seeds("1000-1004"), Ok(vec![1000, 1001, 1002, 1003, 1004]));
    assert_eq!(parse_seeds("5-5"), Ok(vec![5]));
    assert_eq!(parse_seeds("5-3"), Ok(vec![]));
}

#[test]
fn parse_seed_errors() {
    assert_eq!(parse_seeds("abc"), Err(SeedError::InvalidSeed));
    assert_eq!(parse_seeds(""), Err(SeedError::InvalidSeed));
    assert_eq!(parse_seeds("+"), Err(SeedError::InvalidSeed));
    assert_eq!(parse_seeds("18446744073709551616"), Err(SeedError::InvalidSeed));
    assert_eq!(parse_seeds(" 5"), Err(SeedError::InvalidSeed));
    assert_eq!(parse_seeds("x-5"), Err(SeedError::InvalidStart));
    assert_eq!(parse_seeds("-5"), Err(SeedError::InvalidStart));
    assert_eq!(parse_seeds("5-y"), Err(SeedError::InvalidEnd));
    assert_eq!(parse_seeds("1-2-3"), Err(SeedError::InvalidEnd));
}

#[test]
fn methods_all_lists_eight() {
    assert_eq!(
        methods_from_str("all"),
        vec!["m0rust", "m1", "m2", "m3", "m4", "m5", "m6", "m7"]
    );
}

#[test]
fn methods_are_split_trimmed_and_lowercased() {
    assert_eq!(methods_from_str(" M6 , m7"), vec!["m6", "m7"]);
    assert_eq!(methods_from_str("m0Rust"), vec!["m0rust"]);
    assert_eq!(methods_from_str(""), vec![""]);
    assert_eq!(methods_from_str("m1,,m2,"), vec!["m1", "", "m2", ""]);
    assert_eq!(methods_from_str("ALL"), vec!["all"]);
    assert_eq!(methods_from_str("\u{3000}m6\u{a0},\tM7\n"), vec!["m6", "m7"]);
    assert_eq!(methods_from_str("  ,   "), vec!["", ""]);
}

#[test]
fn method_names() {
    assert_eq!(method_from_name("m0rust"), Some(Method::M0Rust));
    assert_eq!(method_from_name("m7"), Some(Method::M7));
    assert_eq!(method_from_name("m8"), None);
    assert_eq!(method_from_name("M1"), None);
}

#[test]
fn only_counting_methods_are_deterministic() {
    assert!(is_deterministic("m6"));
    assert!(is_deterministic("m7"));
    assert!(!is_deterministic("m1"));
    assert!(!is_deterministic("m0rust"));
}
