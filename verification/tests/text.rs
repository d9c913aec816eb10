use prism_ann::distance::Metric;
use prism_ann::error::PrismError;
use prism_ann::text::{parse_arg, parse_attribute, parse_filter, parse_metric, parse_number};

fn entry(key: &str, values: &[u32]) -> (String, Vec<u32>) {
    (key.to_string(), values.to_vec())
}

#[test]
fn test_parse_filter_valid() {
    let entries = [entry("attr_0", &[1, 2]), entry("attr_2", &[5])];
    let filter = parse_filter(&entries, 3).unwrap();
    assert_eq!(filter.strength(), 2);
}

#[test]
fn test_parse_filter_none() {
    let filter = parse_filter(&[], 3).unwrap();
    assert_eq!(filter.strength(), 0);
}

#[test]
fn test_parse_filter_empty() {
    let entries: Vec<(String, Vec<u32>)> = Vec::new();
    let filter = parse_filter(&entries, 3).unwrap();
    assert_eq!(filter.strength(), 0);
}

#[test]
fn test_parse_filter_invalid_key() {
    assert!(parse_filter(&[entry("color", &[1])], 3).is_err());
}

#[test]
fn test_parse_filter_out_of_range() {
    assert!(parse_filter(&[entry("attr_5", &[1])], 3).is_err());
}

#[test]
fn test_parse_metric() {
    assert!(matches!(parse_metric("l2").unwrap(), Metric::L2));
    assert!(matches!(parse_metric("ip").unwrap(), Metric::InnerProduct));
    assert!(matches!(parse_metric("cosine").unwrap(), Metric::Cosine));
    assert!(parse_metric("manhattan").is_err());
}

#[test]
fn filter_entries_become_constraints_in_order() {
    let entries = [entry("attr_2", &[5, 3]), entry("attr_0", &[1])];
    let filter = parse_filter(&entries, 3).unwrap();
    assert_eq!(filter.constraints(), &[(0, vec![1]), (2, vec![3, 5])]);
    assert!(matches!(
        parse_filter(&[entry("attr_", &[1])], 3),
        Err(PrismError::InvalidInput(_))
    ));
}

#[test]
fn numbers_are_decimal_and_fit_a_word() {
    assert_eq!(parse_number("0"), Some(0));
    assert_eq!(parse_number("+42"), Some(42));
    assert_eq!(parse_number("18446744073709551615"), Some(usize::MAX));
    assert_eq!(parse_number("18446744073709551616"), None);
    for text in ["", "+", "-1", " 1", "1 ", "0x10", "1_000"] {
        assert_eq!(parse_number(text), None, "{text:?}");
    }
}

#[test]
fn attribute_names_carry_a_number() {
    assert_eq!(parse_attribute("attr_0"), Some(0));
    assert_eq!(parse_attribute("attr_17"), Some(17));
    assert_eq!(parse_attribute("attr_x"), None);
    assert_eq!(parse_attribute("17"), None);
}

#[test]
fn arguments_follow_their_flag() {
    let args: Vec<String> = ["bench", "--k", "25", "--ef", "many", "--last"]
        .iter()
        .map(|arg| arg.to_string())
        .collect();
    assert_eq!(parse_arg(&args, "--k", 10), 25);
    assert_eq!(parse_arg(&args, "--ef", 64), 64);
    assert_eq!(parse_arg(&args, "--last", 7), 7);
    assert_eq!(parse_arg(&args, "--absent", 3), 3);
}
