//! The unified key codec: encoding, canonical order, and the round trip.

use cmt::metric::Metric;
use cmt::text::{contains_sub, remove_all, str_eq_str, str_lt, u64_dec, i64_dec, split_token};
use cmt::Error;

fn labeled(name: &str, labels: &[(&str, &str)]) -> Metric<i64> {
    let mut m = Metric::new(name.to_string(), 0i64);
    for (k, v) in labels {
        m.add_label(k.to_string(), v.to_string());
    }
    m
}

#[test]
fn encode_no_labels_is_name() {
    let mut m = labeled("alloc_extents", &[]);
    assert_eq!(m.unified_name(), "alloc_extents");
}

#[test]
fn encode_orders_labels_by_key() {
    let mut m = labeled("foo", &[("b", "2"), ("a", "1")]);
    assert_eq!(m.unified_name(), "foo&a=1&b=2");
}

#[test]
fn encode_is_deterministic_across_insertion_orders() {
    let mut m1 = labeled("foo", &[("b", "2"), ("a", "1"), ("c", "3")]);
    let mut m2 = labeled("foo", &[("c", "3"), ("a", "1"), ("b", "2")]);
    assert_eq!(m1.unified_name(), "foo&a=1&b=2&c=3");
    assert_eq!(m1.unified_name(), m2.unified_name());
}

#[test]
fn later_label_value_wins_on_equal_key() {
    let mut m = labeled("foo", &[("a", "1"), ("a", "9")]);
    assert_eq!(m.unified_name(), "foo&a=9");
}

#[test]
fn round_trip_restores_name_and_labels() {
    let mut m = labeled("cache_trans", &[("shard", "0"), ("device", "sda")]);
    let token = m.unified_name().to_string();
    let d: Metric<i64> = Metric::decode(&token, 0).unwrap();
    assert_eq!(d.name, "cache_trans");
    assert_eq!(
        d.labels,
        vec![
            ("device".to_string(), "sda".to_string()),
            ("shard".to_string(), "0".to_string())
        ]
    );
}

#[test]
fn decode_without_labels_is_invalid() {
    let r: Result<Metric<i64>, Error> = Metric::decode("bare_name", 0);
    assert_eq!(r.unwrap_err(), Error::InvalidKeyEncoding);
}

#[test]
fn decode_even_piece_count_is_invalid() {
    let r: Result<Metric<i64>, Error> = Metric::decode("name&key", 0);
    assert_eq!(r.unwrap_err(), Error::InvalidKeyEncoding);
}

#[test]
fn decode_takes_leftmost_binding_of_a_repeated_key() {
    let d: Metric<i64> = Metric::decode("n&a=1&a=2", 0).unwrap();
    assert_eq!(d.labels, vec![("a".to_string(), "1".to_string())]);
}

#[test]
fn split_token_splits_on_both_separators() {
    let parts = split_token("n&a=1");
    assert_eq!(parts, vec!["n".to_string(), "a".to_string(), "1".to_string()]);
}

#[test]
fn empty_name_still_encodes_labels() {
    let mut m = labeled("", &[("k", "v")]);
    assert_eq!(m.unified_name(), "&k=v");
    let d: Metric<i64> = Metric::decode("&k=v", 0).unwrap();
    assert_eq!(d.name, "");
    assert_eq!(d.labels, vec![("k".to_string(), "v".to_string())]);
}

#[test]
fn unified_name_is_cached_and_stable() {
    let mut m = labeled("n", &[("a", "1")]);
    let first = m.unified_name().to_string();
    assert_eq!(m.unified_name(), first);
    assert_eq!(m.unified_name, "n&a=1");
}

#[test]
fn largest_u64_renders_fully() {
    assert_eq!(u64_dec(u64::MAX), "18446744073709551615");
}

#[test]
fn empty_substring_is_always_contained() {
    assert!(contains_sub("anything", ""));
    assert!(contains_sub("", ""));
    assert!(!contains_sub("", "x"));
}

#[test]
fn keys_are_totally_ordered_by_token() {
    let a = labeled("cache", &[("shard", "0")]);
    let b = labeled("cache", &[("shard", "1")]);
    let c = labeled("disk", &[]);
    assert!(a.precedes(&b));
    assert!(!b.precedes(&a));
    assert!(b.precedes(&c));
    assert!(!a.precedes(&a));
}

#[test]
fn text_helpers_behave() {
    assert!(str_lt("abc", "abd"));
    assert!(!str_lt("b", "ab"));
    assert!(str_eq_str("same", "same"));
    assert!(!str_eq_str("same", "sane"));
    assert!(contains_sub("cache_hit_ratio", "ratio"));
    assert!(!contains_sub("cache_hits", "ratio"));
    assert_eq!(u64_dec(0), "0");
    assert_eq!(u64_dec(907), "907");
    assert_eq!(i64_dec(-45), "-45");
    assert_eq!(i64_dec(i64::MIN), "-9223372036854775808");
    assert_eq!(remove_all("osd.3.asok", ".asok"), "osd.3");
    assert_eq!(remove_all("aaa", "aa"), "a");
}
