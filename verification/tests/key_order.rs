//! The order of keys, against the order that the standard library gives strings.

use otel_carrier::key_order::{compare_keys, KeyOrder};

fn expected(a: &str, b: &str) -> KeyOrder {
    if a < b {
        KeyOrder::Before
    } else if a == b {
        KeyOrder::Same
    } else {
        KeyOrder::After
    }
}

#[test]
fn equal_keys_are_the_same() {
    assert_eq!(compare_keys("", ""), KeyOrder::Same);
    assert_eq!(compare_keys("traceparent", "traceparent"), KeyOrder::Same);
    assert_eq!(compare_keys("é", "é"), KeyOrder::Same);
}

#[test]
fn a_prefix_comes_first() {
    assert_eq!(compare_keys("", "a"), KeyOrder::Before);
    assert_eq!(compare_keys("a", ""), KeyOrder::After);
    assert_eq!(compare_keys("trace", "traceparent"), KeyOrder::Before);
    assert_eq!(compare_keys("traceparent", "trace"), KeyOrder::After);
}

#[test]
fn the_first_differing_byte_decides() {
    assert_eq!(compare_keys("traceparent", "tracestate"), KeyOrder::Before);
    assert_eq!(compare_keys("tracestate", "traceparent"), KeyOrder::After);
    assert_eq!(compare_keys("b", "ab"), KeyOrder::After);
    assert_eq!(compare_keys("Z", "a"), KeyOrder::Before);
}

#[test]
fn characters_beyond_ascii_come_by_their_encoding() {
    assert_eq!(compare_keys("z", "é"), KeyOrder::Before);
    assert_eq!(compare_keys("é", "€"), KeyOrder::Before);
    assert_eq!(compare_keys("€", "𝄞"), KeyOrder::Before);
    assert_eq!(compare_keys("𝄞", "é"), KeyOrder::After);
}

#[test]
fn order_is_that_of_strings() {
    let keys = ["", "-", "0", "a", "ab", "abc", "b", "traceparent", "tracestate", "z", "é", "éa", "€", "𝄞"];
    for a in keys {
        for b in keys {
            assert_eq!(compare_keys(a, b), expected(a, b));
        }
    }
}
