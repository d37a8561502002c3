use std::collections::HashMap;

use urlencoded::{
    create_param_hashmap, decode, parse_body, parse_query, ParameterMap, RequestParts,
    UrlEncodedMixin,
};

fn to_hash_map(map: &ParameterMap) -> HashMap<String, Vec<String>> {
    let mut out = HashMap::new();
    for (key, values) in map.entries() {
        let previous = out.insert(key.clone(), values.clone());
        assert!(previous.is_none());
    }
    out
}

fn expect(entries: &[(&str, &[&str])]) -> HashMap<String, Vec<String>> {
    let mut out = HashMap::new();
    for (key, values) in entries {
        out.insert(key.to_string(), values.iter().map(|v| v.to_string()).collect());
    }
    out
}

fn owned(pairs: &[(&str, &str)]) -> Vec<(String, String)> {
    pairs.iter().map(|(k, v)| (k.to_string(), v.to_string())).collect()
}

#[test]
fn empty_and_absent_inputs_give_none() {
    assert!(parse_query(None).is_none());
    assert!(parse_query(Some("")).is_none());
    assert!(parse_body("").is_none());
    assert!(create_param_hashmap("").is_none());
}

#[test]
fn absence_is_repeatable() {
    assert!(parse_body("").is_none());
    assert!(parse_body("").is_none());
    assert!(parse_query(Some("")).is_none());
    assert!(parse_query(Some("")).is_none());
    assert!(parse_query(None).is_none());
    assert!(parse_query(None).is_none());
}

#[test]
fn one_segment_gives_present_and_non_empty() {
    for input in ["a=b", "a", "=", "&a=b", "a=b&", "&&x&&", "%", "+"] {
        let map = parse_body(input).expect("present");
        assert!(!map.is_empty(), "{}", input);
        let map = parse_query(Some(input)).expect("present");
        assert!(map.len() > 0, "{}", input);
    }
}

#[test]
fn only_separators_give_present_and_empty() {
    for input in ["&", "&&", "&&&&"] {
        let map = parse_body(input).expect("present");
        assert!(map.is_empty());
        assert_eq!(map.len(), 0);
        let map = parse_query(Some(input)).expect("present");
        assert!(map.is_empty());
    }
}

#[test]
fn present_with_empty_values_is_not_absent() {
    let map = parse_body("a=&b=").expect("present");
    assert_eq!(to_hash_map(&map), expect(&[("a", &[""]), ("b", &[""])]));
}

#[test]
fn duplicate_keys_are_combined() {
    let map = parse_body("band=arctic+monkeys&band=temper+trap&color=green").expect("present");
    assert_eq!(
        to_hash_map(&map),
        expect(&[("band", &["arctic monkeys", "temper trap"]), ("color", &["green"])])
    );
    let map = parse_query(Some("band=arctic+monkeys&band=temper+trap&color=green")).expect("present");
    assert_eq!(
        to_hash_map(&map),
        expect(&[("band", &["arctic monkeys", "temper trap"]), ("color", &["green"])])
    );
}

#[test]
fn value_order_is_preserved() {
    let map = parse_body("a=1&a=2&a=3").expect("present");
    let expected: Vec<String> = vec!["1".to_string(), "2".to_string(), "3".to_string()];
    assert_eq!(map.get("a"), Some(&expected));
    assert_eq!(map.len(), 1);
}

#[test]
fn segment_without_equals_has_empty_value() {
    let map = parse_body("flag&x=1").expect("present");
    assert_eq!(to_hash_map(&map), expect(&[("flag", &[""]), ("x", &["1"])]));
}

#[test]
fn percent_escapes_are_decoded() {
    let map = parse_body("name=John%20Doe").expect("present");
    assert_eq!(to_hash_map(&map), expect(&[("name", &["John Doe"])]));
}

#[test]
fn truncated_escape_passes_through() {
    let map = parse_body("name=50%").expect("present");
    assert_eq!(to_hash_map(&map), expect(&[("name", &["50%"])]));
}

#[test]
fn decode_splits_at_first_equals() {
    assert_eq!(decode("a=b=c&d==e"), owned(&[("a", "b=c"), ("d", "=e")]));
}

#[test]
fn decode_skips_empty_segments() {
    assert_eq!(decode("&&a=1&&&b=2&"), owned(&[("a", "1"), ("b", "2")]));
    assert_eq!(decode(""), owned(&[]));
    assert_eq!(decode("&"), owned(&[]));
    assert_eq!(decode("&&&"), owned(&[]));
}

#[test]
fn decode_keeps_order_and_repeats() {
    assert_eq!(
        decode("b=2&a=1&b=2&a=3"),
        owned(&[("b", "2"), ("a", "1"), ("b", "2"), ("a", "3")])
    );
}

#[test]
fn decode_plus_is_space_in_key_and_value() {
    assert_eq!(decode("first+name=John+Q+Public"), owned(&[("first name", "John Q Public")]));
    assert_eq!(decode("a=%2B"), owned(&[("a", "+")]));
    assert_eq!(decode("a=+%2B+"), owned(&[("a", " + ")]));
}

#[test]
fn decode_hex_digits_in_either_case() {
    assert_eq!(decode("a=%2f%2F%3d%3D%26"), owned(&[("a", "//==&")]));
    assert_eq!(decode("%6b%65%79=%76"), owned(&[("key", "v")]));
}

#[test]
fn decode_invalid_escapes_pass_through() {
    assert_eq!(decode("a=%zz"), owned(&[("a", "%zz")]));
    assert_eq!(decode("a=%4"), owned(&[("a", "%4")]));
    assert_eq!(decode("a=%"), owned(&[("a", "%")]));
    assert_eq!(decode("a=100%25%"), owned(&[("a", "100%%")]));
    assert_eq!(decode("%=%"), owned(&[("%", "%")]));
}

#[test]
fn decode_reads_utf8() {
    assert_eq!(decode("caf%C3%A9=%E2%9C%93"), owned(&[("caf\u{e9}", "\u{2713}")]));
    assert_eq!(decode("k=\u{e9}"), owned(&[("k", "\u{e9}")]));
}

#[test]
fn decode_replaces_bytes_that_are_not_utf8() {
    assert_eq!(decode("a=%FF"), owned(&[("a", "\u{fffd}")]));
    assert_eq!(decode("a=x%C3y"), owned(&[("a", "x\u{fffd}y")]));
}

#[test]
fn decode_does_not_hand_back_its_input() {
    let pairs = decode("a%20b=c+d");
    assert_eq!(pairs.len(), 1);
    assert_eq!(pairs[0].0, "a b");
    assert_eq!(pairs[0].1, "c d");
    assert_ne!(pairs[0].0, "a%20b");
}

#[test]
fn round_trip_through_the_encoder() {
    let known: Vec<(&str, Vec<&str>)> = vec![
        ("band", vec!["arctic monkeys", "temper trap"]),
        ("color", vec!["green"]),
        ("sym bols", vec!["a&b=c", "50%", "1+1", ""]),
        ("caf\u{e9}", vec!["\u{2713}", "x y"]),
        ("", vec!["nameless"]),
    ];
    let mut encoder = url::form_urlencoded::Serializer::new(String::new());
    for (key, values) in &known {
        for value in values {
            encoder.append_pair(key, value);
        }
    }
    let encoded: String = encoder.finish();
    let decoded = parse_body(&encoded).expect("present");
    assert_eq!(decoded.len(), known.len());
    let mut control = HashMap::new();
    for (key, values) in &known {
        control.insert(key.to_string(), values.iter().map(|v| v.to_string()).collect::<Vec<String>>());
    }
    assert_eq!(to_hash_map(&decoded), control);
    for (place, (key, values)) in known.iter().enumerate() {
        assert_eq!(decoded.entries()[place].0, *key);
        let expected: Vec<String> = values.iter().map(|v| v.to_string()).collect();
        assert_eq!(decoded.get(key), Some(&expected));
    }
}

#[test]
fn round_trip_interleaved_keys() {
    let pairs = [("a", "1"), ("b", "x y"), ("a", "2"), ("b", "&"), ("a", "3")];
    let mut encoder = url::form_urlencoded::Serializer::new(String::new());
    for (key, value) in &pairs {
        encoder.append_pair(key, value);
    }
    let encoded: String = encoder.finish();
    assert_eq!(decode(&encoded), owned(&pairs));
    let decoded = parse_query(Some(&encoded)).expect("present");
    assert_eq!(
        to_hash_map(&decoded),
        expect(&[("a", &["1", "2", "3"]), ("b", &["x y", "&"])])
    );
}

#[test]
fn create_param_hashmap_is_decode_then_combine() {
    let input = "k=v&k=w&j=%41";
    let direct = create_param_hashmap(input).expect("present");
    let stepwise = urlencoded::combine_duplicates(decode(input));
    assert_eq!(direct.entries(), stepwise.entries());
    assert_eq!(to_hash_map(&direct), expect(&[("k", &["v", "w"]), ("j", &["A"])]));
}

#[test]
fn mixin_parses_query_and_body() {
    let request = RequestParts {
        query: Some("a=b&a=c".to_string()),
        body: "name=John%20Doe&flag".to_string(),
    };
    let query = request.parse_urlencoded_query().expect("present");
    assert_eq!(to_hash_map(&query), expect(&[("a", &["b", "c"])]));
    let body = request.parse_urlencoded_body().expect("present");
    assert_eq!(to_hash_map(&body), expect(&[("name", &["John Doe"]), ("flag", &[""])]));
}

#[test]
fn mixin_absent_and_empty() {
    let request = RequestParts { query: None, body: String::new() };
    assert!(request.parse_urlencoded_query().is_none());
    assert!(request.parse_urlencoded_body().is_none());
    let request = RequestParts { query: Some(String::new()), body: "x".to_string() };
    assert!(request.parse_urlencoded_query().is_none());
    let body = request.parse_urlencoded_body().expect("present");
    assert_eq!(to_hash_map(&body), expect(&[("x", &[""])]));
}
