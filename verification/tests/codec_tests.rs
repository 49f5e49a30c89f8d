use url_encoded_data::extract_url_encoded_string;
use url_encoded_data::split_url_encoded_string;
use url_encoded_data::UrlEncodedData;
use url_encoded_data::UrlEncodedDataPairScanner;

fn s(x: &str) -> String {
    x.to_string()
}

fn pairs_of(items: &[(&str, &str)]) -> Vec<(String, String)> {
    items.iter().map(|(k, v)| (s(k), s(v))).collect()
}

#[test]
fn extract_finds_data_segment() {
    let qs = "a=1&b=2&c=3&c=4&key_without_value&=value_without_key";
    assert_eq!(extract_url_encoded_string(qs), qs);
    let url = "http://abc.com/?".to_string() + qs;
    assert_eq!(extract_url_encoded_string(&url), qs);
    let url = "http://abc.com/?????".to_string() + qs;
    assert_eq!(extract_url_encoded_string(&url), qs);
}

#[test]
fn split_prefix_and_data() {
    assert_eq!(
        split_url_encoded_string("https://google.com/?q=rust"),
        ("https://google.com/?", "q=rust")
    );
    assert_eq!(split_url_encoded_string(""), ("", ""));
    assert_eq!(split_url_encoded_string("?"), ("?", ""));
    assert_eq!(split_url_encoded_string("q=rust"), ("", "q=rust"));
    assert_eq!(split_url_encoded_string("a??b=1"), ("a?", "b=1"));
}

#[test]
fn stringify_plain_pairs() {
    assert_eq!(url_encoded_data::stringify(&pairs_of(&[("a", "b"), ("c", "d")])), "a=b&c=d");
}

#[test]
fn stringify_escapes_unicode() {
    assert_eq!(
        url_encoded_data::stringify(&pairs_of(&[("hello", "你好"), ("world", "世界")])),
        "hello=%E4%BD%A0%E5%A5%BD&world=%E4%B8%96%E7%95%8C"
    );
}

#[test]
fn stringify_escapes_reserved_bytes() {
    assert_eq!(
        url_encoded_data::stringify(&pairs_of(&[("foo", "bar & baz"), ("saison", "Été+hiver")])),
        "foo=bar+%26+baz&saison=%C3%89t%C3%A9%2Bhiver"
    );
}

#[test]
fn stringify_empty_sequence_is_empty() {
    assert_eq!(url_encoded_data::stringify(&Vec::new()), "");
}

#[test]
fn round_trip_of_canonical_pairs() {
    let pairs = pairs_of(&[("a", "1"), ("b.c", "x-y_z*"), ("", "v"), ("k", "")]);
    let encoded = url_encoded_data::stringify(&pairs);
    let decoded = UrlEncodedData::parse_from_data_str(&encoded).as_pairs_of_original_order();
    assert_eq!(decoded, pairs);
}

#[test]
fn round_trip_of_reserved_pairs() {
    let pairs = pairs_of(&[("a b", "c&d"), ("x=y", "z?w"), ("plus+", "100%")]);
    let encoded = url_encoded_data::stringify(&pairs);
    let decoded = UrlEncodedData::parse_from_data_str(&encoded).as_pairs_of_original_order();
    assert_eq!(decoded, pairs);
}

#[test]
fn reencoding_is_idempotent() {
    let pairs = pairs_of(&[("a b", "c&d"), ("q", "rust-lang"), ("whole", "世界")]);
    let encoded = url_encoded_data::stringify(&pairs);
    let decoded = UrlEncodedData::parse_from_data_str(&encoded).as_pairs_of_original_order();
    assert_eq!(url_encoded_data::stringify(&decoded), encoded);
}

#[test]
fn non_ascii_round_trip() {
    let pairs = pairs_of(&[("whole", "世界")]);
    let encoded = url_encoded_data::stringify(&pairs);
    assert_eq!(encoded, "whole=%E4%B8%96%E7%95%8C");
    let decoded = UrlEncodedData::parse_from_data_str(&encoded).as_pairs();
    assert_eq!(decoded, pairs);
}

#[test]
fn decodes_lowercase_escapes_and_plus() {
    let q = UrlEncodedData::parse_from_data_str("hello=%e4%bd%a0%e5%a5%bd&greet=hi+there");
    assert_eq!(q.get_first("hello").unwrap(), "你好");
    assert_eq!(q.get_first("greet").unwrap(), "hi there");
}

#[test]
fn malformed_escape_passes_through() {
    let q = UrlEncodedData::parse_from_data_str("a=%zz&b=%4");
    assert_eq!(q.get_first("a").unwrap(), "%zz");
    assert_eq!(q.get_first("b").unwrap(), "%4");
}

#[test]
fn empty_entries_between_separators_are_skipped() {
    let q = UrlEncodedData::parse_from_data_str("a=1&&&b=2&");
    assert_eq!(q.len(), 2);
    assert_eq!(q.as_pairs_of_original_order(), pairs_of(&[("a", "1"), ("b", "2")]));
}

#[test]
fn value_may_contain_equals_sign() {
    let q = UrlEncodedData::parse_from_data_str("k=a=b");
    assert_eq!(q.as_pairs(), pairs_of(&[("k", "a=b")]));
}

#[test]
fn scanner_yields_pairs_in_order() {
    let qs = "a=1&b=2&c=3&c=4&key_without_value&=value_without_key".to_string();
    for input in [
        qs.as_str(),
        ("https://abc.com/?".to_string() + qs.as_str()).as_str(),
        ("https://abc.com/?????".to_string() + qs.as_str()).as_str(),
    ]
    .iter()
    {
        let q = UrlEncodedDataPairScanner::parse_from_str(input);
        assert_eq!(q.original_data_str, qs);
        let pairs_expected_as_str = [
            ("a", "1"),
            ("b", "2"),
            ("c", "3"),
            ("c", "4"),
            ("key_without_value", ""),
            ("", "value_without_key"),
        ];
        for (i, (k, v)) in q.iter().iter().enumerate() {
            let (k_, v_) = pairs_expected_as_str[i];
            assert_eq!(k.as_str(), k_);
            assert_eq!(v.as_str(), v_);
        }
        // Restartable: a second walk sees the same pairs.
        assert_eq!(q.iter(), q.iter());
    }
}

#[test]
fn scanner_first_pair() {
    let q = UrlEncodedDataPairScanner::parse_from_str("abcd=efg");
    let pairs = q.iter();
    assert_eq!(pairs[0], (s("abcd"), s("efg")));
}
