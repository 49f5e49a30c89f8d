use url_encoded_data::UrlEncodedData;

fn s(x: &str) -> String {
    x.to_string()
}

#[test]
fn test_can_construct_instance() {
    let url_1 = "https://abc.com/?a=1&b=2&c=3&c=4&key_without_value&=value_without_key";
    let q = UrlEncodedData::parse_from_data_str(url_1);
    println!("got qs: {}", q.to_string_of_original_order());
}

#[test]
fn test_qs() {
    let qs = "a=1&b=2&c=3&c=4&key_without_value&=value_without_key".to_string();
    for s in [
        qs.as_str(),
        ("https://abc.com/?".to_string() + qs.as_str()).as_str(),
        ("https://abc.com/?????".to_string() + qs.as_str()).as_str(),
    ]
    .iter()
    {
        let q = UrlEncodedData::parse_from_data_str(s);
        println!("got qs: {}", q.to_string_of_original_order());

        let pairs_expected_as_str = [
            ("a", "1"),
            ("b", "2"),
            ("c", "3"),
            ("c", "4"),
            ("key_without_value", ""),
            ("", "value_without_key"),
        ];

        for (k, v) in q.as_pairs().iter().map(|(k, v)| (k.as_str(), v.as_str())) {
            assert!(pairs_expected_as_str.contains(&(k, v)));
        }

        for (i, (k, v)) in q.as_pairs_of_original_order().iter().enumerate() {
            let (k_, v_) = pairs_expected_as_str[i];
            assert_eq!(k.as_str(), k_);
            assert_eq!(v.as_str(), v_);
        }

        let map_of_multiple_values_expected: Vec<(&str, Vec<&str>)> = vec![
            ("a", vec!["1"]),
            ("b", vec!["2"]),
            ("c", vec!["3", "4"]),
            ("key_without_value", vec![""]),
            ("", vec!["value_without_key"]),
        ];
        println!("as_map_of_single_key_to_multiple_values");
        let map = q.as_map_of_single_key_to_multiple_values();
        assert_eq!(map.len(), 5);

        for (k1, v1) in map {
            let v2 = &map_of_multiple_values_expected
                .iter()
                .find(|(k, _)| *k == k1.as_str())
                .unwrap()
                .1;
            for (i, v2i) in v2.iter().enumerate() {
                assert_eq!(v1[i].as_str(), *v2i);
            }
        }

        let map_of_first_occurrence_value_expected: Vec<(&str, &str)> = vec![
            ("a", "1"),
            ("b", "2"),
            ("c", "3"),
            ("key_without_value", ""),
            ("", "value_without_key"),
        ];
        let map = q.as_map_of_single_key_to_first_occurrence_value();
        assert_eq!(map.len(), 5);
        for (k1, v1) in map {
            let v2 = map_of_first_occurrence_value_expected
                .iter()
                .find(|(k, _)| *k == k1.as_str())
                .unwrap()
                .1;
            assert_eq!(v1.as_str(), v2);
        }

        let map_of_last_occurrence_value_expected: Vec<(&str, &str)> = vec![
            ("a", "1"),
            ("b", "2"),
            ("c", "4"),
            ("key_without_value", ""),
            ("", "value_without_key"),
        ];
        println!("as_map_of_single_key_to_last_occurrence_value");
        let map = q.as_map_of_single_key_to_last_occurrence_value();
        assert_eq!(map.len(), 5);

        for (k1, v1) in map {
            let v2 = map_of_last_occurrence_value_expected
                .iter()
                .find(|(k, _)| *k == k1.as_str())
                .unwrap()
                .1;
            assert_eq!(v1.as_str(), v2);
        }
    }
}

#[test]
fn test_done() {
    let qs = "a=1&b=2&c=3&c=4&key_without_value&=value_without_key";

    let q = UrlEncodedData::parse_from_data_str(qs)
        .set_one("a", "100")
        .set_one("b", "200");

    assert_eq!(q.get_first("a").unwrap(), "100");
    assert_eq!(q.get_first("b").unwrap(), "200");
}

#[test]
fn test_delete() {
    let s = "a=1&b=2&c=3&c=4";
    let mut q = UrlEncodedData::parse_from_data_str(s);
    println!("got qs: {}", q.to_string_of_original_order());

    assert_eq!(q.get_first("c").unwrap(), "3");
    assert_eq!(q.get_last("c").unwrap(), "4");
    q = q.delete("c");
    println!("got qs: {}", q.to_string_of_original_order());
    assert_eq!(q.get("c"), None);
    assert_eq!(q.get_first("c"), None);
    assert_eq!(q.get_last("c"), None);
    //
    assert_eq!(q.get_first("a").unwrap(), "1");
    assert_eq!(q.get_first("b").unwrap(), "2");
    assert_eq!(q.get_first("non-exist"), None);
}

#[test]
fn multiplicity_preserved() {
    let q = UrlEncodedData::parse_from_data_str("a=1&a=2&a=3");
    assert_eq!(q.get_multiple_values("a").unwrap(), &vec![s("1"), s("2"), s("3")]);
    assert_eq!(q.len(), 3);
    let pairs = q.as_pairs_of_original_order();
    assert_eq!(pairs, vec![(s("a"), s("1")), (s("a"), s("2")), (s("a"), s("3"))]);
}

#[test]
fn missing_key_reports_not_found() {
    let q = UrlEncodedData::parse_from_data_str("a=1&a=2&a=3");
    assert_eq!(q.get_multiple_values("non-exist"), None);
    assert_eq!(q.get("non-exist"), None);
    assert_eq!(q.get_last_occurrence_value("not-existed-key"), None);
}

#[test]
fn associated_stringify_matches_free_function() {
    let pairs = vec![(s("a"), s("b")), (s("c"), s("d"))];
    assert_eq!(UrlEncodedData::stringify(&pairs), "a=b&c=d");
    assert_eq!(UrlEncodedData::stringify(&pairs), url_encoded_data::stringify(&pairs));
}

#[test]
fn iter_and_string_pairs_agree_with_as_pairs() {
    let q = UrlEncodedData::parse_from_data_str("a=1&b=2&b=3");
    assert_eq!(q.iter(), q.as_pairs());
    assert_eq!(q.as_string_pairs(), q.as_pairs());
}

#[test]
fn first_and_last_occurrence() {
    let q = UrlEncodedData::parse_from_data_str("c=3&c=4");
    assert_eq!(q.get_first_occurrence_value("c").unwrap(), "3");
    assert_eq!(q.get_last_occurrence_value("c").unwrap(), "4");
}

#[test]
fn entry_without_equals_sign() {
    let q = UrlEncodedData::parse_from_data_str("key_without_value");
    assert_eq!(q.as_pairs(), vec![(s("key_without_value"), s(""))]);
}

#[test]
fn entry_without_key() {
    let q = UrlEncodedData::parse_from_data_str("=value_without_key");
    assert_eq!(q.as_pairs(), vec![(s(""), s("value_without_key"))]);
}

#[test]
fn prefix_preserved_on_reserialization() {
    let q = UrlEncodedData::parse_from_data_str("https://h/?a=1");
    assert_eq!(q.to_string_of_original_order(), "https://h/?a=1");
}

#[test]
fn original_order_replay_after_mutation() {
    let q = UrlEncodedData::parse_from_data_str("q=rust&ei=code").set_one("q", "rust-lang");
    assert_eq!(q.to_string_of_original_order(), "q=rust-lang&ei=code");
}

#[test]
fn sorted_order_is_deterministic() {
    let q1 = UrlEncodedData::parse_from_data_str("b=2&a=1&c=3");
    let q2 = UrlEncodedData::parse_from_data_str("c=9&b=8&a=7");
    let expected = vec![s("a"), s("b"), s("c")];
    assert_eq!(q1.keys_of_sorted_order(), expected);
    assert_eq!(q2.keys_of_sorted_order(), expected);

    let q3 = UrlEncodedData::parse_from_data_str("c=1").push("a", "2").push("b", "3");
    assert_eq!(q3.keys_of_sorted_order(), expected);
    assert_eq!(q3.to_string_of_sorted_order(), "a=2&b=3&c=1");
}

#[test]
fn delete_removes_all_values() {
    let q = UrlEncodedData::parse_from_data_str("a=1&c=3&c=4").delete("c");
    assert_eq!(q.get_multiple_values("c"), None);
    assert_eq!(q.get("c"), None);
    assert_eq!(q.get_first_occurrence_value("c"), None);
    assert_eq!(q.get_last_occurrence_value("c"), None);
}

#[test]
fn empty_input_makes_empty_store() {
    let q = UrlEncodedData::parse_from_data_str("");
    assert_eq!(q.len(), 0);
    assert_eq!(q.keys_length(), 0);
    assert_eq!(q.to_string(), "");
    assert_eq!(q.to_string_of_original_order(), "");
    assert_eq!(q.to_string_of_sorted_order(), "");
}

#[test]
fn set_replaces_whole_value_list() {
    let qs = "a=1&b=2&c=3&c=4&key_without_value&=value_without_key";
    let q = UrlEncodedData::parse_from_data_str(qs).set("a", &vec![s("100"), s("200")]);
    assert_eq!(q.get("a").unwrap(), vec![s("100"), s("200")]);
}

#[test]
fn push_appends_or_creates() {
    let qs = "a=1&b=2&c=3&c=4&key_without_value&=value_without_key";
    let q = UrlEncodedData::parse_from_data_str(qs)
        .push("a", "100")
        .push("hello", "world");
    assert_eq!(q.get("a").unwrap(), vec![s("1"), s("100")]);
    assert_eq!(q.get("hello").unwrap(), vec![s("world")]);
    assert_eq!(q.get_first("hello").unwrap(), "world");
}

#[test]
fn clear_keeps_prefix_and_ledger() {
    let q = UrlEncodedData::parse_from_data_str("https://x/?b=2&a=1");
    assert_eq!(q.len(), 2);
    let q = q.clear();
    assert_eq!(q.len(), 0);
    assert_eq!(q.keys_length(), 0);
    assert_eq!(q.to_string(), "https://x/?");
    // The arrival ledger survives a clear: re-added keys replay their old
    // original-order positions.
    let q = q.push("a", "9").push("b", "8");
    assert_eq!(q.to_string_of_original_order(), "https://x/?b=8&a=9");
}

#[test]
fn lengths_and_keys() {
    let q = UrlEncodedData::parse_from_data_str("a=1&b=2&c=3&c=4&d=5");
    assert_eq!(q.len(), 5);
    assert_eq!(q.keys_length(), 4);
    let keys = q.keys();
    assert!(keys.contains(&s("a")));
    assert!(keys.contains(&s("b")));
    assert!(keys.contains(&s("c")));
    assert!(keys.contains(&s("d")));
    assert!(!keys.contains(&s("e")));
}

#[test]
fn keys_in_both_orders() {
    let q = UrlEncodedData::parse_from_data_str("c=3&b=2&a=1&c=4&d=5");
    assert_eq!(q.keys_of_original_order(), vec![s("c"), s("b"), s("a"), s("d")]);
    assert_eq!(q.keys_of_sorted_order(), vec![s("a"), s("b"), s("c"), s("d")]);
}

#[test]
fn empty_value_list_hides_key_from_pairs() {
    let q = UrlEncodedData::parse_from_data_str("a=1").set("b", &Vec::new());
    assert_eq!(q.get("b").unwrap(), Vec::<String>::new());
    assert_eq!(q.get_first("b"), None);
    assert_eq!(q.get_last("b"), None);
    assert_eq!(q.len(), 1);
    assert_eq!(q.keys_length(), 2);
    assert_eq!(q.as_pairs(), vec![(s("a"), s("1"))]);
    assert_eq!(q.to_string(), "a=1");
}

#[test]
fn mut_done_hands_back_shared_view() {
    let mut q = UrlEncodedData::parse_from_data_str("a=1");
    let view = q.mut_done();
    assert_eq!(view.get_first("a").unwrap(), "1");
}

#[test]
fn to_string_after_set_one() {
    let q = UrlEncodedData::parse_from_data_str("https://google.com/?q=rust").set_one(
        "q",
        "rust-lang",
    );
    assert_eq!(q.to_string(), "https://google.com/?q=rust-lang");
    assert_eq!(q.to_string_of_original_order(), "https://google.com/?q=rust-lang");
}
