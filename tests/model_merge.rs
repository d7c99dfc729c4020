use text_generator::dev_fn::{add_to_map, count_document, count_windows, encode_model, merge_models};
use text_generator::model::{FrequencyModel, ModelError};
use text_generator::user_fn::decode_model;

fn model_of(pairs: &[(&str, u64)]) -> FrequencyModel {
    let mut m = FrequencyModel::new();
    for (k, c) in pairs {
        m.add(k.to_string(), *c);
    }
    m
}

fn units(s: &[&str]) -> Vec<String> {
    s.iter().map(|u| u.to_string()).collect()
}

fn same(a: &FrequencyModel, b: &FrequencyModel) -> bool {
    a.len() == b.len() && a.entries().iter().all(|(k, c)| b.get(k) == *c)
}

#[test]
fn it_adds_to_map() {
    let mut map = model_of(&[("a", 1), ("b", 2), ("c", 3)]);
    let map2 = model_of(&[("a", 1), ("b", 2), ("c", 3)]);
    let map3 = model_of(&[("a", 2), ("b", 4), ("c", 6)]);
    add_to_map(&mut map, map2);
    assert!(same(&map3, &map));

    let mut map = model_of(&[("a", 100), ("b", 21923), ("c", 3123)]);
    let map2 = model_of(&[("a", 146), ("b", 254), ("c", 3123)]);
    let map3 = model_of(&[("a", 246), ("b", 22177), ("c", 6246)]);
    add_to_map(&mut map, map2);
    assert!(same(&map3, &map));
}

#[test]
fn add_keeps_keys_of_both_sides() {
    let mut map = model_of(&[("a", 1)]);
    add_to_map(&mut map, model_of(&[("b", 5)]));
    assert_eq!(map.len(), 2);
    assert_eq!(map.get("a"), 1);
    assert_eq!(map.get("b"), 5);
    assert_eq!(map.get("c"), 0);
    assert_eq!(map.total_count(), 6);
}

#[test]
fn windows_of_xy_xy_at_depth_two() {
    let m = count_windows(&units(&["x", "y", " ", "x", "y"]), 2);
    assert_eq!(m.len(), 3);
    assert_eq!(m.get("xy"), 2);
    assert_eq!(m.get("y "), 1);
    assert_eq!(m.get(" x"), 1);
    assert_eq!(m.total_count(), 4);
}

#[test]
fn document_is_split_into_graphemes() {
    let m = count_document("xy xy", 2);
    assert!(same(&m, &model_of(&[("xy", 2), ("y ", 1), (" x", 1)])));
    // "e" with a combining acute accent is one unit
    let m = count_document("e\u{301}a", 1);
    assert_eq!(m.len(), 2);
    assert_eq!(m.get("e\u{301}"), 1);
    assert_eq!(m.get("a"), 1);
}

#[test]
fn window_count_is_length_minus_level_plus_one() {
    let doc = units(&["a", "b", "a", "b", "a", "c", "d"]);
    for level in 1..=7usize {
        let m = count_windows(&doc, level);
        assert_eq!(m.total_count(), (7 - level + 1) as u64);
    }
    let m = count_windows(&doc, 8);
    assert_eq!(m.len(), 0);
    assert_eq!(m.total_count(), 0);
    let m = count_windows(&Vec::new(), 1);
    assert_eq!(m.len(), 0);
}

#[test]
fn window_of_whole_document() {
    let m = count_windows(&units(&["a", "b", "c"]), 3);
    assert_eq!(m.len(), 1);
    assert_eq!(m.get("abc"), 1);
}

#[test]
fn merge_order_does_not_matter() {
    let docs = ["ab ba ab", "ba", "abba", "b a b"];
    let local = || docs.iter().map(|d| count_document(d, 2)).collect::<Vec<_>>();
    let forward = merge_models(local());
    let mut rev = local();
    rev.reverse();
    let backward = merge_models(rev);
    assert!(same(&forward, &backward));

    // two batches merged in either order
    let mut l = local();
    let second = merge_models(l.split_off(2));
    let first = merge_models(l);
    let mut a = FrequencyModel::new();
    add_to_map(&mut a, merge_models(local().split_off(2)));
    add_to_map(&mut a, first);
    let mut b = FrequencyModel::new();
    let mut l = local();
    let second_again = merge_models(l.split_off(2));
    add_to_map(&mut b, merge_models(l));
    add_to_map(&mut b, second_again);
    assert!(same(&a, &b));
    assert!(same(&a, &forward));
    assert_eq!(second.total_count(), 4 + 3);
}

#[test]
fn merge_sums_every_local_key() {
    let parts = vec![model_of(&[("ab", 2), ("bc", 1)]), model_of(&[("ab", 3)]), model_of(&[("cd", 7)])];
    let m = merge_models(parts);
    assert_eq!(m.len(), 3);
    assert_eq!(m.get("ab"), 5);
    assert_eq!(m.get("bc"), 1);
    assert_eq!(m.get("cd"), 7);
    assert_eq!(merge_models(Vec::new()).len(), 0);
}

#[test]
fn model_round_trips_through_json() {
    let m = count_document("xy xy yx", 2);
    let text = encode_model(&m).unwrap();
    let back = decode_model(&text).unwrap();
    assert!(same(&m, &back));
    assert_eq!(text, "{\" x\":1,\" y\":1,\"xy\":2,\"y \":2,\"yx\":1}");
}

#[test]
fn empty_model_encodes_as_empty_object() {
    assert_eq!(encode_model(&FrequencyModel::new()).unwrap(), "{}");
    assert_eq!(decode_model("{}").unwrap().len(), 0);
}

#[test]
fn malformed_model_is_refused() {
    assert_eq!(decode_model("[1, 2]").err(), Some(ModelError::Serialization));
    assert_eq!(decode_model("{\"a\": -1}").err(), Some(ModelError::Serialization));
    assert_eq!(decode_model("{\"a\": 0}").err(), Some(ModelError::Serialization));
    assert_eq!(
        decode_model("{\"a\": 18446744073709551615, \"b\": 1}").err(),
        Some(ModelError::Serialization)
    );
    let m = decode_model("{\"a\": 3, \"b\": 1}").unwrap();
    assert_eq!(m.get("a"), 3);
}

#[test]
fn from_entries_checks_counts() {
    let ok = FrequencyModel::from_entries(vec![("a".to_string(), 1), ("b".to_string(), 2)]).unwrap();
    assert_eq!(ok.total_count(), 3);
    assert!(FrequencyModel::from_entries(vec![("a".to_string(), 0)]).is_none());
    assert!(FrequencyModel::from_entries(vec![("a".to_string(), u64::MAX), ("b".to_string(), 1)]).is_none());
}

#[test]
fn many_keys_share_buckets() {
    let mut m = FrequencyModel::new();
    for round in 1..=3u64 {
        for i in 0..10000u64 {
            m.add(format!("k{i}"), round);
        }
    }
    assert_eq!(m.len(), 10000);
    assert_eq!(m.total_count(), 60000);
    for i in (0..10000u64).step_by(97) {
        assert_eq!(m.get(&format!("k{i}")), 6);
    }
    assert_eq!(m.get("k10000"), 0);
    let back = decode_model(&encode_model(&m).unwrap()).unwrap();
    assert!(same(&m, &back));
}
