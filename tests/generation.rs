use text_generator::dev_fn::{clean_text, count_document, prepare_text};
use text_generator::model::{FrequencyModel, ModelError};
use text_generator::user_fn::{
    candidates, context_of, generate_level_1_text, generate_text, has_prefix, make_choices,
    make_first_choice,
};
use text_generator::{parse_u8, Config, DEPTH_TOO_LARGE, DEPTH_TOO_SMALL, NOT_AN_INTEGER, NOT_ENOUGH_ARGUMENTS};

fn model_of(pairs: &[(&str, u64)]) -> FrequencyModel {
    let mut m = FrequencyModel::new();
    for (k, c) in pairs {
        m.add(k.to_string(), *c);
    }
    m
}

#[test]
fn prefix_range_matches_brute_force() {
    let m = count_document("abc abd bca ab aab", 3);
    for p in ["", "a", "ab", "abc", "b", " ", "z", "bca"] {
        let got: Vec<String> = candidates(&m, p).into_iter().map(|e| e.0).collect();
        let want: Vec<String> =
            m.entries().iter().filter(|e| e.0.starts_with(p)).map(|e| e.0.clone()).collect();
        let mut g = got.clone();
        g.sort();
        let mut w = want.clone();
        w.sort();
        assert_eq!(g, w);
        for k in &got {
            assert!(candidates(&m, p).iter().any(|e| &e.0 == k && e.1 == m.get(k)));
        }
    }
}

#[test]
fn weighted_sampling_is_proportional() {
    let m = model_of(&[("A", 1), ("B", 3)]);
    let mut a = 0u32;
    let mut b = 0u32;
    for _ in 0..10000 {
        match make_first_choice(&m, "").unwrap().as_str() {
            "A" => a += 1,
            "B" => b += 1,
            other => panic!("unexpected key {other}"),
        }
    }
    assert!(a > 2000 && a < 3000, "a = {a}");
    assert!(b > 7000 && b < 8000, "b = {b}");
}

#[test]
fn level_one_generation_uses_only_model_keys() {
    let m = model_of(&[("x", 1), ("y", 1)]);
    let text = generate_level_1_text(&m, 4000).unwrap();
    assert_eq!(text.chars().count(), 4000);
    assert!(text.chars().all(|c| c == 'x' || c == 'y'));
    let xs = text.chars().filter(|c| *c == 'x').count();
    assert!(xs > 1700 && xs < 2300, "xs = {xs}");
}

#[test]
fn level_one_generation_of_empty_model_fails() {
    let m = FrequencyModel::new();
    assert_eq!(generate_level_1_text(&m, 10).err(), Some(ModelError::LookupExhausted));
    assert_eq!(generate_level_1_text(&m, 0).unwrap(), "");
}

#[test]
fn absent_prefix_is_lookup_exhausted() {
    let m = model_of(&[("xy", 2), ("y ", 1), (" x", 1)]);
    assert_eq!(make_first_choice(&m, "z").err(), Some(ModelError::LookupExhausted));
    assert_eq!(make_choices(&m, "z").err(), Some(ModelError::LookupExhausted));
    assert!(candidates(&m, "z").is_empty());
    let no_space = model_of(&[("xy", 2)]);
    assert_eq!(generate_text(&no_space, 2, 5).err(), Some(ModelError::LookupExhausted));
}

#[test]
fn next_symbol_is_last_character_of_key() {
    let m = model_of(&[("xy", 2)]);
    assert_eq!(make_choices(&m, "x").unwrap(), "y");
    assert_eq!(make_first_choice(&m, "x").unwrap(), "xy");
}

#[test]
fn next_symbol_is_last_grapheme_cluster() {
    // "e" followed by a combining acute accent is one unit of two characters
    let m = model_of(&[("xe\u{301}", 1)]);
    assert_eq!(make_choices(&m, "x").unwrap(), "e\u{301}");
    let walk = generate_text(&model_of(&[(" x", 1), ("xe\u{301}", 1), ("e\u{301} ", 1)]), 2, 3).unwrap();
    assert_eq!(walk, "  xe\u{301} x");
}

#[test]
fn generation_with_no_draws_is_the_seed() {
    let m = model_of(&[(" a", 3)]);
    assert_eq!(generate_text(&m, 2, 0).unwrap(), "  a");
}

#[test]
fn dead_end_after_the_seed_is_lookup_exhausted() {
    let m = model_of(&[(" a", 1)]);
    assert_eq!(generate_text(&m, 2, 1).err(), Some(ModelError::LookupExhausted));
}

#[test]
fn markov_walk_follows_the_model() {
    let m = count_document(" xy xy xy ", 2);
    let text = generate_text(&m, 2, 50).unwrap();
    assert_eq!(text.chars().count(), 1 + 2 + 50);
    assert!(text.starts_with("  x"));
    let cs: Vec<char> = text.chars().collect();
    for w in cs[1..].windows(2) {
        let key: String = w.iter().collect();
        assert!(m.get(&key) > 0, "unseen window {key:?}");
    }
}

#[test]
fn deeper_walk_uses_longer_context() {
    let m = count_document(" abc abd abc ", 3);
    let text = generate_text(&m, 3, 30).unwrap();
    let cs: Vec<char> = text.chars().collect();
    assert_eq!(cs.len(), 1 + 3 + 30);
    for w in cs[1..].windows(3) {
        let key: String = w.iter().collect();
        assert!(m.get(&key) > 0, "unseen window {key:?}");
    }
}

#[test]
fn tail_and_prefix_helpers() {
    assert_eq!(context_of("hello", 2), "lo");
    assert_eq!(context_of("hi", 5), "hi");
    assert_eq!(context_of("\u{430}\u{431}\u{432}", 1), "\u{432}");
    assert_eq!(context_of("ae\u{301}", 1), "e\u{301}");
    assert!(has_prefix("abc", "ab"));
    assert!(has_prefix("abc", ""));
    assert!(!has_prefix("abc", "b"));
    assert!(!has_prefix("a", "ab"));
}

#[test]
fn text_is_lowercased_and_cleaned() {
    let raw = "  Привет, МИР!\n\n-Да -- нет\tЁж  ";
    assert_eq!(prepare_text(raw), "привет мир да нетёж");
    assert_eq!(prepare_text("ABC"), "");
    assert_eq!(prepare_text("ЁЛКА"), "ёлка");
    assert_eq!(clean_text("а\nб  в"), "а б в");
    assert_eq!(clean_text(""), "");
}

#[test]
fn config_reads_depth_level() {
    let args = |s: &[&str]| s.iter().map(|a| a.to_string()).collect::<Vec<String>>();
    assert_eq!(Config::build(&args(&["prog"]), false).err(), Some(NOT_ENOUGH_ARGUMENTS));
    assert_eq!(Config::build(&args(&["prog", "x"]), false).err(), Some(NOT_AN_INTEGER));
    assert_eq!(Config::build(&args(&["prog", "300"]), false).err(), Some(NOT_AN_INTEGER));
    assert_eq!(Config::build(&args(&["prog", "0"]), false).err(), Some(DEPTH_TOO_SMALL));
    assert_eq!(Config::build(&args(&["prog", "21"]), false).err(), Some(DEPTH_TOO_LARGE));
    let c = Config::build(&args(&["prog", "20"]), true).unwrap();
    assert_eq!(c.depth_level, 20);
    assert!(c.dev_mode);
    let c = Config::build(&args(&["prog", "+3", "extra"]), false).unwrap();
    assert_eq!(c.depth_level, 3);
    assert!(!c.dev_mode);
}

#[test]
fn decimal_parsing_matches_std() {
    for s in ["", "+", "-1", "0", "007", "+12", "255", "256", "99999", "1a", " 1", "٣"] {
        assert_eq!(parse_u8(s), s.parse::<u8>().ok(), "input {s:?}");
    }
}
