use rewo_world::suggestions::{
    compare_ignore_case, fold, matches_sub_str, StringRange, Suggestion, Suggestions,
    SuggestionsBuilder,
};

fn utf16(s: &str) -> Vec<u16> {
    s.encode_utf16().collect()
}

fn texts(s: &Suggestions) -> Vec<&str> {
    s.list.iter().map(|e| e.text.as_str()).collect()
}


#[test]
fn a_pattern_matches_at_the_start_or_after_a_splitter() {
    assert!(matches_sub_str("val", "valtteri"));
    assert!(matches_sub_str("bar", "foo_bar"));
    assert!(matches_sub_str("b", "a.b"));
    assert!(matches_sub_str("b", "a/b"));
    assert!(!matches_sub_str("oo", "foo_bar"));
}

#[test]
fn a_colon_is_not_a_splitter() {
    assert!(!matches_sub_str("stone", "minecraft:stone"));
}

#[test]
fn an_empty_pattern_matches_everything_including_an_empty_input() {
    assert!(matches_sub_str("", "anything"));
    assert!(matches_sub_str("", ""));
}

#[test]
fn a_pattern_longer_than_its_input_finds_no_splitter_and_fails() {
    assert!(!matches_sub_str("valtteri", "val"));
    assert!(!matches_sub_str("x", ""));
}

#[test]
fn a_trailing_splitter_does_not_run_off_the_end() {
    assert!(!matches_sub_str("x", "a_"));
    assert!(matches_sub_str("", "a_"));
}


#[test]
fn a_suggestion_equal_to_the_remaining_text_is_dropped() {
    let mut b = SuggestionsBuilder::from_str("Steve", 0);
    b.suggest("Steve");
    b.suggest("Steven");
    assert_eq!(texts(&b.build()), ["Steven"]);
}

#[test]
fn the_drop_is_case_sensitive_and_measured_against_remaining_not_the_field() {
    let mut b = SuggestionsBuilder::from_str("steve", 0);
    b.suggest("Steve");
    assert_eq!(texts(&b.build()), ["Steve"]);

    let mut b = SuggestionsBuilder::from_str("hi Steve", 3);
    b.suggest("Steve");
    assert!(b.build().is_empty());
}

#[test]
fn every_suggestion_from_one_builder_spans_start_to_the_end_of_the_input() {
    let mut b = SuggestionsBuilder::from_str("hello wo", 6);
    b.suggest("world");
    let s = b.build();
    assert_eq!(s.range, StringRange::between(6, 8));
    assert_eq!(s.list[0].range, StringRange::between(6, 8));
}


#[test]
fn an_empty_set_carries_the_zero_range_rather_than_the_builders() {
    let b = SuggestionsBuilder::from_str("hello wo", 6);
    let s = b.build();
    assert!(s.is_empty());
    assert_eq!(s.range, StringRange::at(0));
}

#[test]
fn the_sort_is_case_insensitive_so_capitals_do_not_come_first() {
    let mut b = SuggestionsBuilder::from_str("", 0);
    for n in ["zeta", "Alpha", "beta"] {
        b.suggest(n);
    }
    assert_eq!(texts(&b.build()), ["Alpha", "beta", "zeta"]);
}

#[test]
fn duplicate_suggestions_collapse() {
    let mut b = SuggestionsBuilder::from_str("", 0);
    b.suggest("a");
    b.suggest("a");
    b.suggest("b");
    assert_eq!(texts(&b.build()), ["a", "b"]);
}

#[test]
fn merging_two_sources_expands_both_to_the_wider_range() {
    let command = utf16("say hello");
    let wide = Suggestions {
        range: StringRange::between(0, 9),
        list: vec![Suggestion::new(StringRange::between(0, 9), "tell hello")],
    };
    let narrow = Suggestions {
        range: StringRange::between(4, 9),
        list: vec![Suggestion::new(StringRange::between(4, 9), "helium")],
    };
    let merged = Suggestions::merge(&command, vec![wide, narrow]);
    assert_eq!(merged.range, StringRange::between(0, 9));
    assert_eq!(texts(&merged), ["say helium", "tell hello"]);
}

#[test]
fn merging_one_source_returns_it_untouched() {
    let out_of_order = Suggestions {
        range: StringRange::between(0, 1),
        list: vec![
            Suggestion::new(StringRange::between(0, 1), "z"),
            Suggestion::new(StringRange::between(0, 1), "a"),
        ],
    };
    let merged = Suggestions::merge(&utf16("x"), vec![out_of_order.clone()]);
    assert_eq!(merged, out_of_order);
}


#[test]
fn applying_a_suggestion_splices_it_over_its_range() {
    let field = utf16("hello wo there");
    let s = Suggestion::new(StringRange::between(6, 8), "world");
    assert_eq!(
        String::from_utf16_lossy(&s.apply(&field)),
        "hello world there"
    );
}

#[test]
fn a_whole_string_range_replaces_everything() {
    let field = utf16("wo");
    let s = Suggestion::new(StringRange::between(0, 2), "world");
    assert_eq!(String::from_utf16_lossy(&s.apply(&field)), "world");
}

#[test]
fn apply_indexes_utf16_units_not_scalars() {
    let field = utf16("\u{1F600}ab");
    assert_eq!(field.len(), 4);
    let s = Suggestion::new(StringRange::between(2, 4), "XY");
    assert_eq!(String::from_utf16_lossy(&s.apply(&field)), "\u{1F600}XY");
}


#[test]
fn the_comparator_orders_ascii_case_insensitively_and_by_length_on_a_tie() {
    assert_eq!(compare_ignore_case("abc", "ABD"), std::cmp::Ordering::Less);
    assert_eq!(compare_ignore_case("ABC", "abc"), std::cmp::Ordering::Equal);
    assert_eq!(compare_ignore_case("abc", "abcd"), std::cmp::Ordering::Less);
    assert_eq!(compare_ignore_case("", "a"), std::cmp::Ordering::Less);
    assert_eq!(compare_ignore_case("A_b", "AZb"), std::cmp::Ordering::Less);
}

#[test]
fn the_port_agrees_with_the_brigadier_jar() {
    let build = |input: &str, start: usize, offered: &[&str]| -> (StringRange, Vec<String>) {
        let mut b = SuggestionsBuilder::from_str(input, start);
        for t in offered {
            b.suggest(t);
        }
        let s = b.build();
        (s.range, s.list.iter().map(|e| e.text.clone()).collect())
    };
    let cases: &[(&str, usize, &[&str], (usize, usize), &[&str])] = &[
        ("Steve", 0, &["Steve", "Steven"], (0, 5), &["Steven"]),
        ("steve", 0, &["Steve"], (0, 5), &["Steve"]),
        ("hi Steve", 3, &["Steve"], (0, 0), &[]),
        ("", 0, &["zeta", "Alpha", "beta"], (0, 0), &["Alpha", "beta", "zeta"]),
        ("", 0, &["a", "a", "b"], (0, 0), &["a", "b"]),
        ("", 0, &["AZb", "A_b"], (0, 0), &["A_b", "AZb"]),
        ("hello wo", 6, &[], (0, 0), &[]),
    ];
    for (input, start, offered, (rs, re), want) in cases {
        let (range, got) = build(input, *start, offered);
        let got: Vec<&str> = got.iter().map(String::as_str).collect();
        assert_eq!(
            (range, got.as_slice()),
            (StringRange::between(*rs, *re), *want),
            "BUILD {input:?} start {start}"
        );
    }

    let command: Vec<u16> = "say hello".encode_utf16().collect();
    let merged = Suggestions::merge(
        &command,
        vec![
            Suggestions {
                range: StringRange::between(0, 9),
                list: vec![Suggestion::new(StringRange::between(0, 9), "tell hello")],
            },
            Suggestions {
                range: StringRange::between(4, 9),
                list: vec![Suggestion::new(StringRange::between(4, 9), "helium")],
            },
        ],
    );
    assert_eq!(merged.range, StringRange::between(0, 9));
    assert_eq!(texts(&merged), ["say helium", "tell hello"]);

    assert_eq!(
        String::from_utf16_lossy(
            &Suggestion::new(StringRange::between(6, 8), "world").apply(&utf16("hello wo there"))
        ),
        "hello world there"
    );
    assert_eq!(
        String::from_utf16_lossy(
            &Suggestion::new(StringRange::between(0, 2), "world").apply(&utf16("wo"))
        ),
        "world"
    );

    for (a, b, want) in [
        ("abc", "ABD", -1),
        ("ABC", "abc", 0),
        ("abc", "abcd", -1),
        ("", "a", -1),
        ("A_b", "AZb", -1),
        ("_", "a", -1),
        ("_", "A", -1),
        ("Alpha", "beta", -1),
        ("\u{131}", "i", 0),
        ("\u{131}", "I", 0),
        ("\u{df}", "\u{1e9e}", 0),
    ] {
        let got = match compare_ignore_case(a, b) {
            std::cmp::Ordering::Less => -1,
            std::cmp::Ordering::Equal => 0,
            std::cmp::Ordering::Greater => 1,
        };
        assert_eq!(got, want, "CMP {a:?} {b:?}");
    }
}

#[test]
fn a_multi_unit_uppercase_mapping_leaves_its_character_alone() {
    assert_eq!(fold('ß' as u16, true), 'ß' as u16);
    assert_eq!(fold('a' as u16, true), 'A' as u16);
    assert_eq!(fold('A' as u16, false), 'a' as u16);
    assert_eq!(fold(0xD800, true), 0xD800);
}


#[test]
fn suggest_matching_offers_each_match_in_its_own_casing() {
    let mut b = SuggestionsBuilder::from_str("tell va", 5);
    rewo_world::suggestions::suggest_matching(&["Valtteri", "Bob", "foo_Val", "va"], &mut b);
    let s = b.build();
    assert_eq!(s.range, StringRange::between(5, 7));
    assert_eq!(texts(&s), ["foo_Val", "Valtteri"]);
}

#[test]
fn a_range_knows_its_length_even_reversed() {
    assert_eq!(StringRange::between(2, 7).length(), 5);
    assert_eq!(StringRange::between(7, 2).length(), 0);
    assert!(StringRange::at(3).is_empty());
    assert!(!StringRange::between(3, 4).is_empty());
    assert_eq!(StringRange::default(), StringRange::at(0));
}

#[test]
fn a_builder_clips_its_start_and_remembers_its_input() {
    let b = SuggestionsBuilder::from_str("ab", 9);
    assert_eq!(b.start(), 2);
    assert_eq!(b.remaining(), "");
    assert_eq!(b.input_units(), utf16("ab"));
    let b = SuggestionsBuilder::from_str("x\u{1F600}y", 1);
    assert_eq!(b.remaining(), "\u{1F600}y");
}

#[test]
fn merging_nothing_is_the_empty_set() {
    let merged = Suggestions::merge(&utf16("abc"), vec![]);
    assert!(merged.is_empty());
    assert_eq!(merged.range, StringRange::at(0));
    assert_eq!(Suggestions::empty().range, StringRange::at(0));
}

#[test]
fn a_tooltip_rides_along_and_keeps_two_equal_texts_apart() {
    let mut b = SuggestionsBuilder::from_str("", 0);
    b.suggest_with_tooltip("a", Some("first".to_string()));
    b.suggest_with_tooltip("a", Some("second".to_string()));
    b.suggest_with_tooltip("a", Some("first".to_string()));
    let s = b.build();
    assert_eq!(s.list.len(), 2);
    assert_eq!(s.list[0].tooltip.as_deref(), Some("first"));
    assert_eq!(s.list[1].tooltip.as_deref(), Some("second"));
}

#[test]
fn merging_is_creating_from_the_pooled_first_kept_entries() {
    let command = utf16("say hello");
    let a = Suggestions {
        range: StringRange::between(4, 9),
        list: vec![
            Suggestion::new(StringRange::between(4, 9), "Hi"),
            Suggestion::new(StringRange::between(4, 9), "hey"),
        ],
    };
    let b = Suggestions {
        range: StringRange::between(4, 9),
        list: vec![
            Suggestion::new(StringRange::between(4, 9), "hey"),
            Suggestion::new(StringRange::between(4, 9), "HI"),
            Suggestion::new(StringRange::between(4, 9), "abc"),
        ],
    };
    let pooled = vec![
        Suggestion::new(StringRange::between(4, 9), "Hi"),
        Suggestion::new(StringRange::between(4, 9), "hey"),
        Suggestion::new(StringRange::between(4, 9), "HI"),
        Suggestion::new(StringRange::between(4, 9), "abc"),
    ];
    let merged = Suggestions::merge(&command, vec![a, b]);
    let created = Suggestions::create(&command, pooled);
    assert_eq!(merged, created);
    assert_eq!(texts(&merged), ["abc", "hey", "Hi", "HI"], "equal texts keep the order first met");
}
