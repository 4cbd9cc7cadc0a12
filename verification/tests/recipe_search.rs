use rewo_world::recipe_search::{normalize, SearchEntry};


fn e(names: &[&str], ids: &[(&str, &str)]) -> SearchEntry {
    SearchEntry {
        names: names.iter().map(|s| s.to_lowercase()).collect(),
        ids: ids
            .iter()
            .map(|(a, b)| (a.to_lowercase(), b.to_lowercase()))
            .collect(),
    }
}

fn sword() -> SearchEntry {
    e(&["Diamond Sword"], &[("minecraft", "diamond_sword")])
}

#[test]
fn an_empty_query_skips_the_stage_rather_than_matching_everything() {
    assert!(rewo_world::recipe_search::matches(&sword(), ""));
    let blank = SearchEntry::default();
    assert!(rewo_world::recipe_search::matches(&blank, ""));
    assert!(!rewo_world::recipe_search::matches(&blank, "x"));
}

#[test]
fn a_name_matches_on_any_substring_not_a_prefix() {
    assert!(rewo_world::recipe_search::matches(&sword(), "diamond"));
    assert!(rewo_world::recipe_search::matches(&sword(), "sword"), "not just a prefix");
    assert!(rewo_world::recipe_search::matches(&sword(), "ond sw"), "across the space, too");
    assert!(!rewo_world::recipe_search::matches(&sword(), "gold"));
}

#[test]
fn a_query_without_a_colon_does_not_search_ids() {
    let x = e(&["Wooden Plank"], &[("minecraft", "oak_planks")]);
    assert!(rewo_world::recipe_search::matches(&x, "plank"), "the name matches");
    assert!(!rewo_world::recipe_search::matches(&x, "oak"), "the ID is not searched without a colon");
    assert!(rewo_world::recipe_search::matches(&x, "minecraft:oak"));
}

#[test]
fn both_halves_of_a_colon_query_are_trimmed() {
    let x = e(&["Wooden Plank"], &[("minecraft", "oak_planks")]);
    assert!(rewo_world::recipe_search::matches(&x, "minecraft : oak"));
    assert!(rewo_world::recipe_search::matches(&x, "  minecraft:oak  ".trim()));
    assert!(rewo_world::recipe_search::matches(&x, "minecraft: oak"));
}

#[test]
fn the_first_colon_splits_and_later_ones_do_not() {
    let x = e(&["A"], &[("ns", "a:b")]);
    assert!(rewo_world::recipe_search::matches(&x, "ns:a:b"));
    assert!(!rewo_world::recipe_search::matches(&x, "ns:a:c"));
}

#[test]
fn a_bare_colon_matches_on_the_path_alone() {
    let x = e(&["Wooden Plank"], &[("minecraft", "oak_planks")]);
    assert!(rewo_world::recipe_search::matches(&x, ":oak"), "an empty namespace matches any");
    assert!(!rewo_world::recipe_search::matches(&x, ":gold"));
}

#[test]
fn any_result_item_matching_is_enough() {
    let both = e(
        &["Diamond Sword", "Golden Sword"],
        &[("minecraft", "diamond_sword"), ("minecraft", "golden_sword")],
    );
    assert!(rewo_world::recipe_search::matches(&both, "golden"));
    assert!(rewo_world::recipe_search::matches(&both, "diamond"));
    assert!(rewo_world::recipe_search::matches(&both, "sword"));
    assert!(!rewo_world::recipe_search::matches(&both, "iron"));
}

#[test]
fn the_query_is_lowercased_with_the_root_locale() {
    assert_eq!(normalize("Diamond SWORD"), "diamond sword");
    assert!(rewo_world::recipe_search::matches(&sword(), &normalize("DIAMOND")));
    assert!(!rewo_world::recipe_search::matches(&sword(), "DIAMOND"));
}

