use rewo_world::arith::round_toward;
use rewo_world::stats_screen::{
    column_x, content_band, done_bounds, tab_bar_layout, ItemRow, StatsLabels, StatsModel, StatsTab, COLUMNS,
    DONE, FOOTER_HEIGHT, HEADER_HEIGHT, SORT_FIRST, TAB_GENERAL, TAB_MOBS,
};
use rewo_world::screen::{ScreenKind, Sprite, WidgetKind};
use rewo_world::registry::{Registry, StatRegistries};
use rewo_world::stats::{grouped, java_double_of_twentieths, StatKey, StatsCounter};
use rewo_world::stats_screen::{build_general, build_items, build_mobs};
use rewo_world::lang::Language;

#[test]
fn the_header_is_twenty_four_and_the_footer_is_thirty_three() {
    assert_eq!(HEADER_HEIGHT, 24);
    assert_eq!(FOOTER_HEIGHT, 33);
    assert_eq!(content_band(240), (24, 240 - 57));
    assert_ne!(
        content_band(240),
        (33, 240 - 66),
        "taking DEFAULT_HEADER_AND_FOOTER_HEIGHT for both moves every row"
    );
}

#[test]
fn the_tab_bar_rounds_its_widths_up_to_even_numbers() {
    assert_eq!(tab_bar_layout(320, 3), (14, 98));
    assert!(98 * 3 > 292, "the three tabs are two pixels wider than the band");
    let (x, w) = tab_bar_layout(600, 3);
    assert_eq!(w, round_toward(372 / 3, 2));
    assert_eq!(x, round_toward((600 - 372) / 2, 2));
    assert_eq!(round_toward(97, 2), 98);
    assert_eq!(round_toward(99, 2), 100);
    assert_eq!(round_toward(98, 2), 98, "an exact multiple stays put");
}

#[test]
fn the_done_button_is_centred_by_a_truncating_lerp() {
    assert_eq!(done_bounds(320, 240), (60, 240 - 33 + 6));
    assert_ne!(
        done_bounds(320, 240).1,
        240 - 33 + 7,
        "(int) 6.5 is 6, and rounding would put it a pixel low"
    );
    assert_eq!(done_bounds(321, 240).0, (121.0f32 * 0.5) as i32);
}

#[test]
fn the_column_order_is_not_the_registry_order() {
    assert_eq!(COLUMNS[1], "minecraft:broken");
    assert_eq!(column_x(0), 75);
    assert_eq!(column_x(5), 75 + 200);
}

#[test]
fn a_fresh_column_sorts_descending_and_the_third_click_clears() {
    let mut m = StatsModel::default();
    m.sort_by_column(2);
    assert_eq!((m.sort_column, m.sort_order), (Some(2), -1));
    m.sort_by_column(2);
    assert_eq!((m.sort_column, m.sort_order), (Some(2), 1));
    m.sort_by_column(2);
    assert_eq!((m.sort_column, m.sort_order), (None, 0));
    m.sort_by_column(4);
    assert_eq!((m.sort_column, m.sort_order), (Some(4), -1));
    m.sort_by_column(0);
    assert_eq!((m.sort_column, m.sort_order), (Some(0), -1));
}

fn row(name: &str, order: i32, mined: Option<i32>, used: i32) -> ItemRow {
    let mut counts = [None; 6];
    counts[0] = mined;
    counts[3] = Some(used);
    ItemRow {
        name: name.into(),
        short_name: name.into(),
        item_id: Some(order),
        block_id: mined.map(|_| order),
        counts,
        cells: std::array::from_fn(|c| counts[c].map(|v| v.to_string())),
        order,
    }
}

#[test]
fn the_tie_break_is_reversed_along_with_the_values() {
    let mut m = StatsModel {
        items: vec![row("a", 1, None, 5), row("b", 2, None, 5)],
        ..Default::default()
    };
    m.sort_by_column(3);
    assert_eq!(
        m.items.iter().map(|r| r.order).collect::<Vec<_>>(),
        vec![2, 1],
        "equal counts, descending → the ids reverse too"
    );
    m.sort_by_column(3);
    assert_eq!(m.items.iter().map(|r| r.order).collect::<Vec<_>>(), vec![1, 2]);
}

#[test]
fn a_row_with_no_block_sorts_below_a_real_zero_in_the_mined_column() {
    let mut m = StatsModel {
        items: vec![row("noblock", 1, None, 0), row("zero", 2, Some(0), 0)],
        ..Default::default()
    };
    m.sort_by_column(0);
    assert_eq!(m.items[0].name, "zero", "descending: 0 above -1");
    m.sort_by_column(0);
    assert_eq!(m.items[0].name, "noblock", "ascending: -1 first");
}

#[test]
fn clearing_the_sort_does_not_restore_the_original_order() {
    let mut m = StatsModel {
        items: vec![row("a", 1, None, 1), row("b", 2, None, 9)],
        ..Default::default()
    };
    m.sort_by_column(3);
    assert_eq!(m.items[0].name, "b");
    m.sort_by_column(3);
    m.sort_by_column(3);
    assert_eq!((m.sort_column, m.sort_order), (None, 0));
    assert_eq!(m.items[0].name, "a", "the comparator is a no-op, not an undo");
}

#[test]
fn a_longer_list_sorts_by_value_then_order() {
    let mut m = StatsModel {
        items: vec![
            row("c", 3, None, 2),
            row("a", 1, None, 7),
            row("d", 4, None, 2),
            row("b", 2, None, 0),
        ],
        ..Default::default()
    };
    m.sort_by_column(3);
    assert_eq!(
        m.items.iter().map(|r| r.order).collect::<Vec<_>>(),
        vec![1, 4, 3, 2]
    );
    m.sort_by_column(3);
    assert_eq!(
        m.items.iter().map(|r| r.order).collect::<Vec<_>>(),
        vec![2, 3, 4, 1]
    );
}

#[test]
fn tabs_map_to_their_buttons_and_back() {
    for t in StatsTab::ALL {
        assert_eq!(StatsTab::from_widget(t.widget_id()), Some(t));
    }
    assert_eq!(StatsTab::Mobs.widget_id(), TAB_MOBS);
    assert_eq!(StatsTab::General.widget_id(), TAB_GENERAL);
    assert_eq!(StatsTab::from_widget(0), None);
    assert_eq!(StatsTab::from_widget(4), None);
    assert_eq!(StatsTab::default(), StatsTab::General);
}

#[test]
fn only_loaded_tabs_with_rows_are_active() {
    let mut m = StatsModel::default();
    assert!(m.tab_active(StatsTab::General));
    assert!(!m.tab_active(StatsTab::Items));
    assert!(!m.tab_active(StatsTab::Mobs));
    m.items.push(row("a", 1, None, 1));
    assert!(m.tab_active(StatsTab::Items));
    m.tab = StatsTab::Items;
    assert_eq!(m.row_count(), 2);
    m.loading = true;
    assert!(!m.tab_active(StatsTab::General));
}

fn labels() -> StatsLabels {
    StatsLabels {
        title: "Statistics".to_string(),
        tabs: ["General".to_string(), "Items".to_string(), "Mobs".to_string()],
        pending: "Downloading".to_string(),
        done: "Done".to_string(),
        none: "-".to_string(),
        columns: ["a", "b", "c", "d", "e", "f"].map(|s| s.to_string()),
    }
}

#[test]
fn the_screen_holds_three_tabs_six_sort_buttons_and_done() {
    let mut m = StatsModel::default();
    m.items.push(row("a", 1, None, 1));
    m.tab = StatsTab::Items;
    let s = m.build_screen(&labels(), 320, 240, (22, 30));
    assert_eq!(s.kind, ScreenKind::Stats);
    assert_eq!(s.widgets.len(), 10);
    let (x, tw) = tab_bar_layout(320, 3);
    for i in 0..3 {
        let w = &s.widgets[i];
        assert_eq!(w.id, TAB_GENERAL + i as u32);
        assert_eq!((w.x, w.y, w.width, w.height), (x + tw * i as i32, 0, tw, HEADER_HEIGHT));
        match &w.kind {
            WidgetKind::Sprites { first, label, .. } => {
                assert_eq!(*first, i == 1, "only the items tab is drawn selected");
                assert!(*label);
            }
            _ => panic!("a tab is drawn from its sheets"),
        }
    }
    for c in 0..6 {
        let w = &s.widgets[3 + c];
        assert_eq!(w.id, SORT_FIRST + c as u32);
        assert_eq!((w.x, w.y), (22 + column_x(c) - 18, 31));
        assert!(w.visible);
        match &w.kind {
            WidgetKind::Sprites { overlay, .. } => assert_eq!(*overlay, Some(Sprite::StatColumn(c as u8))),
            _ => panic!("a sort button is drawn from its sheets"),
        }
    }
    let done = &s.widgets[9];
    assert_eq!(done.id, DONE);
    assert_eq!((done.x, done.y), done_bounds(320, 240));
    assert!(s.close_on_esc && s.pause);
    m.tab = StatsTab::General;
    let s = m.build_screen(&labels(), 320, 240, (22, 30));
    assert!(!s.widgets[3].visible, "the sort buttons live on the items tab");
}

#[test]
fn item_rows_come_from_both_registries_sorted_by_item_id() {
    let reg = StatRegistries::from_pairs(
        &[
            (0, "minecraft:mined"),
            (1, "minecraft:crafted"),
            (2, "minecraft:used"),
            (3, "minecraft:broken"),
            (4, "minecraft:picked_up"),
            (5, "minecraft:dropped"),
        ],
        &[],
        &[(0, "minecraft:air"), (1, "minecraft:stone"), (2, "minecraft:dirt"), (9, "minecraft:lava")],
    )
    .unwrap();
    let items = Registry::from_pairs(&[(0, "minecraft:air"), (1, "minecraft:stone"), (5, "minecraft:stick"), (7, "minecraft:dirt")]).unwrap();
    let mut c = StatsCounter::default();
    c.apply(&[
        (StatKey::new(0, 1), 3),
        (StatKey::new(1, 5), 4),
        (StatKey::new(0, 0), 9),
        (StatKey::new(5, 7), 2),
        (StatKey::new(0, 9), 1),
    ]);
    let rows = build_items(&c, &reg, &items);
    let names: Vec<&str> = rows.iter().map(|r| r.name.as_str()).collect();
    assert_eq!(names, vec!["minecraft:stone", "minecraft:stick", "minecraft:dirt", "minecraft:lava"], "air is dropped");
    assert_eq!(rows[0].short_name, "stone");
    assert_eq!((rows[0].item_id, rows[0].block_id), (Some(1), Some(1)));
    assert_eq!(rows[0].counts, [Some(3), Some(0), Some(0), Some(0), Some(0), Some(0)]);
    assert_eq!(rows[0].cells[0].as_deref(), Some("3"));
    assert_eq!(rows[1].block_id, None);
    assert_eq!(rows[1].counts[0], None, "no block, no mined cell");
    assert_eq!(rows[1].cells[0], None);
    assert_eq!(rows[1].counts[2], Some(4), "crafted sticks");
    assert_eq!(rows[2].counts[5], Some(2), "dropped dirt");
    assert_eq!(rows[3].item_id, None);
    assert_eq!(rows[3].order, 4 + 9, "a block-only row sorts after every item");
}

#[test]
fn a_registry_refuses_a_repeated_id_or_name() {
    assert!(Registry::from_pairs(&[(1, "a"), (1, "b")]).is_none());
    assert!(Registry::from_pairs(&[(1, "a"), (2, "a")]).is_none());
    let r = Registry::from_pairs(&[(1, "a"), (2, "b")]).unwrap();
    assert_eq!(r.id_of("b"), Some(2));
    assert_eq!(r.name(1), Some("a"));
    assert_eq!(r.name(3), None);
    assert_eq!(r.len(), 2);
}

fn lang() -> Language {
    Language::from_map(&[
        ("stat_type.minecraft.killed", "You killed %s %s"),
        ("stat_type.minecraft.killed.none", "You have never killed %s"),
        ("stat_type.minecraft.killed_by", "%s killed you %s time(s)"),
        ("stat_type.minecraft.killed_by.none", "You have never been killed by %s"),
        ("entity.minecraft.zombie", "Zombie"),
        ("entity.minecraft.creeper", "Creeper"),
        ("stat.minecraft.jump", "Jumps"),
        ("stat.minecraft.play_time", "Time Played"),
        ("stat.minecraft.deaths", "Deaths"),
    ])
}

fn fake_registries() -> StatRegistries {
    StatRegistries::from_pairs(
        &[(6, "minecraft:killed"), (7, "minecraft:killed_by"), (8, "minecraft:custom")],
        &[(0, "minecraft:jump"), (1, "minecraft:play_time"), (2, "minecraft:deaths")],
        &[(1, "minecraft:stone"), (2, "minecraft:dirt")],
    )
    .unwrap()
}

fn entity_types() -> Registry {
    Registry::from_pairs(&[(54, "minecraft:zombie"), (20, "minecraft:creeper"), (149, "minecraft:player")]).unwrap()
}

#[test]
fn mob_templates_take_their_arguments_in_opposite_orders() {
    let mut c = StatsCounter::default();
    c.apply(&[(StatKey::new(6, 54), 3), (StatKey::new(7, 54), 2), (StatKey::new(6, 20), 0)]);
    let rows = build_mobs(&c, &fake_registries(), &entity_types(), &lang());
    assert_eq!(rows.len(), 1, "a zero-on-both row is dropped");
    assert_eq!(rows[0].name, "Zombie");
    assert_eq!(rows[0].kills, "You killed 3 Zombie");
    assert_eq!(rows[0].killed_by, "Zombie killed you 2 time(s)");
    assert!(rows[0].has_kills && rows[0].was_killed_by);
}

#[test]
fn a_mob_never_killed_takes_the_none_template() {
    let mut c = StatsCounter::default();
    c.apply(&[(StatKey::new(7, 54), 1)]);
    let rows = build_mobs(&c, &fake_registries(), &entity_types(), &lang());
    assert_eq!(rows[0].kills, "You have never killed Zombie");
    assert!(!rows[0].has_kills);
    assert!(rows[0].was_killed_by);
}

#[test]
fn mobs_come_in_id_order_and_an_untranslated_name_shows_its_key() {
    let mut c = StatsCounter::default();
    c.apply(&[(StatKey::new(6, 149), -1), (StatKey::new(6, 54), 1), (StatKey::new(7, 20), 4)]);
    let rows = build_mobs(&c, &fake_registries(), &entity_types(), &lang());
    let names: Vec<&str> = rows.iter().map(|r| r.name.as_str()).collect();
    assert_eq!(names, vec!["Creeper", "Zombie", "entity.minecraft.player"]);
    assert_eq!(rows[2].kills, "You killed -1 entity.minecraft.player");
    let no_killed_by = StatRegistries::from_pairs(&[(6, "minecraft:killed")], &[], &[]).unwrap();
    assert!(build_mobs(&c, &no_killed_by, &entity_types(), &lang()).is_empty());
}

#[test]
fn a_language_falls_back_to_the_key_and_fills_in_order() {
    let l = Language::from_map(&[("a", "x%sy%s"), ("a", "%s-%s"), ("p", "100%%")]);
    assert_eq!(l.or_key("a"), "%s-%s", "the later entry wins");
    assert_eq!(l.or_key("missing"), "missing");
    assert_eq!(l.translate("a", &["1", "2"]), "1-2");
    assert_eq!(l.translate("a", &["1"]), "1-%s", "a placeholder with no argument stays");
    assert_eq!(l.translate("p", &[]), "100%");
}

#[test]
fn the_general_list_is_sorted_by_its_translated_labels() {
    let mut c = StatsCounter::default();
    c.apply(&[(StatKey::new(8, 0), 12), (StatKey::new(8, 1), 40), (StatKey::new(8, 2), 3)]);
    let format = |name: &str, v: i32| -> String {
        if name == "minecraft:play_time" {
            format!("{} s", java_double_of_twentieths(v))
        } else {
            grouped(v)
        }
    };
    let rows = build_general(&c, &fake_registries(), &lang(), &format);
    assert_eq!(
        rows.iter().map(|r| r.label.as_str()).collect::<Vec<_>>(),
        vec!["Deaths", "Jumps", "Time Played"],
        "id order would be Jumps, Time Played, Deaths"
    );
    assert_eq!(rows[1].value, "12");
    assert_eq!(rows[2].value, "2.0 s", "40 ticks");
    let no_custom = StatRegistries::from_pairs(&[(6, "minecraft:killed")], &[(0, "minecraft:jump")], &[]).unwrap();
    assert!(build_general(&c, &no_custom, &lang(), &format).is_empty());
}

#[test]
fn a_model_stays_loading_until_the_first_packet() {
    let items = Registry::from_pairs(&[(1, "minecraft:stone")]).unwrap();
    let format = |_: &str, v: i32| -> String { grouped(v) };
    let c = StatsCounter::default();
    let m = StatsModel::build(&c, &fake_registries(), &items, &entity_types(), &lang(), StatsTab::Mobs, (None, 0), 320, 240, &format);
    assert!(m.loading);
    assert!(m.general.is_empty() && m.items.is_empty() && m.mobs.is_empty());
    assert_eq!(m.tab, StatsTab::Mobs);
    let mut c = StatsCounter::default();
    c.apply(&[(StatKey::new(6, 54), 2), (StatKey::new(8, 2), 5)]);
    let m = StatsModel::build(&c, &fake_registries(), &items, &entity_types(), &lang(), StatsTab::General, (Some(0), -1), 320, 240, &format);
    assert!(!m.loading);
    assert_eq!(m.built_from, 1);
    assert_eq!(m.general.len(), 3);
    assert_eq!(m.mobs.len(), 1);
    assert_eq!(m.mobs[0].kills, "You killed 2 Zombie");
    assert_eq!((m.sort_column, m.sort_order), (Some(0), -1));
    assert_eq!(m.lists[0].rows, vec![14; 3]);
    assert_eq!(m.lists[2].rows, vec![36; 1]);
    assert_eq!(m.list().rows.len(), 3, "the general tab is up");
    assert_eq!((m.lists[1].y, m.lists[1].height, m.lists[1].width, m.lists[1].scroll_rate), (24, 240 - 57, 320, 11));
    assert_eq!(m.lists[1].rows.len(), if m.items.is_empty() { 0 } else { m.items.len() + 1 });
    assert_eq!(m.backdrop(), None);
    let mut m = m;
    m.list_mut().rows.push(5);
    assert_eq!(m.lists[0].rows.len(), 4);
}

#[test]
fn the_labels_resolve_through_the_language_and_fall_back_to_their_keys() {
    let l = Language::from_map(&[
        ("gui.stats", "Statistics"),
        ("stat.itemsButton", "Items"),
        ("stats.none", "-"),
        ("stat_type.minecraft.mined", "Times Mined"),
        ("stat_type.minecraft.picked_up", "Picked Up"),
    ]);
    let labels = StatsLabels::resolve(&l);
    assert_eq!(labels.title, "Statistics");
    assert_eq!(labels.tabs, ["stat.generalButton".to_string(), "Items".to_string(), "stat.mobsButton".to_string()]);
    assert_eq!(labels.pending, "multiplayer.downloadingStats");
    assert_eq!(labels.done, "gui.done");
    assert_eq!(labels.none, "-");
    assert_eq!(labels.columns[0], "Times Mined");
    assert_eq!(labels.columns[1], "stat_type.minecraft.broken");
    assert_eq!(labels.columns[4], "Picked Up");
    assert_eq!(labels.columns[5], "stat_type.minecraft.dropped");
}
