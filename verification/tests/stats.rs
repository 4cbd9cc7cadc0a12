use rewo_world::stats::{custom_stat_key, grouped, java_double_of_twentieths, stat_type_key, StatKey, StatsCounter};

#[test]
fn the_default_formatter_groups_by_threes() {
    assert_eq!(grouped(0), "0");
    assert_eq!(grouped(7), "7");
    assert_eq!(grouped(999), "999");
    assert_eq!(grouped(1000), "1,000");
    assert_eq!(grouped(12345), "12,345");
    assert_eq!(grouped(1234567), "1,234,567");
    assert_eq!(grouped(-12345), "-12,345");
    assert_eq!(grouped(i32::MAX), "2,147,483,647");
    assert_eq!(grouped(i32::MIN), "-2,147,483,648");
}

#[test]
fn the_counter_replaces_rather_than_accumulating() {
    let mut c = StatsCounter::default();
    let k = StatKey::new(8, 1);
    c.apply(&[(k, 5)]);
    assert_eq!(c.value(k), 5);
    c.apply(&[(k, 3)]);
    assert_eq!(c.value(k), 3, "setValue, not increment");
    assert_eq!(c.updates, 2);
    let other = StatKey::new(8, 2);
    c.apply(&[(other, 9)]);
    assert_eq!(c.value(k), 3);
    assert_eq!(c.value(other), 9);
}

#[test]
fn an_absent_stat_reads_as_zero_rather_than_missing() {
    let c = StatsCounter::default();
    assert_eq!(c.value(StatKey::new(0, 0)), 0);
    assert!(c.is_empty());
}

#[test]
fn the_two_translation_keys_replace_the_colon_and_drop_the_namespace() {
    assert_eq!(
        custom_stat_key("minecraft:play_time"),
        "stat.minecraft.play_time"
    );
    assert_eq!(stat_type_key("minecraft:killed"), "stat_type.minecraft.killed");
    assert_ne!(
        stat_type_key("minecraft:killed"),
        "stat_type.minecraft.minecraft:killed"
    );
}

#[test]
fn a_later_packet_keeps_what_it_omits_and_counts_itself() {
    let mut c = StatsCounter::new();
    let a = StatKey::new(1, 1);
    let b = StatKey::new(1, 2);
    c.apply(&[(a, 4), (b, 6), (a, 7)]);
    assert_eq!(c.value(a), 7);
    assert_eq!(c.value(b), 6);
    assert_eq!(c.len(), 2);
    assert_eq!(c.updates, 1);
    c.set(b, 0);
    assert_eq!(c.value(b), 0);
    assert_eq!(c.len(), 2);
    assert_eq!(c.updates, 1);
}

#[test]
fn of_type_lists_the_non_zero_stats_of_one_type() {
    let mut c = StatsCounter::new();
    c.apply(&[
        (StatKey::new(2, 5), 3),
        (StatKey::new(3, 5), 8),
        (StatKey::new(2, 6), 0),
        (StatKey::new(2, 7), -1),
    ]);
    assert_eq!(c.of_type(2), vec![(5, 3), (7, -1)]);
    assert_eq!(c.of_type(3), vec![(5, 8)]);
    assert!(c.of_type(4).is_empty());
}

#[test]
fn a_stat_type_without_a_namespace_is_kept_whole() {
    assert_eq!(stat_type_key("mined"), "stat_type.minecraft.mined");
    assert_eq!(stat_type_key("a:b:c"), "stat_type.minecraft.b:c");
    assert_eq!(custom_stat_key("a:b:c"), "stat.a.b.c");
    assert_eq!(custom_stat_key(""), "stat.");
}

#[test]
fn seconds_print_as_a_java_double_with_at_least_one_decimal() {
    assert_eq!(java_double_of_twentieths(20), "1.0");
    assert_eq!(java_double_of_twentieths(40), "2.0");
    assert_eq!(java_double_of_twentieths(0), "0.0");
    assert_eq!(java_double_of_twentieths(1), "0.05");
    assert_eq!(java_double_of_twentieths(2), "0.1");
    assert_eq!(java_double_of_twentieths(-30), "-1.5");
    assert_eq!(java_double_of_twentieths(i32::MIN), "-107374182.4");
}
