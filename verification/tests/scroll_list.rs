use rewo_world::scroll_list::ScrollList;

fn list(rows: &[i32]) -> ScrollList {
    let mut l = ScrollList::new(320, 100, 32, 14, 220);
    l.rows = rows.to_vec();
    l
}

#[test]
fn the_scroll_rate_is_half_a_row_rounded_toward_zero() {
    assert_eq!(ScrollList::new(320, 100, 32, 14, 220).scroll_rate, 7);
    assert_eq!(ScrollList::new(320, 100, 32, 9, 220).scroll_rate, 4);
}

#[test]
fn content_is_the_rows_plus_four_and_scrolls_by_its_overhang() {
    let l = list(&[14; 10]);
    assert_eq!(l.content_height(), 144);
    assert_eq!(l.max_scroll(), 44);
    assert!(l.scrollable());
    let exact = list(&[12, 12, 12, 12, 12, 12, 12, 12]);
    assert_eq!(exact.content_height(), 100);
    assert_eq!(exact.max_scroll(), 0);
    assert!(!exact.scrollable(), "a list that exactly fills its box does not scroll");
}

#[test]
fn rows_stack_below_the_first_entry_less_the_scroll() {
    let l = list(&[14, 20, 14]);
    assert_eq!(l.first_entry_y(), 34);
    assert_eq!(l.row_top(0, 0), 34);
    assert_eq!(l.row_top(2, 0), 68);
    assert_eq!(l.row_top(2, 5), 63);
    assert_eq!(l.row_bottom(1, 0), 68);
    assert_eq!(l.row_height(7), 0);
    assert_eq!(l.row_top(9, 0), 82, "past the end counts every row");
}

#[test]
fn the_rows_are_centred_and_the_bar_stands_beside_them() {
    let l = list(&[]);
    assert_eq!(l.row_left(), 50);
    assert_eq!(l.row_right(), 270);
    assert_eq!(l.scroll_bar_x(), 278);
    assert_eq!(l.bottom(), 132);
}
