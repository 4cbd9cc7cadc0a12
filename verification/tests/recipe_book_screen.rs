#![allow(non_snake_case)]

use rewo_world::recipe_book_screen::{
    book_chrome, book_hit, book_icons, category_tab_of, clamp_page, collections, craft_slots,
    filter_sprite_offset, focus_change, grid_slot, page_arrows_visible, page_label, page_label_x,
    page_range, recipe_item_offsets, screen_left, search_query, slot_sprite, tab_icon_offsets,
    tab_position, tab_selected_sprite, tab_x_shift, total_pages, visible_collections,
    width_too_narrow, x_origin, y_origin, BookAction, BookHit, BookHover, BookIconKind, BookQuad,
    BookSprite, BookState, BookType, BookView, CollectionState, SlotSprite,
    CATEGORIES_WITHOUT_A_TAB, FILTER_H, FILTER_W, FILTER_X, FILTER_Y, GRID_COLS, GRID_PITCH,
    GRID_ROWS, IMAGE_H, IMAGE_W, ITEMS_PER_PAGE, MAGNIFIER_W, MAGNIFIER_X, OFFSET_X,
    PAGE_ARROW_H, PAGE_ARROW_W, PAGE_ARROW_Y, PAGE_BACK_X, PAGE_FORWARD_X, PAGE_LABEL_CENTRE_X,
    PAGE_LABEL_KEY, PANEL_SOURCE, PLAYER_ITEM_SLOTS, SEARCH_H, SEARCH_W, SEARCH_X, SEARCH_Y,
    SLOT_SIZE, TAB_DX, TAB_DY, TAB_PITCH,
};

fn view(shown: usize, total: usize, page: usize) -> BookView {
    BookView {
        tabs: 4,
        selected_tab: 0,
        page,
        total_pages: total,
        shown,
        filtering: false,
        furnace_family: false,
    }
}

fn full_view(shown: usize, total: usize, page: usize) -> BookView {
    BookView {
        tabs: BookType::Crafting.tabs().len(),
        selected_tab: 0,
        page,
        total_pages: total,
        shown,
        filtering: false,
        furnace_family: false,
    }
}

#[test]
fn a_click_outside_everything_misses_the_book() {
    let v = full_view(20, 1, 0);
    assert_eq!(book_hit(70, 29, v, BookType::Crafting.tabs().len()), None);
    assert_eq!(book_hit(200, 80, v, BookType::Crafting.tabs().len()), None);
}

#[test]
fn a_recipe_cell_is_hit_over_its_own_25_by_25() {
    let v = full_view(20, 1, 0);
    let (sx, sy) = grid_slot(7);
    assert_eq!(book_hit(sx, sy, v, 5), Some(BookHit::Slot(7)), "top-left is in");
    assert_eq!(
        book_hit(sx + SLOT_SIZE - 1, sy + SLOT_SIZE - 1, v, 5),
        Some(BookHit::Slot(7)),
        "bottom-right corner is in"
    );
    assert_eq!(book_hit(sx + SLOT_SIZE, sy, v, 5), Some(BookHit::Slot(8)));
}

#[test]
fn an_invisible_cell_is_not_clickable() {
    let (sx, sy) = grid_slot(19);
    assert_eq!(
        book_hit(sx + 12, sy + 12, full_view(20, 1, 0), 5),
        Some(BookHit::Slot(19))
    );
    assert_eq!(book_hit(sx + 12, sy + 12, full_view(5, 3, 2), 5), None);
}

#[test]
fn an_arrow_is_clickable_only_when_it_is_drawn() {
    let mid = full_view(20, 3, 1);
    let first = full_view(20, 3, 0);
    let one = full_view(3, 1, 0);
    let f = (PAGE_FORWARD_X + 6, PAGE_ARROW_Y + 8);
    let b = (PAGE_BACK_X + 6, PAGE_ARROW_Y + 8);
    assert_eq!(book_hit(f.0, f.1, mid, 5), Some(BookHit::PageForward));
    assert_eq!(book_hit(b.0, b.1, mid, 5), Some(BookHit::PageBackward));
    assert_eq!(book_hit(b.0, b.1, first, 5), None, "no page to go back to");
    assert_eq!(book_hit(f.0, f.1, one, 5), None, "one page, no arrows");
}

#[test]
fn the_magnifier_counts_as_the_search_box() {
    let v = full_view(20, 1, 0);
    assert_eq!(book_hit(MAGNIFIER_X, SEARCH_Y + 7, v, 5), Some(BookHit::Search));
    assert_eq!(book_hit(SEARCH_X + 40, SEARCH_Y + 7, v, 5), Some(BookHit::Search));
    assert!(MAGNIFIER_X + MAGNIFIER_W > SEARCH_X, "they overlap by construction");
    assert_eq!(book_hit(MAGNIFIER_X - 1, SEARCH_Y + 7, v, 5), None);
}

#[test]
fn a_selected_tabs_hit_rect_does_not_follow_its_sprite() {
    let mut v = full_view(20, 1, 0);
    v.selected_tab = 0;
    let (tx, ty) = tab_position(0);
    assert_eq!(book_hit(tx, ty + 13, v, 5), Some(BookHit::Tab(0)));
    assert_eq!(book_hit(tx - 1, ty + 13, v, 5), None);
    assert_eq!(book_hit(tx + tab_x_shift(true), ty + 13, v, 5), None);
}

#[test]
fn each_tab_is_hit_at_its_own_pitch() {
    let v = full_view(20, 1, 0);
    for i in 0..BookType::Crafting.tabs().len() {
        let (tx, ty) = tab_position(i as i32);
        assert_eq!(book_hit(tx + 17, ty + 13, v, BookType::Crafting.tabs().len()), Some(BookHit::Tab(i)));
    }
    let (tx, ty) = tab_position(5);
    assert_eq!(book_hit(tx + 17, ty + 13, v, BookType::Crafting.tabs().len()), None);
}

#[test]
fn the_filter_toggle_is_hit_over_its_own_rect() {
    let v = full_view(20, 1, 0);
    assert_eq!(book_hit(FILTER_X, FILTER_Y, v, 5), Some(BookHit::Filter));
    assert_eq!(
        book_hit(FILTER_X + FILTER_W - 1, FILTER_Y + FILTER_H - 1, v, 5),
        Some(BookHit::Filter)
    );
    assert_eq!(book_hit(FILTER_X + FILTER_W, FILTER_Y, v, 5), None);
}

#[test]
fn switching_tabs_resets_the_page_and_reselecting_does_nothing() {
    let mut st = BookState { selected_tab: 0, page: 2 };
    assert_eq!(st.press(Some(BookHit::Tab(0)), false), Some(BookAction::Navigated));
    assert_eq!(st.page, 2, "re-selecting the same tab leaves the page alone");
    assert_eq!(st.press(Some(BookHit::Tab(3)), false), Some(BookAction::Navigated));
    assert_eq!((st.selected_tab, st.page), (3, 0));
}

#[test]
fn the_arrows_move_the_page_by_one() {
    let mut st = BookState { selected_tab: 0, page: 1 };
    st.press(Some(BookHit::PageForward), false);
    assert_eq!(st.page, 2);
    st.press(Some(BookHit::PageBackward), false);
    assert_eq!(st.page, 1);
}

#[test]
fn only_a_click_on_the_page_leaves_the_search_focused() {
    for hit in [BookHit::PageForward, BookHit::PageBackward, BookHit::Slot(0)] {
        assert_eq!(focus_change(Some(hit)), None, "{hit:?} leaves focus alone");
    }
    for hit in [BookHit::Filter, BookHit::Tab(1)] {
        assert_eq!(focus_change(Some(hit)), Some(false), "{hit:?} unfocuses");
    }
    assert_eq!(focus_change(Some(BookHit::Search)), Some(true));
    assert_eq!(focus_change(None), None);
}

#[test]
fn a_miss_returns_no_action_so_the_click_falls_through() {
    let mut st = BookState::default();
    assert_eq!(st.press(None, false), None);
    assert_eq!(st, BookState::default(), "and changes nothing");
}

#[test]
fn a_recipe_click_reports_its_index_and_button() {
    let mut st = BookState::default();
    assert_eq!(
        st.press(Some(BookHit::Slot(4)), false),
        Some(BookAction::Recipe { index: 4, right: false })
    );
    assert_eq!(
        st.press(Some(BookHit::Slot(4)), true),
        Some(BookAction::Recipe { index: 4, right: true })
    );
}

#[test]
fn the_filter_reports_a_toggle_rather_than_flipping_itself() {
    let mut st = BookState::default();
    assert_eq!(st.press(Some(BookHit::Filter), false), Some(BookAction::ToggleFilter));
}

#[test]
fn every_tab_draws_its_icons_over_its_own_sprite() {
    let mut v = view(0, 1, 0);
    v.tabs = 5;
    let icons = book_icons(v, BookType::Crafting.tabs(), &[]);
    assert_eq!(icons.len(), 7);
    assert_eq!(
        icons.iter().filter(|i| matches!(i.kind, BookIconKind::TabSecondary(_))).count(),
        2,
        "equipment and misc"
    );
    let (tx, ty) = tab_position(0);
    assert_eq!(icons[0].x, tx + 9 - 2);
    assert_eq!(icons[0].y, ty + 5);
    let (t1x, t1y) = tab_position(1);
    assert_eq!(icons[1].x, t1x + 3);
    assert_eq!(icons[2].x, t1x + 14);
    assert_eq!((icons[1].y, icons[2].y), (t1y + 5, t1y + 5));
}

#[test]
fn only_a_multi_recipe_slot_with_one_result_draws_two_items() {
    let mut v = view(3, 1, 0);
    v.tabs = 0;
    let icons = book_icons(v, &[], &[false, true, false]);
    let slots: Vec<_> = icons
        .iter()
        .filter_map(|i| match i.kind {
            BookIconKind::Slot { index, back } => Some((index, back, i.x, i.y)),
            _ => None,
        })
        .collect();
    assert_eq!(slots.len(), 4);
    assert_eq!(slots.iter().filter(|s| s.1).count(), 1, "one shadow");
    let (sx, sy) = grid_slot(1);
    assert!(slots.contains(&(1, true, sx + 5, sy + 5)), "the shadow at +5");
    assert!(slots.contains(&(1, false, sx + 3, sy + 3)), "the front at +3");
    let (zx, zy) = grid_slot(0);
    assert!(slots.contains(&(0, false, zx + 4, zy + 4)));
}

#[test]
fn the_icons_and_the_chrome_agree_about_how_many_slots_there_are() {
    let v = view(5, 3, 2);
    let cells = book_chrome(v, &vec![(true, false); ITEMS_PER_PAGE], BookHover::default())
        .into_iter()
        .filter(|q| matches!(q.sprite, BookSprite::Slot(_)))
        .count();
    let items = book_icons(v, &[], &vec![false; ITEMS_PER_PAGE])
        .into_iter()
        .filter(|i| matches!(i.kind, BookIconKind::Slot { .. }))
        .count();
    assert_eq!(cells, 5);
    assert_eq!(items, 5);
}

#[test]
fn every_slot_icon_lands_inside_its_own_cell() {
    let mut v = view(ITEMS_PER_PAGE, 1, 0);
    v.tabs = 0;
    for multi in [false, true] {
        for i in book_icons(v, &[], &vec![multi; ITEMS_PER_PAGE]) {
            let BookIconKind::Slot { index, .. } = i.kind else { continue };
            let (sx, sy) = grid_slot(index);
            assert!(i.x >= sx && i.x + 16 <= sx + SLOT_SIZE, "slot {index} x");
            assert!(i.y >= sy && i.y + 16 <= sy + SLOT_SIZE, "slot {index} y");
        }
    }
}

#[test]
fn the_panel_is_sampled_from_one_one_not_the_sheets_corner() {
    assert_eq!(PANEL_SOURCE, (1, 1));
    let q = book_chrome(view(0, 1, 0), &[], BookHover::default());
    assert_eq!(q[0].sprite, BookSprite::Panel);
    assert_eq!((q[0].w, q[0].h), (IMAGE_W, IMAGE_H));
    assert!(q[1..].iter().all(|b| b.sprite != BookSprite::Panel));
}

#[test]
fn only_the_selected_tab_wears_the_selected_sprite_and_sticks_out() {
    let mut v = view(0, 1, 0);
    v.selected_tab = 2;
    let q = book_chrome(v, &[], BookHover::default());
    let tabs: Vec<_> = q
        .iter()
        .filter(|b| matches!(b.sprite, BookSprite::Tab { .. }))
        .collect();
    assert_eq!(tabs.len(), 4);
    for (i, t) in tabs.iter().enumerate() {
        let sel = i == 2;
        assert_eq!(t.sprite, BookSprite::Tab { selected: sel });
        assert_eq!(t.x, TAB_DX + tab_x_shift(sel), "tab {i}");
        assert_eq!(t.y, TAB_DY + TAB_PITCH * i as i32);
    }
    assert_eq!(tabs.iter().filter(|t| t.x == TAB_DX - 2).count(), 1);
}

#[test]
fn the_slots_tile_with_no_gap_so_a_click_cannot_fall_between_them() {
    assert_eq!(SLOT_SIZE, GRID_PITCH);
    let slots = vec![(true, false); 20];
    let q = book_chrome(view(20, 1, 0), &slots, BookHover::default());
    let cells: Vec<_> = q
        .iter()
        .filter(|b| matches!(b.sprite, BookSprite::Slot(_)))
        .collect();
    assert_eq!(cells.len(), 20);
    for i in 0..4 {
        assert_eq!(cells[i].x + cells[i].w, cells[i + 1].x);
    }
    assert_eq!(cells[4].y + cells[4].h, cells[5].y, "and so are the rows");
}

#[test]
fn a_short_page_draws_only_the_slots_it_has() {
    let slots = vec![(true, false); 20];
    let q = book_chrome(view(5, 3, 2), &slots, BookHover::default());
    assert_eq!(
        q.iter().filter(|b| matches!(b.sprite, BookSprite::Slot(_))).count(),
        5,
        "the last page of 45 collections"
    );
}

#[test]
fn each_slots_chrome_follows_its_own_state() {
    let slots = [(true, false), (true, true), (false, false), (false, true)];
    let q = book_chrome(view(4, 1, 0), &slots, BookHover::default());
    let got: Vec<_> = q
        .iter()
        .filter_map(|b| match b.sprite {
            BookSprite::Slot(s) => Some(s),
            _ => None,
        })
        .collect();
    assert_eq!(
        got,
        vec![
            SlotSprite::Craftable,
            SlotSprite::ManyCraftable,
            SlotSprite::Uncraftable,
            SlotSprite::ManyUncraftable
        ]
    );
}

#[test]
fn the_arrows_appear_only_where_there_is_a_page_to_go_to() {
    let has = |q: &[BookQuad], f: fn(&BookSprite) -> bool| q.iter().any(|b| f(&b.sprite));
    let fwd = |s: &BookSprite| matches!(s, BookSprite::PageForward { .. });
    let back = |s: &BookSprite| matches!(s, BookSprite::PageBackward { .. });

    let one = book_chrome(view(3, 1, 0), &[], BookHover::default());
    assert!(!has(&one, fwd) && !has(&one, back), "a single page has neither");

    let first = book_chrome(view(20, 3, 0), &[], BookHover::default());
    assert!(has(&first, fwd) && !has(&first, back));

    let last = book_chrome(view(5, 3, 2), &[], BookHover::default());
    assert!(!has(&last, fwd) && has(&last, back));
}

#[test]
fn hover_reaches_the_arrows_and_the_filter_and_nothing_else() {
    let hover = BookHover { page_forward: true, page_backward: false, filter: true };
    let q = book_chrome(view(20, 3, 1), &[], hover);
    assert!(q.contains(&BookQuad::whole(
        BookSprite::PageForward { hovered: true },
        PAGE_FORWARD_X,
        PAGE_ARROW_Y,
        PAGE_ARROW_W,
        PAGE_ARROW_H,
    )));
    assert!(q
        .iter()
        .any(|b| b.sprite == BookSprite::PageBackward { hovered: false }));
    assert!(q
        .iter()
        .any(|b| matches!(b.sprite, BookSprite::Filter { hovered: true, .. })));
}

#[test]
fn the_filter_carries_both_the_family_and_the_filter_state() {
    let mut v = view(0, 1, 0);
    v.filtering = true;
    v.furnace_family = true;
    let q = book_chrome(v, &[], BookHover::default());
    let f = q.iter().find(|b| matches!(b.sprite, BookSprite::Filter { .. })).unwrap();
    assert_eq!(
        f.sprite,
        BookSprite::Filter { furnace: true, filtering: true, hovered: false }
    );
    assert_eq!((f.x, f.y, f.w, f.h), (FILTER_X, FILTER_Y, FILTER_W, FILTER_H));
    let mut c = view(0, 1, 0);
    c.filtering = true;
    let cq = book_chrome(c, &[], BookHover::default());
    let cf = cq.iter().find(|b| matches!(b.sprite, BookSprite::Filter { .. })).unwrap();
    assert_ne!(f.sprite, cf.sprite);
}

#[test]
fn opening_the_book_MOVES_the_menu_it_sits_beside() {
    assert_eq!(screen_left(800, 176, false, false), (800 - 176) / 2);
    assert_eq!(screen_left(800, 176, true, false), 177 + (800 - 176 - 200) / 2);
    assert_eq!(screen_left(800, 176, true, false) - screen_left(800, 176, false, false), 77);
    assert_eq!(screen_left(360, 176, true, true), (360 - 176) / 2);
    assert!(width_too_narrow(360) && !width_too_narrow(379));
    assert_eq!(x_origin(360, width_too_narrow(360)), (360 - 147) / 2);
}

#[test]
fn the_narrow_threshold_is_379_exclusive() {
    assert!(width_too_narrow(378));
    assert!(!width_too_narrow(379));
    assert!(!width_too_narrow(380));
}

#[test]
fn the_book_to_panel_gap_changes_with_window_PARITY() {
    let gap = |w: i32| x_origin(w, false) - screen_left(w, 176, true, false);
    assert_ne!(gap(800), gap(801));
    assert_eq!((gap(800) - gap(801)).abs(), 1);
}

#[test]
fn a_selected_tab_sticks_out_and_takes_its_icon_with_it() {
    assert_eq!(tab_x_shift(true), -2);
    assert_eq!(tab_x_shift(false), 0);
    assert_eq!(tab_icon_offsets(false, false), vec![(9, 5)]);
    assert_eq!(tab_icon_offsets(false, true), vec![(7, 5)]);
    assert_eq!(
        tab_icon_offsets(false, true)[0].0 - tab_icon_offsets(false, false)[0].0,
        tab_x_shift(true)
    );
}

#[test]
fn one_tab_icon_is_not_the_midpoint_of_two() {
    let pair = tab_icon_offsets(true, false);
    assert_eq!(pair, vec![(3, 5), (14, 5)]);
    let midpoint = (pair[0].0 + pair[1].0 + 16) / 2 - 8;
    assert_eq!(tab_icon_offsets(false, false)[0].0, 9);
    assert_ne!(tab_icon_offsets(false, false)[0].0, midpoint);
}

#[test]
fn a_tabs_sprite_tracks_selection_and_not_hover() {
    assert!(tab_selected_sprite(true));
    assert!(!tab_selected_sprite(false));
}

#[test]
fn the_slot_chrome_is_a_two_by_two_matrix() {
    assert_eq!(slot_sprite(true, false), SlotSprite::Craftable);
    assert_eq!(slot_sprite(true, true), SlotSprite::ManyCraftable);
    assert_eq!(slot_sprite(false, false), SlotSprite::Uncraftable);
    assert_eq!(slot_sprite(false, true), SlotSprite::ManyUncraftable);
    let all = [
        slot_sprite(true, false),
        slot_sprite(true, true),
        slot_sprite(false, false),
        slot_sprite(false, true),
    ];
    for i in 0..4 {
        for j in (i + 1)..4 {
            assert_ne!(all[i], all[j]);
        }
    }
}

#[test]
fn a_multi_recipe_slot_draws_two_items_that_do_not_coincide() {
    assert_eq!(recipe_item_offsets(false), (None, 4));
    let (back, front) = recipe_item_offsets(true);
    assert_eq!((back, front), (Some(5), 3));
    assert_ne!(back.unwrap(), front);
    assert!(front < 4 && back.unwrap() > 4);
}

#[test]
fn an_arrow_hides_at_the_end_it_points_at() {
    assert_eq!(page_arrows_visible(0, 1), (false, false), "one page, neither");
    assert_eq!(page_arrows_visible(0, 3), (true, false), "at the front");
    assert_eq!(page_arrows_visible(1, 3), (true, true), "in the middle");
    assert_eq!(page_arrows_visible(2, 3), (false, true), "at the end");
    assert_eq!(page_arrows_visible(0, 0), (false, false));
}

#[test]
fn the_page_label_is_centred_on_73_not_on_the_panel() {
    assert_eq!(page_label_x(0), 73);
    assert_eq!(page_label_x(20), 63);
    assert_ne!(PAGE_LABEL_CENTRE_X * 2, IMAGE_W, "73*2 != 147, deliberately");
    assert_eq!(page_label_x(21), 73 - 10);
}

const PAGE_TEMPLATE: &str = "%s/%s";

#[test]
fn a_one_page_book_shows_no_counter_at_all() {
    assert_eq!(page_label(0, 1, PAGE_TEMPLATE), None);
    assert_eq!(page_label(0, 0, PAGE_TEMPLATE), None, "an empty book");
    assert_eq!(page_label(0, 2, PAGE_TEMPLATE).as_deref(), Some("1/2"));
    for total in 0..6 {
        for page in 0..total.max(1) {
            let (fwd, back) = page_arrows_visible(page, total);
            assert_eq!(
                page_label(page, total, PAGE_TEMPLATE).is_some(),
                fwd || back,
                "counter and arrows disagree on page {page} of {total}"
            );
        }
    }
}

#[test]
fn only_the_current_page_is_converted_to_1_based() {
    assert_eq!(page_label(0, 3, PAGE_TEMPLATE).as_deref(), Some("1/3"));
    assert_eq!(page_label(1, 3, PAGE_TEMPLATE).as_deref(), Some("2/3"));
    assert_eq!(page_label(2, 3, PAGE_TEMPLATE).as_deref(), Some("3/3"));
}

#[test]
fn the_separator_is_a_bare_slash_with_no_spaces() {
    let label = page_label(0, 3, PAGE_TEMPLATE).unwrap();
    assert_eq!(label, "1/3");
    assert!(!label.contains(' '));
}

#[test]
fn a_missing_translation_renders_the_bare_key_rather_than_nothing() {
    assert_eq!(
        page_label(0, 3, PAGE_LABEL_KEY).as_deref(),
        Some(PAGE_LABEL_KEY)
    );
    assert_eq!(page_label(0, 1, PAGE_LABEL_KEY), None);
}

#[test]
fn the_filter_sprite_is_keyed_on_FILTERING_and_hover_is_the_second_axis() {
    assert_eq!(filter_sprite_offset(true, false), 0);
    assert_eq!(filter_sprite_offset(false, false), 1);
    assert_eq!(filter_sprite_offset(true, true), 2);
    assert_eq!(filter_sprite_offset(false, true), 3);
    assert_ne!(
        filter_sprite_offset(true, false),
        filter_sprite_offset(false, false)
    );
    assert_ne!(
        filter_sprite_offset(true, true),
        filter_sprite_offset(false, true)
    );
}

#[test]
fn the_book_is_positioned_against_the_WINDOW_and_slides_when_narrow() {
    assert_eq!(x_origin(800, false), (800 - 147) / 2 - 86);
    assert_eq!(x_origin(800, true), (800 - 147) / 2);
    assert_eq!(x_origin(800, false) + OFFSET_X, x_origin(800, true));
    assert_eq!(y_origin(600), (600 - 166) / 2);
}

#[test]
fn the_grid_is_five_wide_and_four_tall() {
    assert_eq!(grid_slot(0), (11, 31));
    assert_eq!(grid_slot(4), (11 + 4 * 25, 31), "the end of row 0");
    assert_eq!(grid_slot(5), (11, 31 + 25), "and 5 wraps");
    assert_eq!(grid_slot(19), (11 + 4 * 25, 31 + 3 * 25), "the last of 20");
    assert_eq!(GRID_COLS * GRID_ROWS, ITEMS_PER_PAGE as i32);
}

#[test]
fn an_empty_book_has_ZERO_pages_rather_than_one() {
    assert_eq!(total_pages(0), 0);
    assert_eq!(total_pages(1), 1);
    assert_eq!(total_pages(20), 1);
    assert_eq!(total_pages(21), 2, "ceil, not floor");
    assert_eq!(total_pages(40), 2);
}

#[test]
fn a_shrinking_list_sends_the_reader_to_the_FRONT_not_the_end() {
    assert_eq!(clamp_page(3, 100, false), 3, "still in range");
    assert_eq!(clamp_page(5, 100, false), 0, "5 pages, index 5 is out");
    assert_eq!(clamp_page(3, 20, false), 0, "the list shrank");
    assert_eq!(total_pages(100), 5);
    assert_eq!(clamp_page(9, 100, false), 0);
    assert_ne!(clamp_page(9, 100, false), total_pages(100) - 1);
    assert_eq!(clamp_page(2, 100, true), 0, "reset wins regardless");
}

#[test]
fn a_page_shows_at_most_twenty_and_the_last_one_is_short() {
    assert_eq!(page_range(0, 45), 0..20);
    assert_eq!(page_range(1, 45), 20..40);
    assert_eq!(page_range(2, 45), 40..45, "the short last page");
    assert_eq!(page_range(0, 0), 0..0);
    assert_eq!(page_range(9, 5), 5..5);
}

#[test]
fn the_players_item_slots_exclude_the_grid_and_the_result() {
    assert_eq!(PLAYER_ITEM_SLOTS, 5..46);
    assert!(!PLAYER_ITEM_SLOTS.contains(&0), "the craft RESULT");
    for grid in 1..5 {
        assert!(!PLAYER_ITEM_SLOTS.contains(&grid), "grid slot {grid}");
    }
    assert!(PLAYER_ITEM_SLOTS.contains(&5), "armour starts here");
    assert!(PLAYER_ITEM_SLOTS.contains(&45), "and the offhand ends it");
    let grid = craft_slots(BookType::Crafting, true).unwrap();
    assert_eq!(grid.range, 1..5);
    for s in 0..46usize {
        let n = usize::from(PLAYER_ITEM_SLOTS.contains(&s)) + usize::from(grid.range.contains(&s));
        assert_eq!(n, usize::from(s != 0), "slot {s} accounted {n} times");
    }
}

#[test]
fn the_craft_slots_differ_by_family_in_both_range_and_gating() {
    let craft = craft_slots(BookType::Crafting, false).unwrap();
    assert_eq!(craft.range, 1..10, "a 3x3 grid, result at 0 excluded");
    assert!(craft.gated, "accountSimpleStack");

    for b in [BookType::Furnace, BookType::BlastFurnace, BookType::Smoker] {
        let f = craft_slots(b, false).unwrap();
        assert_eq!(f.range, 0..3, "the whole container, {b:?}");
        assert!(f.range.contains(&2), "INCLUDING the result slot");
        assert!(!f.gated, "bare accountStack — no isUsableForCrafting");
    }
    let player = craft_slots(BookType::Crafting, true).unwrap();
    assert_eq!(player.range, 1..5);
    assert!(player.gated);
}

#[test]
fn a_book_has_its_own_tabs_and_the_first_is_SEARCH() {
    assert_eq!(BookType::Crafting.tabs().len(), 5, "NOT 4");
    assert_eq!(BookType::Furnace.tabs().len(), 4);
    assert_eq!(BookType::BlastFurnace.tabs().len(), 3);
    assert_eq!(BookType::Smoker.tabs().len(), 2);
    for b in BookType::ALL {
        assert!(b.tabs()[0].is_search(), "{b:?} tab 0 is the search tab");
        assert_eq!(b.tabs()[0].primary, "compass", "every search tab is a compass");
        assert!(b.tabs()[1..].iter().all(|t| !t.is_search()));
    }
}

#[test]
fn the_search_tabs_categories_do_not_follow_the_registrys_id_order() {
    let search = &BookType::Crafting.tabs()[0];
    assert_eq!(search.categories[0], "minecraft:crafting_equipment");
    assert_eq!(search.categories.len(), 4);
    assert_eq!(
        BookType::Smoker.tabs()[0].categories,
        ["minecraft:smoker_food"]
    );
}

#[test]
fn the_search_tab_is_exactly_the_union_of_the_category_tabs() {
    for b in BookType::ALL {
        let mut from_categories: Vec<&str> = b.tabs()[1..]
            .iter()
            .flat_map(|t| t.categories.iter().copied())
            .collect();
        from_categories.sort();
        from_categories.dedup();
        let mut search: Vec<&str> = b.tabs()[0].categories.to_vec();
        search.sort();
        assert_eq!(search, from_categories, "{b:?}");
    }
}

#[test]
fn three_categories_belong_to_NO_book_at_all() {
    let mut covered: Vec<&str> = BookType::ALL
        .iter()
        .flat_map(|b| b.tabs()[0].categories.iter().copied())
        .collect();
    covered.sort();
    covered.dedup();
    assert_eq!(covered.len(), 10);
    assert_eq!(covered.len() + CATEGORIES_WITHOUT_A_TAB.len(), 13);
    for c in CATEGORIES_WITHOUT_A_TAB {
        assert!(!covered.contains(&c), "{c} must belong to no book");
        assert_eq!(category_tab_of(BookType::Crafting, c), None);
    }
}

#[test]
fn a_category_resolves_to_its_CATEGORY_tab_not_to_search() {
    assert_eq!(
        category_tab_of(BookType::Crafting, "minecraft:crafting_equipment"),
        Some(1)
    );
    assert_eq!(
        category_tab_of(BookType::Crafting, "minecraft:crafting_redstone"),
        Some(4)
    );
    assert_eq!(category_tab_of(BookType::Crafting, "minecraft:furnace_food"), None);
    assert_eq!(category_tab_of(BookType::Crafting, "minecraft:not_a_category"), None);
    assert!(BookType::Crafting.tabs()[0]
        .categories
        .contains(&"minecraft:crafting_equipment"));
}

#[test]
fn the_paired_icon_tabs_are_the_four_vanilla_declares() {
    let paired: Vec<(&str, &str)> = BookType::ALL
        .iter()
        .flat_map(|b| b.tabs())
        .filter_map(|t| t.secondary.map(|sec| (t.primary, sec)))
        .collect();
    assert_eq!(
        paired,
        vec![
            ("iron_axe", "golden_sword"),
            ("lava_bucket", "apple"),
            ("lava_bucket", "emerald"),
            ("iron_shovel", "golden_leggings"),
        ]
    );
}

#[test]
fn the_filter_art_splits_crafting_from_everything_else() {
    assert!(!BookType::Crafting.furnace_family());
    for b in [BookType::Furnace, BookType::BlastFurnace, BookType::Smoker] {
        assert!(b.furnace_family(), "{b:?}");
    }
}

#[test]
fn the_tabs_stack_down_the_left_at_a_pitch_of_27() {
    assert_eq!(tab_position(0), (-30, 3));
    assert_eq!(tab_position(1), (-30, 30));
    assert_eq!(tab_position(3), (-30, 3 + 81));
}

#[test]
fn an_ungrouped_recipe_is_its_own_collection() {
    let c = collections(&[(1, None, "a"), (2, None, "a"), (3, None, "b")]);
    assert_eq!(c.len(), 3);
    assert!(c.iter().all(|c| c.recipes.len() == 1));
}

#[test]
fn a_group_is_one_collection_placed_at_its_FIRST_member() {
    let c = collections(&[(1, Some(0), "a"), (7, None, "a"), (2, Some(0), "a")]);
    assert_eq!(c.len(), 2);
    assert_eq!(c[0].recipes, vec![1, 2], "the group, at its first member");
    assert_eq!(c[1].recipes, vec![7]);
}

#[test]
fn a_group_id_is_scoped_to_its_CATEGORY() {
    let c = collections(&[(1, Some(0), "a"), (2, Some(0), "b")]);
    assert_eq!(c.len(), 2);
    assert_eq!(c[0].category, "a");
    assert_eq!(c[1].category, "b");
}

#[test]
fn the_unselected_are_hidden_whether_or_not_the_filter_is_on() {
    let s = |any_selected, has_craftable| CollectionState {
        any_selected,
        has_craftable,
        matches_search: true,
    };
    let states = [s(true, true), s(true, false), s(false, true), s(false, false)];
    assert_eq!(visible_collections(&states, false), vec![0, 1]);
    assert_eq!(visible_collections(&states, true), vec![0]);
    assert!(!visible_collections(&states, false).contains(&2));
    assert!(!visible_collections(&states, true).contains(&2));
}

#[test]
fn the_search_stage_is_independent_of_the_filter() {
    let s = |matches_search| CollectionState {
        any_selected: true,
        has_craftable: true,
        matches_search,
    };
    let states = [s(true), s(false)];
    assert_eq!(visible_collections(&states, false), vec![0]);
    assert_eq!(visible_collections(&states, true), vec![0]);
}

#[test]
fn the_query_is_lowercased_by_the_ROOT_locale() {
    assert_eq!(search_query("IRON Ingot"), "iron ingot");
    assert_eq!(search_query(""), "");
}


#[test]
fn a_button_reads_craftable_and_hover_separately() {
    let qs = rewo_world::recipe_book_screen::overlay_chrome((0, 0), &[true, false], false, Some(1), Vec::new());
    let buttons: Vec<_> = qs
        .iter()
        .filter_map(|q| match q.sprite {
            BookSprite::OverlayButton { furnace, craftable, hovered } => Some((furnace, craftable, hovered)),
            _ => None,
        })
        .collect();
    assert_eq!(buttons, vec![(false, true, false), (false, false, true)]);
}

#[test]
fn the_button_family_follows_the_menu() {
    let qs = rewo_world::recipe_book_screen::overlay_chrome((0, 0), &[true], true, None, Vec::new());
    assert!(qs.iter().any(|q| q.sprite == BookSprite::OverlayButton { furnace: true, craftable: true, hovered: false }));
}

#[test]
fn the_buttons_tile_inside_their_own_panel() {
    let origin = (17, 23);
    let flags = [true; 6];
    let qs = rewo_world::recipe_book_screen::overlay_chrome(origin, &flags, false, None, Vec::new());
    let (pw, ph) = rewo_world::recipe_overlay::panel_size(flags.len());
    for (i, q) in qs.iter().filter(|q| matches!(q.sprite, BookSprite::OverlayButton { .. })).enumerate() {
        assert_eq!((q.x, q.y), rewo_world::recipe_overlay::button_origin(origin, i, flags.len()));
        assert_eq!((q.w, q.h), (rewo_world::recipe_overlay::BUTTON_SIZE, rewo_world::recipe_overlay::BUTTON_SIZE));
        assert!(q.x >= origin.0 && q.y >= origin.1, "button {i} starts before the panel");
        assert!(q.x + q.w <= origin.0 + pw && q.y + q.h <= origin.1 + ph, "button {i} spills out of the panel");
    }
    assert_eq!(rewo_world::recipe_overlay::rows(6), 2);
}

#[test]
fn the_overlay_panel_goes_down_before_its_buttons() {
    let panel = vec![
        BookQuad { sprite: BookSprite::OverlayPanel, x: 40, y: 60, w: 4, h: 4, src: Some((0, 0, 4, 4)) },
        BookQuad { sprite: BookSprite::OverlayPanel, x: 44, y: 60, w: 75, h: 4, src: Some((4, 0, 24, 4)) },
    ];
    let qs = rewo_world::recipe_book_screen::overlay_chrome((40, 60), &[true, true, false], false, None, panel.clone());
    assert_eq!(&qs[..2], &panel[..]);
    assert_eq!(qs.len() - 2, 3, "one quad per recipe");
    assert!(qs[2..].iter().all(|q| q.src.is_none()));
}
