use rewo_world::screen::{
    Backdrop, ButtonSprite, KeyResult, MouseResult, Screen, ScreenKind, Screens, Sprite, Widget, WidgetSprites,
    BUTTON_HEIGHT, BUTTON_WIDTH,
};

#[test]
fn a_disabled_button_shows_the_same_sprite_hovered_or_not() {
    let mut w = Widget::button(0, 0, 0, 200, 20, "x");
    assert_eq!(w.sprite(false, false), ButtonSprite::Enabled);
    assert_eq!(w.sprite(true, false), ButtonSprite::Highlighted);
    assert_eq!(w.sprite(false, true), ButtonSprite::Highlighted);
    w.active = false;
    assert_eq!(w.sprite(false, false), ButtonSprite::Disabled);
    assert_eq!(
        w.sprite(true, false),
        ButtonSprite::Disabled,
        "disabledFocused == disabled"
    );
    assert_eq!(w.sprite(false, true), ButtonSprite::Disabled);
}

#[test]
fn the_label_sits_one_pixel_below_the_true_vertical_centre() {
    let w = Widget::button(0, 60, 100, 200, 20, "x");
    assert_eq!(w.label_anchor(30).1, 106);
    assert_eq!(w.label_anchor(30).0, 160);
}

#[test]
fn the_tab_sprites_put_a_brighter_sheet_in_the_disabled_focused_slot() {
    let tab = WidgetSprites::four(
        Sprite::TabSelected,
        Sprite::Tab,
        Sprite::TabSelectedHighlighted,
        Sprite::TabHighlighted,
    );
    assert_eq!(tab.get(true, false), Sprite::TabSelected);
    assert_eq!(tab.get(true, true), Sprite::TabSelectedHighlighted);
    assert_eq!(tab.get(false, false), Sprite::Tab);
    assert_eq!(
        tab.get(false, true),
        Sprite::TabHighlighted,
        "`disabledFocused` is a *highlight* here - the three-argument \
         constructor's rule (disabledFocused == disabled) is not a \
         property of the record"
    );
}

#[test]
fn the_sort_buttons_hover_sheet_is_the_bare_slot() {
    let s = WidgetSprites::two(Sprite::StatHeader, Sprite::Slot);
    assert_eq!(s.get(true, false), Sprite::StatHeader);
    assert_eq!(s.get(true, true), Sprite::Slot);
    assert_eq!(
        s.get(false, false),
        Sprite::StatHeader,
        "the two-argument overload puts the same sheet in enabled and \
         disabled, so an inactive sort button looks identical"
    );
    assert_eq!(s.get(false, true), Sprite::Slot);
}

fn two_buttons() -> Screen {
    Screen::new(ScreenKind::Death, 320, 240).with_widgets(vec![
        Widget::button(0, 60, 100, BUTTON_WIDTH, BUTTON_HEIGHT, "A"),
        Widget::button(1, 60, 124, BUTTON_WIDTH, BUTTON_HEIGHT, "B"),
    ])
}

#[test]
fn only_a_left_press_presses_and_the_screen_eats_the_rest() {
    let mut s = two_buttons();
    assert_eq!(s.press_child(Some(0), 0), MouseResult::Pressed(0));
    assert_eq!(s.press_child(Some(0), 1), MouseResult::Consumed);
    assert_eq!(s.press_child(None, 0), MouseResult::Ignored);
}

#[test]
fn a_press_focuses_what_it_pressed() {
    let mut s = two_buttons();
    assert_eq!(s.focused(), None, "a screen opens unfocused");
    s.press_child(Some(1), 0);
    assert_eq!(s.focused(), Some(1));
}

#[test]
fn tab_walks_forward_and_wraps_through_a_cleared_focus() {
    let mut s = two_buttons();
    assert_eq!(s.key_pressed(258, false), KeyResult::Handled);
    assert_eq!(s.focused(), Some(0));
    s.key_pressed(258, false);
    assert_eq!(s.focused(), Some(1));
    s.key_pressed(258, false);
    assert_eq!(s.focused(), Some(0), "off the end, clearFocus() then retry");
}

#[test]
fn shift_tab_walks_backward_from_the_end() {
    let mut s = two_buttons();
    s.key_pressed(258, true);
    assert_eq!(s.focused(), Some(1), "unfocused + backward starts at size");
    s.key_pressed(258, true);
    assert_eq!(s.focused(), Some(0));
    s.key_pressed(258, true);
    assert_eq!(s.focused(), Some(1));
}

#[test]
fn tab_skips_an_inactive_widget() {
    let mut s = two_buttons();
    s.widgets[0].active = false;
    s.key_pressed(258, false);
    assert_eq!(s.focused(), Some(1));
    s.key_pressed(258, false);
    assert_eq!(s.focused(), Some(1), "the only candidate stays");
}

#[test]
fn enter_space_and_keypad_enter_press_the_focused_button() {
    for key in [257, 32, 335] {
        let mut s = two_buttons();
        s.focus(1);
        assert_eq!(s.key_pressed(key, false), KeyResult::Pressed(1), "{}", key);
    }
    let mut s = two_buttons();
    s.focus(1);
    assert_eq!(s.key_pressed(69, false), KeyResult::Ignored, "E is not a selection key");
}

#[test]
fn an_inactive_focused_button_cannot_be_pressed_by_the_keyboard() {
    let mut s = two_buttons();
    s.focus(0);
    s.widgets[0].active = false;
    assert_eq!(s.key_pressed(257, false), KeyResult::Ignored);
}

#[test]
fn esc_closes_only_when_the_screen_allows_it() {
    let mut s = two_buttons();
    assert_eq!(s.key_pressed(256, false), KeyResult::Close);
    let mut s = two_buttons().with_close_on_esc(false);
    assert_eq!(s.key_pressed(256, false), KeyResult::Ignored);
}

#[test]
fn the_arrow_keys_are_deliberately_inert() {
    let mut s = two_buttons();
    for key in [262, 263, 264, 265] {
        assert_eq!(s.key_pressed(key, false), KeyResult::Ignored, "{}", key);
        assert_eq!(s.focused(), None);
    }
}

#[test]
fn the_slot_holds_one_screen_and_a_second_open_replaces_it() {
    let mut s = Screens::default();
    assert!(!s.is_open());
    s.open(Screen::new(ScreenKind::Inventory, 320, 240));
    assert!(s.is(ScreenKind::Inventory));
    s.open(Screen::new(ScreenKind::Death, 320, 240));
    assert!(s.is(ScreenKind::Death));
    assert!(!s.is(ScreenKind::Inventory), "there is no stack to pop back to");
    s.close();
    assert_eq!(s.kind(), None);
}

#[test]
fn a_screen_counts_ticks_and_finds_widgets_by_id() {
    let mut s = two_buttons().with_backdrop(Backdrop::transparent()).with_pause(false);
    s.tick();
    s.tick();
    assert_eq!(s.ticks, 2);
    assert!(!s.pause);
    assert_eq!(s.backdrop, Some(Backdrop::argb(0xC010_1010, 0xD010_1010)));
    assert_eq!(s.widget(1).map(|w| w.message.as_str()), Some("B"));
    assert!(s.widget(7).is_none());
    assert_eq!(s.widget_index(1), Some(1));
    s.focus(7);
    assert_eq!(s.focused(), None);
    s.focus(0);
    s.clear_focus();
    assert_eq!(s.focused(), None);
    assert!(s.with_menu_background(true).menu_background.unwrap().in_world);
}
