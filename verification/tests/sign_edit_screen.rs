use rewo_world::screen::ScreenKind;
use rewo_world::sign_edit_screen::{
    build_screen, cursor_visible, DONE, offset_by_codepoints, strip_formatting, word_position, Input, SignEditState, SignKey, SignKind, KEY_A, KEY_BACKSPACE,
    KEY_C, KEY_DELETE, KEY_DOWN, KEY_ENTER, KEY_KP_ENTER, KEY_UP, KEY_V, KEY_X,
};

fn w10(s: &str) -> i32 {
    s.chars().count() as i32 * 10
}

fn state() -> SignEditState {
    SignEditState::new(Default::default(), SignKind::Standing)
}

fn press(s: &mut SignEditState, key: i32) -> SignKey {
    let mut clip = String::new();
    s.key_pressed(Input::new(key, 0), &w10, &mut clip)
}

#[test]
fn the_line_switch_wraps_both_ways_and_parks_the_cursor_at_the_end() {
    let mut s = state();
    s.lines[3] = "abc".into();
    assert_eq!(press(&mut s, KEY_UP), SignKey::Handled);
    assert_eq!(s.line, 3);
    assert_eq!(s.cursor, 3, "setCursorToEnd on the NEW line");
    assert_eq!(s.selection, 3);
    assert_eq!(press(&mut s, KEY_DOWN), SignKey::Handled);
    assert_eq!(s.line, 0);
}

#[test]
fn enter_moves_down_a_line_and_never_closes() {
    let mut s = state();
    assert_eq!(press(&mut s, KEY_ENTER), SignKey::Handled);
    assert_eq!(s.line, 1);
    assert_eq!(press(&mut s, KEY_KP_ENTER), SignKey::Handled);
    assert_eq!(s.line, 2);
}

#[test]
fn escape_reports_close_which_is_a_commit_not_a_cancel() {
    let mut s = state();
    assert_eq!(press(&mut s, 256), SignKey::Close);
}

#[test]
fn the_validator_is_a_pixel_width_and_a_failing_insert_is_rejected_whole() {
    let mut s = state();
    s.char_typed('a', &w10);
    assert_eq!(s.lines[0], "a");
    for _ in 0..8 {
        s.char_typed('b', &w10);
    }
    assert_eq!(s.lines[0].len(), 9);
    let before = s.cursor;
    s.char_typed('c', &w10);
    assert_eq!(s.lines[0].len(), 9);
    assert_eq!(s.cursor, before);
    let mut half = state();
    half.insert_text("12345", &w10);
    half.insert_text("67890", &w10);
    assert_eq!(half.lines[0], "12345");
}

#[test]
fn hanging_signs_validate_against_sixty_not_ninety() {
    let mut s = SignEditState::new(Default::default(), SignKind::Hanging);
    for _ in 0..7 {
        s.char_typed('a', &w10);
    }
    assert_eq!(s.lines[0].len(), 6, "60 px / 10 = 6 chars; the 7th is rejected");
}

#[test]
fn the_char_filter_rejects_section_signs_and_control_characters() {
    let mut s = state();
    assert!(s.char_typed('§', &w10), "the screen returns true EITHER WAY");
    assert!(s.char_typed('\u{7f}', &w10));
    assert!(s.char_typed('\n', &w10));
    assert_eq!(s.lines[0], "");
    s.char_typed(' ', &w10);
    assert_eq!(s.lines[0], " ", "space (32) is the boundary and allowed");
}

#[test]
fn backspace_returns_handled_and_delete_falls_through_after_acting() {
    let mut s = state();
    s.insert_text("abc", &w10);
    let mut clip = String::new();
    assert_eq!(
        s.key_pressed(Input::new(KEY_BACKSPACE, 0), &w10, &mut clip),
        SignKey::Handled
    );
    assert_eq!(s.lines[0], "ab");
    s.set_cursor_to_start(false);
    assert_eq!(
        s.key_pressed(Input::new(KEY_DELETE, 0), &w10, &mut clip),
        SignKey::Unhandled
    );
    assert_eq!(s.lines[0], "b");
}

#[test]
fn a_backward_delete_moves_the_cursor_and_a_forward_one_does_not() {
    let mut s = state();
    s.insert_text("abcd", &w10);
    s.cursor = 2;
    s.selection = 2;
    s.remove_from_cursor(1, false);
    assert_eq!(s.lines[0], "abd");
    assert_eq!(s.cursor, 2, "a forward delete leaves the cursor");
    s.remove_from_cursor(-1, false);
    assert_eq!(s.lines[0], "ad");
    assert_eq!(s.cursor, 1, "a backward delete moves to the span start");
}

#[test]
fn ctrl_word_ops_use_space_boundaries() {
    let mut s = state();
    s.insert_text("ab cd ef", &w10);
    assert_eq!(s.cursor, 8);
    s.move_by(-1, false, true);
    assert_eq!(s.cursor, 6, "back one word lands at 'ef'");
    s.move_by(-1, false, true);
    assert_eq!(s.cursor, 3);
    s.move_by(2, false, true);
    assert_eq!(s.cursor, 8, "forward two words: past 'cd ' then to the end");
    s.remove_from_cursor(-1, true);
    assert_eq!(s.lines[0], "ab cd ");
}

#[test]
fn selection_copy_cut_paste_round_trip_with_the_paste_strip() {
    let mut s = state();
    s.insert_text("hello", &w10);
    let mut clip = String::new();
    s.key_pressed(Input::new(KEY_A, 2), &w10, &mut clip);
    assert_eq!(s.selected(), "hello");
    s.key_pressed(Input::new(KEY_C, 2), &w10, &mut clip);
    assert_eq!(clip, "hello");
    s.key_pressed(Input::new(KEY_X, 2), &w10, &mut clip);
    assert_eq!(s.lines[0], "");
    clip = "§ca\r§".into();
    s.key_pressed(Input::new(KEY_V, 2), &w10, &mut clip);
    assert_eq!(s.lines[0], "a§", "§c stripped, \\r stripped, bare § kept");
    assert_eq!(s.selection, s.cursor, "paste collapses the selection");
}

#[test]
fn typing_over_a_selection_replaces_it_and_a_failing_insert_commits_nothing() {
    let mut s = state();
    s.insert_text("abcdefgh", &w10);
    s.cursor = 2;
    s.selection = 5;
    s.char_typed('X', &w10);
    assert_eq!(s.lines[0], "abXfgh");
    let mut t = state();
    t.insert_text("123456789", &w10);
    t.cursor = 0;
    t.selection = 1;
    t.insert_text("ab", &w10);
    assert_eq!(t.lines[0], "123456789", "the text is untouched");
    assert_eq!((t.cursor, t.selection), (0, 0), "only the collapse stands");
}

#[test]
fn the_blink_is_wall_clock_three_hundred_on_three_hundred_off() {
    assert!(cursor_visible(0));
    assert!(cursor_visible(299));
    assert!(!cursor_visible(300));
    assert!(!cursor_visible(599));
    assert!(cursor_visible(600));
}

#[test]
fn word_position_transcribes_get_word_position() {
    assert_eq!(word_position("ab cd", 1, 0), 3);
    assert_eq!(word_position("ab cd", 1, 3), 5);
    assert_eq!(word_position("ab cd", -1, 5), 3);
    assert_eq!(word_position("ab cd", -1, 3), 0);
    assert_eq!(word_position("a   b", 1, 0), 4);
}


#[test]
fn the_cursor_steps_over_whole_characters_in_bytes() {
    let t = "a\u{e9}\u{1F600}b";
    assert_eq!(offset_by_codepoints(t, 0, 1), 1);
    assert_eq!(offset_by_codepoints(t, 1, 1), 3);
    assert_eq!(offset_by_codepoints(t, 3, 1), 7);
    assert_eq!(offset_by_codepoints(t, 7, 5), 8);
    assert_eq!(offset_by_codepoints(t, 8, -2), 3);
    assert_eq!(offset_by_codepoints(t, 99, -1), 7);
    let mut s = state();
    s.insert_text("x\u{e9}y", &w10);
    assert_eq!(s.cursor, 4);
    s.move_by(-1, false, false);
    assert_eq!(s.cursor, 3);
    s.remove_from_cursor(-1, false);
    assert_eq!(s.lines[0], "xy");
    assert_eq!(s.cursor, 1);
}

#[test]
fn a_lone_section_sign_and_unknown_codes_survive_the_strip() {
    assert_eq!(strip_formatting("\u{a7}lbold\u{a7}Rx"), "boldx");
    assert_eq!(strip_formatting("\u{a7}zq\u{a7}"), "\u{a7}zq\u{a7}");
    assert_eq!(strip_formatting(""), "");
}

#[test]
fn shift_extends_a_selection_and_home_end_move_to_the_ends() {
    let mut s = state();
    s.insert_text("abc", &w10);
    let mut clip = String::new();
    s.key_pressed(Input::new(268, 1), &w10, &mut clip);
    assert_eq!((s.cursor, s.selection), (0, 3));
    assert_eq!(s.selected(), "abc");
    s.key_pressed(Input::new(269, 0), &w10, &mut clip);
    assert_eq!((s.cursor, s.selection), (3, 3));
    assert_eq!(press(&mut s, 65), SignKey::Unhandled);
}

#[test]
fn build_screen_places_done_at_the_quarter_height_anchor() {
    let s = build_screen(320, 240, "Done");
    assert_eq!(s.kind, ScreenKind::SignEdit);
    let done = s.widgets.iter().find(|w| w.id == DONE).unwrap();
    assert_eq!((done.x, done.y), (320 / 2 - 100, 240 / 4 + 144));
    assert_eq!((done.width, done.height), (200, 20));
}

#[test]
fn typing_a_character_is_pasting_it() {
    for ch in ['a', 'Z', ' ', 'é'] {
        let mut typed = state();
        typed.lines[0] = "hello".into();
        typed.cursor = 2;
        typed.selection = 2;
        let mut pasted = typed.clone();
        assert!(typed.char_typed(ch, &w10));
        let mut clip = ch.to_string();
        assert_eq!(pasted.key_pressed(Input::new(KEY_V, 2), &w10, &mut clip), SignKey::Handled);
        assert_eq!(clip, ch.to_string(), "the clipboard is kept");
        assert_eq!(typed.lines, pasted.lines);
        assert_eq!((typed.cursor, typed.selection), (pasted.cursor, pasted.selection));
    }
}
