use rewo_world::chat_style::{ChatSpan, ChatStyle, ClickEvent};
use rewo_world::string_splitter::{
    find_line_break, find_styled_line_break, split_lines, split_lines_wrapped,
};

fn w6s(_c: char, bold: bool) -> i32 {
    6 + i32::from(bold)
}

fn w6(_c: char) -> i32 {
    6
}

fn plain(text: &str) -> ChatSpan {
    ChatStyle::white().span(text)
}

fn red() -> ChatStyle {
    ChatStyle::plain(0xFF0000)
}

fn blue() -> ChatStyle {
    ChatStyle::plain(0x0000FF)
}

fn lines(text: &str, max_width: i32) -> Vec<(String, bool)> {
    split_lines_wrapped(&[plain(text)], max_width, &w6s)
        .into_iter()
        .map(|l| (l.plain(), l.wrapped))
        .collect()
}

fn styled(input: &[ChatSpan], max_width: i32) -> Vec<Vec<(String, u32)>> {
    split_lines_wrapped(input, max_width, &w6s)
        .into_iter()
        .map(|l| {
            l.spans
                .into_iter()
                .map(|s| (s.text, s.color))
                .collect::<Vec<_>>()
        })
        .collect()
}


#[test]
fn a_width_wrap_flags_the_continuation_and_a_newline_does_not() {
    assert_eq!(
        lines("abc def", 18),
        vec![("abc".into(), false), ("def".into(), true)],
    );
    assert_eq!(
        lines("abc\ndef", 600),
        vec![("abc".into(), false), ("def".into(), false)],
    );
}

#[test]
fn the_first_line_is_never_flagged() {
    assert_eq!(lines("abc", 600), vec![("abc".into(), false)]);
    assert!(!lines("abc def", 18)[0].1);
}

#[test]
fn the_flag_clears_at_a_newline_after_a_wrap() {
    assert_eq!(
        lines("abc def\nghi", 18),
        vec![
            ("abc".into(), false),
            ("def".into(), true),
            ("ghi".into(), false),
        ],
    );
}

#[test]
fn a_trailing_newline_emits_one_more_empty_line() {
    assert_eq!(
        lines("a\n", 600),
        vec![("a".into(), false), (String::new(), false)],
    );
    assert_eq!(
        split_lines("a\n", 600, &w6),
        vec!["a"],
    );
}

#[test]
fn a_trailing_space_that_breaks_does_not() {
    assert_eq!(lines("abc ", 18), vec![("abc".into(), false)]);
}

#[test]
fn a_leading_newline_emits_an_empty_first_line() {
    assert_eq!(
        lines("\nb", 600),
        vec![(String::new(), false), ("b".into(), false)],
    );
}

#[test]
fn an_empty_input_yields_no_lines_here() {
    assert_eq!(lines("", 600), Vec::<(String, bool)>::new());
    assert!(split_lines_wrapped(&[], 600, &w6s).is_empty());
}

#[test]
fn break_positions_agree_with_the_string_overload() {
    for (text, width) in [
        ("abc def", 18),
        ("abcdef", 18),
        ("abc", 18),
        ("aa bb cc", 18),
        ("a\nb", 600),
        ("abc", 1),
    ] {
        let a = split_lines(text, width, &w6);
        let b: Vec<String> = split_lines_wrapped(&[plain(text)], width, &w6s)
            .into_iter()
            .map(|l| l.plain())
            .collect();
        assert_eq!(a, b, "{text:?} at {width}");
    }
}

#[test]
fn a_hard_break_keeps_the_character_that_did_not_fit() {
    assert_eq!(
        lines("abcdef", 18),
        vec![("abc".into(), false), ("def".into(), true)],
    );
}


#[test]
fn the_two_finders_agree_on_a_single_plain_part() {
    for (text, width) in [
        ("abc def", 18),
        ("abcdef", 18),
        ("aa bb cc", 18),
        ("a\nb", 600),
        ("abc", 1),
        ("", 18),
        (" leading", 18),
        ("trailing ", 18),
    ] {
        let chars: Vec<char> = text.chars().collect();
        let a = find_line_break(&chars, 0, width, &w6);
        let b = find_styled_line_break(&[plain(text)], width, &w6s).map(|(p, _)| p);
        assert_eq!(a, b, "{text:?} at {width}");
    }
}

#[test]
fn a_break_inside_a_run_carries_the_colour_onto_the_next_line() {
    assert_eq!(
        styled(&[red().span("abcdef")], 18),
        vec![
            vec![("abc".into(), 0xFF0000)],
            vec![("def".into(), 0xFF0000)],
        ],
    );
}

#[test]
fn a_line_that_spans_two_runs_keeps_both() {
    assert_eq!(
        styled(&[red().span("abc"), blue().span("def")], 600),
        vec![vec![
            ("abc".into(), 0xFF0000),
            ("def".into(), 0x0000FF),
        ]],
    );
}

#[test]
fn a_break_at_a_part_boundary_leaves_the_next_part_whole() {
    assert_eq!(
        styled(&[red().span("abc"), blue().span("def")], 18),
        vec![
            vec![("abc".into(), 0xFF0000)],
            vec![("def".into(), 0x0000FF)],
        ],
    );
}

#[test]
fn the_skipped_space_can_come_out_of_the_following_part() {
    assert_eq!(
        styled(&[red().span("abc"), blue().span(" def")], 18),
        vec![
            vec![("abc".into(), 0xFF0000)],
            vec![("def".into(), 0x0000FF)],
        ],
    );
}

#[test]
fn an_empty_part_is_dropped_before_any_index_is_taken() {
    assert_eq!(
        styled(&[red().span(""), blue().span("abc"), red().span("")], 600),
        vec![vec![("abc".into(), 0x0000FF)]],
    );
}

#[test]
fn the_running_width_accumulates_across_parts() {
    let split: Vec<String> = split_lines_wrapped(
        &[plain("ab"), plain("cd"), plain("ef")],
        18,
        &w6s,
    )
    .into_iter()
    .map(|l| l.plain())
    .collect();
    assert_eq!(split, vec!["abc".to_string(), "def".to_string()]);
}

#[test]
fn the_last_space_survives_a_part_boundary() {
    let split: Vec<String> = split_lines_wrapped(&[plain("ab "), plain("cdef")], 18, &w6s)
        .into_iter()
        .map(|l| l.plain())
        .collect();
    assert_eq!(split, vec!["ab".to_string(), "cde".to_string(), "f".to_string()]);
}

#[test]
fn bold_is_one_pixel_wider_and_that_moves_the_break() {
    assert_eq!(
        split_lines_wrapped(&[plain("abcdef")], 18, &w6s)[0].plain(),
        "abc",
    );
    let bold = ChatStyle {
        bold: true,
        ..ChatStyle::white()
    };
    assert_eq!(
        split_lines_wrapped(&[bold.span("abcdef")], 18, &w6s)[0].plain(),
        "ab",
    );
}

#[test]
fn the_split_style_is_the_tail_parts_own_style() {
    for input in [
        vec![red().span("abcdef")],
        vec![red().span("abc"), blue().span("def")],
        vec![red().span("ab"), blue().span("cdef")],
        vec![red().span("ab cdef")],
        vec![red().span("ab "), blue().span("cdef")],
    ] {
        for width in [1, 6, 12, 18, 600] {
            for line in split_lines_wrapped(&input, width, &w6s) {
                for span in &line.spans {
                    assert!(
                        input.iter().any(|p| p.color == span.color),
                        "{span:?} from {input:?} at {width}",
                    );
                }
            }
        }
    }
}


#[test]
fn a_split_position_is_always_a_real_character() {
    for text in ["abcdef", "abc def", "a\nb", "  a", "a  b"] {
        for width in [1, 6, 12, 18, 600] {
            let parts = [plain(text)];
            if let Some((pos, _)) = find_styled_line_break(&parts, width, &w6s) {
                assert!(
                    pos < text.chars().count(),
                    "{text:?} at {width} broke at {pos} of {}",
                    text.chars().count(),
                );
            }
        }
    }
}

#[test]
fn the_finder_floors_max_width_at_one() {
    assert_eq!(find_line_break(&['a', 'b'], 0, 0, &w6), Some(1));
    assert_eq!(find_line_break(&['a', 'b'], 0, -5, &w6), Some(1));
    assert_eq!(
        find_styled_line_break(&[plain("ab")], 0, &w6s).map(|(p, _)| p),
        Some(1),
    );
}

#[test]
fn the_finder_returns_none_past_the_end() {
    assert_eq!(find_line_break(&['a'], 1, 600, &w6), None);
    assert_eq!(find_line_break(&[], 0, 600, &w6), None);
    assert_eq!(find_styled_line_break(&[], 600, &w6s), None);
}

#[test]
fn a_break_is_never_at_position_zero_without_a_skip() {
    for text in ["\na", " a", "abc", "a", "\n", " ", "\u{200b}abc"] {
        for width in [1, 2, 6, 18] {
            if let Some((pos, _)) = find_styled_line_break(&[plain(text)], width, &w6s) {
                let tail = text.chars().nth(pos).unwrap();
                assert!(
                    pos + usize::from(tail == '\n' || tail == ' ') > 0,
                    "{text:?} at {width} broke at 0 with no skip",
                );
            }
        }
    }
}


fn clickable(text: &str, cmd: &str) -> ChatSpan {
    ChatStyle {
        click: Some(ClickEvent::RunCommand(cmd.into())),
        ..ChatStyle::white()
    }
    .span(text)
}

#[test]
fn a_click_event_survives_a_width_wrap_onto_the_continuation() {
    let out = split_lines_wrapped(&[clickable("aaa bbb", "/x")], 24, &w6s);
    assert_eq!(out.len(), 2);
    assert_eq!(out[0].plain(), "aaa");
    assert_eq!(out[1].plain(), "bbb");
    for l in &out {
        for span in &l.spans {
            assert_eq!(span.click(), Some(&ClickEvent::RunCommand("/x".into())));
        }
    }
}

#[test]
fn a_click_event_survives_a_newline_break() {
    let out = split_lines_wrapped(&[clickable("aa\nbb", "/x")], 600, &w6s);
    assert_eq!(out.len(), 2);
    for l in &out {
        for span in &l.spans {
            assert_eq!(span.click(), Some(&ClickEvent::RunCommand("/x".into())));
        }
    }
}

#[test]
fn two_links_on_one_line_keep_their_own_targets() {
    let out = split_lines_wrapped(
        &[clickable("aaa ", "/a"), clickable("bbb", "/b")],
        24,
        &w6s,
    );
    assert_eq!(out.len(), 2);
    assert_eq!(out[0].spans[0].click(), Some(&ClickEvent::RunCommand("/a".into())));
    assert_eq!(out[1].spans[0].click(), Some(&ClickEvent::RunCommand("/b".into())));
}


#[test]
fn the_wrapped_lines_rejoin_to_the_text_less_the_consumed_breaks() {
    let text = "the quick brown fox jumps over the lazy dog";
    let lines = split_lines(text, 60, &w6);
    assert!(lines.len() > 1);
    assert_eq!(lines.join(" "), text, "each break consumed exactly one space");
    let text = "one\ntwo three four five six";
    let lines = split_lines(text, 48, &w6);
    assert_eq!(lines.concat().len() + lines.len() - 1, text.len());
}

#[test]
fn the_two_finders_agree_across_several_plain_parts() {
    let parts = vec![
        plain("aaa "),
        plain("bbbb "),
        plain("cccccc"),
    ];
    let flat: Vec<char> = "aaa bbbb cccccc".chars().collect();
    let blind = |c: char, _bold: bool| w6(c);
    for max in [6, 18, 30, 50, 54, 90, 200] {
        assert_eq!(
            find_styled_line_break(&parts, max, &blind).map(|(p, _)| p),
            find_line_break(&flat, 0, max, &w6),
            "max {max}"
        );
    }
}
