//! Line breaking: the break finder shared by both line splitters, the plain
//! splitter that yields strings, and the styled one that yields lines of
//! runs, each flagged when the break before it was a width wrap rather than
//! a newline.
//!
//! The finder measures each character *after* adding it (`width > max`),
//! always accepts the first visible character of a line, floors the width
//! at 1, and counts a space's own width before deciding. A width break falls
//! back to the last space at or before the overflowing character.

use vstd::prelude::*;
use crate::chat_style::{ChatLine, ChatSpan, ChatStyle, line_text, copy_click, ClickEvent};
use crate::text::{chars_of, string_from_chars};

verus! {

/// `widths[from..to]`, summed.
pub open spec fn width_sum(ws: Seq<int>, from: int, to: int) -> int
    decreases to - from,
{
    if to <= from {
        0
    } else {
        width_sum(ws, from, to - 1) + ws[to - 1]
    }
}

/// Some character in `[from, to)` has a non-zero width.
pub open spec fn visible_in(ws: Seq<int>, from: int, to: int) -> bool {
    exists|j: int| from <= j < to && ws[j] != 0
}

/// The sweep from `start` stops at `i`: a newline, or a character that
/// takes the line past `max` once something visible came before it.
pub open spec fn stops_at(cs: Seq<char>, ws: Seq<int>, max: int, start: int, i: int) -> bool {
    cs[i] == '\n' || (visible_in(ws, start, i) && width_sum(ws, start, i + 1) > max)
}

/// Whether the sweep from `start` stops anywhere.
pub open spec fn has_stop(cs: Seq<char>, ws: Seq<int>, max: int, start: int) -> bool {
    exists|i: int| start <= i < cs.len() && stops_at(cs, ws, max, start, i)
}

/// Where the sweep from `start` first stops.
pub open spec fn first_stop(cs: Seq<char>, ws: Seq<int>, max: int, start: int) -> int {
    choose|i: int|
        start <= i < cs.len() && stops_at(cs, ws, max, start, i) && forall|j: int| start <= j < i ==> !stops_at(cs, ws, max, start, j)
}

/// Whether there is a space in `[from, to]`.
pub open spec fn has_space(cs: Seq<char>, from: int, to: int) -> bool {
    exists|j: int| from <= j <= to && cs[j] == ' '
}

/// The last space in `[from, to]`.
pub open spec fn last_space(cs: Seq<char>, from: int, to: int) -> int {
    choose|j: int| from <= j <= to && cs[j] == ' ' && forall|t: int| j < t <= to ==> cs[t] != ' '
}

/// Where a line starting at `start` breaks, by per-character widths `ws`:
/// at the first newline, or — at the first character that overflows
/// `max(max_width, 1)` after something visible — at the last space up to and
/// including it, else at that character; `None` when the rest fits.
pub open spec fn line_break_spec(cs: Seq<char>, ws: Seq<int>, max_width: int, start: int) -> Option<int> {
    let max = if max_width < 1 { 1 } else { max_width };
    if has_stop(cs, ws, max, start) {
        let k = first_stop(cs, ws, max, start);
        if cs[k] == '\n' {
            Some(k)
        } else if has_space(cs, start, k) {
            Some(last_space(cs, start, k))
        } else {
            Some(k)
        }
    } else {
        None
    }
}

/// The widths as integers.
pub open spec fn int_widths(ws: Seq<i32>) -> Seq<int> {
    Seq::new(ws.len(), |i: int| ws[i] as int)
}

/// Whether the character at a break is consumed with it.
pub open spec fn skips(c: char) -> bool {
    c == '\n' || c == ' '
}

/// A stop with no stop before it is the first stop.
proof fn lemma_first_stop_is(cs: Seq<char>, ws: Seq<int>, max: int, start: int, i: int)
    requires
        start <= i < cs.len(),
        stops_at(cs, ws, max, start, i),
        forall|j: int| start <= j < i ==> !stops_at(cs, ws, max, start, j),
    ensures
        has_stop(cs, ws, max, start),
        first_stop(cs, ws, max, start) == i,
{
    let k = first_stop(cs, ws, max, start);
    if k < i {
        assert(!stops_at(cs, ws, max, start, k));
    }
    if k > i {
        assert(!stops_at(cs, ws, max, start, i));
    }
}

/// When the sweep stops somewhere, it stops first somewhere.
proof fn lemma_first_stop_exists(cs: Seq<char>, ws: Seq<int>, max: int, start: int, i: int)
    requires
        start <= i < cs.len(),
        stops_at(cs, ws, max, start, i),
    ensures
        has_stop(cs, ws, max, start),
        start <= first_stop(cs, ws, max, start) <= i,
        stops_at(cs, ws, max, start, first_stop(cs, ws, max, start)),
        forall|j: int| start <= j < first_stop(cs, ws, max, start) ==> !stops_at(cs, ws, max, start, j),
    decreases i - start,
{
    if exists|j: int| start <= j < i && stops_at(cs, ws, max, start, j) {
        let j = choose|j: int| start <= j < i && stops_at(cs, ws, max, start, j);
        lemma_first_stop_exists(cs, ws, max, start, j);
    } else {
        lemma_first_stop_is(cs, ws, max, start, i);
    }
}

/// A space with no space after it up to `to` is the last space.
proof fn lemma_last_space_is(cs: Seq<char>, from: int, to: int, sp: int)
    requires
        from <= sp <= to,
        cs[sp] == ' ',
        forall|t: int| sp < t <= to ==> cs[t] != ' ',
    ensures
        has_space(cs, from, to),
        last_space(cs, from, to) == sp,
{
    let ls = last_space(cs, from, to);
    if ls < sp {
        assert(cs[sp] == ' ');
    }
    if ls > sp {
        assert(cs[ls] != ' ');
    }
}

/// When there is a space up to `to`, there is a last one.
proof fn lemma_last_space_exists(cs: Seq<char>, from: int, to: int, j: int)
    requires
        from <= j <= to,
        cs[j] == ' ',
    ensures
        has_space(cs, from, to),
        from <= last_space(cs, from, to) <= to,
        cs[last_space(cs, from, to)] == ' ',
    decreases to - j,
{
    if exists|t: int| j < t <= to && cs[t] == ' ' {
        let t = choose|t: int| j < t <= to && cs[t] == ' ';
        lemma_last_space_exists(cs, from, to, t);
    } else {
        lemma_last_space_is(cs, from, to, j);
    }
}

/// A break always moves on: it is at or after the start, inside the text,
/// and past the start unless the character there is skipped.
pub proof fn lemma_break_progress(cs: Seq<char>, ws: Seq<int>, max_width: int, start: int)
    requires
        0 <= start,
        cs.len() == ws.len(),
        line_break_spec(cs, ws, max_width, start) is Some,
    ensures
        ({
            let k = line_break_spec(cs, ws, max_width, start)->0;
            start <= k < cs.len() && (k > start || skips(cs[k]))
        }),
{
    let max = if max_width < 1 { 1 } else { max_width };
    let i = choose|i: int| start <= i < cs.len() && stops_at(cs, ws, max, start, i);
    lemma_first_stop_exists(cs, ws, max, start, i);
    let k = first_stop(cs, ws, max, start);
    if cs[k] != '\n' && has_space(cs, start, k) {
        let j = choose|j: int| start <= j <= k && cs[j] == ' ';
        lemma_last_space_exists(cs, start, k, j);
    }
}

/// One more character is visible exactly when it, or one before it, is.
proof fn lemma_visible_step(ws: Seq<int>, start: int, i: int)
    requires
        start <= i < ws.len(),
    ensures
        visible_in(ws, start, i + 1) == (visible_in(ws, start, i) || ws[i] != 0),
{
    if visible_in(ws, start, i) {
        let j = choose|j: int| start <= j < i && ws[j] != 0;
        assert(start <= j < i + 1 && ws[j] != 0);
    }
    if visible_in(ws, start, i + 1) && ws[i] == 0 {
        let j = choose|j: int| start <= j < i + 1 && ws[j] != 0;
        assert(j < i);
    }
}

/// The break finder over characters and their widths, from `start`.
#[verifier::rlimit(40)]
pub fn find_break_in(chars: &[char], widths: &[i32], start: usize, max_width: i32) -> (r: Option<usize>)
    requires
        chars@.len() == widths@.len(),
    ensures
        r == match line_break_spec(chars@, int_widths(widths@), max_width as int, start as int) {
            Some(k) => Some(k as usize),
            None => None::<usize>,
        },
{
    let ghost cs = chars@;
    let ghost ws = int_widths(widths@);
    let max: i32 = if max_width < 1 { 1 } else { max_width };
    let n = chars.len();
    let mut width: i128 = 0;
    let mut had_visible = false;
    let mut last: Option<usize> = None;
    let mut i = start;
    if start >= n {
        proof {
            assert(!has_stop(cs, ws, max as int, start as int));
        }
        return None;
    }
    while i < n
        invariant
            cs == chars@,
            ws == int_widths(widths@),
            n == cs.len(),
            n == widths@.len(),
            start <= i <= n,
            1 <= max,
            max == (if max_width < 1 { 1 } else { max_width }),
            width == width_sum(ws, start as int, i as int),
            -0x8000_0000 * (i - start) <= width <= 0x8000_0000 * (i - start),
            had_visible == visible_in(ws, start as int, i as int),
            forall|j: int| start <= j < i ==> !stops_at(cs, ws, max as int, start as int, j),
            match last {
                Some(sp) => start <= sp < i && cs[sp as int] == ' ' && forall|t: int| sp < t < i ==> cs[t] != ' ',
                None => forall|t: int| start <= t < i ==> cs[t] != ' ',
            },
        decreases n - i,
    {
        let c = chars[i];
        if c == '\n' {
            proof {
                lemma_first_stop_is(cs, ws, max as int, start as int, i as int);
            }
            return Some(i);
        }
        if c == ' ' {
            last = Some(i);
        }
        let cw = widths[i];
        width = width + cw as i128;
        proof {
            assert(ws[i as int] == cw as int);
            assert(width == width_sum(ws, start as int, i + 1));
            lemma_visible_step(ws, start as int, i as int);
        }
        if !had_visible || width <= max as i128 {
            had_visible = had_visible || cw != 0;
        } else {
            proof {
                lemma_first_stop_is(cs, ws, max as int, start as int, i as int);
            }
            match last {
                Some(sp) => {
                    proof {
                        lemma_last_space_is(cs, start as int, i as int, sp as int);
                    }
                    return Some(sp);
                },
                None => {
                    proof {
                        assert(!has_space(cs, start as int, i as int));
                    }
                    return Some(i);
                },
            }
        }
        i = i + 1;
    }
    proof {
        assert(!has_stop(cs, ws, max as int, start as int));
    }
    None
}

/// A width provider for plain characters answers every character, and the
/// same width each time.
pub open spec fn plain_width_ok<F: Fn(char) -> i32>(f: F) -> bool {
    &&& forall|c: char| #[trigger] call_requires(f, (c,))
    &&& forall|c: char, w1: i32, w2: i32| #[trigger] call_ensures(f, (c,), w1) && #[trigger] call_ensures(f, (c,), w2) ==> w1 == w2
}

/// The width a plain provider gives `c`.
pub open spec fn plain_width<F: Fn(char) -> i32>(f: F, c: char) -> i32 {
    choose|w: i32| call_ensures(f, (c,), w)
}

/// The widths a plain provider gives each character.
pub open spec fn plain_widths<F: Fn(char) -> i32>(f: F, cs: Seq<char>) -> Seq<int> {
    Seq::new(cs.len(), |i: int| plain_width(f, cs[i]) as int)
}

/// A styled width provider answers every character in either weight, the
/// same width each time.
pub open spec fn styled_width_ok<F: Fn(char, bool) -> i32>(f: F) -> bool {
    &&& forall|c: char, b: bool| #[trigger] call_requires(f, (c, b))
    &&& forall|c: char, b: bool, w1: i32, w2: i32| #[trigger] call_ensures(f, (c, b), w1) && #[trigger] call_ensures(f, (c, b), w2) ==> w1 == w2
}

/// The width a styled provider gives `c` in weight `bold`.
pub open spec fn styled_width<F: Fn(char, bool) -> i32>(f: F, c: char, bold: bool) -> i32 {
    choose|w: i32| call_ensures(f, (c, bold), w)
}

/// Each run's weight, repeated for each of its characters.
pub open spec fn line_bolds(spans: Seq<ChatSpan>) -> Seq<bool>
    decreases spans.len(),
{
    if spans.len() == 0 {
        Seq::empty()
    } else {
        Seq::new(spans[0].text@.len(), |i: int| spans[0].bold) + line_bolds(spans.skip(1))
    }
}

proof fn lemma_bolds_len(spans: Seq<ChatSpan>)
    ensures
        line_bolds(spans).len() == line_text(spans).len(),
    decreases spans.len(),
{
    if spans.len() > 0 {
        lemma_bolds_len(spans.skip(1));
    }
}

/// The widths a styled provider gives each character of a line.
pub open spec fn styled_widths<F: Fn(char, bool) -> i32>(f: F, spans: Seq<ChatSpan>) -> Seq<int> {
    Seq::new(line_text(spans).len(), |i: int| styled_width(f, line_text(spans)[i], line_bolds(spans)[i]) as int)
}

/// A run as a value: its text and its style.
pub type SpanView = (Seq<char>, u32, bool, Option<ClickEvent>);

pub open spec fn span_view(s: ChatSpan) -> SpanView {
    (s.text@, s.color, s.bold, s.click)
}

pub open spec fn span_views(s: Seq<ChatSpan>) -> Seq<SpanView> {
    s.map_values(|x: ChatSpan| span_view(x))
}

/// The style in force at flat position `pos` of a line.
pub open spec fn style_at(spans: Seq<ChatSpan>, pos: int) -> (u32, bool, Option<ClickEvent>)
    decreases spans.len(),
{
    if spans.len() == 0 {
        (0, false, None)
    } else if pos < spans[0].text@.len() {
        (spans[0].color, spans[0].bold, spans[0].click)
    } else {
        style_at(spans.skip(1), pos - spans[0].text@.len())
    }
}

/// The characters `[a, b)` of a line as runs: each run cut to the part of
/// it inside the range, the runs that miss it dropped.
pub open spec fn restrict(spans: Seq<ChatSpan>, off: int, a: int, b: int) -> Seq<SpanView>
    decreases spans.len(),
{
    if spans.len() == 0 {
        Seq::empty()
    } else {
        let t = spans[0].text@;
        let n = t.len() as int;
        let lo = if a > off { a } else { off };
        let hi = if b < off + n { b } else { off + n };
        (if lo < hi {
            seq![(t.subrange(lo - off, hi - off), spans[0].color, spans[0].bold, spans[0].click)]
        } else {
            Seq::empty()
        }) + restrict(spans.skip(1), off + n, a, b)
    }
}

/// The widths `f` gives a slice of plain characters.
fn measure_plain<F: Fn(char) -> i32>(chars: &[char], width_of: &F) -> (r: Vec<i32>)
    requires
        plain_width_ok(*width_of),
    ensures
        r@.len() == chars@.len(),
        int_widths(r@) == plain_widths(*width_of, chars@),
{
    let n = chars.len();
    let mut ws: Vec<i32> = Vec::new();
    let mut i: usize = 0;
    while i < n
        invariant
            n == chars@.len(),
            i <= n,
            plain_width_ok(*width_of),
            ws@.len() == i,
            forall|j: int| 0 <= j < i ==> ws@[j] == plain_width(*width_of, chars@[j]),
        decreases n - i,
    {
        let w = width_of(chars[i]);
        proof {
            let c = chars@[i as int];
            assert(call_ensures(*width_of, (c,), w));
            let cw = plain_width(*width_of, c);
            assert(call_ensures(*width_of, (c,), cw));
        }
        ws.push(w);
        i = i + 1;
    }
    proof {
        assert(int_widths(ws@) =~= plain_widths(*width_of, chars@));
    }
    ws
}

/// Where a plain line starting at `start` breaks, measuring each character
/// with `width_of`; `None` when the rest of the text fits.
pub fn find_line_break<F: Fn(char) -> i32>(chars: &[char], start: usize, max_width: i32, width_of: &F) -> (r: Option<usize>)
    requires
        plain_width_ok(*width_of),
    ensures
        r == match line_break_spec(chars@, plain_widths(*width_of, chars@), max_width as int, start as int) {
            Some(k) => Some(k as usize),
            None => None::<usize>,
        },
{
    let ws = measure_plain(chars, width_of);
    find_break_in(chars, ws.as_slice(), start, max_width)
}

/// A line's characters, weights and widths, flattened.
fn flatten<F: Fn(char, bool) -> i32>(parts: &[ChatSpan], width_of: &F) -> (r: (Vec<char>, Vec<i32>))
    requires
        styled_width_ok(*width_of),
    ensures
        r.0@ == line_text(parts@),
        r.1@.len() == r.0@.len(),
        int_widths(r.1@) == styled_widths(*width_of, parts@),
{
    let n = parts.len();
    let mut cs: Vec<char> = Vec::new();
    let mut bs: Vec<bool> = Vec::new();
    let mut ws: Vec<i32> = Vec::new();
    let mut i: usize = 0;
    proof {
        assert(parts@.skip(0) =~= parts@);
    }
    while i < n
        invariant
            n == parts@.len(),
            i <= n,
            styled_width_ok(*width_of),
            cs@ + line_text(parts@.skip(i as int)) == line_text(parts@),
            bs@ + line_bolds(parts@.skip(i as int)) == line_bolds(parts@),
            cs@.len() == bs@.len(),
            ws@.len() == cs@.len(),
            forall|j: int| 0 <= j < ws@.len() ==> ws@[j] == styled_width(*width_of, cs@[j], bs@[j]),
        decreases n - i,
    {
        let t = chars_of(parts[i].text.as_str());
        let bold = parts[i].bold;
        let ghost c0 = cs@;
        let ghost b0 = bs@;
        let m = t.len();
        let mut k: usize = 0;
        while k < m
            invariant
                m == t@.len(),
                k <= m,
                styled_width_ok(*width_of),
                cs@ == c0 + t@.take(k as int),
                bs@ == b0 + Seq::new(k as nat, |j: int| bold),
                c0.len() == b0.len(),
                ws@.len() == cs@.len(),
                forall|j: int| 0 <= j < ws@.len() ==> ws@[j] == styled_width(*width_of, cs@[j], bs@[j]),
            decreases m - k,
        {
            let c = t[k];
            let w = width_of(c, bold);
            proof {
                let cw = styled_width(*width_of, c, bold);
                assert(call_ensures(*width_of, (c, bold), w));
                assert(call_ensures(*width_of, (c, bold), cw));
            }
            cs.push(c);
            bs.push(bold);
            ws.push(w);
            proof {
                assert(cs@ =~= c0 + t@.take(k + 1));
                assert(bs@ =~= b0 + Seq::new((k + 1) as nat, |j: int| bold));
            }
            k = k + 1;
        }
        proof {
            let rest = parts@.skip(i as int);
            assert(rest[0] == parts@[i as int]);
            assert(rest.skip(1) =~= parts@.skip(i + 1));
            assert(t@.take(m as int) =~= t@);
            assert(cs@ + line_text(parts@.skip(i + 1)) =~= c0 + line_text(rest));
            assert(Seq::new(m as nat, |j: int| bold) =~= Seq::new(rest[0].text@.len(), |j: int| rest[0].bold));
            assert(bs@ + line_bolds(parts@.skip(i + 1)) =~= b0 + line_bolds(rest));
        }
        i = i + 1;
    }
    proof {
        assert(line_text(parts@.skip(n as int)) =~= Seq::<char>::empty());
        assert(line_bolds(parts@.skip(n as int)) =~= Seq::<bool>::empty());
        assert(cs@ =~= line_text(parts@));
        assert(bs@ =~= line_bolds(parts@));
        assert(int_widths(ws@) =~= styled_widths(*width_of, parts@));
    }
    (cs, ws)
}

/// The style of the run holding flat position `pos`.
fn style_of_position(parts: &[ChatSpan], pos: usize) -> (r: ChatStyle)
    requires
        pos < line_text(parts@).len(),
    ensures
        (r.color, r.bold, r.click) == style_at(parts@, pos as int),
{
    let n = parts.len();
    let mut i: usize = 0;
    let mut rest: usize = pos;
    proof {
        assert(parts@.skip(0) =~= parts@);
    }
    while i < n
        invariant
            n == parts@.len(),
            i <= n,
            rest < line_text(parts@.skip(i as int)).len(),
            style_at(parts@.skip(i as int), rest as int) == style_at(parts@, pos as int),
        decreases n - i,
    {
        let len = chars_of(parts[i].text.as_str()).len();
        proof {
            let r = parts@.skip(i as int);
            assert(r[0] == parts@[i as int]);
            assert(r.skip(1) =~= parts@.skip(i + 1));
        }
        if rest < len {
            return parts[i].style();
        }
        rest = rest - len;
        i = i + 1;
    }
    proof {
        assert(line_text(parts@.skip(n as int)) =~= Seq::<char>::empty());
    }
    ChatStyle::white()
}

/// The same sweep across a line of runs: the break as a flat position, and
/// the style of the run it falls in.
pub fn find_styled_line_break<F: Fn(char, bool) -> i32>(parts: &[ChatSpan], max_width: i32, width_of: &F) -> (r: Option<(usize, ChatStyle)>)
    requires
        styled_width_ok(*width_of),
    ensures
        match line_break_spec(line_text(parts@), styled_widths(*width_of, parts@), max_width as int, 0) {
            Some(k) => r matches Some((p, st)) && p == k && (st.color, st.bold, st.click) == style_at(parts@, k),
            None => r is None,
        },
{
    let (cs, ws) = flatten(parts, width_of);
    match find_break_in(cs.as_slice(), ws.as_slice(), 0, max_width) {
        None => None,
        Some(k) => {
            proof {
                lemma_break_progress(cs@, int_widths(ws@), max_width as int, 0);
            }
            Some((k, style_of_position(parts, k)))
        },
    }
}

/// `v[from..to]`, copied.
fn copy_chars(v: &[char], from: usize, to: usize) -> (r: Vec<char>)
    requires
        from <= to <= v@.len(),
    ensures
        r@ == v@.subrange(from as int, to as int),
{
    let mut out: Vec<char> = Vec::new();
    let mut i = from;
    while i < to
        invariant
            from <= i <= to <= v@.len(),
            out@ == v@.subrange(from as int, i as int),
        decreases to - i,
    {
        out.push(v[i]);
        proof {
            assert(out@ =~= v@.subrange(from as int, i + 1));
        }
        i = i + 1;
    }
    out
}

/// The runs of characters `[a, b)` of a line.
fn restrict_exec(parts: &[ChatSpan], a: usize, b: usize) -> (r: Vec<ChatSpan>)
    requires
        line_text(parts@).len() <= usize::MAX,
    ensures
        span_views(r@) == restrict(parts@, 0, a as int, b as int),
{
    let n = parts.len();
    let mut out: Vec<ChatSpan> = Vec::new();
    let mut off: usize = 0;
    let mut i: usize = 0;
    proof {
        assert(parts@.skip(0) =~= parts@);
    }
    while i < n
        invariant
            n == parts@.len(),
            i <= n,
            off + line_text(parts@.skip(i as int)).len() == line_text(parts@).len(),
            line_text(parts@).len() <= usize::MAX,
            span_views(out@) + restrict(parts@.skip(i as int), off as int, a as int, b as int) == restrict(parts@, 0, a as int, b as int),
        decreases n - i,
    {
        let ghost rest = parts@.skip(i as int);
        proof {
            assert(rest[0] == parts@[i as int]);
            assert(rest.skip(1) =~= parts@.skip(i + 1));
        }
        let t = chars_of(parts[i].text.as_str());
        let m = t.len();
        let lo = if a > off { a } else { off };
        let hi = if b < off + m { b } else { off + m };
        let ghost here: Seq<SpanView> = if lo < hi {
            seq![(t@.subrange(lo - off, hi - off), parts@[i as int].color, parts@[i as int].bold, parts@[i as int].click)]
        } else {
            Seq::empty()
        };
        if lo < hi {
            let piece = copy_chars(t.as_slice(), lo - off, hi - off);
            let sp = ChatSpan {
                text: string_from_chars(&piece),
                color: parts[i].color,
                bold: parts[i].bold,
                click: copy_click(&parts[i].click),
            };
            let ghost before = out@;
            out.push(sp);
            proof {
                assert(span_views(out@) =~= span_views(before) + here);
            }
        } else {
            proof {
                assert(span_views(out@) + here =~= span_views(out@));
            }
        }
        off = off + m;
        i = i + 1;
    }
    out
}

/// The next line's start after a break at `k`.
pub open spec fn after_break(cs: Seq<char>, k: int) -> int {
    if skips(cs[k]) { k + 1 } else { k }
}

/// The plain splitter's lines from `s`: up to each break, the break's
/// newline or space dropped; the rest as the last line; nothing once the
/// text is used up — so a trailing newline adds no empty line.
pub open spec fn plain_lines(cs: Seq<char>, ws: Seq<int>, max: int, s: int) -> Seq<Seq<char>>
    decreases cs.len() - s when cs.len() == ws.len() && 0 <= s
{
    if s >= cs.len() {
        Seq::empty()
    } else {
        match line_break_spec(cs, ws, max, s) {
            None => seq![cs.subrange(s, cs.len() as int)],
            Some(k) => {
                proof {
                    lemma_break_progress(cs, ws, max, s);
                }
                seq![cs.subrange(s, k)] + plain_lines(cs, ws, max, after_break(cs, k))
            },
        }
    }
}

/// Lines joined end to end.
pub open spec fn joined(ls: Seq<Seq<char>>) -> Seq<char>
    decreases ls.len(),
{
    if ls.len() == 0 {
        Seq::empty()
    } else {
        ls[0] + joined(ls.skip(1))
    }
}

/// The characters of `cs` from `from` on, leaving out the positions in `d`.
pub open spec fn without(cs: Seq<char>, d: Set<int>, from: int) -> Seq<char>
    decreases cs.len() - from,
{
    if from >= cs.len() || from < 0 {
        Seq::empty()
    } else {
        (if d.contains(from) { Seq::empty() } else { seq![cs[from]] }) + without(cs, d, from + 1)
    }
}

/// Leaving out positions none of which lie in `[a, b)` keeps that stretch
/// whole.
proof fn lemma_without_keeps(cs: Seq<char>, d: Set<int>, a: int, b: int)
    requires
        0 <= a <= b <= cs.len(),
        forall|j: int| a <= j < b ==> !d.contains(j),
    ensures
        without(cs, d, a) == cs.subrange(a, b) + without(cs, d, b),
    decreases b - a,
{
    if a < b {
        lemma_without_keeps(cs, d, a + 1, b);
        assert(cs.subrange(a, b) =~= seq![cs[a]] + cs.subrange(a + 1, b));
    } else {
        assert(cs.subrange(a, b) =~= Seq::<char>::empty());
    }
}

/// From `from` on, only the left-out positions from `from` on matter.
proof fn lemma_without_from(cs: Seq<char>, d: Set<int>, e: Set<int>, from: int)
    requires
        forall|j: int| from <= j ==> (d.contains(j) <==> e.contains(j)),
    ensures
        without(cs, d, from) == without(cs, e, from),
    decreases cs.len() - from,
{
    if from < cs.len() && from >= 0 {
        lemma_without_from(cs, d, e, from + 1);
    }
}

/// A line put before lines joins before them.
proof fn lemma_joined_cons(x: Seq<char>, rest: Seq<Seq<char>>)
    ensures
        joined(seq![x] + rest) == x + joined(rest),
{
    let l = seq![x] + rest;
    assert(l[0] == x);
    assert(l.skip(1) =~= rest);
}

/// The positions left out lie from `s` on and are spaces or newlines.
pub open spec fn consumed_breaks(cs: Seq<char>, d: Set<int>, s: int) -> bool {
    forall|j: int| #[trigger] d.contains(j) ==> s <= j < cs.len() && skips(cs[j])
}

/// The wrapped lines, joined, give back the text from `s` on less only
/// the spaces and newlines the breaks consumed.
#[verifier::spinoff_prover]
pub proof fn lemma_lines_rejoin(cs: Seq<char>, ws: Seq<int>, max: int, s: int)
    requires
        cs.len() == ws.len(),
        0 <= s,
    ensures
        exists|d: Set<int>| consumed_breaks(cs, d, s) && joined(plain_lines(cs, ws, max, s)) == #[trigger] without(cs, d, s),
    decreases cs.len() - s,
{
    let ls = plain_lines(cs, ws, max, s);
    let e = Set::<int>::empty();
    if s >= cs.len() {
        assert(joined(ls) == without(cs, e, s));
        assert(consumed_breaks(cs, e, s));
    } else {
        match line_break_spec(cs, ws, max, s) {
            None => {
                lemma_without_keeps(cs, e, s, cs.len() as int);
                assert(ls == seq![cs.subrange(s, cs.len() as int)] + Seq::<Seq<char>>::empty());
                lemma_joined_cons(cs.subrange(s, cs.len() as int), Seq::<Seq<char>>::empty());
                assert(without(cs, e, cs.len() as int) == Seq::<char>::empty());
                assert(joined(ls) =~= without(cs, e, s));
                assert(consumed_breaks(cs, e, s));
            },
            Some(k) => {
                lemma_break_progress(cs, ws, max, s);
                let a = after_break(cs, k);
                lemma_lines_rejoin(cs, ws, max, a);
                let d2 = choose|d: Set<int>| consumed_breaks(cs, d, a) && joined(plain_lines(cs, ws, max, a)) == #[trigger] without(cs, d, a);
                lemma_rejoin_step(cs, ws, max, s, k, d2);
            },
        }
    }
}

/// One line of the rejoin: the line before the break, then the break's
/// character left out when it is consumed.
proof fn lemma_rejoin_step(cs: Seq<char>, ws: Seq<int>, max: int, s: int, k: int, d2: Set<int>)
    requires
        cs.len() == ws.len(),
        0 <= s < cs.len(),
        line_break_spec(cs, ws, max, s) == Some(k),
        s <= k < cs.len(),
        consumed_breaks(cs, d2, after_break(cs, k)),
        joined(plain_lines(cs, ws, max, after_break(cs, k))) == without(cs, d2, after_break(cs, k)),
    ensures
        exists|d: Set<int>| consumed_breaks(cs, d, s) && joined(plain_lines(cs, ws, max, s)) == #[trigger] without(cs, d, s),
{
    let a = after_break(cs, k);
    let rest = plain_lines(cs, ws, max, a);
    let ls = plain_lines(cs, ws, max, s);
    assert(ls == seq![cs.subrange(s, k)] + rest);
    lemma_joined_cons(cs.subrange(s, k), rest);
    if skips(cs[k]) {
        let d = d2.insert(k);
        lemma_without_keeps(cs, d, s, k);
        lemma_without_from(cs, d, d2, k + 1);
        assert(without(cs, d, k) =~= Seq::<char>::empty() + without(cs, d, k + 1));
        assert(joined(ls) =~= without(cs, d, s));
        assert(consumed_breaks(cs, d, s));
    } else {
        lemma_without_keeps(cs, d2, s, k);
        assert(joined(ls) =~= without(cs, d2, s));
        assert(consumed_breaks(cs, d2, s));
    }
}

pub open spec fn strings_view(v: Seq<String>) -> Seq<Seq<char>> {
    v.map_values(|x: String| x@)
}

/// Split plain text into lines no wider than `max_width`, as strings.
#[verifier::rlimit(80)]
#[verifier::spinoff_prover]
pub fn split_lines<F: Fn(char) -> i32>(text: &str, max_width: i32, width_of: &F) -> (r: Vec<String>)
    requires
        plain_width_ok(*width_of),
    ensures
        strings_view(r@) == plain_lines(text@, plain_widths(*width_of, text@), max_width as int, 0),
{
    let cs = chars_of(text);
    let ws = measure_plain(cs.as_slice(), width_of);
    let ghost wsi = int_widths(ws@);
    let size = cs.len();
    let mut out: Vec<String> = Vec::new();
    let mut start: usize = 0;
    while start < size
        invariant
            size == cs@.len(),
            cs@ == text@,
            wsi == int_widths(ws@),
            ws@.len() == size,
            start <= size,
            strings_view(out@) + plain_lines(cs@, wsi, max_width as int, start as int) == plain_lines(cs@, wsi, max_width as int, 0),
        decreases size - start,
    {
        match find_break_in(cs.as_slice(), ws.as_slice(), start, max_width) {
            None => {
                let piece = copy_chars(cs.as_slice(), start, size);
                let line = string_from_chars(&piece);
                let ghost before = out@;
                out.push(line);
                proof {
                    assert(strings_view(out@) =~= strings_view(before).push(line@));
                    assert(plain_lines(cs@, wsi, max_width as int, size as int) =~= Seq::<Seq<char>>::empty());
                    assert(strings_view(out@) + plain_lines(cs@, wsi, max_width as int, size as int)
                        =~= strings_view(before) + plain_lines(cs@, wsi, max_width as int, start as int));
                }
                start = size;
            },
            Some(k) => {
                proof {
                    lemma_break_progress(cs@, wsi, max_width as int, start as int);
                }
                let piece = copy_chars(cs.as_slice(), start, k);
                let line = string_from_chars(&piece);
                let ghost before = out@;
                out.push(line);
                let next = if cs[k] == '\n' || cs[k] == ' ' { k + 1 } else { k };
                proof {
                    assert(next as int == after_break(cs@, k as int));
                    assert(strings_view(out@) =~= strings_view(before).push(line@));
                    assert(strings_view(out@) + plain_lines(cs@, wsi, max_width as int, next as int)
                        =~= strings_view(before) + plain_lines(cs@, wsi, max_width as int, start as int));
                }
                start = next;
            },
        }
    }
    proof {
        assert(plain_lines(cs@, wsi, max_width as int, start as int) =~= Seq::<Seq<char>>::empty());
        assert(strings_view(out@) =~= strings_view(out@) + plain_lines(cs@, wsi, max_width as int, start as int));
    }
    out
}

/// One line of the styled splitter: its runs, and whether the break before
/// it was a width wrap (the first line never is).
#[derive(Clone, Debug, PartialEq)]
pub struct WrappedLine {
    pub spans: ChatLine,
    pub wrapped: bool,
}

impl WrappedLine {
    /// The line's characters, runs concatenated.
    pub fn plain(&self) -> (r: String)
        ensures
            r@ == line_text(self.spans@),
    {
        crate::chat_style::plain_text(&self.spans)
    }
}

/// The styled splitter's lines from flat position `s`: up to each break as
/// runs, flagged with whether the break before was a wrap; then the rest, or
/// — when the last break was a newline that left nothing — one empty,
/// unflagged line.
pub open spec fn wrap_lines(parts: Seq<ChatSpan>, ws: Seq<int>, max: int, s: int, wrapped: bool, force: bool) -> Seq<(Seq<SpanView>, bool)>
    decreases line_text(parts).len() - s when line_text(parts).len() == ws.len() && 0 <= s
{
    let cs = line_text(parts);
    match line_break_spec(cs, ws, max, s) {
        Some(k) => {
            proof {
                lemma_break_progress(cs, ws, max, s);
            }
            let nl = cs[k] == '\n';
            seq![(restrict(parts, 0, s, k), wrapped)] + wrap_lines(parts, ws, max, after_break(cs, k), !nl, nl)
        },
        None => if s < cs.len() {
            seq![(restrict(parts, 0, s, cs.len() as int), wrapped)]
        } else if force {
            seq![(Seq::<SpanView>::empty(), false)]
        } else {
            Seq::empty()
        },
    }
}

/// One step of the styled splitter.
proof fn lemma_wrap_step(parts: Seq<ChatSpan>, ws: Seq<int>, max: int, s: int, wrapped: bool, force: bool, k: int)
    requires
        line_text(parts).len() == ws.len(),
        0 <= s,
        line_break_spec(line_text(parts), ws, max, s) == Some(k),
    ensures
        wrap_lines(parts, ws, max, s, wrapped, force) == seq![(restrict(parts, 0, s, k), wrapped)] + wrap_lines(
            parts,
            ws,
            max,
            after_break(line_text(parts), k),
            line_text(parts)[k] != '\n',
            line_text(parts)[k] == '\n',
        ),
{
    let cs = line_text(parts);
    lemma_break_progress(cs, ws, max, s);
    let nl = cs[k] == '\n';
    assert(wrap_lines(parts, ws, max, s, wrapped, force) == seq![(restrict(parts, 0, s, k), wrapped)] + wrap_lines(
        parts,
        ws,
        max,
        after_break(cs, k),
        !nl,
        nl,
    ));
}

/// The first line a styled split gives is never flagged as wrapped.
pub proof fn lemma_first_line_unflagged(parts: Seq<ChatSpan>, ws: Seq<int>, max: int)
    requires
        line_text(parts).len() == ws.len(),
    ensures
        wrap_lines(parts, ws, max, 0, false, false).len() > 0 ==> !wrap_lines(parts, ws, max, 0, false, false)[0].1,
{
    let cs = line_text(parts);
    match line_break_spec(cs, ws, max, 0) {
        Some(k) => {
            lemma_wrap_step(parts, ws, max, 0, false, false, k);
        },
        None => {},
    }
}

/// On a single run the styled finder breaks where the plain one does, when
/// the styled provider gives each character in the run's weight the width
/// the plain provider gives it.
pub proof fn lemma_finders_agree<F: Fn(char) -> i32, G: Fn(char, bool) -> i32>(f: F, g: G, part: ChatSpan, max: int)
    requires
        forall|c: char| #[trigger] styled_width(g, c, part.bold) == plain_width(f, c),
    ensures
        line_break_spec(line_text(seq![part]), styled_widths(g, seq![part]), max, 0)
            == line_break_spec(part.text@, plain_widths(f, part.text@), max, 0),
{
    let one = seq![part];
    assert(one.skip(1) =~= Seq::<ChatSpan>::empty());
    assert(line_text(one.skip(1)) =~= Seq::<char>::empty());
    assert(line_bolds(one.skip(1)) =~= Seq::<bool>::empty());
    assert(one[0] == part);
    assert(line_text(one) =~= part.text@);
    assert(line_bolds(one) =~= Seq::new(part.text@.len(), |i: int| part.bold));
    assert(styled_widths(g, one) =~= plain_widths(f, part.text@));
}

/// When the styled provider ignores the weight and answers what the plain
/// one does, the two finders see the same widths over the concatenated
/// text: one running sweep across all the runs, not a restart per run. So
/// the styled finder breaks wherever the plain one does on that text.
pub proof fn lemma_style_blind_finders_agree<F: Fn(char) -> i32, G: Fn(char, bool) -> i32>(
    f: F,
    g: G,
    parts: Seq<ChatSpan>,
    max: int,
    start: int,
)
    requires
        forall|c: char, b: bool| #[trigger] styled_width(g, c, b) == plain_width(f, c),
    ensures
        styled_widths(g, parts) == plain_widths(f, line_text(parts)),
        line_break_spec(line_text(parts), styled_widths(g, parts), max, start)
            == line_break_spec(line_text(parts), plain_widths(f, line_text(parts)), max, start),
{
    lemma_bolds_len(parts);
    let t = line_text(parts);
    assert forall|i: int| 0 <= i < t.len() implies styled_widths(g, parts)[i] == plain_widths(f, t)[i] by {
        assert(styled_width(g, t[i], line_bolds(parts)[i]) == plain_width(f, t[i]));
    }
    assert(styled_widths(g, parts) =~= plain_widths(f, t));
}

/// The characters of a list of runs, concatenated.
pub open spec fn views_text(v: Seq<SpanView>) -> Seq<char>
    decreases v.len(),
{
    if v.len() == 0 {
        Seq::empty()
    } else {
        v[0].0 + views_text(v.skip(1))
    }
}

/// `x` held to `[0, n]`.
pub open spec fn clamp(x: int, n: int) -> int {
    if x < 0 { 0 } else if x > n { n } else { x }
}

/// Cutting runs to a range keeps exactly the range's characters.
proof fn lemma_restrict_text(spans: Seq<ChatSpan>, off: int, a: int, b: int)
    requires
        a <= b,
    ensures
        views_text(restrict(spans, off, a, b)) == line_text(spans).subrange(
            clamp(a - off, line_text(spans).len() as int),
            clamp(b - off, line_text(spans).len() as int),
        ),
    decreases spans.len(),
{
    if spans.len() > 0 {
        let t = spans[0].text@;
        let n = t.len() as int;
        let rest = line_text(spans.skip(1));
        let l = rest.len() as int;
        lemma_restrict_text(spans.skip(1), off + n, a, b);
        let lo = if a > off { a } else { off };
        let hi = if b < off + n { b } else { off + n };
        let r = restrict(spans.skip(1), off + n, a, b);
        let whole = t + rest;
        assert(line_text(spans) == whole);
        let aa = clamp(a - off, n + l);
        let bb = clamp(b - off, n + l);
        if lo < hi {
            let x = (t.subrange(lo - off, hi - off), spans[0].color, spans[0].bold, spans[0].click);
            assert((seq![x] + r).skip(1) =~= r);
            assert((seq![x] + r)[0] == x);
            assert(views_text(seq![x] + r) == x.0 + views_text(r));
            assert(whole.subrange(aa, bb) =~= t.subrange(lo - off, hi - off) + rest.subrange(clamp(a - off - n, l), clamp(b - off - n, l)));
        } else {
            assert(Seq::<SpanView>::empty() + r =~= r);
            assert(whole.subrange(aa, bb) =~= rest.subrange(clamp(a - off - n, l), clamp(b - off - n, l)));
        }
    }
}

/// The characters of each styled line.
pub open spec fn line_texts(ls: Seq<(Seq<SpanView>, bool)>) -> Seq<Seq<char>> {
    ls.map_values(|l: (Seq<SpanView>, bool)| views_text(l.0))
}

/// The styled lines are the plain ones, or those and one empty line more.
pub open spec fn agrees(t: Seq<Seq<char>>, p: Seq<Seq<char>>) -> bool {
    t == p || t == p.push(Seq::<char>::empty())
}

/// The same line put before lines that agree.
proof fn lemma_agree_cons(x: Seq<char>, t: Seq<Seq<char>>, p: Seq<Seq<char>>)
    requires
        agrees(t, p),
    ensures
        agrees(seq![x] + t, seq![x] + p),
{
    assert(seq![x] + p.push(Seq::<char>::empty()) =~= (seq![x] + p).push(Seq::<char>::empty()));
}

/// One step of the plain splitter.
proof fn lemma_plain_step(cs: Seq<char>, ws: Seq<int>, max: int, s: int, k: int)
    requires
        cs.len() == ws.len(),
        0 <= s,
        line_break_spec(cs, ws, max, s) == Some(k),
    ensures
        plain_lines(cs, ws, max, s) == seq![cs.subrange(s, k)] + plain_lines(cs, ws, max, after_break(cs, k)),
{
    lemma_break_progress(cs, ws, max, s);
}

/// The characters of the lines before more lines.
proof fn lemma_line_texts_cons(x: (Seq<SpanView>, bool), rest: Seq<(Seq<SpanView>, bool)>)
    ensures
        line_texts(seq![x] + rest) == seq![views_text(x.0)] + line_texts(rest),
{
    assert(line_texts(seq![x] + rest) =~= seq![views_text(x.0)] + line_texts(rest));
}

/// One line of each, the same, before lines that agree.
#[verifier::rlimit(100)]
#[verifier::spinoff_prover]
proof fn lemma_agree_step(parts: Seq<ChatSpan>, ws: Seq<int>, max: int, s: int, wrapped: bool, force: bool, k: int)
    requires
        line_text(parts).len() == ws.len(),
        0 <= s,
        line_break_spec(line_text(parts), ws, max, s) == Some(k),
        agrees(
            line_texts(wrap_lines(parts, ws, max, after_break(line_text(parts), k), line_text(parts)[k] != '\n', line_text(parts)[k] == '\n')),
            plain_lines(line_text(parts), ws, max, after_break(line_text(parts), k)),
        ),
    ensures
        agrees(line_texts(wrap_lines(parts, ws, max, s, wrapped, force)), plain_lines(line_text(parts), ws, max, s)),
{
    let cs = line_text(parts);
    lemma_break_progress(cs, ws, max, s);
    lemma_wrap_step(parts, ws, max, s, wrapped, force, k);
    lemma_plain_step(cs, ws, max, s, k);
    let nx = after_break(cs, k);
    lemma_restrict_text(parts, 0, s, k);
    let first = (restrict(parts, 0, s, k), wrapped);
    let rest = wrap_lines(parts, ws, max, nx, cs[k] != '\n', cs[k] == '\n');
    lemma_line_texts_cons(first, rest);
    lemma_agree_cons(cs.subrange(s, k), line_texts(rest), plain_lines(cs, ws, max, nx));
}

/// The last line of each, when no break is left.
proof fn lemma_agree_last(parts: Seq<ChatSpan>, ws: Seq<int>, max: int, s: int, wrapped: bool, force: bool)
    requires
        line_text(parts).len() == ws.len(),
        0 <= s,
        line_break_spec(line_text(parts), ws, max, s) is None,
    ensures
        agrees(line_texts(wrap_lines(parts, ws, max, s, wrapped, force)), plain_lines(line_text(parts), ws, max, s)),
{
    let cs = line_text(parts);
    let n = cs.len() as int;
    let t = line_texts(wrap_lines(parts, ws, max, s, wrapped, force));
    let p = plain_lines(cs, ws, max, s);
    if s < n {
        lemma_restrict_text(parts, 0, s, n);
        assert(t =~= seq![cs.subrange(s, n)]);
    } else {
        assert(p =~= Seq::<Seq<char>>::empty());
        if force {
            assert(views_text(Seq::<SpanView>::empty()) =~= Seq::<char>::empty());
            assert(t =~= p.push(Seq::<char>::empty()));
        } else {
            assert(t =~= p);
        }
    }
}

/// Both splitters break in the same places: the styled one gives the plain
/// one's lines, and at most one more line, an empty one.
pub proof fn lemma_overloads_agree(parts: Seq<ChatSpan>, ws: Seq<int>, max: int, s: int, wrapped: bool, force: bool)
    requires
        line_text(parts).len() == ws.len(),
        0 <= s,
    ensures
        agrees(line_texts(wrap_lines(parts, ws, max, s, wrapped, force)), plain_lines(line_text(parts), ws, max, s)),
    decreases line_text(parts).len() - s,
{
    let cs = line_text(parts);
    match line_break_spec(cs, ws, max, s) {
        Some(k) => {
            lemma_break_progress(cs, ws, max, s);
            lemma_overloads_agree(parts, ws, max, after_break(cs, k), cs[k] != '\n', cs[k] == '\n');
            lemma_agree_step(parts, ws, max, s, wrapped, force, k);
        },
        None => {
            lemma_agree_last(parts, ws, max, s, wrapped, force);
        },
    }
}

/// Pushing one more value before the rest is appending the value and the
/// rest.
proof fn lemma_push_then_rest<T>(a: Seq<T>, x: T, rest: Seq<T>)
    ensures
        a.push(x) + rest == a + (seq![x] + rest),
{
    assert(a.push(x) + rest =~= a + (seq![x] + rest));
}

pub open spec fn lines_view(v: Seq<WrappedLine>) -> Seq<(Seq<SpanView>, bool)> {
    v.map_values(|l: WrappedLine| (span_views(l.spans@), l.wrapped))
}

/// Split a line of runs into lines no wider than `max_width`; a run cut by
/// a break keeps its style on both sides.
#[verifier::rlimit(80)]
#[verifier::spinoff_prover]
pub fn split_lines_wrapped<F: Fn(char, bool) -> i32>(input: &[ChatSpan], max_width: i32, width_of: &F) -> (r: Vec<WrappedLine>)
    requires
        styled_width_ok(*width_of),
    ensures
        lines_view(r@) == wrap_lines(input@, styled_widths(*width_of, input@), max_width as int, 0, false, false),
{
    let (cs, ws) = flatten(input, width_of);
    let ghost wsi = int_widths(ws@);
    let n = cs.len();
    let mut out: Vec<WrappedLine> = Vec::new();
    let mut s: usize = 0;
    let mut is_wrapped = false;
    let mut force_new_line = false;
    let ghost whole = wrap_lines(input@, wsi, max_width as int, 0, false, false);
    loop
        invariant
            n == cs@.len(),
            cs@ == line_text(input@),
            ws@.len() == n,
            wsi == int_widths(ws@),
            whole == wrap_lines(input@, wsi, max_width as int, 0, false, false),
            s <= n,
            lines_view(out@) + wrap_lines(input@, wsi, max_width as int, s as int, is_wrapped, force_new_line) == whole,
        ensures
            s <= n,
            line_break_spec(cs@, wsi, max_width as int, s as int) is None,
            lines_view(out@) + wrap_lines(input@, wsi, max_width as int, s as int, is_wrapped, force_new_line) == whole,
        decreases n - s,
    {
        match find_break_in(cs.as_slice(), ws.as_slice(), s, max_width) {
            None => {
                break;
            },
            Some(k) => {
                proof {
                    lemma_break_progress(cs@, wsi, max_width as int, s as int);
                }
                let tail = cs[k];
                let is_new_line = tail == '\n';
                let skip: usize = if is_new_line || tail == ' ' { 1 } else { 0 };
                let ghost old_force = force_new_line;
                force_new_line = is_new_line;
                let spans = restrict_exec(input, s, k);
                let line = WrappedLine { spans, wrapped: is_wrapped };
                let ghost before = out@;
                let ghost old_s = s;
                let ghost old_wrapped = is_wrapped;
                out.push(line);
                is_wrapped = !is_new_line;
                s = k + skip;
                proof {
                    assert(s as int == after_break(cs@, k as int));
                    assert(lines_view(out@) =~= lines_view(before).push((restrict(input@, 0, old_s as int, k as int), old_wrapped)));
                    lemma_wrap_step(input@, wsi, max_width as int, old_s as int, old_wrapped, old_force, k as int);
                    lemma_push_then_rest(
                        lines_view(before),
                        (restrict(input@, 0, old_s as int, k as int), old_wrapped),
                        wrap_lines(input@, wsi, max_width as int, s as int, is_wrapped, force_new_line),
                    );
                }
            },
        }
    }
    let ghost before = out@;
    if s < n {
        let spans = restrict_exec(input, s, n);
        out.push(WrappedLine { spans, wrapped: is_wrapped });
        proof {
            assert(lines_view(out@) =~= lines_view(before) + wrap_lines(input@, wsi, max_width as int, s as int, is_wrapped, force_new_line));
        }
    } else if force_new_line {
        out.push(WrappedLine { spans: Vec::new(), wrapped: false });
        proof {
            assert(span_views(Seq::<ChatSpan>::empty()) =~= Seq::<SpanView>::empty());
            assert(lines_view(out@) =~= lines_view(before) + wrap_lines(input@, wsi, max_width as int, s as int, is_wrapped, force_new_line));
        }
    } else {
        proof {
            assert(lines_view(out@) =~= lines_view(before) + wrap_lines(input@, wsi, max_width as int, s as int, is_wrapped, force_new_line));
        }
    }
    out
}

} // verus!
