//! The sign editor: four lines, the one being edited, and a text cursor and
//! selection over it, counted in UTF-8 bytes and stepped by whole
//! characters.
//!
//! An insert builds the whole candidate line and keeps it only if it is no
//! wider than the sign allows (90 pixels, 60 on a hanging sign); a failing
//! insert, paste included, is dropped whole, never cut short. Enter moves
//! down a line and never closes; Escape closes, which commits.

use vstd::prelude::*;
use crate::screen::{Backdrop, Screen, ScreenKind, Widget, WidgetKind, WidgetId};
use crate::text::{chars_of, string_from_chars};
use crate::arith::tdiv;
use crate::utf16::utf16;

verus! {

/// The keys the screen binds itself.
pub const KEY_UP: i32 = 265;
pub const KEY_DOWN: i32 = 264;
pub const KEY_ENTER: i32 = 257;
pub const KEY_KP_ENTER: i32 = 335;
pub const KEY_ESCAPE: i32 = 256;

/// The text field's keys.
pub const KEY_BACKSPACE: i32 = 259;
pub const KEY_DELETE: i32 = 261;
pub const KEY_RIGHT: i32 = 262;
pub const KEY_LEFT: i32 = 263;
pub const KEY_HOME: i32 = 268;
pub const KEY_END: i32 = 269;
pub const KEY_A: i32 = 65;
pub const KEY_C: i32 = 67;
pub const KEY_V: i32 = 86;
pub const KEY_X: i32 = 88;

/// Modifier bits.
pub const MOD_SHIFT: i32 = 1;
pub const MOD_CONTROL: i32 = 2;
pub const MOD_ALT: i32 = 4;

/// A sign's line height and widest line, and a hanging sign's.
pub const SIGN_LINE_HEIGHT: i32 = 10;
pub const SIGN_MAX_WIDTH: i32 = 90;
pub const HANGING_LINE_HEIGHT: i32 = 9;
pub const HANGING_MAX_WIDTH: i32 = 60;

/// The Done button and the title label.
pub const DONE: WidgetId = 0;
pub const TITLE_LABEL: WidgetId = 1;
/// The title's y.
pub const TITLE_Y: i32 = 40;

/// The caret blinks by the wall clock since the screen opened: 300 ms
/// shown, 300 hidden, shown first.
pub fn cursor_visible(ms_since_open: u64) -> (r: bool)
    ensures
        r == ((ms_since_open / 300) % 2 == 0),
{
    (ms_since_open / 300) % 2 == 0
}

/// Which sign is being edited.
#[derive(Clone, Copy, Debug, PartialEq, Eq, Structural)]
pub enum SignKind {
    Standing,
    Wall,
    Hanging,
}

impl SignKind {
    pub fn hanging(self) -> (r: bool)
        ensures
            r == (self == SignKind::Hanging),
    {
        self == SignKind::Hanging
    }

    pub open spec fn line_height_spec(self) -> i32 {
        if self == SignKind::Hanging { HANGING_LINE_HEIGHT } else { SIGN_LINE_HEIGHT }
    }

    pub open spec fn max_width_spec(self) -> i32 {
        if self == SignKind::Hanging { HANGING_MAX_WIDTH } else { SIGN_MAX_WIDTH }
    }

    pub fn line_height(self) -> (r: i32)
        ensures
            r == self.line_height_spec(),
    {
        if self.hanging() { HANGING_LINE_HEIGHT } else { SIGN_LINE_HEIGHT }
    }

    /// The widest a line may be, in pixels.
    pub fn max_text_line_width(self) -> (r: i32)
        ensures
            r == self.max_width_spec(),
    {
        if self.hanging() { HANGING_MAX_WIDTH } else { SIGN_MAX_WIDTH }
    }

    /// The middle of the four lines: `4 * lineHeight / 2`.
    pub fn midpoint(self) -> (r: i32)
        ensures
            r == 4 * self.line_height_spec() / 2,
    {
        4 * self.line_height() / 2
    }
}

/// A formatting code's letter: `0-9`, `a-f`, `k-o`, `r`, either case.
pub open spec fn is_format_code(c: char) -> bool {
    ('0' <= c <= '9') || ('a' <= c <= 'f') || ('A' <= c <= 'F') || ('k' <= c <= 'o') || ('K' <= c <= 'O') || c == 'r' || c == 'R'
}

/// The text with every `§` + code pair removed; a `§` with no code after
/// it stays.
pub open spec fn strip_spec(s: Seq<char>) -> Seq<char>
    decreases s.len(),
{
    if s.len() == 0 {
        s
    } else if s.len() >= 2 && s[0] == '§' && is_format_code(s[1]) {
        strip_spec(s.skip(2))
    } else {
        seq![s[0]] + strip_spec(s.skip(1))
    }
}

/// Formatting codes removed.
pub fn strip_formatting(s: &str) -> (r: String)
    ensures
        r@ == strip_spec(s@),
{
    let cs = chars_of(s);
    let n = cs.len();
    let mut out: Vec<char> = Vec::new();
    let mut i: usize = 0;
    proof {
        assert(cs@.skip(0) =~= cs@);
    }
    while i < n
        invariant
            n == cs@.len(),
            cs@ == s@,
            i <= n,
            out@ + strip_spec(cs@.skip(i as int)) == strip_spec(cs@),
        decreases n - i,
    {
        let ghost rest = cs@.skip(i as int);
        let c = cs[i];
        if c == '§' && i + 1 < n {
            let d = cs[i + 1];
            let code = ('0' <= d && d <= '9') || ('a' <= d && d <= 'f') || ('A' <= d && d <= 'F') || ('k' <= d && d <= 'o')
                || ('K' <= d && d <= 'O') || d == 'r' || d == 'R';
            if code {
                proof {
                    assert(rest[0] == c && rest[1] == d);
                    assert(rest.skip(2) =~= cs@.skip(i + 2));
                }
                i = i + 2;
                continue;
            }
        }
        proof {
            assert(rest[0] == c);
            assert(rest.skip(1) =~= cs@.skip(i + 1));
            assert(out@.push(c) + strip_spec(cs@.skip(i + 1)) =~= out@ + strip_spec(rest));
        }
        out.push(c);
        i = i + 1;
    }
    proof {
        assert(strip_spec(cs@.skip(n as int)) =~= Seq::<char>::empty());
        assert(out@ =~= strip_spec(cs@));
    }
    string_from_chars(&out)
}

/// A character chat accepts: not `§`, not a control character, not DEL.
pub open spec fn allowed_chat_char(ch: char) -> bool {
    ch != '§' && ch as u32 >= 32 && ch as u32 != 127
}

pub fn is_allowed_chat_character(ch: char) -> (r: bool)
    ensures
        r == allowed_chat_char(ch),
{
    ch != '§' && ch as u32 >= 32 && ch as u32 != 127
}

/// How many UTF-8 bytes a character takes.
pub open spec fn utf8_width(c: char) -> int {
    let v = c as u32;
    if v < 0x80 {
        1
    } else if v < 0x800 {
        2
    } else if v < 0x10000 {
        3
    } else {
        4
    }
}

/// A string's length in UTF-8 bytes.
pub open spec fn byte_len(cs: Seq<char>) -> int
    decreases cs.len(),
{
    if cs.len() == 0 {
        0
    } else {
        utf8_width(cs[0]) + byte_len(cs.skip(1))
    }
}

/// The byte offset of character `i`.
pub open spec fn byte_pos(cs: Seq<char>, i: int) -> int {
    byte_len(cs.take(i))
}

/// `b` falls between two characters (or at either end).
pub open spec fn is_boundary(cs: Seq<char>, b: int) -> bool {
    exists|i: int| 0 <= i <= cs.len() && byte_pos(cs, i) == b
}

/// The character index of boundary `b`.
pub open spec fn char_index(cs: Seq<char>, b: int) -> int {
    choose|i: int| 0 <= i <= cs.len() && byte_pos(cs, i) == b
}

pub proof fn lemma_byte_len_concat(a: Seq<char>, b: Seq<char>)
    ensures
        byte_len(a + b) == byte_len(a) + byte_len(b),
    decreases a.len(),
{
    if a.len() > 0 {
        lemma_byte_len_concat(a.skip(1), b);
        assert((a + b).skip(1) =~= a.skip(1) + b);
    } else {
        assert(a + b =~= b);
    }
}

pub proof fn lemma_byte_len_nonneg(a: Seq<char>)
    ensures
        byte_len(a) >= a.len(),
    decreases a.len(),
{
    if a.len() > 0 {
        lemma_byte_len_nonneg(a.skip(1));
    }
}

/// Byte offsets grow strictly with the character index.
pub proof fn lemma_byte_pos_strict(cs: Seq<char>, i: int, j: int)
    requires
        0 <= i < j <= cs.len(),
    ensures
        byte_pos(cs, i) < byte_pos(cs, j),
        byte_pos(cs, j) - byte_pos(cs, i) >= j - i,
{
    assert(cs.take(j) =~= cs.take(i) + cs.subrange(i, j));
    lemma_byte_len_concat(cs.take(i), cs.subrange(i, j));
    lemma_byte_len_nonneg(cs.subrange(i, j));
}

/// One character more is its width more.
pub proof fn lemma_byte_pos_step(cs: Seq<char>, i: int)
    requires
        0 <= i < cs.len(),
    ensures
        byte_pos(cs, i + 1) == byte_pos(cs, i) + utf8_width(cs[i]),
{
    assert(cs.take(i + 1) =~= cs.take(i) + seq![cs[i]]);
    lemma_byte_len_concat(cs.take(i), seq![cs[i]]);
    assert(seq![cs[i]].skip(1) =~= Seq::<char>::empty());
    assert(byte_len(Seq::<char>::empty()) == 0);
    assert(byte_len(seq![cs[i]]) == utf8_width(cs[i]) + byte_len(seq![cs[i]].skip(1)));
}

/// A boundary names exactly one character index.
pub proof fn lemma_char_index(cs: Seq<char>, i: int)
    requires
        0 <= i <= cs.len(),
    ensures
        is_boundary(cs, byte_pos(cs, i)),
        char_index(cs, byte_pos(cs, i)) == i,
{
    let b = byte_pos(cs, i);
    assert(0 <= i <= cs.len() && byte_pos(cs, i) == b);
    let k = char_index(cs, b);
    if k < i {
        lemma_byte_pos_strict(cs, k, i);
    }
    if k > i {
        lemma_byte_pos_strict(cs, i, k);
    }
}

/// A string's byte length, as `str::len` reports it, is its UTF-8 length.
pub proof fn lemma_str_len(cs: Seq<char>)
    ensures
        vstd::utf8::encode_utf8(cs).len() == byte_len(cs),
    decreases cs.len(),
{
    if cs.len() > 0 {
        lemma_str_len(cs.drop_first());
        assert(cs.drop_first() =~= cs.skip(1));
        let c = cs[0];
        vstd::utf8::char_is_scalar(c);
    }
}

/// The UTF-8 width of a character.
pub fn char_len_utf8(c: char) -> (r: usize)
    ensures
        r == utf8_width(c),
{
    let v = c as u32;
    if v < 0x80 {
        1
    } else if v < 0x800 {
        2
    } else if v < 0x10000 {
        3
    } else {
        4
    }
}

/// The byte offset of character `i` of `cs`, where the text's byte length
/// is known to fit.
pub fn byte_offset(cs: &Vec<char>, i: usize) -> (r: usize)
    requires
        i <= cs@.len(),
        byte_len(cs@) <= usize::MAX,
    ensures
        r == byte_pos(cs@, i as int),
{
    let mut k: usize = 0;
    let mut acc: usize = 0;
    proof {
        assert(cs@.take(0) =~= Seq::<char>::empty());
    }
    while k < i
        invariant
            k <= i <= cs@.len(),
            byte_len(cs@) <= usize::MAX,
            acc == byte_pos(cs@, k as int),
        decreases i - k,
    {
        proof {
            lemma_byte_pos_step(cs@, k as int);
            assert(cs@.take(cs@.len() as int) =~= cs@);
            if k + 1 < cs@.len() {
                lemma_byte_pos_strict(cs@, k + 1, cs@.len() as int);
            }
        }
        acc = acc + char_len_utf8(cs[k]);
        k = k + 1;
    }
    acc
}

/// The character index of byte offset `b` of `cs`, if `b` falls between
/// characters.
pub fn char_index_of(cs: &Vec<char>, b: usize) -> (r: Option<usize>)
    ensures
        r is Some <==> is_boundary(cs@, b as int),
        r matches Some(i) ==> i <= cs@.len() && byte_pos(cs@, i as int) == b && char_index(cs@, b as int) == i,
{
    let n = cs.len();
    let mut k: usize = 0;
    let mut acc: usize = 0;
    proof {
        assert(cs@.take(0) =~= Seq::<char>::empty());
    }
    while k < n && acc < b
        invariant
            k <= n,
            n == cs@.len(),
            acc == byte_pos(cs@, k as int),
            acc <= b,
            forall|j: int| 0 <= j < k ==> byte_pos(cs@, j) < b,
        decreases n - k,
    {
        proof {
            lemma_byte_pos_step(cs@, k as int);
        }
        let w = char_len_utf8(cs[k]);
        if w > b - acc {
            proof {
                assert forall|j: int| 0 <= j <= cs@.len() implies byte_pos(cs@, j) != b by {
                    if j > k + 1 {
                        lemma_byte_pos_strict(cs@, k + 1, j);
                    }
                }
            }
            return None;
        }
        acc = acc + w;
        k = k + 1;
    }
    if acc == b {
        proof {
            lemma_char_index(cs@, k as int);
        }
        Some(k)
    } else {
        proof {
            assert forall|j: int| 0 <= j <= cs@.len() implies byte_pos(cs@, j) != b by {
                if j < k {
                } else if j > k {
                    lemma_byte_pos_strict(cs@, k as int, j);
                }
            }
        }
        None
    }
}

/// A word separator: a space or a newline.
pub open spec fn is_sep_byte(b: u8) -> bool {
    b == 32 || b == 10
}

pub open spec fn back_over_seps(b: Seq<u8>, r: int) -> int
    decreases r,
{
    if r > 0 && r <= b.len() && is_sep_byte(b[r - 1]) { back_over_seps(b, r - 1) } else { r }
}

pub open spec fn back_over_word(b: Seq<u8>, r: int) -> int
    decreases r,
{
    if r > 0 && r <= b.len() && !is_sep_byte(b[r - 1]) { back_over_word(b, r - 1) } else { r }
}

pub open spec fn fwd_to_sep(b: Seq<u8>, r: int) -> int
    decreases b.len() - r,
{
    if 0 <= r < b.len() && !is_sep_byte(b[r]) { fwd_to_sep(b, r + 1) } else { r }
}

pub open spec fn fwd_over_seps(b: Seq<u8>, r: int) -> int
    decreases b.len() - r,
{
    if 0 <= r < b.len() && is_sep_byte(b[r]) { fwd_over_seps(b, r + 1) } else { r }
}

/// One word step: backward, over separators and then the word before them;
/// forward, to the next separator and over the run of them.
pub open spec fn word_step(b: Seq<u8>, reverse: bool, r: int) -> int {
    if reverse { back_over_word(b, back_over_seps(b, r)) } else { fwd_over_seps(b, fwd_to_sep(b, r)) }
}

pub open spec fn word_steps(b: Seq<u8>, reverse: bool, r: int, n: nat) -> int
    decreases n,
{
    if n == 0 { r } else { word_step(b, reverse, word_steps(b, reverse, r, (n - 1) as nat)) }
}

/// `|dir|` word steps from `from` (clamped to the end), backward when `dir`
/// is negative.
pub open spec fn word_position_spec(b: Seq<u8>, dir: int, from: int) -> int {
    let start = if from < b.len() { from } else { b.len() as int };
    word_steps(b, dir < 0, start, (if dir < 0 { -dir } else { dir }) as nat)
}

proof fn lemma_back_over_seps(b: Seq<u8>, r: int)
    requires
        0 <= r <= b.len(),
    ensures
        0 <= back_over_seps(b, r) <= r,
    decreases r,
{
    if r > 0 && is_sep_byte(b[r - 1]) {
        lemma_back_over_seps(b, r - 1);
    }
}

proof fn lemma_back_over_word(b: Seq<u8>, r: int)
    requires
        0 <= r <= b.len(),
    ensures
        0 <= back_over_word(b, r) <= r,
        back_over_word(b, r) == 0 || is_sep_byte(b[back_over_word(b, r) - 1]),
    decreases r,
{
    if r > 0 && !is_sep_byte(b[r - 1]) {
        lemma_back_over_word(b, r - 1);
    }
}

proof fn lemma_fwd_to_sep(b: Seq<u8>, r: int)
    requires
        0 <= r <= b.len(),
    ensures
        r <= fwd_to_sep(b, r) <= b.len(),
        fwd_to_sep(b, r) == b.len() || is_sep_byte(b[fwd_to_sep(b, r)]),
    decreases b.len() - r,
{
    if r < b.len() && !is_sep_byte(b[r]) {
        lemma_fwd_to_sep(b, r + 1);
    }
}

proof fn lemma_fwd_over_seps(b: Seq<u8>, r: int)
    requires
        0 <= r <= b.len(),
    ensures
        r <= fwd_over_seps(b, r) <= b.len(),
        fwd_over_seps(b, r) > r ==> is_sep_byte(b[fwd_over_seps(b, r) - 1]),
        r < b.len() && is_sep_byte(b[r]) ==> fwd_over_seps(b, r) > r,
    decreases b.len() - r,
{
    if r < b.len() && is_sep_byte(b[r]) {
        lemma_fwd_over_seps(b, r + 1);
    }
}

/// A position a word step can land on: either end, or next to a separator.
pub open spec fn word_stop(b: Seq<u8>, r: int) -> bool {
    r == 0 || r == b.len() || (0 < r <= b.len() && is_sep_byte(b[r - 1])) || (0 <= r < b.len() && is_sep_byte(b[r]))
}

proof fn lemma_word_step(b: Seq<u8>, reverse: bool, r: int)
    requires
        0 <= r <= b.len(),
    ensures
        0 <= word_step(b, reverse, r) <= b.len(),
        word_stop(b, word_step(b, reverse, r)),
{
    if reverse {
        lemma_back_over_seps(b, r);
        lemma_back_over_word(b, back_over_seps(b, r));
    } else {
        lemma_fwd_to_sep(b, r);
        lemma_fwd_over_seps(b, fwd_to_sep(b, r));
    }
}

proof fn lemma_word_steps(b: Seq<u8>, reverse: bool, r: int, n: nat)
    requires
        0 <= r <= b.len(),
    ensures
        0 <= word_steps(b, reverse, r, n) <= b.len(),
        n > 0 ==> word_stop(b, word_steps(b, reverse, r, n)),
        n == 0 ==> word_steps(b, reverse, r, n) == r,
    decreases n,
{
    if n > 0 {
        lemma_word_steps(b, reverse, r, (n - 1) as nat);
        lemma_word_step(b, reverse, word_steps(b, reverse, r, (n - 1) as nat));
    }
}

/// The start of the `|dir|`-th word boundary from `from`, counted in bytes;
/// a boundary is a space or a newline.
pub fn word_position(text: &str, dir: i32, from: usize) -> (r: usize)
    requires
        dir != i32::MIN,
    ensures
        r == word_position_spec(vstd::utf8::encode_utf8(text@), dir as int, from as int),
        r <= vstd::utf8::encode_utf8(text@).len(),
{
    let b = text.as_bytes();
    let n = b.len();
    let ghost bs = b@;
    let mut result = if from < n { from } else { n };
    let ghost start = result as int;
    let reverse = dir < 0;
    let steps: i32 = if dir < 0 { -dir } else { dir };
    let mut k: i32 = 0;
    while k < steps
        invariant
            bs == b@,
            n == bs.len(),
            0 <= k <= steps,
            result <= n,
            result == word_steps(bs, reverse, start, k as nat),
        decreases steps - k,
    {
        let ghost before = result as int;
        if reverse {
            while result > 0 && (b[result - 1] == 32 || b[result - 1] == 10)
                invariant
                    bs == b@,
                    n == bs.len(),
                    result <= n,
                    back_over_seps(bs, result as int) == back_over_seps(bs, before),
                decreases result,
            {
                result = result - 1;
            }
            let ghost mid = result as int;
            while result > 0 && !(b[result - 1] == 32 || b[result - 1] == 10)
                invariant
                    bs == b@,
                    n == bs.len(),
                    result <= n,
                    back_over_word(bs, result as int) == back_over_word(bs, mid),
                decreases result,
            {
                result = result - 1;
            }
            proof {
                assert(mid == back_over_seps(bs, before));
            }
        } else {
            while result < n && !(b[result] == 32 || b[result] == 10)
                invariant
                    bs == b@,
                    n == bs.len(),
                    result <= n,
                    fwd_to_sep(bs, result as int) == fwd_to_sep(bs, before),
                decreases n - result,
            {
                result = result + 1;
            }
            let ghost mid = result as int;
            while result < n && (b[result] == 32 || b[result] == 10)
                invariant
                    bs == b@,
                    n == bs.len(),
                    result <= n,
                    fwd_over_seps(bs, result as int) == fwd_over_seps(bs, mid),
                decreases n - result,
            {
                result = result + 1;
            }
            proof {
                assert(mid == fwd_to_sep(bs, before));
            }
        }
        k = k + 1;
    }
    result
}

proof fn lemma_high_bytes(x: u8)
    ensures
        (0x80u8 | x) >= 0x80,
        (0xC0u8 | x) >= 0x80,
        (0xE0u8 | x) >= 0x80,
        (0xF0u8 | x) >= 0x80,
{
    assert((0x80u8 | x) >= 0x80) by (bit_vector);
    assert((0xC0u8 | x) >= 0x80) by (bit_vector);
    assert((0xE0u8 | x) >= 0x80) by (bit_vector);
    assert((0xF0u8 | x) >= 0x80) by (bit_vector);
}

/// A character's UTF-8 bytes: one byte equal to it when it is ASCII, else
/// bytes that all have the high bit set.
proof fn lemma_encode_scalar(c: char)
    ensures
        vstd::utf8::encode_scalar(c as u32).len() == utf8_width(c),
        utf8_width(c) == 1 ==> vstd::utf8::encode_scalar(c as u32)[0] as u32 == c as u32,
        utf8_width(c) > 1 ==> forall|j: int| 0 <= j < utf8_width(c) ==> #[trigger] vstd::utf8::encode_scalar(c as u32)[j] >= 0x80,
{
    vstd::utf8::char_is_scalar(c);
    let v = c as u32;
    if v < 0x80 {
        assert((v & 0x7F) as u8 as u32 == v) by (bit_vector)
            requires
                v < 0x80,
        ;
    } else {
        lemma_high_bytes(((v >> 6) & 0x1F) as u8);
        lemma_high_bytes((v & 0x3F) as u8);
        lemma_high_bytes(((v >> 12) & 0x0F) as u8);
        lemma_high_bytes(((v >> 6) & 0x3F) as u8);
        lemma_high_bytes(((v >> 18) & 0x7) as u8);
        lemma_high_bytes(((v >> 12) & 0x3F) as u8);
    }
}

/// An ASCII byte of a string's UTF-8 encoding is a whole character of it.
proof fn lemma_ascii_byte(cs: Seq<char>, p: int)
    requires
        0 <= p < vstd::utf8::encode_utf8(cs).len(),
        vstd::utf8::encode_utf8(cs)[p] < 0x80,
    ensures
        exists|i: int| #![trigger cs[i]]
            0 <= i < cs.len() && byte_pos(cs, i) == p && utf8_width(cs[i]) == 1 && cs[i] as u32 == vstd::utf8::encode_utf8(cs)[p] as u32,
    decreases cs.len(),
{
    let e = vstd::utf8::encode_utf8(cs);
    let c = cs[0];
    let head = vstd::utf8::encode_scalar(c as u32);
    let rest = cs.drop_first();
    lemma_encode_scalar(c);
    assert(e == head + vstd::utf8::encode_utf8(rest));
    assert(cs.take(0) =~= Seq::<char>::empty());
    if p < head.len() {
        if utf8_width(c) > 1 {
            assert(head[p] >= 0x80);
        }
        assert(byte_pos(cs, 0) == 0);
        assert(0 <= 0 < cs.len() && byte_pos(cs, 0) == p && utf8_width(cs[0]) == 1 && cs[0] as u32 == e[p] as u32);
    } else {
        lemma_ascii_byte(rest, p - head.len());
        let i = choose|i: int| #![trigger rest[i]]
            0 <= i < rest.len() && byte_pos(rest, i) == p - head.len() && utf8_width(rest[i]) == 1 && rest[i] as u32 == vstd::utf8::encode_utf8(rest)[p - head.len()] as u32;
        assert(cs.take(i + 1).skip(1) =~= rest.take(i));
        assert(cs[i + 1] == rest[i]);
        assert(byte_pos(cs, i + 1) == utf8_width(c) + byte_pos(rest, i));
    }
}

/// Where a word step can land is a character boundary.
proof fn lemma_word_stop_boundary(cs: Seq<char>, r: int)
    requires
        word_stop(vstd::utf8::encode_utf8(cs), r),
        0 <= r <= vstd::utf8::encode_utf8(cs).len(),
    ensures
        is_boundary(cs, r),
{
    let e = vstd::utf8::encode_utf8(cs);
    lemma_str_len(cs);
    assert(cs.take(cs.len() as int) =~= cs);
    assert(cs.take(0) =~= Seq::<char>::empty());
    if r == 0 {
        assert(byte_pos(cs, 0) == 0);
    } else if r == e.len() {
        assert(byte_pos(cs, cs.len() as int) == r);
    } else if 0 < r && is_sep_byte(e[r - 1]) {
        lemma_ascii_byte(cs, r - 1);
        let i = choose|i: int| #![trigger cs[i]]
            0 <= i < cs.len() && byte_pos(cs, i) == r - 1 && utf8_width(cs[i]) == 1 && cs[i] as u32 == e[r - 1] as u32;
        lemma_byte_pos_step(cs, i);
        assert(0 <= i + 1 <= cs.len() && byte_pos(cs, i + 1) == r);
    } else {
        lemma_ascii_byte(cs, r);
        let i = choose|i: int| #![trigger cs[i]]
            0 <= i < cs.len() && byte_pos(cs, i) == r && utf8_width(cs[i]) == 1 && cs[i] as u32 == e[r] as u32;
        assert(0 <= i <= cs.len() && byte_pos(cs, i) == r);
    }
}

/// A word position from a boundary is a boundary.
pub proof fn lemma_word_position_boundary(cs: Seq<char>, dir: int, from: int)
    requires
        is_boundary(cs, from) || from >= byte_len(cs),
        0 <= from,
    ensures
        is_boundary(cs, word_position_spec(vstd::utf8::encode_utf8(cs), dir, from)),
{
    let e = vstd::utf8::encode_utf8(cs);
    lemma_str_len(cs);
    let start = if from < e.len() { from } else { e.len() as int };
    let n = (if dir < 0 { -dir } else { dir }) as nat;
    lemma_word_steps(e, dir < 0, start, n);
    if n > 0 {
        lemma_word_stop_boundary(cs, word_position_spec(e, dir, from));
    } else if from >= e.len() {
        lemma_word_stop_boundary(cs, e.len() as int);
    }
}

/// Where stepping `count` whole characters from byte offset `from` lands,
/// clamped to the text.
pub open spec fn offset_spec(cs: Seq<char>, from: int, count: int) -> int {
    let ci = if from >= byte_len(cs) { cs.len() as int } else { char_index(cs, from) };
    let t = ci + count;
    byte_pos(cs, if t < 0 { 0 } else if t > cs.len() { cs.len() as int } else { t })
}

/// Step `count` characters from byte offset `from` (backward when
/// negative), stopping at either end.
pub fn offset_by_codepoints(text: &str, from: usize, count: i32) -> (r: usize)
    requires
        is_boundary(text@, from as int) || from >= byte_len(text@),
        byte_len(text@) <= usize::MAX,
    ensures
        r == offset_spec(text@, from as int, count as int),
{
    let cs = chars_of(text);
    let n = cs.len();
    let total = byte_offset(&cs, n);
    proof {
        assert(cs@.take(n as int) =~= cs@);
    }
    let ci: usize = if from >= total {
        n
    } else {
        match char_index_of(&cs, from) {
            Some(i) => i,
            None => n,
        }
    };
    let t: i128 = ci as i128 + count as i128;
    let target: usize = if t < 0 {
        0
    } else if t > n as i128 {
        n
    } else {
        t as usize
    };
    byte_offset(&cs, target)
}

/// A line edit: the line's text, or the cursor and selection, replaced.
pub type SignView = (Seq<Seq<char>>, int, int, int);

impl SignEditState {
    pub open spec fn view_of(&self) -> SignView {
        (Seq::new(4, |i: int| self.lines[i]@), self.line as int, self.cursor as int, self.selection as int)
    }
}

/// The editor's state: the four lines, the line being edited, and the
/// cursor and selection anchor over it (equal when nothing is selected),
/// in bytes.
#[derive(Clone, Debug)]
pub struct SignEditState {
    pub lines: [String; 4],
    pub line: usize,
    pub cursor: usize,
    pub selection: usize,
    pub kind: SignKind,
}

impl SignEditState {
    /// The line being edited.
    pub open spec fn text_spec(&self) -> Seq<char> {
        self.lines[self.line as int]@
    }

    /// Well formed: a line index in range, every line's byte length a
    /// `usize`, and cursor and anchor between characters.
    pub open spec fn wf(&self) -> bool {
        &&& self.line < 4
        &&& forall|i: int| 0 <= i < 4 ==> byte_len(#[trigger] self.lines[i]@) <= usize::MAX
        &&& is_boundary(self.text_spec(), self.cursor as int)
        &&& is_boundary(self.text_spec(), self.selection as int)
    }

    fn set_line(&mut self, t: String)
        requires
            old(self).line < 4,
        ensures
            final(self).lines[old(self).line as int] == t,
            forall|i: int| 0 <= i < 4 && i != old(self).line ==> final(self).lines[i] == old(self).lines[i],
            final(self).line == old(self).line,
            final(self).cursor == old(self).cursor,
            final(self).selection == old(self).selection,
            final(self).kind == old(self).kind,
    {
        let i = self.line;
        self.lines[i] = t;
    }
}

/// The line a view edits.
pub open spec fn txt(v: SignView) -> Seq<char> {
    v.0[v.1]
}

/// The character indices of the cursor and the anchor.
pub open spec fn cur_index(v: SignView) -> int {
    char_index(txt(v), v.2)
}

pub open spec fn sel_index(v: SignView) -> int {
    char_index(txt(v), v.3)
}

/// The selection's first and last character index.
pub open spec fn sel_lo(v: SignView) -> int {
    if cur_index(v) < sel_index(v) { cur_index(v) } else { sel_index(v) }
}

pub open spec fn sel_hi(v: SignView) -> int {
    if cur_index(v) < sel_index(v) { sel_index(v) } else { cur_index(v) }
}

/// The selected text.
pub open spec fn selected_spec(v: SignView) -> Seq<char> {
    txt(v).subrange(sel_lo(v), sel_hi(v))
}

/// The line with the selection taken out (the line itself when nothing is
/// selected).
pub open spec fn deleted_text(v: SignView) -> Seq<char> {
    if v.2 == v.3 { txt(v) } else { txt(v).take(sel_lo(v)) + txt(v).skip(sel_hi(v)) }
}

/// Where cursor and anchor collapse to when the selection is taken out.
pub open spec fn collapsed_cursor(v: SignView) -> int {
    if v.2 == v.3 { v.2 } else { byte_pos(txt(v), sel_lo(v)) }
}

/// The character index an insert goes in at.
pub open spec fn insert_index(v: SignView) -> int {
    if v.2 == v.3 { cur_index(v) } else { sel_lo(v) }
}

/// The whole line an insert of `t` would make.
pub open spec fn candidate(v: SignView, t: Seq<char>) -> Seq<char> {
    let m = deleted_text(v);
    let i = insert_index(v);
    m.take(i) + t + m.skip(i)
}

/// A width provider answers every string, and the same width for the same
/// text.
pub open spec fn width_fn_ok<F: Fn(&str) -> i32>(f: F) -> bool {
    &&& forall|s: &str| #[trigger] call_requires(f, (s,))
    &&& forall|s1: &str, s2: &str, w1: i32, w2: i32|
        s1@ == s2@ && #[trigger] call_ensures(f, (s1,), w1) && #[trigger] call_ensures(f, (s2,), w2) ==> w1 == w2
}

/// The provider answered `w` for some string holding `t`.
pub open spec fn gives<F: Fn(&str) -> i32>(f: F, t: Seq<char>, w: i32) -> bool {
    exists|s: &str| s@ == t && #[trigger] call_ensures(f, (s,), w)
}

/// The width the provider gives a text.
pub open spec fn text_width<F: Fn(&str) -> i32>(f: F, t: Seq<char>) -> i32 {
    choose|w: i32| #[trigger] gives(f, t, w)
}

/// Inserting `t`: the candidate line is kept, with the cursor after the
/// inserted text, when it is no wider than `max`; otherwise the line stays
/// as it was and only the selection collapses.
pub open spec fn inserted<F: Fn(&str) -> i32>(v: SignView, t: Seq<char>, f: F, max: int) -> SignView {
    let c = candidate(v, t);
    if text_width(f, c) <= max {
        let k = byte_pos(c, insert_index(v) + t.len());
        (v.0.update(v.1, c), v.1, k, k)
    } else {
        let k = collapsed_cursor(v);
        (v.0, v.1, k, k)
    }
}

/// `t[..a] ++ mid ++ t[b..]`.
fn splice(t: &Vec<char>, a: usize, b: usize, mid: &Vec<char>) -> (r: Vec<char>)
    requires
        a <= b <= t@.len(),
    ensures
        r@ == t@.take(a as int) + mid@ + t@.skip(b as int),
{
    let mut out: Vec<char> = Vec::new();
    let mut i: usize = 0;
    while i < a
        invariant
            i <= a <= b <= t@.len(),
            out@ == t@.take(i as int),
        decreases a - i,
    {
        out.push(t[i]);
        proof {
            assert(out@ =~= t@.take(i + 1));
        }
        i = i + 1;
    }
    let m = mid.len();
    let mut k: usize = 0;
    while k < m
        invariant
            k <= m,
            m == mid@.len(),
            out@ == t@.take(a as int) + mid@.take(k as int),
        decreases m - k,
    {
        out.push(mid[k]);
        proof {
            assert(out@ =~= t@.take(a as int) + mid@.take(k + 1));
        }
        k = k + 1;
    }
    let n = t.len();
    let mut j = b;
    while j < n
        invariant
            b <= j <= n,
            n == t@.len(),
            out@ == t@.take(a as int) + mid@ + t@.subrange(b as int, j as int),
        decreases n - j,
    {
        out.push(t[j]);
        proof {
            assert(out@ =~= t@.take(a as int) + mid@ + t@.subrange(b as int, j + 1));
        }
        j = j + 1;
    }
    proof {
        assert(mid@.take(m as int) =~= mid@);
        assert(t@.subrange(b as int, n as int) =~= t@.skip(b as int));
    }
    out
}

proof fn lemma_take_byte_len(cs: Seq<char>, i: int)
    requires
        0 <= i <= cs.len(),
    ensures
        byte_len(cs.take(i)) <= byte_len(cs),
        byte_len(cs.skip(i)) <= byte_len(cs),
{
    assert(cs =~= cs.take(i) + cs.skip(i));
    lemma_byte_len_concat(cs.take(i), cs.skip(i));
    lemma_byte_len_nonneg(cs.take(i));
    lemma_byte_len_nonneg(cs.skip(i));
}

/// What a key press did: handled, Escape closing the screen (which
/// commits), or left for the screen's generic handling.
#[derive(Clone, Copy, Debug, PartialEq, Eq, Structural)]
pub enum SignKey {
    Handled,
    Close,
    Unhandled,
}

/// The character index of a byte offset known to be a boundary.
fn index_at(cs: &Vec<char>, b: usize) -> (r: usize)
    requires
        is_boundary(cs@, b as int),
    ensures
        r <= cs@.len(),
        r == char_index(cs@, b as int),
        byte_pos(cs@, r as int) == b,
{
    match char_index_of(cs, b) {
        Some(i) => i,
        None => 0,
    }
}

impl SignEditState {
    /// Editing starts on the first line, cursor at its end.
    pub fn new(lines: [String; 4], kind: SignKind) -> (r: Self)
        requires
            forall|i: int| 0 <= i < 4 ==> byte_len(#[trigger] lines[i]@) <= usize::MAX,
        ensures
            r.wf(),
            r.lines == lines,
            r.line == 0,
            r.cursor == byte_len(lines[0]@),
            r.selection == r.cursor,
            r.kind == kind,
    {
        let cs = chars_of(lines[0].as_str());
        let n = cs.len();
        let cursor = byte_offset(&cs, n);
        proof {
            assert(cs@.take(n as int) =~= cs@);
            lemma_char_index(cs@, n as int);
        }
        SignEditState { lines, line: 0, cursor, selection: cursor, kind }
    }

    /// The current line's characters.
    fn text_chars(&self) -> (r: Vec<char>)
        requires
            self.line < 4,
        ensures
            r@ == self.text_spec(),
    {
        chars_of(self.lines[self.line].as_str())
    }

    /// Cursor to the end of the line; the anchor follows unless selecting.
    pub fn set_cursor_to_end(&mut self, selecting: bool)
        requires
            old(self).line < 4,
            forall|i: int| 0 <= i < 4 ==> byte_len(#[trigger] old(self).lines[i]@) <= usize::MAX,
            selecting ==> is_boundary(old(self).text_spec(), old(self).selection as int),
        ensures
            final(self).wf(),
            final(self).lines == old(self).lines,
            final(self).line == old(self).line,
            final(self).kind == old(self).kind,
            final(self).cursor == byte_len(old(self).text_spec()),
            final(self).selection == if selecting { old(self).selection } else { final(self).cursor },
    {
        let cs = self.text_chars();
        let n = cs.len();
        proof {
            assert(cs@.take(n as int) =~= cs@);
            lemma_byte_len_nonneg(cs@);
            lemma_char_index(cs@, n as int);
        }
        self.cursor = byte_offset(&cs, n);
        if !selecting {
            self.selection = self.cursor;
        }
    }

    /// Cursor to the start of the line; the anchor follows unless selecting.
    pub fn set_cursor_to_start(&mut self, selecting: bool)
        requires
            old(self).wf(),
        ensures
            final(self).wf(),
            final(self).lines == old(self).lines,
            final(self).line == old(self).line,
            final(self).kind == old(self).kind,
            final(self).cursor == 0,
            final(self).selection == if selecting { old(self).selection } else { 0 },
    {
        proof {
            assert(self.text_spec().take(0) =~= Seq::<char>::empty());
            lemma_char_index(self.text_spec(), 0);
        }
        self.cursor = 0;
        if !selecting {
            self.selection = 0;
        }
    }

    /// The selected text.
    pub fn selected(&self) -> (r: String)
        requires
            self.wf(),
        ensures
            r@ == selected_spec(self.view_of()),
    {
        let cs = self.text_chars();
        let a = index_at(&cs, self.cursor);
        let b = index_at(&cs, self.selection);
        let (lo, hi) = if a < b { (a, b) } else { (b, a) };
        let mut out: Vec<char> = Vec::new();
        let mut i = lo;
        while i < hi
            invariant
                lo <= i <= hi <= cs@.len(),
                out@ == cs@.subrange(lo as int, i as int),
            decreases hi - i,
        {
            out.push(cs[i]);
            proof {
                assert(out@ =~= cs@.subrange(lo as int, i + 1));
            }
            i = i + 1;
        }
        proof {
            assert(self.view_of().0[self.line as int] == self.text_spec());
        }
        string_from_chars(&out)
    }
}

/// The width of a string, asked of the provider.
fn width_of<F: Fn(&str) -> i32>(f: &F, s: &String) -> (r: i32)
    requires
        width_fn_ok(*f),
    ensures
        r == text_width(*f, s@),
{
    let w = f(s.as_str());
    proof {
        let t = s@;
        assert(gives(*f, t, w));
        let w2 = text_width(*f, t);
        assert(gives(*f, t, w2));
        let s2 = choose|s2: &str| s2@ == t && #[trigger] call_ensures(*f, (s2,), w2);
    }
    w
}

/// The byte length of a splice.
proof fn lemma_splice_len(t: Seq<char>, a: int, b: int, mid: Seq<char>)
    requires
        0 <= a <= b <= t.len(),
    ensures
        byte_len(t.take(a) + mid + t.skip(b)) == byte_len(t.take(a)) + byte_len(mid) + byte_len(t.skip(b)),
        byte_len(t.take(a)) + byte_len(t.skip(b)) <= byte_len(t),
        (t.take(a) + mid + t.skip(b)).len() == a + mid.len() + (t.len() - b),
{
    lemma_byte_len_concat(t.take(a) + mid, t.skip(b));
    lemma_byte_len_concat(t.take(a), mid);
    assert(t =~= t.take(a) + t.subrange(a, b) + t.skip(b));
    lemma_byte_len_concat(t.take(a) + t.subrange(a, b), t.skip(b));
    lemma_byte_len_concat(t.take(a), t.subrange(a, b));
    lemma_byte_len_nonneg(t.subrange(a, b));
}

impl SignEditState {
    /// The line with the selection taken out, and where an insert goes in;
    /// the cursor and anchor collapse to the selection's start.
    fn delete_selection(&mut self) -> (r: (Vec<char>, usize))
        requires
            old(self).wf(),
        ensures
            final(self).wf(),
            final(self).lines == old(self).lines,
            final(self).line == old(self).line,
            final(self).kind == old(self).kind,
            r.0@ == deleted_text(old(self).view_of()),
            r.1 == insert_index(old(self).view_of()),
            r.1 <= r.0@.len(),
            byte_len(r.0@) <= byte_len(old(self).text_spec()),
            final(self).cursor == collapsed_cursor(old(self).view_of()),
            final(self).selection == final(self).cursor,
    {
        let ghost v = self.view_of();
        proof {
            assert(txt(v) == self.text_spec());
        }
        let cs = self.text_chars();
        let a = index_at(&cs, self.cursor);
        let b = index_at(&cs, self.selection);
        let (lo, hi) = if a < b { (a, b) } else { (b, a) };
        let empty: Vec<char> = Vec::new();
        if self.selection != self.cursor {
            let m = splice(&cs, lo, hi, &empty);
            proof {
                lemma_splice_len(cs@, lo as int, hi as int, empty@);
                assert(byte_len(empty@) == 0);
                assert(m@ =~= deleted_text(v));
                lemma_take_byte_len(cs@, lo as int);
                lemma_char_index(cs@, lo as int);
            }
            let k = byte_offset(&cs, lo);
            self.cursor = k;
            self.selection = k;
            (m, lo)
        } else {
            let m = splice(&cs, a, a, &empty);
            proof {
                assert(m@ =~= cs@);
            }
            (m, a)
        }
    }

    /// Insert `text` over the selection, keeping the result only if the
    /// whole line is no wider than the sign allows; a line that would
    /// overflow is left as it was, selected characters included, with only
    /// the selection collapsed.
    pub fn insert_text<F: Fn(&str) -> i32>(&mut self, text: &str, width_fn: &F)
        requires
            old(self).wf(),
            width_fn_ok(*width_fn),
            byte_len(text@) + byte_len(old(self).text_spec()) <= usize::MAX,
        ensures
            final(self).wf(),
            final(self).kind == old(self).kind,
            final(self).view_of() == inserted(old(self).view_of(), text@, *width_fn, old(self).kind.max_width_spec() as int),
    {
        let ghost v = self.view_of();
        let (m, ins) = self.delete_selection();
        let tcs = chars_of(text);
        let cand = splice(&m, ins, ins, &tcs);
        proof {
            assert(cand@ =~= candidate(v, text@));
            lemma_splice_len(m@, ins as int, ins as int, tcs@);
            lemma_take_byte_len(m@, ins as int);
            assert(byte_len(cand@) <= usize::MAX);
        }
        let cand_s = string_from_chars(&cand);
        let w = width_of(width_fn, &cand_s);
        let total = cand.len();
        proof {
            assert(ins + tcs@.len() <= total);
        }
        if w <= self.kind.max_text_line_width() {
            let k = byte_offset(&cand, ins + tcs.len());
            proof {
                lemma_char_index(cand@, ins + tcs@.len());
            }
            self.cursor = k;
            self.selection = k;
            self.set_line(cand_s);
            proof {
                assert(self.view_of().0 =~= v.0.update(v.1, cand@));
            }
        } else {
            proof {
                assert(self.view_of().0 =~= v.0);
            }
        }
    }
}

/// Moving the cursor `count` characters, or words when `word`; the anchor
/// follows unless selecting.
pub open spec fn moved(v: SignView, count: int, selecting: bool, word: bool) -> SignView {
    let c = if word {
        word_position_spec(vstd::utf8::encode_utf8(txt(v)), count, v.2)
    } else {
        offset_spec(txt(v), v.2, count)
    };
    (v.0, v.1, c, if selecting { v.3 } else { c })
}

/// Deleting `count` characters from the cursor (backward when negative):
/// the selection instead, if there is one; only a backward delete moves the
/// cursor.
pub open spec fn removed_chars(v: SignView, count: int) -> SignView {
    let t = txt(v);
    if t.len() == 0 {
        v
    } else if v.2 != v.3 {
        let k = collapsed_cursor(v);
        (v.0.update(v.1, deleted_text(v)), v.1, k, k)
    } else {
        let other = offset_spec(t, v.2, count);
        let start = if other < v.2 { other } else { v.2 };
        let end = if other < v.2 { v.2 } else { other };
        let nt = t.take(char_index(t, start)) + t.skip(char_index(t, end));
        if count < 0 {
            (v.0.update(v.1, nt), v.1, start, start)
        } else {
            (v.0.update(v.1, nt), v.1, v.2, v.3)
        }
    }
}

/// Deleting `count` characters, or words when `word`. A word span is
/// measured in UTF-16 units and then deleted as that many characters.
pub open spec fn removed(v: SignView, count: int, word: bool) -> SignView {
    if word {
        let units = word_units(v, count) as int;
        removed_chars(v, if word_target(v, count) < v.2 { -units } else { units })
    } else {
        removed_chars(v, count)
    }
}

/// Where a word step of `count` from the cursor lands.
pub open spec fn word_target(v: SignView, count: int) -> int {
    word_position_spec(vstd::utf8::encode_utf8(txt(v)), count, v.2)
}

/// The UTF-16 length of the span between the cursor and the word target,
/// cut to an `i32` as a cast does.
pub open spec fn word_units(v: SignView, count: int) -> i32 {
    let t = txt(v);
    let target = word_target(v, count);
    let a = if target < v.2 { target } else { v.2 };
    let b = if target < v.2 { v.2 } else { target };
    utf16(t.subrange(char_index(t, a), char_index(t, b))).len() as i32
}

/// A Control-Backspace or Control-Delete whose word delete overflows.
pub open spec fn key_overflows(v: SignView, i: Input) -> bool {
    ||| i.key == KEY_BACKSPACE && control_held(i) && word_delete_overflows(v, -1)
    ||| i.key == KEY_DELETE && control_held(i) && word_delete_overflows(v, 1)
}

/// A backward word delete whose span, cut to an `i32`, is `i32::MIN`: the
/// negation of that count overflows.
pub open spec fn word_delete_overflows(v: SignView, count: int) -> bool {
    word_target(v, count) < v.2 && word_units(v, count) == i32::MIN
}

proof fn lemma_utf16_len(cs: Seq<char>)
    ensures
        utf16(cs).len() <= byte_len(cs),
    decreases cs.len(),
{
    if cs.len() > 0 {
        lemma_utf16_len(cs.drop_last());
        assert(cs =~= cs.drop_last() + seq![cs.last()]);
        lemma_byte_len_concat(cs.drop_last(), seq![cs.last()]);
        assert(seq![cs.last()].skip(1) =~= Seq::<char>::empty());
        assert(byte_len(Seq::<char>::empty()) == 0);
        assert(byte_len(seq![cs.last()]) == utf8_width(cs.last()) + byte_len(seq![cs.last()].skip(1)));
    }
}

/// UTF-16 units of `cs[a..b]`.
fn utf16_count(cs: &Vec<char>, a: usize, b: usize) -> (r: usize)
    requires
        a <= b <= cs@.len(),
        byte_len(cs@.subrange(a as int, b as int)) <= usize::MAX,
    ensures
        r == utf16(cs@.subrange(a as int, b as int)).len(),
{
    proof {
        lemma_utf16_len(cs@.subrange(a as int, b as int));
    }
    let mut acc: usize = 0;
    let mut k = a;
    while k < b
        invariant
            a <= k <= b <= cs@.len(),
            acc == utf16(cs@.subrange(a as int, k as int)).len(),
            utf16(cs@.subrange(a as int, b as int)).len() <= usize::MAX,
        decreases b - k,
    {
        let c = cs[k];
        proof {
            assert(cs@.subrange(a as int, k + 1).drop_last() =~= cs@.subrange(a as int, k as int));
            assert(cs@.subrange(a as int, k + 1).last() == c);
            assert(cs@.subrange(a as int, b as int) =~= cs@.subrange(a as int, k + 1) + cs@.subrange(k + 1, b as int));
            lemma_utf16_concat(cs@.subrange(a as int, k + 1), cs@.subrange(k + 1, b as int));
        }
        if (c as u32) < 0x10000 {
            acc = acc + 1;
        } else {
            acc = acc + 2;
        }
        k = k + 1;
    }
    acc
}

proof fn lemma_utf16_concat(a: Seq<char>, b: Seq<char>)
    ensures
        utf16(a + b).len() == utf16(a).len() + utf16(b).len(),
    decreases b.len(),
{
    if b.len() == 0 {
        assert(a + b =~= a);
    } else {
        lemma_utf16_concat(a, b.drop_last());
        assert((a + b).drop_last() =~= a + b.drop_last());
        assert((a + b).last() == b.last());
    }
}

impl SignEditState {
    /// Move the cursor `count` characters (words, when `word`); the anchor
    /// follows unless selecting.
    pub fn move_by(&mut self, count: i32, selecting: bool, word: bool)
        requires
            old(self).wf(),
            word ==> count != i32::MIN,
        ensures
            final(self).wf(),
            final(self).kind == old(self).kind,
            final(self).view_of() == moved(old(self).view_of(), count as int, selecting, word),
    {
        let ghost v = self.view_of();
        let ghost t = self.text_spec();
        proof {
            assert(txt(v) == t);
        }
        let line = self.line;
        if word {
            self.cursor = word_position(self.lines[line].as_str(), count, self.cursor);
            proof {
                lemma_word_position_boundary(t, count as int, old(self).cursor as int);
            }
        } else {
            self.cursor = offset_by_codepoints(self.lines[line].as_str(), self.cursor, count);
            proof {
                let ci = if old(self).cursor >= byte_len(t) { t.len() as int } else { char_index(t, old(self).cursor as int) };
                let x = ci + count;
                lemma_char_index(t, if x < 0 { 0 } else if x > t.len() { t.len() as int } else { x });
            }
        }
        if !selecting {
            self.selection = self.cursor;
        }
        proof {
            assert(self.view_of().0 =~= v.0);
        }
    }

    /// Delete `count` characters from the cursor, or the selection.
    fn remove_chars_from_cursor(&mut self, count: i32)
        requires
            old(self).wf(),
        ensures
            final(self).wf(),
            final(self).kind == old(self).kind,
            final(self).view_of() == removed_chars(old(self).view_of(), count as int),
    {
        let ghost v = self.view_of();
        let ghost t = self.text_spec();
        proof {
            assert(txt(v) == t);
        }
        let cs = self.text_chars();
        if cs.len() == 0 {
            return;
        }
        if self.selection != self.cursor {
            let (m, _) = self.delete_selection();
            let ms = string_from_chars(&m);
            self.set_line(ms);
            proof {
                assert(self.view_of().0 =~= v.0.update(v.1, deleted_text(v)));
                assert(m@.take(sel_lo(v)) =~= t.take(sel_lo(v)));
                lemma_char_index(m@, sel_lo(v));
            }
        } else {
            let line = self.line;
            let other = offset_by_codepoints(self.lines[line].as_str(), self.cursor, count);
            let start = if other < self.cursor { other } else { self.cursor };
            let end = if other < self.cursor { self.cursor } else { other };
            proof {
                let ci = if old(self).cursor >= byte_len(t) { t.len() as int } else { char_index(t, old(self).cursor as int) };
                let x = ci + count;
                lemma_char_index(t, if x < 0 { 0 } else if x > t.len() { t.len() as int } else { x });
            }
            let i0 = index_at(&cs, start);
            let i1 = index_at(&cs, end);
            proof {
                if i0 > i1 {
                    lemma_byte_pos_strict(cs@, i1 as int, i0 as int);
                }
            }
            let empty: Vec<char> = Vec::new();
            let nt = splice(&cs, i0, i1, &empty);
            proof {
                lemma_splice_len(cs@, i0 as int, i1 as int, empty@);
                assert(byte_len(empty@) == 0);
                assert(nt@ =~= t.take(i0 as int) + t.skip(i1 as int));
                assert(nt@.take(i0 as int) =~= t.take(i0 as int));
                lemma_char_index(nt@, i0 as int);
            }
            if count < 0 {
                self.selection = start;
                self.cursor = start;
            }
            let ns = string_from_chars(&nt);
            self.set_line(ns);
            proof {
                assert(self.view_of().0 =~= v.0.update(v.1, nt@));
            }
        }
    }

    /// Delete `count` characters (words, when `word`) from the cursor, or
    /// the selection if there is one. A word deletion measures the word in
    /// UTF-16 units and deletes that many characters.
    pub fn remove_from_cursor(&mut self, count: i32, word: bool)
        requires
            old(self).wf(),
            word ==> count != i32::MIN,
            word ==> !word_delete_overflows(old(self).view_of(), count as int),
        ensures
            final(self).wf(),
            final(self).kind == old(self).kind,
            final(self).view_of() == removed(old(self).view_of(), count as int, word),
    {
        let ghost v = self.view_of();
        let ghost t = self.text_spec();
        proof {
            assert(txt(v) == t);
        }
        if word {
            let line = self.line;
            let target = word_position(self.lines[line].as_str(), count, self.cursor);
            proof {
                lemma_word_position_boundary(t, count as int, old(self).cursor as int);
            }
            let (a, b) = if self.cursor < target { (self.cursor, target) } else { (target, self.cursor) };
            let cs = self.text_chars();
            let ia = index_at(&cs, a);
            let ib = index_at(&cs, b);
            proof {
                if ia > ib {
                    lemma_byte_pos_strict(cs@, ib as int, ia as int);
                }
                assert(t =~= t.take(ia as int) + t.subrange(ia as int, ib as int) + t.skip(ib as int));
                lemma_byte_len_concat(t.take(ia as int) + t.subrange(ia as int, ib as int), t.skip(ib as int));
                lemma_byte_len_concat(t.take(ia as int), t.subrange(ia as int, ib as int));
                lemma_byte_len_nonneg(t.take(ia as int));
                lemma_byte_len_nonneg(t.skip(ib as int));
            }
            let units = #[verifier::truncate] (utf16_count(&cs, ia, ib) as i32);
            let delta = if target < self.cursor { -units } else { units };
            self.remove_chars_from_cursor(delta);
        } else {
            self.remove_chars_from_cursor(count);
        }
    }
}

/// A key press: the key code and the modifier bits held with it.
#[derive(Clone, Copy, Debug, PartialEq, Eq, Structural)]
pub struct Input {
    pub key: i32,
    pub modifiers: i32,
}

pub open spec fn shift_held(i: Input) -> bool {
    i.modifiers & MOD_SHIFT != 0
}

pub open spec fn control_held(i: Input) -> bool {
    i.modifiers & MOD_CONTROL != 0
}

pub open spec fn alt_held(i: Input) -> bool {
    i.modifiers & MOD_ALT != 0
}

/// Control and the key, without shift or alt.
pub open spec fn is_shortcut(i: Input, key: i32) -> bool {
    i.key == key && control_held(i) && !shift_held(i) && !alt_held(i)
}

impl Input {
    pub fn new(key: i32, modifiers: i32) -> (r: Self)
        ensures
            r == (Input { key, modifiers }),
    {
        Input { key, modifiers }
    }

    pub fn has_shift(&self) -> (r: bool)
        ensures
            r == shift_held(*self),
    {
        self.modifiers & MOD_SHIFT != 0
    }

    pub fn has_control(&self) -> (r: bool)
        ensures
            r == control_held(*self),
    {
        self.modifiers & MOD_CONTROL != 0
    }

    pub fn has_alt(&self) -> (r: bool)
        ensures
            r == alt_held(*self),
    {
        self.modifiers & MOD_ALT != 0
    }

    /// Ctrl+A.
    pub fn is_select_all(&self) -> (r: bool)
        ensures
            r == is_shortcut(*self, KEY_A),
    {
        self.key == KEY_A && self.has_control() && !self.has_shift() && !self.has_alt()
    }

    /// Ctrl+C.
    pub fn is_copy(&self) -> (r: bool)
        ensures
            r == is_shortcut(*self, KEY_C),
    {
        self.key == KEY_C && self.has_control() && !self.has_shift() && !self.has_alt()
    }

    /// Ctrl+V.
    pub fn is_paste(&self) -> (r: bool)
        ensures
            r == is_shortcut(*self, KEY_V),
    {
        self.key == KEY_V && self.has_control() && !self.has_shift() && !self.has_alt()
    }

    /// Ctrl+X.
    pub fn is_cut(&self) -> (r: bool)
        ensures
            r == is_shortcut(*self, KEY_X),
    {
        self.key == KEY_X && self.has_control() && !self.has_shift() && !self.has_alt()
    }
}

/// The text with every carriage return taken out.
pub open spec fn drop_cr(s: Seq<char>) -> Seq<char>
    decreases s.len(),
{
    if s.len() == 0 {
        s
    } else if s[0] == '\r' {
        drop_cr(s.skip(1))
    } else {
        seq![s[0]] + drop_cr(s.skip(1))
    }
}

/// What a paste inserts: the clipboard without carriage returns, then
/// without formatting codes.
pub open spec fn paste_text(clip: Seq<char>) -> Seq<char> {
    strip_spec(drop_cr(clip))
}

proof fn lemma_drop_cr_len(s: Seq<char>)
    ensures
        byte_len(drop_cr(s)) <= byte_len(s),
    decreases s.len(),
{
    if s.len() > 0 {
        lemma_drop_cr_len(s.skip(1));
        lemma_byte_len_concat(seq![s[0]], drop_cr(s.skip(1)));
        assert(seq![s[0]].skip(1) =~= Seq::<char>::empty());
        assert(byte_len(Seq::<char>::empty()) == 0);
        assert(byte_len(seq![s[0]]) == utf8_width(s[0]) + byte_len(seq![s[0]].skip(1)));
    }
}

proof fn lemma_strip_len(s: Seq<char>)
    ensures
        byte_len(strip_spec(s)) <= byte_len(s),
    decreases s.len(),
{
    if s.len() >= 2 && s[0] == '§' && is_format_code(s[1]) {
        lemma_strip_len(s.skip(2));
        assert(s.skip(1).skip(1) =~= s.skip(2));
        assert(byte_len(s.skip(1)) == utf8_width(s.skip(1)[0]) + byte_len(s.skip(1).skip(1)));
        lemma_byte_len_nonneg(s.skip(2));
    } else if s.len() > 0 {
        lemma_strip_len(s.skip(1));
        lemma_byte_len_concat(seq![s[0]], strip_spec(s.skip(1)));
        assert(seq![s[0]].skip(1) =~= Seq::<char>::empty());
        assert(byte_len(Seq::<char>::empty()) == 0);
        assert(byte_len(seq![s[0]]) == utf8_width(s[0]) + byte_len(seq![s[0]].skip(1)));
    }
}

/// The clipboard without carriage returns.
fn without_cr(s: &String) -> (r: String)
    ensures
        r@ == drop_cr(s@),
{
    let cs = chars_of(s.as_str());
    let n = cs.len();
    let mut out: Vec<char> = Vec::new();
    let mut i: usize = 0;
    proof {
        assert(cs@.skip(0) =~= cs@);
    }
    while i < n
        invariant
            n == cs@.len(),
            i <= n,
            out@ + drop_cr(cs@.skip(i as int)) == drop_cr(cs@),
        decreases n - i,
    {
        let c = cs[i];
        proof {
            let rest = cs@.skip(i as int);
            assert(rest[0] == c);
            assert(rest.skip(1) =~= cs@.skip(i + 1));
        }
        if c != '\r' {
            proof {
                assert(out@.push(c) + drop_cr(cs@.skip(i + 1)) =~= out@ + drop_cr(cs@.skip(i as int)));
            }
            out.push(c);
        }
        i = i + 1;
    }
    proof {
        assert(drop_cr(cs@.skip(n as int)) =~= Seq::<char>::empty());
        assert(out@ =~= drop_cr(cs@));
    }
    string_from_chars(&out)
}

/// The line edit a text-field key makes, what the clipboard then holds,
/// and whether the key counts as handled.
pub open spec fn field_key_spec<F: Fn(&str) -> i32>(v: SignView, i: Input, f: F, max: int, clip: Seq<char>) -> (SignView, Seq<char>, bool) {
    if is_shortcut(i, KEY_A) {
        ((v.0, v.1, byte_len(txt(v)), 0), clip, true)
    } else if is_shortcut(i, KEY_C) {
        (v, selected_spec(v), true)
    } else if is_shortcut(i, KEY_V) {
        let w = inserted(v, paste_text(clip), f, max);
        ((w.0, w.1, w.2, w.2), clip, true)
    } else if is_shortcut(i, KEY_X) {
        let k = collapsed_cursor(v);
        ((v.0.update(v.1, deleted_text(v)), v.1, k, k), selected_spec(v), true)
    } else if i.key == KEY_BACKSPACE {
        (removed(v, -1, control_held(i)), clip, true)
    } else if i.key == KEY_DELETE {
        (removed(v, 1, control_held(i)), clip, false)
    } else if i.key == KEY_LEFT {
        (moved(v, -1, shift_held(i), control_held(i)), clip, true)
    } else if i.key == KEY_RIGHT {
        (moved(v, 1, shift_held(i), control_held(i)), clip, true)
    } else if i.key == KEY_HOME {
        ((v.0, v.1, 0, if shift_held(i) { v.3 } else { 0 }), clip, true)
    } else if i.key == KEY_END {
        let e = byte_len(txt(v));
        ((v.0, v.1, e, if shift_held(i) { v.3 } else { e }), clip, true)
    } else {
        (v, clip, false)
    }
}

/// The editor after switching to line `nl`, cursor and anchor at its end.
pub open spec fn on_line(v: SignView, nl: int) -> SignView {
    let e = byte_len(v.0[nl]);
    (v.0, nl, e, e)
}

/// What a key press does to the editor and the clipboard, and what it
/// reports: Up and Down (or Enter) switch lines, wrapping, and never close;
/// then the text field's keys; then Escape closes.
pub open spec fn key_spec<F: Fn(&str) -> i32>(v: SignView, i: Input, f: F, max: int, clip: Seq<char>) -> (SignView, Seq<char>, SignKey) {
    if i.key == KEY_UP {
        (on_line(v, (v.1 + 3) % 4), clip, SignKey::Handled)
    } else if i.key == KEY_DOWN || i.key == KEY_ENTER || i.key == KEY_KP_ENTER {
        (on_line(v, (v.1 + 1) % 4), clip, SignKey::Handled)
    } else {
        let (w, c, handled) = field_key_spec(v, i, f, max, clip);
        (w, c, if handled { SignKey::Handled } else if i.key == KEY_ESCAPE { SignKey::Close } else { SignKey::Unhandled })
    }
}

impl SignEditState {
    /// A typed character: inserted when chat allows it; the screen reports
    /// the event handled either way.
    pub fn char_typed<F: Fn(&str) -> i32>(&mut self, ch: char, width_fn: &F) -> (r: bool)
        requires
            old(self).wf(),
            width_fn_ok(*width_fn),
            byte_len(old(self).text_spec()) + 4 <= usize::MAX,
        ensures
            r,
            final(self).wf(),
            final(self).kind == old(self).kind,
            final(self).view_of() == if allowed_chat_char(ch) {
                inserted(old(self).view_of(), seq![ch], *width_fn, old(self).kind.max_width_spec() as int)
            } else {
                old(self).view_of()
            },
    {
        if is_allowed_chat_character(ch) {
            let mut one: Vec<char> = Vec::new();
            one.push(ch);
            let s = string_from_chars(&one);
            proof {
                assert(one@ =~= seq![ch]);
                assert(seq![ch].skip(1) =~= Seq::<char>::empty());
                assert(byte_len(Seq::<char>::empty()) == 0);
                assert(byte_len(seq![ch]) == utf8_width(ch) + byte_len(seq![ch].skip(1)));
            }
            self.insert_text(s.as_str(), width_fn);
        }
        true
    }

    /// The text field's keys: select all, copy, paste, cut, Backspace and
    /// Delete (by words with Control), Left and Right (by words with
    /// Control, selecting with Shift), Home and End. Delete acts but reports
    /// the key unhandled.
    fn field_key<F: Fn(&str) -> i32>(&mut self, input: Input, width_fn: &F, clipboard: &mut String) -> (r: bool)
        requires
            old(self).wf(),
            width_fn_ok(*width_fn),
            !key_overflows(old(self).view_of(), input),
            byte_len(old(clipboard)@) + byte_len(old(self).text_spec()) <= usize::MAX,
        ensures
            final(self).wf(),
            final(self).kind == old(self).kind,
            (final(self).view_of(), final(clipboard)@, r) == field_key_spec(
                old(self).view_of(),
                input,
                *width_fn,
                old(self).kind.max_width_spec() as int,
                old(clipboard)@,
            ),
    {
        let ghost v = self.view_of();
        proof {
            assert(txt(v) == self.text_spec());
        }
        if input.is_select_all() {
            let cs = self.text_chars();
            let n = cs.len();
            proof {
                assert(cs@.take(n as int) =~= cs@);
                lemma_char_index(cs@, n as int);
                assert(cs@.take(0) =~= Seq::<char>::empty());
                lemma_char_index(cs@, 0);
            }
            self.selection = 0;
            self.cursor = byte_offset(&cs, n);
            proof {
                assert(self.view_of().0 =~= v.0);
            }
            return true;
        }
        if input.is_copy() {
            *clipboard = self.selected();
            return true;
        }
        if input.is_paste() {
            let raw = without_cr(clipboard);
            let text = strip_formatting(raw.as_str());
            proof {
                lemma_drop_cr_len(clipboard@);
                lemma_strip_len(drop_cr(clipboard@));
            }
            self.insert_text(text.as_str(), width_fn);
            self.selection = self.cursor;
            return true;
        }
        if input.is_cut() {
            *clipboard = self.selected();
            let (m, _) = self.delete_selection();
            let ms = string_from_chars(&m);
            self.set_line(ms);
            proof {
                assert(self.view_of().0 =~= v.0.update(v.1, deleted_text(v)));
                if v.2 != v.3 {
                    assert(m@.take(sel_lo(v)) =~= txt(v).take(sel_lo(v)));
                    lemma_char_index(m@, sel_lo(v));
                }
            }
            return true;
        }
        let word = input.has_control();
        if input.key == KEY_BACKSPACE {
            self.remove_from_cursor(-1, word);
            true
        } else if input.key == KEY_DELETE {
            self.remove_from_cursor(1, word);
            false
        } else if input.key == KEY_LEFT {
            self.move_by(-1, input.has_shift(), word);
            true
        } else if input.key == KEY_RIGHT {
            self.move_by(1, input.has_shift(), word);
            true
        } else if input.key == KEY_HOME {
            self.set_cursor_to_start(input.has_shift());
            proof {
                assert(self.view_of().0 =~= v.0);
            }
            true
        } else if input.key == KEY_END {
            self.set_cursor_to_end(input.has_shift());
            proof {
                assert(self.view_of().0 =~= v.0);
            }
            true
        } else {
            false
        }
    }

    /// A key press: Up and Down (and Enter) switch lines, wrapping, with the
    /// cursor at the new line's end — Enter never closes; then the text
    /// field's keys; then Escape closes, which commits the sign.
    pub fn key_pressed<F: Fn(&str) -> i32>(&mut self, input: Input, width_fn: &F, clipboard: &mut String) -> (r: SignKey)
        requires
            old(self).wf(),
            width_fn_ok(*width_fn),
            !key_overflows(old(self).view_of(), input),
            byte_len(old(clipboard)@) + byte_len(old(self).text_spec()) <= usize::MAX,
        ensures
            final(self).wf(),
            final(self).kind == old(self).kind,
            (final(self).view_of(), final(clipboard)@, r) == key_spec(
                old(self).view_of(),
                input,
                *width_fn,
                old(self).kind.max_width_spec() as int,
                old(clipboard)@,
            ),
    {
        let ghost v = self.view_of();
        if input.key == KEY_UP {
            self.line = (self.line + 3) % 4;
            proof {
                assert(self.text_spec() == v.0[(v.1 + 3) % 4]);
                lemma_char_index(self.text_spec(), 0);
                assert(self.text_spec().take(0) =~= Seq::<char>::empty());
            }
            self.set_cursor_to_end(false);
            proof {
                assert(self.view_of().0 =~= v.0);
            }
            return SignKey::Handled;
        }
        if input.key == KEY_DOWN || input.key == KEY_ENTER || input.key == KEY_KP_ENTER {
            self.line = (self.line + 1) % 4;
            proof {
                assert(self.text_spec() == v.0[(v.1 + 1) % 4]);
                lemma_char_index(self.text_spec(), 0);
                assert(self.text_spec().take(0) =~= Seq::<char>::empty());
            }
            self.set_cursor_to_end(false);
            proof {
                assert(self.view_of().0 =~= v.0);
            }
            return SignKey::Handled;
        }
        if self.field_key(input, width_fn, clipboard) {
            return SignKey::Handled;
        }
        if input.key == KEY_ESCAPE {
            return SignKey::Close;
        }
        SignKey::Unhandled
    }
}

/// Control-V inserts the clipboard with its carriage returns and
/// formatting codes taken out, as an insert of that text would, leaves the
/// clipboard as it was, and is handled.
pub proof fn lemma_paste_inserts<F: Fn(&str) -> i32>(v: SignView, i: Input, f: F, max: int, clip: Seq<char>)
    requires
        is_shortcut(i, KEY_V),
    ensures
        key_spec(v, i, f, max, clip) == (inserted(v, paste_text(clip), f, max), clip, SignKey::Handled),
{
}

/// Typing an allowed character does what pasting a clipboard holding just
/// that character does: neither strip touches it.
pub proof fn lemma_typing_is_pasting<F: Fn(&str) -> i32>(v: SignView, ch: char, i: Input, f: F, max: int)
    requires
        allowed_chat_char(ch),
        is_shortcut(i, KEY_V),
    ensures
        key_spec(v, i, f, max, seq![ch]).0 == inserted(v, seq![ch], f, max),
{
    let one = seq![ch];
    assert(one.skip(1) =~= Seq::<char>::empty());
    assert(drop_cr(Seq::<char>::empty()) =~= Seq::<char>::empty());
    assert(drop_cr(one) =~= one);
    assert(strip_spec(Seq::<char>::empty()) =~= Seq::<char>::empty());
    assert(strip_spec(one) =~= one);
    lemma_paste_inserts(v, i, f, max, one);
}

/// A run of characters all in the Basic Multilingual Plane takes one UTF-16
/// unit each.
proof fn lemma_utf16_bmp_len(cs: Seq<char>)
    requires
        forall|k: int| 0 <= k < cs.len() ==> (#[trigger] cs[k] as u32) < 0x10000,
    ensures
        utf16(cs).len() == cs.len(),
    decreases cs.len(),
{
    if cs.len() > 0 {
        assert forall|k: int| 0 <= k < cs.drop_last().len() implies (#[trigger] cs.drop_last()[k] as u32) < 0x10000 by {
            assert(cs.drop_last()[k] == cs[k]);
        }
        lemma_utf16_bmp_len(cs.drop_last());
        assert((cs.last() as u32) < 0x10000);
    }
}

/// With Shift held, Left and Right move the cursor and leave the selection
/// anchor where it was, so they grow or shrink the selection; without
/// Shift the anchor follows the cursor and nothing stays selected. Either
/// way the cursor lands in the same place, and no text changes.
pub proof fn lemma_shift_arrows_keep_the_anchor<F: Fn(&str) -> i32>(v: SignView, i: Input, f: F, max: int, clip: Seq<char>)
    requires
        i.key == KEY_LEFT || i.key == KEY_RIGHT,
    ensures
        shift_held(i) ==> key_spec(v, i, f, max, clip).0.3 == v.3,
        !shift_held(i) ==> key_spec(v, i, f, max, clip).0.3 == key_spec(v, i, f, max, clip).0.2,
        key_spec(v, i, f, max, clip).0.2 == key_spec(v, Input { key: i.key, modifiers: i.modifiers & MOD_CONTROL }, f, max, clip).0.2,
        key_spec(v, i, f, max, clip).0.0 == v.0,
        key_spec(v, i, f, max, clip).0.1 == v.1,
        key_spec(v, i, f, max, clip).1 == clip,
{
    let j = Input { key: i.key, modifiers: i.modifiers & MOD_CONTROL };
    let m = i.modifiers;
    assert((m & MOD_CONTROL) & MOD_CONTROL == m & MOD_CONTROL) by (bit_vector);
    assert((m & MOD_CONTROL) & MOD_SHIFT == 0) by (bit_vector);
    assert((m & MOD_CONTROL) & MOD_ALT == 0) by (bit_vector);
    assert(control_held(j) == control_held(i));
    assert(!shift_held(j));
}

/// Control-Delete with nothing selected removes the text from the cursor up
/// to the next word position (where a word step from the cursor lands),
/// not just one character, and leaves the cursor where it was, when that
/// stretch is in the Basic Multilingual Plane (the delete counts its
/// UTF-16 units and then takes that many characters). The key is not
/// reported handled, so it falls through.
pub proof fn lemma_control_delete_removes_a_word<F: Fn(&str) -> i32>(v: SignView, i: Input, f: F, max: int, clip: Seq<char>)
    requires
        view_ok(v),
        v.2 == v.3,
        txt(v).len() > 0,
        txt(v).len() <= i32::MAX,
        i.key == KEY_DELETE,
        control_held(i),
        forall|k: int| char_index(txt(v), v.2) <= k < char_index(txt(v), word_position_spec(vstd::utf8::encode_utf8(txt(v)), 1, v.2))
            ==> (#[trigger] txt(v)[k] as u32) < 0x10000,
    ensures
        ({
            let t = txt(v);
            let target = word_position_spec(vstd::utf8::encode_utf8(t), 1, v.2);
            &&& v.2 <= target
            &&& key_spec(v, i, f, max, clip) == ((
                v.0.update(v.1, t.take(char_index(t, v.2)) + t.skip(char_index(t, target))),
                v.1,
                v.2,
                v.2,
            ), clip, SignKey::Unhandled)
        }),
{
    let t = txt(v);
    let e = vstd::utf8::encode_utf8(t);
    lemma_str_len(t);
    let target = word_position_spec(e, 1, v.2);
    // The cursor is a boundary, so it lies within the line.
    let a = char_index(t, v.2);
    assert(0 <= a <= t.len() && byte_pos(t, a) == v.2);
    if a < t.len() {
        lemma_byte_pos_strict(t, a, t.len() as int);
    }
    assert(t.take(t.len() as int) =~= t);
    assert(v.2 <= byte_len(t));
    lemma_byte_len_nonneg(t.take(a));
    // A forward word step never moves back.
    assert(word_steps(e, false, v.2, 0) == v.2);
    lemma_fwd_to_sep(e, v.2);
    lemma_fwd_over_seps(e, fwd_to_sep(e, v.2));
    assert(target == word_step(e, false, v.2));
    assert(v.2 <= target);
    lemma_word_position_boundary(t, 1, v.2);
    let b = char_index(t, target);
    assert(0 <= b <= t.len() && byte_pos(t, b) == target);
    if b < a {
        lemma_byte_pos_strict(t, b, a);
    }
    assert(a <= b);
    assert(word_target(v, 1) == target);
    lemma_utf16_bmp_len(t.subrange(a, b));
    assert(word_units(v, 1) as int == b - a);
    // Delete's own branch, with Control: a word's worth of characters.
    assert(key_spec(v, i, f, max, clip) == (removed(v, 1, true), clip, SignKey::Unhandled));
    assert(removed(v, 1, true) == removed_chars(v, b - a));
    if v.2 >= byte_len(t) {
        lemma_char_index(t, t.len() as int);
        assert(a == t.len());
        assert(b == t.len());
    }
    assert(offset_spec(t, v.2, b - a) == byte_pos(t, b));
}

/// Control-Backspace with nothing selected removes the text from the
/// previous word position (where a word step back from the cursor lands)
/// up to the cursor, and puts the cursor there, when that stretch is in the
/// Basic Multilingual Plane. The key is reported handled.
pub proof fn lemma_control_backspace_removes_a_word<F: Fn(&str) -> i32>(v: SignView, i: Input, f: F, max: int, clip: Seq<char>)
    requires
        view_ok(v),
        v.2 == v.3,
        txt(v).len() > 0,
        txt(v).len() <= i32::MAX,
        i.key == KEY_BACKSPACE,
        control_held(i),
        forall|k: int| char_index(txt(v), word_position_spec(vstd::utf8::encode_utf8(txt(v)), -1, v.2)) <= k < char_index(txt(v), v.2)
            ==> (#[trigger] txt(v)[k] as u32) < 0x10000,
    ensures
        ({
            let t = txt(v);
            let target = word_position_spec(vstd::utf8::encode_utf8(t), -1, v.2);
            &&& target <= v.2
            &&& key_spec(v, i, f, max, clip) == ((
                v.0.update(v.1, t.take(char_index(t, target)) + t.skip(char_index(t, v.2))),
                v.1,
                target,
                target,
            ), clip, SignKey::Handled)
        }),
{
    let t = txt(v);
    let e = vstd::utf8::encode_utf8(t);
    lemma_str_len(t);
    let target = word_position_spec(e, -1, v.2);
    let c = char_index(t, v.2);
    assert(0 <= c <= t.len() && byte_pos(t, c) == v.2);
    if c < t.len() {
        lemma_byte_pos_strict(t, c, t.len() as int);
    }
    assert(t.take(t.len() as int) =~= t);
    assert(v.2 <= byte_len(t));
    lemma_byte_len_nonneg(t.take(c));
    assert(word_steps(e, true, v.2, 0) == v.2);
    lemma_back_over_seps(e, v.2);
    lemma_back_over_word(e, back_over_seps(e, v.2));
    assert(target == word_step(e, true, v.2));
    assert(target <= v.2);
    lemma_word_position_boundary(t, -1, v.2);
    let a = char_index(t, target);
    assert(0 <= a <= t.len() && byte_pos(t, a) == target);
    if c < a {
        lemma_byte_pos_strict(t, c, a);
    }
    assert(a <= c);
    assert(word_target(v, -1) == target);
    lemma_utf16_bmp_len(t.subrange(a, c));
    assert(word_units(v, -1) as int == c - a);
    assert(key_spec(v, i, f, max, clip) == (removed(v, -1, true), clip, SignKey::Handled));
    if target < v.2 {
        assert(removed(v, -1, true) == removed_chars(v, -(c - a)));
        if v.2 >= byte_len(t) {
            lemma_char_index(t, t.len() as int);
            assert(c == t.len());
        }
        assert(offset_spec(t, v.2, -(c - a)) == byte_pos(t, a));
    } else {
        assert(a == c);
        assert(removed(v, -1, true) == removed_chars(v, 0));
        if v.2 >= byte_len(t) {
            lemma_char_index(t, t.len() as int);
            assert(c == t.len());
        }
        assert(offset_spec(t, v.2, 0) == byte_pos(t, c));
    }
}

/// Delete without Control, with nothing selected and the cursor before the
/// end, removes exactly the one character after the cursor.
pub proof fn lemma_plain_delete_removes_one_character<F: Fn(&str) -> i32>(v: SignView, i: Input, f: F, max: int, clip: Seq<char>)
    requires
        view_ok(v),
        v.2 == v.3,
        v.2 < byte_len(txt(v)),
        i.key == KEY_DELETE,
        !control_held(i),
    ensures
        ({
            let t = txt(v);
            let c = char_index(t, v.2);
            &&& c < t.len()
            &&& key_spec(v, i, f, max, clip) == ((v.0.update(v.1, t.take(c) + t.skip(c + 1)), v.1, v.2, v.2), clip, SignKey::Unhandled)
        }),
{
    let t = txt(v);
    let c = char_index(t, v.2);
    assert(0 <= c <= t.len() && byte_pos(t, c) == v.2);
    assert(t.take(t.len() as int) =~= t);
    if c == t.len() {
        assert(v.2 == byte_len(t));
    }
    assert(t.len() > 0);
    lemma_char_index(t, c + 1);
    lemma_byte_pos_strict(t, c, c + 1);
    assert(offset_spec(t, v.2, 1) == byte_pos(t, c + 1));
}

/// A line-edit view that names one of the four lines, with cursor and
/// anchor between characters.
pub open spec fn view_ok(v: SignView) -> bool {
    &&& v.0.len() == 4
    &&& 0 <= v.1 < 4
    &&& is_boundary(txt(v), v.2)
    &&& is_boundary(txt(v), v.3)
}

/// Enter, keypad Enter and Down move to the next line, wrapping after the
/// last, and never close the editor; no line's text changes.
pub proof fn lemma_enter_never_closes<F: Fn(&str) -> i32>(v: SignView, i: Input, f: F, max: int, clip: Seq<char>)
    requires
        i.key == KEY_ENTER || i.key == KEY_KP_ENTER || i.key == KEY_DOWN,
    ensures
        key_spec(v, i, f, max, clip).2 == SignKey::Handled,
        key_spec(v, i, f, max, clip).0.1 == (v.1 + 1) % 4,
        key_spec(v, i, f, max, clip).0.0 == v.0,
        key_spec(v, i, f, max, clip).1 == clip,
{
}

/// Up then Down comes back to the line it started on, its text unchanged.
pub proof fn lemma_up_then_down<F: Fn(&str) -> i32>(v: SignView, up: Input, down: Input, f: F, max: int, clip: Seq<char>)
    requires
        0 <= v.1 < 4,
        up.key == KEY_UP,
        down.key == KEY_DOWN,
    ensures
        key_spec(key_spec(v, up, f, max, clip).0, down, f, max, clip).0.1 == v.1,
        key_spec(key_spec(v, up, f, max, clip).0, down, f, max, clip).0.0 == v.0,
{
}

/// An insert too wide for the line is rejected whole: no line changes.
pub proof fn lemma_failing_insert_changes_nothing<F: Fn(&str) -> i32>(v: SignView, t: Seq<char>, f: F, max: int)
    requires
        text_width(f, candidate(v, t)) > max,
    ensures
        inserted(v, t, f, max).0 == v.0,
        inserted(v, t, f, max).1 == v.1,
{
}

/// Cutting the selection and pasting it straight back restores the line,
/// when the paste strip leaves the cut text as it is and the line fits.
pub proof fn lemma_cut_then_paste_restores<F: Fn(&str) -> i32>(
    v: SignView,
    cut: Input,
    paste: Input,
    f: F,
    max: int,
    clip: Seq<char>,
)
    requires
        view_ok(v),
        is_shortcut(cut, KEY_X),
        is_shortcut(paste, KEY_V),
        paste_text(selected_spec(v)) == selected_spec(v),
        text_width(f, txt(v)) <= max,
    ensures
        ({
            let (w, c, _k) = key_spec(v, cut, f, max, clip);
            let (u, _c2, _k2) = key_spec(w, paste, f, max, c);
            &&& c == selected_spec(v)
            &&& u.0 == v.0
            &&& u.1 == v.1
        }),
{
    let t = txt(v);
    let ci = cur_index(v);
    let si = sel_index(v);
    assert(0 <= ci <= t.len() && byte_pos(t, ci) == v.2);
    assert(0 <= si <= t.len() && byte_pos(t, si) == v.3);
    let lo = sel_lo(v);
    let hi = sel_hi(v);
    let sel = selected_spec(v);
    let d = deleted_text(v);
    let k = collapsed_cursor(v);
    let w: SignView = (v.0.update(v.1, d), v.1, k, k);
    assert(key_spec(v, cut, f, max, clip) == (w, sel, SignKey::Handled));
    assert(txt(w) == d);
    if v.2 == v.3 {
        assert(sel =~= Seq::<char>::empty());
        assert(d == t);
        assert(cur_index(w) == ci);
    } else {
        assert(d.take(lo) =~= t.take(lo));
        assert(byte_pos(d, lo) == byte_pos(t, lo));
        lemma_char_index(d, lo);
        assert(cur_index(w) == lo);
    }
    assert(insert_index(w) == cur_index(w));
    assert(deleted_text(w) == d);
    assert(candidate(w, sel) =~= t);
    assert(v.0.update(v.1, d).update(v.1, t) =~= v.0);
}

/// The editor's screen: the in-world dim behind it, and one Done button,
/// 200 by 20, centred at a quarter of the height plus 144. The title label
/// is added by the caller, which can measure it.
pub fn build_screen(gui_w: i32, gui_h: i32, done_label: &str) -> (r: Screen)
    ensures
        r.kind == ScreenKind::SignEdit,
        r.width == gui_w && r.height == gui_h,
        r.backdrop == Some(Backdrop { top: 0xC010_1010u32, bottom: 0xD010_1010u32 }),
        r.close_on_esc,
        r.focused is None,
        r.widgets@.len() == 1,
        r.widgets@[0].id == DONE,
        r.widgets@[0].x == tdiv(gui_w as int, 2) - 100,
        r.widgets@[0].y == tdiv(gui_h as int, 4) + 144,
        r.widgets@[0].width == 200 && r.widgets@[0].height == 20,
        r.widgets@[0].active && r.widgets@[0].visible,
        r.widgets@[0].message@ == done_label@,
        r.widgets@[0].kind == WidgetKind::Button,
{
    let done = Widget::button(DONE, gui_w / 2 - 100, gui_h / 4 + 144, 200, 20, done_label);
    let mut widgets: Vec<Widget> = Vec::new();
    widgets.push(done);
    Screen::new(ScreenKind::SignEdit, gui_w, gui_h).with_backdrop(Backdrop::transparent()).with_widgets(widgets)
}

} // verus!
