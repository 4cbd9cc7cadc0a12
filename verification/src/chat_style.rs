//! Styled chat text: a run's colour, weight and click action, and a line as
//! a list of such runs.
//!
//! A colour is `0xRRGGBB`.

use vstd::prelude::*;
use crate::text::{chars_of, string_from_chars};

verus! {

/// What clicking a run does.
#[derive(Clone, Debug, PartialEq, Eq)]
pub enum ClickEvent {
    RunCommand(String),
    SuggestCommand(String),
    OpenUrl(String),
    CopyToClipboard(String),
}

/// The style a run is drawn in.
#[derive(Clone, Debug, PartialEq, Eq)]
pub struct ChatStyle {
    /// `0xRRGGBB`.
    pub color: u32,
    pub bold: bool,
    pub click: Option<ClickEvent>,
}

/// One run of text in one style.
#[derive(Clone, Debug, PartialEq, Eq)]
pub struct ChatSpan {
    pub text: String,
    pub color: u32,
    pub bold: bool,
    pub click: Option<ClickEvent>,
}

/// A line: its runs, in order.
pub type ChatLine = Vec<ChatSpan>;

/// White.
pub const WHITE_RGB: u32 = 0xFFFFFF;

impl ChatStyle {
    /// Plain white text, no click action.
    pub fn white() -> (r: Self)
        ensures
            r.color == WHITE_RGB,
            !r.bold,
            r.click is None,
    {
        ChatStyle { color: WHITE_RGB, bold: false, click: None }
    }

    /// A plain run of colour `rgb`.
    pub fn plain(rgb: u32) -> (r: Self)
        ensures
            r.color == rgb,
            !r.bold,
            r.click is None,
    {
        ChatStyle { color: rgb, bold: false, click: None }
    }

    /// `text` in this style.
    pub fn span(&self, text: &str) -> (r: ChatSpan)
        ensures
            r.text@ == text@,
            r.color == self.color,
            r.bold == self.bold,
            r.click == self.click,
    {
        ChatSpan { text: text.to_owned(), color: self.color, bold: self.bold, click: copy_click(&self.click) }
    }
}

/// A copy of a click action.
pub fn copy_click(c: &Option<ClickEvent>) -> (r: Option<ClickEvent>)
    ensures
        r == *c,
{
    match c {
        None => None,
        Some(ClickEvent::RunCommand(s)) => Some(ClickEvent::RunCommand(s.clone())),
        Some(ClickEvent::SuggestCommand(s)) => Some(ClickEvent::SuggestCommand(s.clone())),
        Some(ClickEvent::OpenUrl(s)) => Some(ClickEvent::OpenUrl(s.clone())),
        Some(ClickEvent::CopyToClipboard(s)) => Some(ClickEvent::CopyToClipboard(s.clone())),
    }
}

impl ChatSpan {
    /// The run's style.
    pub fn style(&self) -> (r: ChatStyle)
        ensures
            r.color == self.color,
            r.bold == self.bold,
            r.click == self.click,
    {
        ChatStyle { color: self.color, bold: self.bold, click: copy_click(&self.click) }
    }

    /// The run's click action, if any.
    pub fn click(&self) -> (r: Option<&ClickEvent>)
        ensures
            r == match self.click {
                Some(c) => Some(&c),
                None => None::<&ClickEvent>,
            },
    {
        match &self.click {
            Some(c) => Some(c),
            None => None,
        }
    }
}

/// A line's text, runs concatenated.
pub open spec fn line_text(spans: Seq<ChatSpan>) -> Seq<char>
    decreases spans.len(),
{
    if spans.len() == 0 {
        Seq::empty()
    } else {
        spans[0].text@ + line_text(spans.skip(1))
    }
}

/// The line's characters, runs concatenated.
pub fn plain_text(spans: &Vec<ChatSpan>) -> (r: String)
    ensures
        r@ == line_text(spans@),
{
    let mut out: Vec<char> = Vec::new();
    let n = spans.len();
    let mut i: usize = 0;
    proof {
        assert(spans@.skip(0) =~= spans@);
    }
    while i < n
        invariant
            n == spans@.len(),
            i <= n,
            out@ + line_text(spans@.skip(i as int)) == line_text(spans@),
        decreases n - i,
    {
        let cs = chars_of(spans[i].text.as_str());
        let ghost before = out@;
        let m = cs.len();
        let mut k: usize = 0;
        while k < m
            invariant
                m == cs@.len(),
                k <= m,
                out@ == before + cs@.take(k as int),
            decreases m - k,
        {
            out.push(cs[k]);
            proof {
                assert(out@ =~= before + cs@.take(k + 1));
            }
            k = k + 1;
        }
        proof {
            assert(cs@.take(m as int) =~= cs@);
            assert(spans@.skip(i as int)[0] == spans@[i as int]);
            assert(spans@.skip(i as int).skip(1) =~= spans@.skip(i + 1));
            assert(out@ + line_text(spans@.skip(i + 1)) =~= before + line_text(spans@.skip(i as int)));
        }
        i = i + 1;
    }
    proof {
        assert(line_text(spans@.skip(n as int)) =~= Seq::<char>::empty());
        assert(out@ =~= line_text(spans@));
    }
    string_from_chars(&out)
}

} // verus!
