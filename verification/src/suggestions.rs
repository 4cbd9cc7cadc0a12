//! Command suggestions: ranges over the command line's UTF-16 units, single
//! suggestions and how one is spliced in, the built list (widened to one
//! range, de-duplicated, sorted ignoring case), the builder that drops a
//! suggestion equal to what is already typed, and the `._/` sub-string
//! matcher.

use vstd::prelude::*;
use crate::text::{chars_of, str_eq, to_lowercase, lowercase, occurs_at, occurs_at_exec, char_to_uppercase, char_to_lowercase, upper_mapping, lower_mapping};
use crate::sorting::{identity, lemma_sorted_prefix_done, lemma_sorted_prefix_start, lemma_sorted_prefix_step, sorted_prefix, stable_rearrangement};
use crate::utf16::{char_from_u32, decode_lossy, encode_utf16, from_utf16_lossy, is_scalar, utf16};

verus! {

/// A half-open `[start, end)` span of the input, in UTF-16 units.
#[derive(Clone, Copy, Debug, PartialEq, Eq, Structural)]
pub struct StringRange {
    pub start: usize,
    pub end: usize,
}

impl Default for StringRange {
    /// The empty range at 0.
    fn default() -> (r: Self)
        ensures
            r == (StringRange { start: 0, end: 0 }),
    {
        StringRange { start: 0, end: 0 }
    }
}

impl StringRange {
    pub fn between(start: usize, end: usize) -> (r: Self)
        ensures
            r == (StringRange { start, end }),
    {
        StringRange { start, end }
    }

    /// The empty range at `pos`.
    pub fn at(pos: usize) -> (r: Self)
        ensures
            r == (StringRange { start: pos, end: pos }),
    {
        StringRange { start: pos, end: pos }
    }

    /// The span's length; a reversed span is empty.
    pub fn length(self) -> (r: usize)
        ensures
            r == if self.end >= self.start { (self.end - self.start) as int } else { 0 },
    {
        self.end.saturating_sub(self.start)
    }

    pub fn is_empty(self) -> (r: bool)
        ensures
            r == (self.start == self.end),
    {
        self.start == self.end
    }
}

/// A suggestion as a value: its range, its text, its tooltip.
pub type SuggestionView = (StringRange, Seq<char>, Option<Seq<char>>);

pub open spec fn opt_view(o: Option<String>) -> Option<Seq<char>> {
    match o {
        Some(s) => Some(s@),
        None => None,
    }
}

/// One suggestion: the span it replaces, its text, an optional tooltip.
#[derive(Clone, Debug, PartialEq, Eq)]
pub struct Suggestion {
    pub range: StringRange,
    pub text: String,
    pub tooltip: Option<String>,
}

impl View for Suggestion {
    type V = SuggestionView;

    open spec fn view(&self) -> SuggestionView {
        (self.range, self.text@, opt_view(self.tooltip))
    }
}

/// The views of a list of suggestions.
pub open spec fn views(s: Seq<Suggestion>) -> Seq<SuggestionView> {
    s.map_values(|x: Suggestion| x@)
}

/// `prefix ++ text ++ suffix`: the input with `range` replaced by `text`.
/// A range covering the whole input is the text alone; otherwise the part
/// before the start (clipped to the input) and the part after the end.
pub open spec fn apply_spec(range: StringRange, text: Seq<u16>, input: Seq<u16>) -> Seq<u16> {
    if range.start == 0 && range.end == input.len() {
        text
    } else {
        let head = if range.start > 0 {
            input.take(if range.start < input.len() { range.start as int } else { input.len() as int })
        } else {
            Seq::empty()
        };
        let tail = if range.end < input.len() { input.skip(range.end as int) } else { Seq::empty() };
        head + text + tail
    }
}

/// `units[from..to]`, copied.
fn copy_units(units: &[u16], from: usize, to: usize) -> (r: Vec<u16>)
    requires
        from <= to <= units@.len(),
    ensures
        r@ == units@.subrange(from as int, to as int),
{
    let mut out: Vec<u16> = Vec::new();
    let mut i = from;
    while i < to
        invariant
            from <= i <= to <= units@.len(),
            out@ == units@.subrange(from as int, i as int),
        decreases to - i,
    {
        out.push(units[i]);
        proof {
            assert(out@ =~= units@.subrange(from as int, i + 1));
        }
        i = i + 1;
    }
    out
}

/// `a ++ b`, into `a`.
fn append_units(a: &mut Vec<u16>, b: &Vec<u16>)
    ensures
        final(a)@ == old(a)@ + b@,
{
    let n = b.len();
    let mut i: usize = 0;
    let ghost start = a@;
    while i < n
        invariant
            n == b@.len(),
            i <= n,
            a@ == start + b@.take(i as int),
        decreases n - i,
    {
        a.push(b[i]);
        proof {
            assert(a@ =~= start + b@.take(i + 1));
        }
        i = i + 1;
    }
    proof {
        assert(b@.take(n as int) =~= b@);
    }
}

/// A copy of an optional string, with the same view.
fn copy_opt(o: &Option<String>) -> (r: Option<String>)
    ensures
        opt_view(r) == opt_view(*o),
{
    match o {
        Some(t) => Some(t.clone()),
        None => None,
    }
}

/// What widening a suggestion to `range` gives: itself when the range is
/// already its own; otherwise its text padded with the command's own
/// characters on whichever side grew, decoded back from UTF-16.
pub open spec fn expand_spec(s: SuggestionView, command: Seq<u16>, range: StringRange) -> SuggestionView {
    if range == s.0 {
        s
    } else {
        let len = command.len() as int;
        let pre = if range.start < s.0.start {
            command.subrange(range.start as int, if (s.0.start as int) < len { s.0.start as int } else { len })
        } else {
            Seq::empty()
        };
        let post = if range.end > s.0.end {
            command.subrange(
                if (s.0.end as int) < len { s.0.end as int } else { len },
                if (range.end as int) < len { range.end as int } else { len },
            )
        } else {
            Seq::empty()
        };
        (range, decode_lossy(pre + utf16(s.1) + post), s.2)
    }
}

/// Widening `s` to `range` reads only the command's existing units.
pub open spec fn expand_ok(s: SuggestionView, command: Seq<u16>, range: StringRange) -> bool {
    range.start < s.0.start ==> range.start <= command.len()
}

impl Suggestion {
    pub fn new(range: StringRange, text: &str) -> (r: Self)
        ensures
            r@ == (range, text@, None::<Seq<char>>),
    {
        Suggestion { range, text: text.to_owned(), tooltip: None }
    }

    pub fn with_tooltip(self, tooltip: Option<String>) -> (r: Self)
        ensures
            r@ == (self.range, self.text@, opt_view(tooltip)),
    {
        Suggestion { range: self.range, text: self.text, tooltip }
    }

    /// A copy with the same view.
    fn copy(&self) -> (r: Self)
        ensures
            r@ == self@,
    {
        Suggestion { range: self.range, text: self.text.clone(), tooltip: copy_opt(&self.tooltip) }
    }

    /// Whether two suggestions are the same value.
    fn same(&self, other: &Suggestion) -> (r: bool)
        ensures
            r == (self@ == other@),
    {
        if self.range != other.range || !str_eq(self.text.as_str(), other.text.as_str()) {
            return false;
        }
        match (&self.tooltip, &other.tooltip) {
            (Some(a), Some(b)) => {
                let r = str_eq(a.as_str(), b.as_str());
                proof {
                    assert(opt_view(self.tooltip) == Some(a@));
                    assert(opt_view(other.tooltip) == Some(b@));
                }
                r
            },
            (None, None) => true,
            (Some(a), None) => {
                proof {
                    assert(opt_view(self.tooltip) == Some(a@));
                }
                false
            },
            (None, Some(b)) => {
                proof {
                    assert(opt_view(other.tooltip) == Some(b@));
                }
                false
            },
        }
    }

    /// Splice this suggestion's text over its range of `input`, both counted
    /// in UTF-16 units.
    pub fn apply(&self, input: &[u16]) -> (r: Vec<u16>)
        ensures
            r@ == apply_spec(self.range, utf16(self.text@), input@),
    {
        let text = encode_utf16(self.text.as_str());
        let n = input.len();
        if self.range.start == 0 && self.range.end == n {
            return text;
        }
        let mut out: Vec<u16> = Vec::new();
        if self.range.start > 0 {
            let head_end = if self.range.start < n { self.range.start } else { n };
            out = copy_units(input, 0, head_end);
            proof {
                assert(out@ =~= input@.take(head_end as int));
            }
        }
        append_units(&mut out, &text);
        if self.range.end < n {
            let tail = copy_units(input, self.range.end, n);
            proof {
                assert(tail@ =~= input@.skip(self.range.end as int));
            }
            append_units(&mut out, &tail);
        }
        proof {
            assert(out@ =~= apply_spec(self.range, utf16(self.text@), input@));
        }
        out
    }

    /// Widen this suggestion to `range`, padding its text with `command`'s
    /// characters on whichever side grew.
    fn expand(&self, command: &[u16], range: StringRange) -> (r: Suggestion)
        requires
            expand_ok(self@, command@, range),
        ensures
            r@ == expand_spec(self@, command@, range),
    {
        if range == self.range {
            return self.copy();
        }
        let n = command.len();
        let mut out: Vec<u16> = Vec::new();
        if range.start < self.range.start {
            let to = if self.range.start < n { self.range.start } else { n };
            out = copy_units(command, range.start, to);
        }
        let text = encode_utf16(self.text.as_str());
        append_units(&mut out, &text);
        if range.end > self.range.end {
            let from = if self.range.end < n { self.range.end } else { n };
            let to = if range.end < n { range.end } else { n };
            let post = copy_units(command, from, to);
            append_units(&mut out, &post);
        }
        proof {
            let s = self@;
            let len = command@.len() as int;
            let pre = if range.start < s.0.start {
                command@.subrange(range.start as int, if (s.0.start as int) < len { s.0.start as int } else { len })
            } else {
                Seq::empty()
            };
            let post = if range.end > s.0.end {
                command@.subrange(
                    if (s.0.end as int) < len { s.0.end as int } else { len },
                    if (range.end as int) < len { range.end as int } else { len },
                )
            } else {
                Seq::empty()
            };
            assert(out@ =~= pre + utf16(s.1) + post);
        }
        Suggestion { range, text: from_utf16_lossy(out.as_slice()), tooltip: copy_opt(&self.tooltip) }
    }
}

/// `Character.toUpperCase(char)` (or `toLowerCase`) on one UTF-16 unit: the
/// character's mapping when it is a single unit, else the unit unchanged —
/// a surrogate has no mapping, and neither does a character whose mapping
/// expands (`ß` upper-cases to `SS`, so it stays `ß`).
pub open spec fn fold_spec(u: u16, upper: bool) -> u16 {
    if is_scalar(u as int) {
        let c = (u as u32) as char;
        let m = if upper { upper_mapping(c) } else { lower_mapping(c) };
        if m.len() == 1 && (m[0] as u32) <= 0xFFFF {
            (m[0] as u32) as u16
        } else {
            u
        }
    } else {
        u
    }
}

pub fn fold(u: u16, upper: bool) -> (r: u16)
    ensures
        r == fold_spec(u, upper),
{
    match char_from_u32(u as u32) {
        None => u,
        Some(c) => {
            proof {
                vstd::utf8::char_u32_cast(c, u as u32);
            }
            let m = if upper { char_to_uppercase(c) } else { char_to_lowercase(c) };
            if m.len() == 1 {
                let v = m[0] as u32;
                if v <= 0xFFFF {
                    v as u16
                } else {
                    u
                }
            } else {
                u
            }
        },
    }
}

/// The unit a case-insensitive comparison compares: upper-cased, then
/// lower-cased.
pub open spec fn unit_key(u: u16) -> u16 {
    fold_spec(fold_spec(u, true), false)
}

/// `String.compareToIgnoreCase` on UTF-16 units, as -1, 0 or 1: the first
/// position whose keys differ decides; otherwise the shorter string is less.
pub open spec fn ci_order(a: Seq<u16>, b: Seq<u16>) -> int
    decreases a.len(),
{
    if a.len() == 0 {
        if b.len() == 0 { 0 } else { -1 }
    } else if b.len() == 0 {
        1
    } else if unit_key(a[0]) == unit_key(b[0]) {
        ci_order(a.skip(1), b.skip(1))
    } else if unit_key(a[0]) < unit_key(b[0]) {
        -1
    } else {
        1
    }
}

/// The case-insensitive order is antisymmetric: swapping the two strings
/// flips the answer, and the answer is -1, 0 or 1.
pub proof fn lemma_ci_order_antisym(a: Seq<u16>, b: Seq<u16>)
    ensures
        ci_order(a, b) == -ci_order(b, a),
        -1 <= ci_order(a, b) <= 1,
    decreases a.len(),
{
    if a.len() > 0 && b.len() > 0 && unit_key(a[0]) == unit_key(b[0]) {
        lemma_ci_order_antisym(a.skip(1), b.skip(1));
    }
}

/// The case-insensitive order is transitive.
pub proof fn lemma_ci_order_trans(a: Seq<u16>, b: Seq<u16>, c: Seq<u16>)
    requires
        ci_order(a, b) <= 0,
        ci_order(b, c) <= 0,
    ensures
        ci_order(a, c) <= 0,
    decreases a.len(),
{
    if a.len() > 0 && b.len() > 0 && c.len() > 0 {
        if unit_key(a[0]) == unit_key(b[0]) && unit_key(b[0]) == unit_key(c[0]) {
            lemma_ci_order_trans(a.skip(1), b.skip(1), c.skip(1));
        }
    }
}

/// Every string is equal to itself ignoring case.
pub proof fn lemma_ci_order_refl(a: Seq<u16>)
    ensures
        ci_order(a, a) == 0,
    decreases a.len(),
{
    if a.len() > 0 {
        lemma_ci_order_refl(a.skip(1));
    }
}

/// `ci_order` of two unit strings, computed.
fn compare_units(a: &Vec<u16>, b: &Vec<u16>) -> (r: i32)
    ensures
        r == ci_order(a@, b@),
{
    let n = a.len();
    let m = b.len();
    let mut i: usize = 0;
    proof {
        assert(a@.skip(0) =~= a@);
        assert(b@.skip(0) =~= b@);
    }
    loop
        invariant
            n == a@.len(),
            m == b@.len(),
            i <= n,
            i <= m,
            ci_order(a@, b@) == ci_order(a@.skip(i as int), b@.skip(i as int)),
        decreases n - i,
    {
        let sa = Ghost(a@.skip(i as int));
        let sb = Ghost(b@.skip(i as int));
        if i == n {
            if i == m {
                return 0;
            }
            return -1;
        }
        if i == m {
            return 1;
        }
        let x = a[i];
        let y = b[i];
        proof {
            assert(sa@[0] == x && sb@[0] == y);
            assert(sa@.skip(1) =~= a@.skip(i + 1));
            assert(sb@.skip(1) =~= b@.skip(i + 1));
        }
        if x != y {
            let ux = fold(x, true);
            let uy = fold(y, true);
            if ux != uy {
                let lx = fold(ux, false);
                let ly = fold(uy, false);
                if lx != ly {
                    if lx < ly {
                        return -1;
                    }
                    return 1;
                }
            }
        }
        i = i + 1;
    }
}

/// `String.compareToIgnoreCase`, on UTF-16 units: each pair of units is
/// compared upper-cased, and only where those differ, lower-cased.
pub fn compare_ignore_case(a: &str, b: &str) -> (r: std::cmp::Ordering)
    ensures
        r == std::cmp::Ordering::Less <==> ci_order(utf16(a@), utf16(b@)) < 0,
        r == std::cmp::Ordering::Equal <==> ci_order(utf16(a@), utf16(b@)) == 0,
        r == std::cmp::Ordering::Greater <==> ci_order(utf16(a@), utf16(b@)) > 0,
{
    let ua = encode_utf16(a);
    let ub = encode_utf16(b);
    let c = compare_units(&ua, &ub);
    if c < 0 {
        std::cmp::Ordering::Less
    } else if c == 0 {
        std::cmp::Ordering::Equal
    } else {
        std::cmp::Ordering::Greater
    }
}

/// The widest start: the least start of any suggestion.
pub open spec fn min_start(s: Seq<SuggestionView>) -> usize
    decreases s.len(),
{
    if s.len() == 0 {
        0
    } else if s.len() == 1 {
        s[0].0.start
    } else {
        let m = min_start(s.drop_last());
        if s.last().0.start < m { s.last().0.start } else { m }
    }
}

/// The widest end: the greatest end of any suggestion.
pub open spec fn max_end(s: Seq<SuggestionView>) -> usize
    decreases s.len(),
{
    if s.len() == 0 {
        0
    } else if s.len() == 1 {
        s[0].0.end
    } else {
        let m = max_end(s.drop_last());
        if s.last().0.end > m { s.last().0.end } else { m }
    }
}

/// The one range every suggestion of a list is widened to.
pub open spec fn common_range(s: Seq<SuggestionView>) -> StringRange {
    StringRange { start: min_start(s), end: max_end(s) }
}

/// Every suggestion widened to `range`.
pub open spec fn expand_all(s: Seq<SuggestionView>, command: Seq<u16>, range: StringRange) -> Seq<SuggestionView> {
    s.map_values(|v: SuggestionView| expand_spec(v, command, range))
}

/// The first occurrence of each value, in order.
pub open spec fn dedup(s: Seq<SuggestionView>) -> Seq<SuggestionView>
    decreases s.len(),
{
    if s.len() == 0 {
        s
    } else {
        let d = dedup(s.drop_last());
        if d.contains(s.last()) { d } else { d.push(s.last()) }
    }
}

/// The texts, as UTF-16, never decrease ignoring case.
pub open spec fn text_sorted(s: Seq<SuggestionView>) -> bool {
    forall|i: int, j: int| 0 <= i < j < s.len() ==> ci_order(utf16(#[trigger] s[i].1), utf16(#[trigger] s[j].1)) <= 0
}

/// Widening every suggestion of `s` only reads the command's own units.
pub open spec fn create_ok(command: Seq<u16>, s: Seq<SuggestionView>) -> bool {
    forall|i: int| 0 <= i < s.len() ==> expand_ok(#[trigger] s[i], command, common_range(s))
}

/// A built list: no suggestions gives the empty list at range 0..0;
/// otherwise the common range, and the widened suggestions with duplicates
/// dropped, sorted by text ignoring case; suggestions whose texts compare
/// equal keep the order in which they were first met.
pub open spec fn created(r: Suggestions, command: Seq<u16>, s: Seq<SuggestionView>) -> bool {
    if s.len() == 0 {
        r.range == StringRange { start: 0, end: 0 } && r.list@.len() == 0
    } else {
        &&& r.range == common_range(s)
        &&& views(r.list@).to_multiset() == dedup(expand_all(s, command, common_range(s))).to_multiset()
        &&& text_sorted(views(r.list@))
        &&& stable_rearrangement(views(r.list@), dedup(expand_all(s, command, common_range(s))), text_ties())
        &&& views(r.list@) == sorted_by_text(dedup(expand_all(s, command, common_range(s))))
    }
}

/// A built list is one list: two built from the same suggestions over the
/// same command agree in range and in every entry, in order. So merging two
/// or more sources gives exactly what building from their pooled,
/// first-kept entries gives.
pub proof fn lemma_created_unique(r1: Suggestions, r2: Suggestions, command: Seq<u16>, s: Seq<SuggestionView>)
    requires
        created(r1, command, s),
        created(r2, command, s),
    ensures
        r1.range == r2.range,
        views(r1.list@) == views(r2.list@),
{
}

/// Each value occurs once after dropping repeats.
proof fn lemma_dedup_distinct(s: Seq<SuggestionView>)
    ensures
        dedup(s).no_duplicates(),
        forall|e: SuggestionView| #[trigger] dedup(s).contains(e) ==> s.contains(e),
    decreases s.len(),
{
    if s.len() > 0 {
        let d = dedup(s.drop_last());
        lemma_dedup_distinct(s.drop_last());
        assert forall|e: SuggestionView| #[trigger] dedup(s).contains(e) implies s.contains(e) by {
            if d.contains(e) {
                let i = choose|i: int| 0 <= i < s.drop_last().len() && s.drop_last()[i] == e;
                assert(s[i] == e);
            } else {
                assert(s[s.len() - 1] == e);
            }
        }
    }
}

/// A built list never holds the same suggestion twice.
pub proof fn lemma_created_distinct(r: Suggestions, command: Seq<u16>, s: Seq<SuggestionView>)
    requires
        created(r, command, s),
    ensures
        views(r.list@).no_duplicates(),
{
    let v = views(r.list@);
    if s.len() > 0 {
        let d = dedup(expand_all(s, command, common_range(s)));
        lemma_dedup_distinct(expand_all(s, command, common_range(s)));
        d.lemma_multiset_has_no_duplicates();
        v.lemma_multiset_has_no_duplicates_conv();
    } else {
        assert(v.len() == 0);
    }
}

/// Everything one builder offers replaces the same text, from its start to
/// the end of its input: the built list has that range, and so has every
/// suggestion in it.
pub proof fn lemma_one_builder_spans(b: SuggestionsBuilder, r: Suggestions)
    requires
        b.wf(),
        b.results().len() > 0,
        created(r, b.input_spec(), b.results()),
    ensures
        r.range == b.span(),
        all_span(views(r.list@), b.span()),
{
    let s = b.results();
    let c = b.input_spec();
    b.lemma_results_span();
    lemma_common_range_of_uniform(s, b.span());
    let x = expand_all(s, c, b.span());
    assert(x =~= s);
    lemma_dedup_distinct(s);
    let v = views(r.list@);
    assert forall|i: int| 0 <= i < v.len() implies (#[trigger] v[i]).0 == b.span() by {
        vstd::seq_lib::lemma_seq_contains(v, v[i]);
        assert(v.contains(v[i]));
        assert(v.to_multiset().count(v[i]) > 0) by {
            broadcast use vstd::seq_lib::group_to_multiset_ensures;
        }
        assert(dedup(s).contains(v[i])) by {
            broadcast use vstd::seq_lib::group_to_multiset_ensures;
        }
        let j = choose|j: int| 0 <= j < s.len() && s[j] == v[i];
    }
}

/// A built suggestion list: the common range and the sorted entries.
#[derive(Clone, Debug, PartialEq, Eq)]
pub struct Suggestions {
    pub range: StringRange,
    pub list: Vec<Suggestion>,
}

/// Whether a suggestion with `e`'s value is in `v`.
fn contains_view(v: &Vec<Suggestion>, e: &Suggestion) -> (r: bool)
    ensures
        r == views(v@).contains(e@),
{
    let n = v.len();
    let mut i: usize = 0;
    while i < n
        invariant
            n == v@.len(),
            i <= n,
            forall|k: int| 0 <= k < i ==> v@[k]@ != e@,
        decreases n - i,
    {
        if v[i].same(e) {
            proof {
                assert(views(v@)[i as int] == e@);
            }
            return true;
        }
        i = i + 1;
    }
    proof {
        if views(v@).contains(e@) {
            let k = choose|k: int| 0 <= k < views(v@).len() && views(v@)[k] == e@;
            assert(v@[k]@ == e@);
        }
    }
    false
}

/// `a`'s text sorts strictly before `b`'s, ignoring case.
pub open spec fn text_lt(a: SuggestionView, b: SuggestionView) -> bool {
    ci_order(utf16(a.1), utf16(b.1)) < 0
}

/// `x` put into `t` after every entry it does not sort strictly before,
/// scanning from the end: the step of a stable insertion sort.
pub open spec fn insert_by_text(t: Seq<SuggestionView>, x: SuggestionView) -> Seq<SuggestionView>
    decreases t.len(),
{
    if t.len() == 0 {
        seq![x]
    } else if text_lt(x, t.last()) {
        insert_by_text(t.drop_last(), x).push(t.last())
    } else {
        t.push(x)
    }
}

/// `s` sorted by text ignoring case, stably: each entry inserted in turn.
pub open spec fn sorted_by_text(s: Seq<SuggestionView>) -> Seq<SuggestionView>
    decreases s.len(),
{
    if s.len() == 0 {
        s
    } else {
        insert_by_text(sorted_by_text(s.drop_last()), s.last())
    }
}

/// Inserting where the scan stops: past every entry `x` sorts before, up to
/// one it does not.
proof fn lemma_insert_by_text_at(t: Seq<SuggestionView>, x: SuggestionView, j: int)
    requires
        0 <= j <= t.len(),
        forall|k: int| j <= k < t.len() ==> text_lt(x, #[trigger] t[k]),
        j == 0 || !text_lt(x, t[j - 1]),
    ensures
        insert_by_text(t, x) == t.take(j) + seq![x] + t.skip(j),
    decreases t.len(),
{
    if t.len() == 0 {
        assert(t.take(j) + seq![x] + t.skip(j) =~= seq![x]);
    } else if t.len() == j {
        assert(!text_lt(x, t.last()));
        assert(t.take(j) + seq![x] + t.skip(j) =~= t.push(x));
    } else {
        assert(text_lt(x, t[t.len() - 1]));
        let u = t.drop_last();
        assert forall|k: int| j <= k < u.len() implies text_lt(x, #[trigger] u[k]) by {
            assert(u[k] == t[k]);
        }
        if j > 0 {
            assert(u[j - 1] == t[j - 1]);
        }
        lemma_insert_by_text_at(u, x, j);
        assert((u.take(j) + seq![x] + u.skip(j)).push(t.last()) =~= t.take(j) + seq![x] + t.skip(j));
    }
}

/// Two suggestions whose texts compare equal, ignoring case.
pub open spec fn text_ties() -> spec_fn(SuggestionView, SuggestionView) -> bool {
    |a: SuggestionView, b: SuggestionView| ci_order(utf16(a.1), utf16(b.1)) == 0
}

/// Stable insertion sort by text, ignoring case.
fn sort_by_text(list: &mut Vec<Suggestion>)
    ensures
        views(final(list)@).to_multiset() == views(old(list)@).to_multiset(),
        final(list)@.len() == old(list)@.len(),
        text_sorted(views(final(list)@)),
        stable_rearrangement(views(final(list)@), views(old(list)@), text_ties()),
        views(final(list)@) == sorted_by_text(views(old(list)@)),
{
    let n = list.len();
    let ghost inp = views(list@);
    proof {
        lemma_sorted_prefix_start(inp, text_ties());
    }
    if n == 0 {
        proof {
            lemma_sorted_prefix_done(inp, inp, identity(inp.len()), text_ties());
            assert(inp =~= Seq::<SuggestionView>::empty());
        }
        return;
    }
    let ghost mut perm = identity(inp.len());
    proof {
        assert(inp.take(1).drop_last() =~= Seq::<SuggestionView>::empty());
        assert(sorted_by_text(inp.take(1).drop_last()) == Seq::<SuggestionView>::empty());
        assert(inp.take(1).last() == inp[0]);
        assert(sorted_by_text(inp.take(1)) == insert_by_text(Seq::<SuggestionView>::empty(), inp[0]));
        assert(insert_by_text(Seq::<SuggestionView>::empty(), inp[0]) == seq![inp[0]]);
        assert(views(list@).take(1) =~= sorted_by_text(inp.take(1)));
    }
    let mut i: usize = 1;
    while i < n
        invariant
            1 <= i <= n,
            n == list@.len(),
            inp == views(old(list)@),
            views(list@).to_multiset() == views(old(list)@).to_multiset(),
            text_sorted(views(list@.take(i as int))),
            sorted_prefix(views(list@), inp, perm, i as int, text_ties()),
            views(list@).take(i as int) == sorted_by_text(inp.take(i as int)),
            views(list@).skip(i as int) == inp.skip(i as int),
        decreases n - i,
    {
        let ghost before = list@;
        let key = encode_utf16(list[i].text.as_str());
        let mut j: usize = i;
        while j > 0 && compare_units(&key, &encode_utf16(list[j - 1].text.as_str())) < 0
            invariant
                0 <= j <= i < n,
                n == list@.len(),
                list@ == before,
                key@ == utf16(before[i as int].text@),
                forall|k: int| j <= k < i ==> ci_order(key@, utf16(#[trigger] before[k].text@)) < 0,
            decreases j,
        {
            j = j - 1;
        }
        let x = list.remove(i);
        list.insert(j, x);
        proof {
            let s = list@;
            let p = before.take(i as int);
            let vb = views(before);
            assert forall|k: int| j <= k < i implies !(text_ties())(vb[i as int], #[trigger] vb[k]) by {
                assert(ci_order(key@, utf16(before[k].text@)) < 0);
            }
            lemma_sorted_prefix_step(vb, inp, perm, i as int, j as int, text_ties());
            perm = perm.remove(i as int).insert(j as int, i as int);
            let pv = vb.take(i as int);
            assert(vb.skip(i as int)[0] == inp.skip(i as int)[0]);
            assert(vb[i as int] == inp[i as int]);
            assert forall|k: int| j <= k < pv.len() implies text_lt(vb[i as int], #[trigger] pv[k]) by {
                assert(pv[k] == vb[k]);
                assert(ci_order(key@, utf16(before[k].text@)) < 0);
            }
            if j > 0 {
                assert(pv[j - 1] == vb[j - 1]);
                assert(!text_lt(vb[i as int], pv[j - 1]));
            }
            lemma_insert_by_text_at(pv, vb[i as int], j as int);
            assert(inp.take(i + 1).drop_last() =~= inp.take(i as int));
            assert(inp.take(i + 1).last() == inp[i as int]);
            assert(views(s).take(i + 1) =~= pv.take(j as int) + seq![vb[i as int]] + pv.skip(j as int));
            assert(views(s).skip(i + 1) =~= vb.skip(i + 1));
            assert(vb.skip(i + 1) =~= vb.skip(i as int).skip(1));
            assert(inp.skip(i + 1) =~= inp.skip(i as int).skip(1));
            assert(x == before[i as int]);
            assert(s == before.remove(i as int).insert(j as int, x));
            assert(views(s) =~= vb.remove(i as int).insert(j as int, x@));
            vstd::seq_lib::to_multiset_remove(vb, i as int);
            vstd::seq_lib::to_multiset_insert(vb.remove(i as int), j as int, x@);
            assert(vb[i as int] == x@);
            vstd::seq_lib::to_multiset_contains(vb, x@);
            assert(vb.contains(x@));
            assert(vb.to_multiset().remove(x@).insert(x@) =~= vb.to_multiset());
            let t = views(s.take(i + 1));
            let vp = views(p);
            assert(t =~= vp.insert(j as int, x@));
            assert(text_sorted(vp)) by {
                assert(vp =~= views(before.take(i as int)));
            }
            assert forall|a: int, b: int| 0 <= a < b < i + 1 implies ci_order(
                utf16(#[trigger] t[a].1),
                utf16(#[trigger] t[b].1),
            ) <= 0 by {
                if b < j {
                    assert(t[a] == vp[a] && t[b] == vp[b]);
                } else if b == j {
                    assert(t[b] == x@);
                    assert(t[a] == vp[a]);
                    assert(vp[j - 1].1 == before[j - 1].text@);
                    lemma_ci_order_antisym(key@, utf16(vp[j - 1].1));
                    if a < j - 1 {
                        assert(ci_order(utf16(vp[a].1), utf16(vp[j - 1].1)) <= 0);
                        lemma_ci_order_trans(utf16(vp[a].1), utf16(vp[j - 1].1), key@);
                    }
                } else if a == j {
                    assert(t[a] == x@);
                    assert(t[b] == vp[b - 1]);
                    assert(vp[b - 1].1 == before[b - 1].text@);
                    assert(ci_order(key@, utf16(before[b - 1].text@)) < 0);
                } else if a < j {
                    assert(t[a] == vp[a] && t[b] == vp[b - 1]);
                } else {
                    assert(t[a] == vp[a - 1] && t[b] == vp[b - 1]);
                }
            }
        }
        i = i + 1;
    }
    proof {
        assert(list@.take(n as int) =~= list@);
        lemma_sorted_prefix_done(views(list@), inp, perm, text_ties());
        assert(views(list@).take(n as int) =~= views(list@));
        assert(inp.take(n as int) =~= inp);
    }
}

impl Suggestions {
    /// The empty list, at range 0..0 rather than any builder's range.
    pub fn empty() -> (r: Self)
        ensures
            r.range == (StringRange { start: 0, end: 0 }),
            r.list@.len() == 0,
    {
        Suggestions { range: StringRange::at(0), list: Vec::new() }
    }

    pub fn is_empty(&self) -> (r: bool)
        ensures
            r == (self.list@.len() == 0),
    {
        self.list.len() == 0
    }

    /// The list built from `suggestions`: each widened to the common range,
    /// duplicates dropped (the first kept), then sorted by text ignoring
    /// case, equal texts keeping their order.
    pub fn create(command: &[u16], suggestions: Vec<Suggestion>) -> (r: Self)
        requires
            create_ok(command@, views(suggestions@)),
        ensures
            created(r, command@, views(suggestions@)),
    {
        let ghost sv = views(suggestions@);
        let n = suggestions.len();
        if n == 0 {
            return Suggestions::empty();
        }
        let mut start = suggestions[0].range.start;
        let mut end = suggestions[0].range.end;
        let mut i: usize = 1;
        while i < n
            invariant
                1 <= i <= n,
                n == suggestions@.len(),
                sv == views(suggestions@),
                start == min_start(sv.take(i as int)),
                end == max_end(sv.take(i as int)),
            decreases n - i,
        {
            proof {
                assert(sv.take(i + 1).drop_last() =~= sv.take(i as int));
                assert(sv.take(i + 1).last() == suggestions@[i as int]@);
            }
            if suggestions[i].range.start < start {
                start = suggestions[i].range.start;
            }
            if suggestions[i].range.end > end {
                end = suggestions[i].range.end;
            }
            i = i + 1;
        }
        proof {
            assert(sv.take(n as int) =~= sv);
        }
        let range = StringRange::between(start, end);
        let mut expanded: Vec<Suggestion> = Vec::new();
        let ghost ex = expand_all(sv, command@, range);
        let mut k: usize = 0;
        while k < n
            invariant
                k <= n,
                n == suggestions@.len(),
                sv == views(suggestions@),
                range == common_range(sv),
                ex == expand_all(sv, command@, range),
                create_ok(command@, sv),
                views(expanded@) == dedup(ex.take(k as int)),
            decreases n - k,
        {
            proof {
                assert(expand_ok(sv[k as int], command@, range));
            }
            let e = suggestions[k].expand(command, range);
            proof {
                assert(ex.take(k + 1).drop_last() =~= ex.take(k as int));
                assert(ex.take(k + 1).last() == e@);
            }
            if !contains_view(&expanded, &e) {
                expanded.push(e);
                proof {
                    assert(views(expanded@) =~= dedup(ex.take(k as int)).push(e@));
                }
            }
            k = k + 1;
        }
        proof {
            assert(ex.take(n as int) =~= ex);
        }
        sort_by_text(&mut expanded);
        Suggestions { range, list: expanded }
    }

    /// Several sources combined: none gives the empty list, one is returned
    /// unchanged, more are pooled (duplicates dropped) and built afresh.
    pub fn merge(command: &[u16], input: Vec<Suggestions>) -> (r: Self)
        requires
            input@.len() >= 2 ==> create_ok(command@, dedup(all_views(input@))),
        ensures
            input@.len() == 0 ==> r.range == (StringRange { start: 0, end: 0 }) && r.list@.len() == 0,
            input@.len() == 1 ==> r == input@[0],
            input@.len() >= 2 ==> created(r, command@, dedup(all_views(input@))),
    {
        let n = input.len();
        if n == 0 {
            return Suggestions::empty();
        }
        if n == 1 {
            let mut input = input;
            match input.pop() {
                Some(only) => {
                    return only;
                },
                None => {
                    return Suggestions::empty();
                },
            }
        }
        let mut all: Vec<Suggestion> = Vec::new();
        let mut i: usize = 0;
        while i < n
            invariant
                i <= n,
                n == input@.len(),
                views(all@) == dedup(all_views(input@.take(i as int))),
            decreases n - i,
        {
            let m = input[i].list.len();
            let ghost base = all_views(input@.take(i as int));
            let mut j: usize = 0;
            while j < m
                invariant
                    i < n,
                    j <= m,
                    n == input@.len(),
                    m == input@[i as int].list@.len(),
                    base == all_views(input@.take(i as int)),
                    views(all@) == dedup(base + views(input@[i as int].list@.take(j as int))),
                decreases m - j,
            {
                let e = input[i].list[j].copy();
                proof {
                    let f = base + views(input@[i as int].list@.take(j as int));
                    assert((base + views(input@[i as int].list@.take(j + 1))).drop_last() =~= f);
                    assert((base + views(input@[i as int].list@.take(j + 1))).last() == e@);
                }
                if !contains_view(&all, &e) {
                    all.push(e);
                    proof {
                        let f = base + views(input@[i as int].list@.take(j as int));
                        assert(views(all@) =~= dedup(f).push(e@));
                    }
                }
                j = j + 1;
            }
            proof {
                assert(input@.take(i + 1).drop_last() =~= input@.take(i as int));
                assert(input@[i as int].list@.take(m as int) =~= input@[i as int].list@);
            }
            i = i + 1;
        }
        proof {
            assert(input@.take(n as int) =~= input@);
        }
        Suggestions::create(command, all)
    }
}

/// Every entry of every source, in order.
pub open spec fn all_views(input: Seq<Suggestions>) -> Seq<SuggestionView>
    decreases input.len(),
{
    if input.len() == 0 {
        Seq::empty()
    } else {
        all_views(input.drop_last()) + views(input.last().list@)
    }
}

/// Every suggestion of `s` spans `range`.
pub open spec fn all_span(s: Seq<SuggestionView>, range: StringRange) -> bool {
    forall|i: int| 0 <= i < s.len() ==> (#[trigger] s[i]).0 == range
}

proof fn lemma_common_range_of_uniform(s: Seq<SuggestionView>, range: StringRange)
    requires
        all_span(s, range),
        s.len() > 0,
    ensures
        common_range(s) == range,
    decreases s.len(),
{
    if s.len() > 1 {
        lemma_common_range_of_uniform(s.drop_last(), range);
        assert(s.last() == s[s.len() - 1]);
    }
}

/// Accumulates suggestions over `input[start..]`, counted in UTF-16 units.
pub struct SuggestionsBuilder {
    input: Vec<u16>,
    start: usize,
    remaining: String,
    result: Vec<Suggestion>,
}

impl SuggestionsBuilder {
    /// The whole input.
    pub closed spec fn input_spec(&self) -> Seq<u16> {
        self.input@
    }

    /// Where the suggestions start.
    pub closed spec fn start_spec(&self) -> usize {
        self.start
    }

    /// The suggestions so far, in the order they were offered.
    pub closed spec fn results(&self) -> Seq<SuggestionView> {
        views(self.result@)
    }

    /// The text from the start to the end of the input.
    pub open spec fn remaining_spec(&self) -> Seq<char> {
        decode_lossy(self.input_spec().skip(self.start_spec() as int))
    }

    /// The range every suggestion of this builder replaces.
    pub open spec fn span(&self) -> StringRange {
        StringRange { start: self.start_spec(), end: self.input_spec().len() as usize }
    }

    pub closed spec fn wf(&self) -> bool {
        &&& self.start <= self.input@.len()
        &&& self.remaining@ == decode_lossy(self.input@.skip(self.start as int))
        &&& all_span(views(self.result@), self.span())
    }

    /// Every suggestion offered so far spans the builder's range.
    pub proof fn lemma_results_span(&self)
        requires
            self.wf(),
        ensures
            all_span(self.results(), self.span()),
    {
    }

    /// A builder over `input` from `start`, clipped to the input's end.
    pub fn new(input: &[u16], start: usize) -> (r: Self)
        ensures
            r.wf(),
            r.input_spec() == input@,
            r.start_spec() == if start < input@.len() { start } else { input@.len() as usize },
            r.results().len() == 0,
    {
        let n = input.len();
        let start = if start < n { start } else { n };
        let units = copy_units(input, 0, n);
        let tail = copy_units(input, start, n);
        let remaining = from_utf16_lossy(tail.as_slice());
        proof {
            assert(units@ =~= input@);
            assert(tail@ =~= input@.skip(start as int));
        }
        let r = SuggestionsBuilder { input: units, start, remaining, result: Vec::new() };
        proof {
            assert(views(r.result@) =~= Seq::<SuggestionView>::empty());
        }
        r
    }

    /// A builder over a string's UTF-16 units.
    pub fn from_str(input: &str, start: usize) -> (r: Self)
        ensures
            r.wf(),
            r.input_spec() == utf16(input@),
            r.start_spec() == if start < utf16(input@).len() { start } else { utf16(input@).len() as usize },
            r.results().len() == 0,
    {
        let units = encode_utf16(input);
        SuggestionsBuilder::new(units.as_slice(), start)
    }

    pub fn remaining(&self) -> (r: &str)
        requires
            self.wf(),
        ensures
            r@ == self.remaining_spec(),
    {
        self.remaining.as_str()
    }

    pub fn start(&self) -> (r: usize)
        ensures
            r == self.start_spec(),
    {
        self.start
    }

    /// The whole input, in the units its indices count.
    pub fn input_units(&self) -> (r: Vec<u16>)
        ensures
            r@ == self.input_spec(),
    {
        let n = self.input.len();
        let r = copy_units(self.input.as_slice(), 0, n);
        proof {
            assert(r@ =~= self.input@);
        }
        r
    }

    /// Offer `text`, unless it is exactly what is already typed from the
    /// start: that one is dropped.
    pub fn suggest(&mut self, text: &str) -> (r: &mut Self)
        requires
            old(self).wf(),
        ensures
            r.wf(),
            r.input_spec() == old(self).input_spec(),
            r.start_spec() == old(self).start_spec(),
            r.results() == if text@ == old(self).remaining_spec() {
                old(self).results()
            } else {
                old(self).results().push((old(self).span(), text@, None::<Seq<char>>))
            },
            *final(self) == *final(r),
    {
        self.suggest_with_tooltip(text, None)
    }

    /// [`suggest`](Self::suggest) with a tooltip.
    pub fn suggest_with_tooltip(&mut self, text: &str, tooltip: Option<String>) -> (r: &mut Self)
        requires
            old(self).wf(),
        ensures
            r.wf(),
            r.input_spec() == old(self).input_spec(),
            r.start_spec() == old(self).start_spec(),
            r.results() == if text@ == old(self).remaining_spec() {
                old(self).results()
            } else {
                old(self).results().push((old(self).span(), text@, opt_view(tooltip)))
            },
            *final(self) == *final(r),
    {
        if str_eq(text, self.remaining.as_str()) {
            return self;
        }
        let s = Suggestion::new(StringRange::between(self.start, self.input.len()), text).with_tooltip(tooltip);
        self.result.push(s);
        proof {
            assert(views(self.result@) =~= views(old(self).result@).push(s@));
        }
        self
    }

    /// The built list.
    pub fn build(self) -> (r: Suggestions)
        requires
            self.wf(),
        ensures
            created(r, self.input_spec(), self.results()),
    {
        proof {
            let sv = views(self.result@);
            if sv.len() > 0 {
                lemma_common_range_of_uniform(sv, self.span());
            }
            assert forall|i: int| 0 <= i < sv.len() implies expand_ok(#[trigger] sv[i], self.input@, common_range(sv)) by {
                lemma_common_range_of_uniform(sv, self.span());
            }
        }
        Suggestions::create(self.input.as_slice(), self.result)
    }
}

pub open spec fn is_splitter(c: char) -> bool {
    c == '.' || c == '_' || c == '/'
}

/// `pattern` occurs in `input` at its start or right after a `.`, `_` or
/// `/` — not anywhere, and not after a `:`.
pub open spec fn matches_sub_str_spec(pattern: Seq<char>, input: Seq<char>) -> bool {
    exists|i: int| 0 <= i <= input.len() && (i == 0 || is_splitter(input[i - 1])) && #[trigger] occurs_at(input, pattern, i)
}

pub fn matches_sub_str(pattern: &str, input: &str) -> (r: bool)
    ensures
        r == matches_sub_str_spec(pattern@, input@),
{
    let p = chars_of(pattern);
    let s = chars_of(input);
    let n = s.len();
    let mut i: usize = 0;
    while i < n
        invariant
            n == s@.len(),
            s@ == input@,
            p@ == pattern@,
            i <= n,
            forall|j: int| 0 <= j < i && (j == 0 || is_splitter(s@[j - 1])) ==> !#[trigger] occurs_at(s@, p@, j),
        decreases n - i,
    {
        let at_split = i == 0 || s[i - 1] == '.' || s[i - 1] == '_' || s[i - 1] == '/';
        if at_split && occurs_at_exec(&s, &p, i) {
            return true;
        }
        i = i + 1;
    }
    let at_split = n == 0 || s[n - 1] == '.' || s[n - 1] == '_' || s[n - 1] == '/';
    let r = at_split && occurs_at_exec(&s, &p, n);
    proof {
        if !r {
            assert forall|j: int| 0 <= j <= n && (j == 0 || is_splitter(s@[j - 1])) implies !#[trigger] occurs_at(s@, p@, j) by {
                if j == n {
                }
            }
        }
    }
    r
}

/// What offering each name that matches does to a builder's suggestions:
/// the names whose lower-cased form matches the lower-cased remaining text,
/// each unless it equals the remaining text exactly.
pub open spec fn matching_offers(names: Seq<&str>, remaining: Seq<char>, span: StringRange) -> Seq<SuggestionView>
    decreases names.len(),
{
    if names.len() == 0 {
        Seq::empty()
    } else {
        let prev = matching_offers(names.drop_last(), remaining, span);
        let name = names.last()@;
        if matches_sub_str_spec(lowercase(remaining), lowercase(name)) && name != remaining {
            prev.push((span, name, None::<Seq<char>>))
        } else {
            prev
        }
    }
}

/// Offer every value whose lower-cased form matches the builder's
/// lower-cased remaining text, in its own casing.
pub fn suggest_matching(values: &[&str], builder: &mut SuggestionsBuilder)
    requires
        old(builder).wf(),
    ensures
        final(builder).wf(),
        final(builder).input_spec() == old(builder).input_spec(),
        final(builder).start_spec() == old(builder).start_spec(),
        final(builder).results() == old(builder).results() + matching_offers(
            values@,
            old(builder).remaining_spec(),
            old(builder).span(),
        ),
{
    let lower_prefix = to_lowercase(builder.remaining());
    let ghost rem = builder.remaining_spec();
    let ghost span = builder.span();
    let ghost base = builder.results();
    let n = values.len();
    let mut i: usize = 0;
    while i < n
        invariant
            i <= n,
            n == values@.len(),
            builder.wf(),
            builder.input_spec() == old(builder).input_spec(),
            builder.start_spec() == old(builder).start_spec(),
            rem == old(builder).remaining_spec(),
            rem == builder.remaining_spec(),
            span == builder.span(),
            span == old(builder).span(),
            base == old(builder).results(),
            lower_prefix@ == lowercase(rem),
            builder.results() == base + matching_offers(values@.take(i as int), rem, span),
        decreases n - i,
    {
        let name = values[i];
        proof {
            assert(values@.take(i + 1).drop_last() =~= values@.take(i as int));
            assert(values@.take(i + 1).last() == name);
        }
        let lower_name = to_lowercase(name);
        if matches_sub_str(lower_prefix.as_str(), lower_name.as_str()) {
            builder.suggest(name);
            proof {
                let prev = matching_offers(values@.take(i as int), rem, span);
                if name@ != rem {
                    assert(base + prev.push((span, name@, None::<Seq<char>>)) =~= (base + prev).push((span, name@, None::<Seq<char>>)));
                }
            }
        }
        i = i + 1;
    }
    proof {
        assert(values@.take(n as int) =~= values@);
    }
}

} // verus!
