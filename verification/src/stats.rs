//! The statistics the server sends: a counter keyed by `(type, value)`, the
//! grouped number format, and the two translation keys a stat is named by.

use vstd::prelude::*;
use crate::text::{chars_of, string_from_chars, decimal, digit_char, push_decimal_u64};

verus! {

/// One statistic: its `stat_type` registry id and the id of the value within
/// that type's registry.
#[derive(Clone, Copy, PartialEq, Eq, Debug, Hash, PartialOrd, Ord, Structural)]
pub struct StatKey {
    pub type_id: i32,
    pub value_id: i32,
}

impl StatKey {
    pub fn new(type_id: i32, value_id: i32) -> (r: Self)
        ensures
            r == (StatKey { type_id, value_id }),
    {
        StatKey { type_id, value_id }
    }
}

/// `StatsCounter` — every statistic the server has reported, and how many
/// award packets have arrived.
#[derive(Clone, Debug)]
pub struct StatsCounter {
    /// `(key, value)` in first-reported order; no key occurs twice.
    stats: Vec<(StatKey, i32)>,
    pub updates: u64,
}

/// No key occurs twice.
pub open spec fn keys_distinct(s: Seq<(StatKey, i32)>) -> bool {
    forall|i: int, j: int| 0 <= i < j < s.len() ==> s[i].0 != s[j].0
}

/// The value a list of entries holds for `key`, if any.
pub open spec fn lookup(s: Seq<(StatKey, i32)>, key: StatKey) -> Option<i32> {
    if exists|i: int| 0 <= i < s.len() && s[i].0 == key {
        Some(s[choose|i: int| 0 <= i < s.len() && s[i].0 == key].1)
    } else {
        None
    }
}

impl StatsCounter {
    /// The counter as a map from key to value.
    pub closed spec fn map(&self) -> Map<StatKey, i32> {
        Map::new(|k: StatKey| lookup(self.stats@, k) is Some, |k: StatKey| lookup(self.stats@, k)->0)
    }

    /// The counter's entries, in first-reported order.
    pub closed spec fn entries(&self) -> Seq<(StatKey, i32)> {
        self.stats@
    }

    /// How many award packets have arrived.
    pub closed spec fn update_count(&self) -> u64 {
        self.updates
    }

    pub closed spec fn wf(&self) -> bool {
        keys_distinct(self.stats@)
    }

    proof fn lemma_map_entries(&self)
        requires
            self.wf(),
        ensures
            forall|i: int| 0 <= i < self.entries().len() ==> (#[trigger] self.map().dom().contains(self.entries()[i].0)
                && self.map()[self.entries()[i].0] == self.entries()[i].1),
            forall|k: StatKey| #[trigger] self.map().dom().contains(k) <==> exists|i: int| 0 <= i < self.entries().len() && self.entries()[i].0 == k,
            self.map().dom().finite(),
            self.map().dom().len() == self.entries().len(),
    {
        let s = self.stats@;
        assert forall|k: StatKey| #[trigger] self.map().dom().contains(k) <==> exists|i: int|
            0 <= i < self.entries().len() && self.entries()[i].0 == k by {
            assert(self.entries() == s);
            assert(self.map().dom().contains(k) <==> (lookup(s, k) is Some));
        }
        assert forall|i: int| 0 <= i < s.len() implies #[trigger] self.map().dom().contains(s[i].0) && self.map()[s[i].0] == s[i].1 by {
            let j = choose|j: int| 0 <= j < s.len() && s[j].0 == s[i].0;
            if j != i {
                if j < i { assert(s[j].0 != s[i].0); } else { assert(s[i].0 != s[j].0); }
            }
        }
        lemma_dom_is_keys(s);
        assert(self.map().dom() == keys_of(s).to_set());
        lemma_distinct_keys_set_len(s);
    }

    /// An empty counter with no updates.
    pub fn new() -> (r: Self)
        ensures
            r.wf(),
            r.map() == Map::<StatKey, i32>::empty(),
            r.update_count() == 0,
    {
        let r = StatsCounter { stats: Vec::new(), updates: 0 };
        proof {
            assert(r.map() =~= Map::<StatKey, i32>::empty());
        }
        r
    }

    /// `getValue` — an absent statistic reads as 0.
    pub fn value(&self, key: StatKey) -> (r: i32)
        requires
            self.wf(),
        ensures
            r == if self.map().dom().contains(key) { self.map()[key] } else { 0 },
    {
        let n = self.stats.len();
        let mut i: usize = 0;
        while i < n
            invariant
                n == self.stats@.len(),
                i <= n,
                self.wf(),
                forall|j: int| 0 <= j < i ==> self.stats@[j].0 != key,
            decreases n - i,
        {
            if self.stats[i].0 == key {
                proof {
                    self.lemma_map_entries();
                    assert(self.entries()[i as int].0 == key);
                }
                return self.stats[i].1;
            }
            i = i + 1;
        }
        0
    }

    /// `setValue` — replaces, never accumulates.
    pub fn set(&mut self, key: StatKey, value: i32)
        requires
            old(self).wf(),
        ensures
            final(self).wf(),
            final(self).map() == old(self).map().insert(key, value),
            final(self).update_count() == old(self).update_count(),
    {
        let ghost before = self.stats@;
        let n = self.stats.len();
        let mut i: usize = 0;
        while i < n
            invariant
                n == self.stats@.len(),
                self.stats@ == before,
                before == old(self).stats@,
                keys_distinct(before),
                self.updates == old(self).updates,
                i <= n,
                forall|j: int| 0 <= j < i ==> self.stats@[j].0 != key,
            decreases n - i,
        {
            if self.stats[i].0 == key {
                self.stats.set(i, (key, value));
                proof {
                    let s = self.stats@;
                    assert(s == before.update(i as int, (key, value)));
                    assert(keys_distinct(s)) by {
                        assert forall|a: int, b: int| 0 <= a < b < s.len() implies s[a].0 != s[b].0 by {
                            assert(before[a].0 != before[b].0);
                        }
                    }
                    assert forall|k: StatKey| lookup(s, k) == (if k == key { Some(value) } else { lookup(before, k) }) by {
                        if k == key {
                            assert(s[i as int].0 == k);
                            let c = choose|c: int| 0 <= c < s.len() && s[c].0 == k;
                            if c != i {
                                if c < i { assert(s[c].0 != s[i as int].0); } else { assert(s[i as int].0 != s[c].0); }
                            }
                        } else {
                            if exists|c: int| 0 <= c < s.len() && s[c].0 == k {
                                let c = choose|c: int| 0 <= c < s.len() && s[c].0 == k;
                                assert(c != i);
                                assert(before[c].0 == k);
                                let c2 = choose|c2: int| 0 <= c2 < before.len() && before[c2].0 == k;
                                if c2 != c {
                                    if c2 < c { assert(before[c2].0 != before[c].0); } else { assert(before[c].0 != before[c2].0); }
                                }
                            } else {
                                assert forall|c: int| 0 <= c < before.len() implies before[c].0 != k by {
                                    if c != i {
                                        assert(s[c] == before[c]);
                                    }
                                }
                            }
                        }
                    }
                    assert(self.map() =~= old(self).map().insert(key, value));
                }
                return;
            }
            i = i + 1;
        }
        self.stats.push((key, value));
        proof {
            let s = self.stats@;
            assert(keys_distinct(s));
            assert forall|k: StatKey| lookup(s, k) == (if k == key { Some(value) } else { lookup(before, k) }) by {
                if k == key {
                    assert(s[n as int].0 == k);
                    let c = choose|c: int| 0 <= c < s.len() && s[c].0 == k;
                    if c < n {
                        assert(before[c].0 != key);
                    }
                } else {
                    if exists|c: int| 0 <= c < s.len() && s[c].0 == k {
                        let c = choose|c: int| 0 <= c < s.len() && s[c].0 == k;
                        assert(c < n);
                        assert(before[c].0 == k);
                        let c2 = choose|c2: int| 0 <= c2 < before.len() && before[c2].0 == k;
                        if c2 != c {
                            if c2 < c { assert(before[c2].0 != before[c].0); } else { assert(before[c].0 != before[c2].0); }
                        }
                    } else {
                        assert forall|c: int| 0 <= c < before.len() implies before[c].0 != k by {
                            assert(s[c] == before[c]);
                        }
                    }
                }
            }
            assert(self.map() =~= old(self).map().insert(key, value));
        }
    }

    /// One award-stats packet: every pair is set in order, and the update
    /// count goes up by one (saturating).
    pub fn apply(&mut self, pairs: &[(StatKey, i32)])
        requires
            old(self).wf(),
        ensures
            final(self).wf(),
            final(self).map() == apply_pairs(old(self).map(), pairs@),
            final(self).update_count() == if old(self).update_count() < u64::MAX { (old(self).update_count() + 1) as u64 } else { u64::MAX },
    {
        let n = pairs.len();
        let mut i: usize = 0;
        while i < n
            invariant
                n == pairs@.len(),
                i <= n,
                self.wf(),
                self.map() == apply_pairs(old(self).map(), pairs@.take(i as int)),
                self.updates == old(self).updates,
            decreases n - i,
        {
            let (key, value) = pairs[i];
            self.set(key, value);
            proof {
                assert(pairs@.take(i + 1).drop_last() =~= pairs@.take(i as int));
            }
            i = i + 1;
        }
        proof {
            assert(pairs@.take(n as int) =~= pairs@);
        }
        self.updates = self.updates.saturating_add(1);
    }

    /// How many award packets have arrived.
    pub fn updates_seen(&self) -> (r: u64)
        ensures
            r == self.update_count(),
    {
        self.updates
    }

    /// How many statistics are known.
    pub fn len(&self) -> (r: usize)
        requires
            self.wf(),
        ensures
            r == self.map().dom().len(),
    {
        proof {
            self.lemma_map_entries();
        }
        self.stats.len()
    }

    pub fn is_empty(&self) -> (r: bool)
        requires
            self.wf(),
        ensures
            r == (self.map().dom().len() == 0),
    {
        proof {
            self.lemma_map_entries();
        }
        self.stats.len() == 0
    }

    /// The non-zero statistics of one type, as `(value id, value)`, in
    /// first-reported order.
    pub fn of_type(&self, type_id: i32) -> (r: Vec<(i32, i32)>)
        requires
            self.wf(),
        ensures
            r@ == self.entries().filter(|e: (StatKey, i32)| e.0.type_id == type_id && e.1 != 0).map_values(
                |e: (StatKey, i32)| (e.0.value_id, e.1),
            ),
            forall|i: int| 0 <= i < self.entries().len() ==> (#[trigger] self.map().dom().contains(self.entries()[i].0)
                && self.map()[self.entries()[i].0] == self.entries()[i].1),
    {
        proof {
            self.lemma_map_entries();
        }
        let ghost pred = |e: (StatKey, i32)| e.0.type_id == type_id && e.1 != 0;
        let ghost f = |e: (StatKey, i32)| (e.0.value_id, e.1);
        let mut out: Vec<(i32, i32)> = Vec::new();
        let n = self.stats.len();
        let mut i: usize = 0;
        while i < n
            invariant
                n == self.stats@.len(),
                i <= n,
                pred == (|e: (StatKey, i32)| e.0.type_id == type_id && e.1 != 0),
                f == (|e: (StatKey, i32)| (e.0.value_id, e.1)),
                out@ == self.stats@.take(i as int).filter(pred).map_values(f),
            decreases n - i,
        {
            let (k, v) = self.stats[i];
            proof {
                reveal_with_fuel(Seq::filter, 1);
                assert(self.stats@.take(i + 1).drop_last() =~= self.stats@.take(i as int));
            }
            if k.type_id == type_id && v != 0 {
                out.push((k.value_id, v));
                proof {
                    assert(self.stats@.take(i + 1).filter(pred) == self.stats@.take(i as int).filter(pred).push(self.stats@[i as int]));
                    assert(out@ =~= self.stats@.take(i + 1).filter(pred).map_values(f));
                }
            } else {
                proof {
                    assert(self.stats@.take(i + 1).filter(pred) == self.stats@.take(i as int).filter(pred));
                }
            }
            i = i + 1;
        }
        proof {
            assert(self.stats@.take(n as int) =~= self.stats@);
        }
        out
    }
}

impl Default for StatsCounter {
    /// An empty counter with no updates.
    fn default() -> (r: Self)
        ensures
            r.wf(),
            r.map() == Map::<StatKey, i32>::empty(),
            r.update_count() == 0,
    {
        StatsCounter::new()
    }
}

/// The keys of a list of entries, in order.
pub open spec fn keys_of(s: Seq<(StatKey, i32)>) -> Seq<StatKey> {
    s.map_values(|e: (StatKey, i32)| e.0)
}

/// The keys of a list of entries, as a set.
proof fn lemma_dom_is_keys(s: Seq<(StatKey, i32)>)
    ensures
        forall|k: StatKey| (lookup(s, k) is Some) <==> keys_of(s).to_set().contains(k),
{
    assert forall|k: StatKey| (lookup(s, k) is Some) <==> keys_of(s).to_set().contains(k) by {
        if lookup(s, k) is Some {
            let i = choose|i: int| 0 <= i < s.len() && s[i].0 == k;
            assert(keys_of(s)[i] == k);
        }
        if keys_of(s).to_set().contains(k) {
            let i = choose|i: int| 0 <= i < s.len() && #[trigger] keys_of(s)[i] == k;
            assert(s[i].0 == k);
        }
    }
}

proof fn lemma_distinct_keys_set_len(s: Seq<(StatKey, i32)>)
    requires
        keys_distinct(s),
    ensures
        keys_of(s).to_set().len() == s.len(),
        keys_of(s).to_set().finite(),
{
    let ks = keys_of(s);
    assert(ks.no_duplicates()) by {
        assert forall|i: int, j: int| 0 <= i < ks.len() && 0 <= j < ks.len() && i != j implies ks[i] != ks[j] by {
            if i < j { assert(s[i].0 != s[j].0); } else { assert(s[j].0 != s[i].0); }
        }
    }
    ks.unique_seq_to_set();
    vstd::seq_lib::seq_to_set_is_finite(ks);
}

/// Each `(key, value)` pair set in turn.
pub open spec fn apply_pairs(m: Map<StatKey, i32>, pairs: Seq<(StatKey, i32)>) -> Map<StatKey, i32>
    decreases pairs.len(),
{
    if pairs.len() == 0 {
        m
    } else {
        apply_pairs(m, pairs.drop_last()).insert(pairs.last().0, pairs.last().1)
    }
}

/// A packet only touches the statistics it names: one it omits keeps what
/// it had, or stays absent.
pub proof fn lemma_apply_keeps_omitted(m: Map<StatKey, i32>, pairs: Seq<(StatKey, i32)>, k: StatKey)
    requires
        forall|i: int| 0 <= i < pairs.len() ==> (#[trigger] pairs[i]).0 != k,
    ensures
        apply_pairs(m, pairs).dom().contains(k) == m.dom().contains(k),
        m.dom().contains(k) ==> apply_pairs(m, pairs)[k] == m[k],
    decreases pairs.len(),
{
    if pairs.len() > 0 {
        assert(pairs.last() == pairs[pairs.len() - 1]);
        lemma_apply_keeps_omitted(m, pairs.drop_last(), k);
    }
}

/// A statistic a packet names ends with the value of the packet's last pair
/// for it, whatever the counter held before: two counters given the same
/// packet agree on it.
pub proof fn lemma_apply_named(m1: Map<StatKey, i32>, m2: Map<StatKey, i32>, pairs: Seq<(StatKey, i32)>, k: StatKey)
    requires
        exists|i: int| 0 <= i < pairs.len() && (#[trigger] pairs[i]).0 == k,
    ensures
        apply_pairs(m1, pairs).dom().contains(k),
        apply_pairs(m2, pairs).dom().contains(k),
        apply_pairs(m1, pairs)[k] == apply_pairs(m2, pairs)[k],
    decreases pairs.len(),
{
    if pairs.last().0 != k {
        let i = choose|i: int| 0 <= i < pairs.len() && (#[trigger] pairs[i]).0 == k;
        assert(i != pairs.len() - 1);
        assert(pairs.drop_last()[i] == pairs[i]);
        lemma_apply_named(m1, m2, pairs.drop_last(), k);
    }
}

/// A packet replaces, it never accumulates: applying the same packet twice
/// leaves the counter as applying it once does.
pub proof fn lemma_apply_twice(m: Map<StatKey, i32>, pairs: Seq<(StatKey, i32)>)
    ensures
        apply_pairs(apply_pairs(m, pairs), pairs) == apply_pairs(m, pairs),
{
    let a = apply_pairs(m, pairs);
    let b = apply_pairs(a, pairs);
    assert forall|k: StatKey| #[trigger] b.dom().contains(k) == a.dom().contains(k)
        && (a.dom().contains(k) ==> b[k] == a[k]) by {
        if exists|i: int| 0 <= i < pairs.len() && (#[trigger] pairs[i]).0 == k {
            lemma_apply_named(a, m, pairs, k);
            lemma_apply_named(a, a, pairs, k);
        } else {
            lemma_apply_keeps_omitted(a, pairs, k);
        }
    }
    assert(b =~= a);
}

/// Digits with a `,` before every group of three counted from the right:
/// the first `i` digits of `d` as they come out.
pub open spec fn group_prefix(d: Seq<char>, i: int) -> Seq<char>
    decreases i,
{
    if i <= 0 {
        Seq::empty()
    } else {
        group_prefix(d, i - 1) + (if i - 1 > 0 && (d.len() - (i - 1)) % 3 == 0 { seq![','] } else { Seq::empty() })
            + seq![d[i - 1]]
    }
}

/// `StatFormatter.DEFAULT` — `NumberFormat.getIntegerInstance(Locale.US)`:
/// the magnitude's decimal digits grouped by threes with commas, after a
/// `-` for a negative value.
pub open spec fn grouped_spec(value: int) -> Seq<char> {
    let mag = if value < 0 { -value } else { value };
    let d = decimal(mag as nat);
    (if value < 0 { seq!['-'] } else { Seq::empty() }) + group_prefix(d, d.len() as int)
}

pub fn grouped(value: i32) -> (r: String)
    ensures
        r@ == grouped_spec(value as int),
{
    let mag: u64 = if value < 0 { (-(value as i64)) as u64 } else { value as u64 };
    let mut digits: Vec<char> = Vec::new();
    push_decimal_u64(&mut digits, mag);
    proof {
        assert(digits@ =~= decimal(mag as nat));
    }
    let n = digits.len();
    let mut out: Vec<char> = Vec::new();
    if value < 0 {
        out.push('-');
    }
    let ghost sign = out@;
    let mut i: usize = 0;
    while i < n
        invariant
            n == digits@.len(),
            i <= n,
            out@ == sign + group_prefix(digits@, i as int),
        decreases n - i,
    {
        if i > 0 && (n - i) % 3 == 0 {
            out.push(',');
        }
        out.push(digits[i]);
        proof {
            assert(out@ =~= sign + group_prefix(digits@, i + 1));
        }
        i = i + 1;
    }
    string_from_chars(&out)
}

/// `ticks / 20` as `Double.toString` prints it: the whole seconds, a
/// point, then the hundredths with a trailing zero dropped — always at
/// least one fractional digit, so 20 ticks is `"1.0"`.
pub open spec fn twentieths_spec(ticks: int) -> Seq<char> {
    let h = (if ticks < 0 { -ticks } else { ticks }) * 5;
    let whole = h / 100;
    let frac = h % 100;
    let digits = if frac == 0 {
        seq!['0']
    } else if frac % 10 == 0 {
        seq![digit_char(frac / 10)]
    } else {
        seq![digit_char(frac / 10), digit_char(frac % 10)]
    };
    (if ticks < 0 { seq!['-'] } else { Seq::empty() }) + decimal(whole as nat) + seq!['.'] + digits
}

/// The seconds a tick count lasts, printed as Java prints a double; exact
/// because a twentieth is five hundredths.
pub fn java_double_of_twentieths(ticks: i32) -> (r: String)
    ensures
        r@ == twentieths_spec(ticks as int),
{
    let mag: u64 = if ticks < 0 { (-(ticks as i64)) as u64 } else { ticks as u64 };
    let h: u64 = mag * 5;
    let whole = h / 100;
    let frac = h % 100;
    let mut out: Vec<char> = Vec::new();
    if ticks < 0 {
        out.push('-');
    }
    push_decimal_u64(&mut out, whole);
    out.push('.');
    let tens = ((frac / 10) as u8 + 48u8) as char;
    let ones = ((frac % 10) as u8 + 48u8) as char;
    proof {
        assert(tens == digit_char((frac / 10) as int));
        assert(ones == digit_char((frac % 10) as int));
    }
    if frac == 0 {
        out.push('0');
    } else if frac % 10 == 0 {
        out.push(tens);
    } else {
        out.push(tens);
        out.push(ones);
    }
    proof {
        assert(out@ =~= twentieths_spec(ticks as int));
    }
    string_from_chars(&out)
}

/// `"stat." + name.replace(':', '.')` — the custom statistic's translation key.
pub open spec fn custom_stat_key_spec(name: Seq<char>) -> Seq<char> {
    "stat."@ + name.map_values(|c: char| if c == ':' { '.' } else { c })
}

pub fn custom_stat_key(custom_stat_name: &str) -> (r: String)
    ensures
        r@ == custom_stat_key_spec(custom_stat_name@),
{
    let name = chars_of(custom_stat_name);
    let mut out = chars_of("stat.");
    let ghost prefix = out@;
    let n = name.len();
    let mut i: usize = 0;
    while i < n
        invariant
            n == name@.len(),
            i <= n,
            out@ == prefix + name@.take(i as int).map_values(|c: char| if c == ':' { '.' } else { c }),
        decreases n - i,
    {
        let c = name[i];
        out.push(if c == ':' { '.' } else { c });
        proof {
            assert(name@.take(i + 1).map_values(|c: char| if c == ':' { '.' } else { c })
                =~= name@.take(i as int).map_values(|c: char| if c == ':' { '.' } else { c }).push(if c == ':' { '.' } else { c }));
        }
        i = i + 1;
    }
    proof {
        assert(name@.take(n as int) =~= name@);
    }
    string_from_chars(&out)
}

/// The part of a stat type's name after its first `:`, or the whole name.
pub open spec fn after_first_colon(name: Seq<char>) -> Seq<char> {
    if exists|i: int| 0 <= i < name.len() && name[i] == ':' {
        let c = choose|i: int| 0 <= i < name.len() && name[i] == ':' && forall|j: int| 0 <= j < i ==> name[j] != ':';
        name.skip(c + 1)
    } else {
        name
    }
}

/// `"stat_type.minecraft." + path` — the namespace of the type's own name is
/// dropped, and the literal `minecraft` put back.
pub fn stat_type_key(stat_type_name: &str) -> (r: String)
    ensures
        r@ == "stat_type.minecraft."@ + after_first_colon(stat_type_name@),
{
    let name = chars_of(stat_type_name);
    let n = name.len();
    let mut c: usize = 0;
    while c < n && name[c] != ':'
        invariant
            n == name@.len(),
            c <= n,
            forall|j: int| 0 <= j < c ==> name@[j] != ':',
        decreases n - c,
    {
        c = c + 1;
    }
    let start = if c < n { c + 1 } else { 0 };
    proof {
        if c < n {
            let k = choose|i: int| 0 <= i < name@.len() && name@[i] == ':' && forall|j: int| 0 <= j < i ==> name@[j] != ':';
            assert(0 <= c < name@.len() && name@[c as int] == ':' && forall|j: int| 0 <= j < c ==> name@[j] != ':');
            if k < c { assert(name@[k] != ':'); }
            if c < k { assert(name@[c as int] != ':'); }
        }
    }
    let mut out = chars_of("stat_type.minecraft.");
    let ghost prefix = out@;
    let mut i = start;
    while i < n
        invariant
            start <= i <= n,
            n == name@.len(),
            out@ == prefix + name@.subrange(start as int, i as int),
        decreases n - i,
    {
        out.push(name[i]);
        proof {
            assert(name@.subrange(start as int, i + 1) =~= name@.subrange(start as int, i as int).push(name@[i as int]));
        }
        i = i + 1;
    }
    proof {
        assert(name@.subrange(start as int, n as int) =~= after_first_colon(stat_type_name@));
    }
    string_from_chars(&out)
}

} // verus!
