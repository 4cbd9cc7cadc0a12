//! What the player holds, as counts per item type, and whether a recipe's
//! ingredients can all be met from it at once.
//!
//! That is a matching between ingredient slots and item types, not a
//! subtraction: two slots whose accepted sets overlap can need the
//! assignment chosen. The picker grows a matching by augmenting paths and
//! puts back everything it took before it answers.

use vstd::prelude::*;
use crate::arith::lemma_tdiv_bounds;

verus! {

/// One ingredient slot: the item ids that satisfy it.
#[derive(Debug, Clone, PartialEq, Eq)]
pub struct Ingredient {
    pub accepts: Vec<i32>,
}

impl Default for Ingredient {
    /// A slot nothing satisfies.
    fn default() -> (r: Self)
        ensures
            r.accepts@.len() == 0,
    {
        Ingredient { accepts: Vec::new() }
    }
}

/// The accepted sets of a list of slots.
pub open spec fn ingredient_sets(ings: Seq<Ingredient>) -> Seq<Seq<i32>> {
    ings.map_values(|i: Ingredient| i.accepts@)
}

impl Ingredient {
    /// The slot satisfied by exactly `ids`.
    pub fn of(ids: &[i32]) -> (r: Self)
        ensures
            r.accepts@ == ids@,
    {
        let mut v: Vec<i32> = Vec::new();
        let n = ids.len();
        let mut i: usize = 0;
        while i < n
            invariant
                n == ids@.len(),
                i <= n,
                v@ == ids@.take(i as int),
            decreases n - i,
        {
            v.push(ids[i]);
            proof {
                assert(v@ =~= ids@.take(i + 1));
            }
            i = i + 1;
        }
        proof {
            assert(ids@.take(n as int) =~= ids@);
        }
        Ingredient { accepts: v }
    }

    /// Whether `item` satisfies this slot.
    pub fn accepts_item(&self, item: i32) -> (r: bool)
        ensures
            r == self.accepts@.contains(item),
    {
        let n = self.accepts.len();
        let mut i: usize = 0;
        while i < n
            invariant
                n == self.accepts@.len(),
                i <= n,
                forall|j: int| 0 <= j < i ==> self.accepts@[j] != item,
            decreases n - i,
        {
            if self.accepts[i] == item {
                return true;
            }
            i = i + 1;
        }
        false
    }
}

/// No item occurs twice.
pub open spec fn items_distinct(a: Seq<(i32, i32)>) -> bool {
    forall|i: int, j: int| 0 <= i < j < a.len() ==> a[i].0 != a[j].0
}

/// The count held of `item`: its entry's, or 0.
pub open spec fn count_of(a: Seq<(i32, i32)>, item: i32) -> int
    decreases a.len(),
{
    if a.len() == 0 {
        0
    } else if a.last().0 == item {
        a.last().1 as int
    } else {
        count_of(a.drop_last(), item)
    }
}

/// How many slots an assignment gives entry `x`.
pub open spec fn uses(asg: Seq<int>, x: int) -> nat
    decreases asg.len(),
{
    if asg.len() == 0 {
        0
    } else {
        uses(asg.drop_last(), x) + if asg.last() == x { 1nat } else { 0nat }
    }
}

/// Every slot can be given an entry it accepts, no entry asked for more
/// than its count allows at `cap` per slot; a batch of zero or less always
/// can.
pub open spec fn feasible(a: Seq<(i32, i32)>, ings: Seq<Seq<i32>>, cap: int) -> bool {
    cap <= 0 || exists|asg: Seq<int>| #[trigger] assignment_fits(a, ings, cap, asg)
}

/// `asg` gives every slot an accepting entry within the counts.
pub open spec fn assignment_fits(a: Seq<(i32, i32)>, ings: Seq<Seq<i32>>, cap: int, asg: Seq<int>) -> bool {
    &&& asg.len() == ings.len()
    &&& forall|g: int| 0 <= g < asg.len() ==> 0 <= #[trigger] asg[g] < a.len() && ings[g].contains(a[asg[g]].0)
    &&& forall|x: int| 0 <= x < a.len() && uses(asg, x) > 0 ==> cap * uses(asg, x) <= #[trigger] a[x].1
}

/// A batch that can be picked can be picked smaller too: the same
/// assignment asks less of every item.
pub proof fn lemma_feasible_smaller(a: Seq<(i32, i32)>, ings: Seq<Seq<i32>>, cap: int, smaller: int)
    requires
        feasible(a, ings, cap),
        smaller <= cap,
    ensures
        feasible(a, ings, smaller),
{
    if smaller > 0 {
        let asg = choose|asg: Seq<int>| #[trigger] assignment_fits(a, ings, cap, asg);
        assert forall|x: int| 0 <= x < a.len() && uses(asg, x) > 0 implies smaller * uses(asg, x) <= #[trigger] a[x].1 by {
            let u = uses(asg, x) as int;
            assert(smaller * u <= cap * u) by (nonlinear_arith)
                requires
                    smaller <= cap,
                    u > 0,
            ;
        }
        assert(assignment_fits(a, ings, smaller, asg));
    }
}

/// Whether a batch can be picked depends on the counts held alone, not on
/// the order in which the items were first seen.
pub proof fn lemma_feasible_ignores_order(a: Seq<(i32, i32)>, b: Seq<(i32, i32)>, ings: Seq<Seq<i32>>, cap: int)
    requires
        items_distinct(a),
        items_distinct(b),
        forall|it: i32| #[trigger] count_of(a, it) == count_of(b, it),
    ensures
        feasible(a, ings, cap) == feasible(b, ings, cap),
{
    if cap > 0 {
        if feasible(a, ings, cap) {
            lemma_feasible_transfer(a, b, ings, cap);
        }
        if feasible(b, ings, cap) {
            lemma_feasible_transfer(b, a, ings, cap);
        }
    }
}

/// Two lists of choices that pick `e` and `f` at the same slots use them
/// equally often.
proof fn lemma_uses_same(s: Seq<int>, t: Seq<int>, e: int, f: int)
    requires
        s.len() == t.len(),
        forall|g: int| 0 <= g < s.len() ==> (#[trigger] s[g] == e) == (t[g] == f),
    ensures
        uses(s, e) == uses(t, f),
    decreases s.len(),
{
    if s.len() > 0 {
        assert(s.last() == s[s.len() - 1] && t.last() == t[t.len() - 1]);
        assert forall|g: int| 0 <= g < s.drop_last().len() implies (#[trigger] s.drop_last()[g] == e) == (t.drop_last()[g] == f) by {
            assert(s.drop_last()[g] == s[g] && t.drop_last()[g] == t[g]);
        }
        lemma_uses_same(s.drop_last(), t.drop_last(), e, f);
    }
}

/// An assignment that fits `a` carries over, entry by entry, to any list
/// holding the same counts.
proof fn lemma_feasible_transfer(a: Seq<(i32, i32)>, b: Seq<(i32, i32)>, ings: Seq<Seq<i32>>, cap: int)
    requires
        items_distinct(a),
        items_distinct(b),
        forall|it: i32| #[trigger] count_of(a, it) == count_of(b, it),
        feasible(a, ings, cap),
        cap > 0,
    ensures
        feasible(b, ings, cap),
{
    let asg = choose|asg: Seq<int>| #[trigger] assignment_fits(a, ings, cap, asg);
    let n = asg.len();
    // Every entry a slot takes is held in `b` with the same count.
    assert forall|g: int| 0 <= g < n implies #[trigger] holds(b, a[asg[g]].0) && a[asg[g]].1 > 0 by {
        let e = asg[g];
        lemma_uses_at(asg, g);
        let u = uses(asg, e) as int;
        assert(cap * u <= a[e].1);
        assert(cap <= cap * u) by (nonlinear_arith)
            requires
                u >= 1,
                cap > 0,
        ;
        lemma_count_of_at(a, e);
        assert(count_of(b, a[e].0) == a[e].1);
        if !holds(b, a[e].0) {
            lemma_count_of_absent(b, a[e].0);
        }
    }
    let asg2 = Seq::new(n, |g: int| entry_index(b, a[asg[g]].0));
    assert forall|g: int| 0 <= g < asg2.len() implies 0 <= #[trigger] asg2[g] < b.len() && ings[g].contains(b[asg2[g]].0) by {
        assert(holds(b, a[asg[g]].0));
    }
    assert forall|f: int| 0 <= f < b.len() && uses(asg2, f) > 0 implies cap * uses(asg2, f) <= #[trigger] b[f].1 by {
        lemma_uses_pos(asg2, f);
        let g = choose|g: int| 0 <= g < asg2.len() && asg2[g] == f;
        let e = asg[g];
        assert(holds(b, a[e].0));
        assert(b[f].0 == a[e].0);
        assert forall|h: int| 0 <= h < n implies (#[trigger] asg[h] == e) == (asg2[h] == f) by {
            assert(holds(b, a[asg[h]].0));
            if asg2[h] == f {
                assert(a[asg[h]].0 == b[f].0);
                if asg[h] != e {
                    if asg[h] < e { assert(a[asg[h]].0 != a[e].0); } else { assert(a[e].0 != a[asg[h]].0); }
                }
            }
        }
        lemma_uses_same(asg, asg2, e, f);
        lemma_count_of_at(a, e);
        lemma_count_of_at(b, f);
        assert(count_of(a, a[e].0) == count_of(b, a[e].0));
    }
    assert(assignment_fits(b, ings, cap, asg2));
}

/// What the player holds: `(item, count)` in first-seen order.
#[derive(Debug, Clone)]
pub struct StackedContents {
    amounts: Vec<(i32, i32)>,
}

impl StackedContents {
    /// The held entries.
    pub closed spec fn entries(&self) -> Seq<(i32, i32)> {
        self.amounts@
    }

    pub closed spec fn wf(&self) -> bool {
        items_distinct(self.amounts@)
    }

    /// Nothing held.
    pub fn new() -> (r: Self)
        ensures
            r.wf(),
            r.entries().len() == 0,
    {
        StackedContents { amounts: Vec::new() }
    }

    /// The index of `item`'s entry, if held.
    fn find(&self, item: i32) -> (r: Option<usize>)
        ensures
            match r {
                Some(i) => i < self.amounts@.len() && self.amounts@[i as int].0 == item,
                None => forall|j: int| 0 <= j < self.amounts@.len() ==> self.amounts@[j].0 != item,
            },
    {
        let n = self.amounts.len();
        let mut i: usize = 0;
        while i < n
            invariant
                n == self.amounts@.len(),
                i <= n,
                forall|j: int| 0 <= j < i ==> self.amounts@[j].0 != item,
            decreases n - i,
        {
            if self.amounts[i].0 == item {
                return Some(i);
            }
            i = i + 1;
        }
        None
    }

    /// Add `delta` to `item`'s count, making an entry for it if new.
    fn add_to(&mut self, item: i32, delta: i32)
        requires
            old(self).wf(),
            i32::MIN <= count_of(old(self).entries(), item) + delta <= i32::MAX,
        ensures
            final(self).wf(),
            forall|it: i32| #[trigger] count_of(final(self).entries(), it) == count_of(old(self).entries(), it) + if it == item { delta as int } else { 0 },
            holds(old(self).entries(), item) ==> keys(final(self).entries()) == keys(old(self).entries()),
            !holds(old(self).entries(), item) ==> final(self).entries() == old(self).entries().push((item, delta)),
    {
        match self.find(item) {
            Some(i) => {
                proof {
                    lemma_count_of_at(self.amounts@, i as int);
                }
                let c = self.amounts[i].1;
                let ghost before = self.amounts@;
                self.amounts.set(i, (item, c + delta));
                proof {
                    assert forall|a: int, b: int| 0 <= a < b < self.amounts@.len() implies self.amounts@[a].0 != self.amounts@[b].0 by {
                        assert(before[a].0 != before[b].0);
                    }
                    assert(keys(self.amounts@) =~= keys(before));
                    assert forall|it: i32| #[trigger] count_of(self.amounts@, it) == count_of(before, it) + if it == item { delta as int } else { 0 } by {
                        lemma_count_of_update(before, i as int, (c + delta) as i32, it);
                    }
                }
            },
            None => {
                proof {
                    lemma_count_of_absent(self.amounts@, item);
                    assert(!holds(self.amounts@, item));
                }
                let ghost before = self.amounts@;
                self.amounts.push((item, delta));
                proof {
                    assert(self.amounts@.drop_last() =~= before);
                }
            },
        }
    }

    /// `account(item, count)`: the count is added to what is held of the
    /// item.
    pub fn account(&mut self, item: i32, count: i32)
        requires
            old(self).wf(),
            i32::MIN <= count_of(old(self).entries(), item) + count <= i32::MAX,
        ensures
            final(self).wf(),
            forall|it: i32| #[trigger] count_of(final(self).entries(), it) == count_of(old(self).entries(), it) + if it == item { count as int } else { 0 },
            holds(old(self).entries(), item) ==> keys(final(self).entries()) == keys(old(self).entries()),
            !holds(old(self).entries(), item) ==> final(self).entries() == old(self).entries().push((item, count)),
    {
        self.add_to(item, count);
    }

    /// A stack of `count` of `item` that holds at most `max_stack_size`:
    /// counts only up to that maximum; an empty stack counts nothing.
    pub fn account_stack(&mut self, item: i32, count: i32, max_stack_size: i32)
        requires
            old(self).wf(),
            count > 0 ==> count_of(old(self).entries(), item) + (if count < max_stack_size { count } else { max_stack_size }) <= i32::MAX,
            count > 0 ==> count_of(old(self).entries(), item) + (if count < max_stack_size { count } else { max_stack_size }) >= i32::MIN,
        ensures
            final(self).wf(),
            count <= 0 ==> final(self).entries() == old(self).entries(),
            count > 0 ==> forall|it: i32| #[trigger] count_of(final(self).entries(), it) == count_of(old(self).entries(), it)
                + if it == item { (if count < max_stack_size { count } else { max_stack_size }) as int } else { 0 },
            count > 0 && !holds(old(self).entries(), item) ==> final(self).entries() == old(self).entries().push(
                (item, if count < max_stack_size { count } else { max_stack_size }),
            ),
    {
        if count <= 0 {
            return;
        }
        let n = if count < max_stack_size { count } else { max_stack_size };
        self.account(item, n);
    }

    /// Hold nothing.
    pub fn clear(&mut self)
        ensures
            final(self).wf(),
            final(self).entries().len() == 0,
    {
        self.amounts.clear();
    }

    /// Whether nothing is held, not even a zero count.
    pub fn is_empty(&self) -> (r: bool)
        ensures
            r == (self.entries().len() == 0),
    {
        self.amounts.len() == 0
    }

    /// How many of `item` are held (0 when none).
    pub fn get(&self, item: i32) -> (r: i32)
        requires
            self.wf(),
        ensures
            r == count_of(self.entries(), item),
    {
        match self.find(item) {
            Some(i) => {
                proof {
                    lemma_count_of_at(self.amounts@, i as int);
                }
                self.amounts[i].1
            },
            None => {
                proof {
                    lemma_count_of_absent(self.amounts@, item);
                }
                0
            },
        }
    }

    /// At least `count` of `item` are held.
    pub fn has_at_least(&self, item: i32, count: i32) -> (r: bool)
        requires
            self.wf(),
        ensures
            r == (count_of(self.entries(), item) >= count),
    {
        self.get(item) >= count
    }
}

/// The items, in order.
pub open spec fn keys(a: Seq<(i32, i32)>) -> Seq<i32> {
    a.map_values(|e: (i32, i32)| e.0)
}

/// Some entry is for `item`.
pub open spec fn holds(a: Seq<(i32, i32)>, item: i32) -> bool {
    exists|j: int| 0 <= j < a.len() && a[j].0 == item
}

/// Changing one entry's count changes only that item's count.
proof fn lemma_count_of_update(a: Seq<(i32, i32)>, i: int, c: i32, it: i32)
    requires
        items_distinct(a),
        0 <= i < a.len(),
    ensures
        count_of(a.update(i, (a[i].0, c)), it) == count_of(a, it) + if it == a[i].0 { c - a[i].1 } else { 0 },
    decreases a.len(),
{
    let b = a.update(i, (a[i].0, c));
    if i == a.len() - 1 {
        assert(b.drop_last() =~= a.drop_last());
        if it != a[i].0 {
        } else {
        }
    } else {
        assert(b.drop_last() =~= a.drop_last().update(i, (a[i].0, c)));
        assert(items_distinct(a.drop_last()));
        lemma_count_of_update(a.drop_last(), i, c, it);
        if it == a.last().0 {
            assert(a[i].0 != a.last().0);
        }
    }
}

/// Two lists with the same items in the same order and the same counts are
/// the same list.
proof fn lemma_same_entries(a: Seq<(i32, i32)>, b: Seq<(i32, i32)>)
    requires
        items_distinct(a),
        keys(a) == keys(b),
        forall|it: i32| #[trigger] count_of(a, it) == count_of(b, it),
    ensures
        a == b,
{
    assert(a.len() == keys(a).len() && b.len() == keys(b).len());
    assert(items_distinct(b)) by {
        assert forall|x: int, y: int| 0 <= x < y < b.len() implies b[x].0 != b[y].0 by {
            assert(keys(a)[x] == a[x].0 && keys(b)[x] == b[x].0);
            assert(keys(a)[y] == a[y].0 && keys(b)[y] == b[y].0);
        }
    }
    assert forall|j: int| 0 <= j < a.len() implies a[j] == b[j] by {
        assert(keys(a)[j] == a[j].0 && keys(b)[j] == b[j].0);
        lemma_count_of_at(a, j);
        lemma_count_of_at(b, j);
        assert(count_of(a, a[j].0) == count_of(b, a[j].0));
    }
    assert(a =~= b);
}

/// The count of an entry's item is its count.
proof fn lemma_count_of_at(a: Seq<(i32, i32)>, i: int)
    requires
        items_distinct(a),
        0 <= i < a.len(),
    ensures
        count_of(a, a[i].0) == a[i].1,
    decreases a.len(),
{
    if i < a.len() - 1 {
        assert(a[i].0 != a.last().0);
        assert(items_distinct(a.drop_last()));
        lemma_count_of_at(a.drop_last(), i);
    }
}

/// An item with no entry counts 0.
proof fn lemma_count_of_absent(a: Seq<(i32, i32)>, item: i32)
    requires
        forall|j: int| 0 <= j < a.len() ==> a[j].0 != item,
    ensures
        count_of(a, item) == 0,
    decreases a.len(),
{
    if a.len() > 0 {
        lemma_count_of_absent(a.drop_last(), item);
    }
}

/// The largest count held of any item `ing` accepts, or 0.
pub open spec fn best_count(a: Seq<(i32, i32)>, ing: Seq<i32>) -> int
    decreases a.len(),
{
    if a.len() == 0 {
        0
    } else {
        let b = best_count(a.drop_last(), ing);
        if ing.contains(a.last().0) && a.last().1 > b { a.last().1 as int } else { b }
    }
}

/// The largest batch any single slot could support: the least, over the
/// slots, of the largest accepted count (`i32::MAX` with no slots).
pub open spec fn upper_bound(a: Seq<(i32, i32)>, ings: Seq<Seq<i32>>) -> int
    decreases ings.len(),
{
    if ings.len() == 0 {
        i32::MAX as int
    } else {
        let u = upper_bound(a, ings.drop_last());
        let b = best_count(a, ings.last());
        if b < u { b } else { u }
    }
}

proof fn lemma_best_count_range(a: Seq<(i32, i32)>, ing: Seq<i32>)
    ensures
        0 <= best_count(a, ing) <= i32::MAX,
    decreases a.len(),
{
    if a.len() > 0 {
        lemma_best_count_range(a.drop_last(), ing);
    }
}

proof fn lemma_upper_bound_range(a: Seq<(i32, i32)>, ings: Seq<Seq<i32>>)
    ensures
        0 <= upper_bound(a, ings) <= i32::MAX,
    decreases ings.len(),
{
    if ings.len() > 0 {
        lemma_upper_bound_range(a, ings.drop_last());
        lemma_best_count_range(a, ings.last());
    }
}

/// Once the bound is 0 no further slot lowers it.
proof fn lemma_upper_bound_zero(a: Seq<(i32, i32)>, ings: Seq<Seq<i32>>, k: int)
    requires
        0 <= k <= ings.len(),
        upper_bound(a, ings.take(k)) == 0,
    ensures
        upper_bound(a, ings) == 0,
    decreases ings.len() - k,
{
    if k < ings.len() {
        assert(ings.take(k + 1).drop_last() =~= ings.take(k));
        lemma_best_count_range(a, ings[k]);
        lemma_upper_bound_zero(a, ings, k + 1);
    } else {
        assert(ings.take(k) =~= ings);
    }
}

impl StackedContents {
    /// The largest batch any single slot could possibly support, which
    /// bounds the batch search.
    fn result_upper_bound(&self, ingredients: &[Ingredient]) -> (r: i32)
        ensures
            r == upper_bound(self.entries(), ingredient_sets(ingredients@)),
    {
        let ghost sets = ingredient_sets(ingredients@);
        let ghost a = self.amounts@;
        let mut min: i32 = i32::MAX;
        let n = ingredients.len();
        let m = self.amounts.len();
        let mut g: usize = 0;
        while g < n
            invariant
                n == ingredients@.len(),
                m == a.len(),
                a == self.amounts@,
                sets == ingredient_sets(ingredients@),
                g <= n,
                min > 0,
                min == upper_bound(a, sets.take(g as int)),
            decreases n - g,
        {
            proof {
                assert(sets.take(g + 1).drop_last() =~= sets.take(g as int));
                assert(sets.take(g + 1).last() == ingredients@[g as int].accepts@);
                lemma_upper_bound_range(a, sets.take(g as int));
                assert(min > 0);
            }
            let ghost ing = ingredients@[g as int].accepts@;
            let mut max: i32 = 0;
            let mut j: usize = 0;
            let mut skipped = false;
            proof {
                assert(a.take(m as int) =~= a);
                assert(a.take(0) =~= Seq::<(i32, i32)>::empty());
            }
            while j < m
                invariant_except_break
                    !skipped,
                    max == best_count(a.take(j as int), ing),
                    max < min,
                    max >= 0,
                invariant
                    m == a.len(),
                    a == self.amounts@,
                    j <= m,
                    g < n,
                    n == ingredients@.len(),
                    ing == ingredients@[g as int].accepts@,
                    a.take(m as int) == a,
                ensures
                    skipped ==> best_count(a, ing) >= min,
                    !skipped ==> max == best_count(a, ing) && max < min && max >= 0,
                decreases m - j,
            {
                let (item, count) = self.amounts[j];
                proof {
                    assert(a.take(j + 1).drop_last() =~= a.take(j as int));
                    assert(a.take(j + 1).last() == (item, count));
                }
                if count > max {
                    if ingredients[g].accepts_item(item) {
                        max = count;
                    }
                    if max >= min {
                        proof {
                            lemma_best_mono(a, ing, j + 1);
                        }
                        skipped = true;
                        break;
                    }
                }
                j = j + 1;
            }
            if skipped {
                g = g + 1;
                continue;
            }
            min = max;
            if min == 0 {
                proof {
                    lemma_upper_bound_zero(a, sets, g + 1);
                }
                return 0;
            }
            g = g + 1;
        }
        proof {
            assert(sets.take(n as int) =~= sets);
        }
        min
    }
}

/// A longer list's best count is no smaller.
proof fn lemma_best_mono(a: Seq<(i32, i32)>, ing: Seq<i32>, j: int)
    requires
        0 <= j <= a.len(),
    ensures
        best_count(a.take(j), ing) <= best_count(a, ing),
    decreases a.len() - j,
{
    if j < a.len() {
        lemma_best_mono(a, ing, j + 1);
        assert(a.take(j + 1).drop_last() =~= a.take(j));
    } else {
        assert(a.take(j) =~= a);
    }
}

/// How many slots `o` gives to item index `x`.
pub open spec fn owned(o: Seq<Option<usize>>, x: int) -> nat
    decreases o.len(),
{
    if o.len() == 0 {
        0
    } else {
        owned(o.drop_last(), x) + if o.last() == Some(x as usize) { 1nat } else { 0nat }
    }
}

/// How many slots `o` fills.
pub open spec fn matched(o: Seq<Option<usize>>) -> nat
    decreases o.len(),
{
    if o.len() == 0 {
        0
    } else {
        matched(o.drop_last()) + if o.last() is Some { 1nat } else { 0nat }
    }
}

proof fn lemma_owned_update(o: Seq<Option<usize>>, g: int, v: Option<usize>, x: int)
    requires
        0 <= g < o.len(),
    ensures
        owned(o.update(g, v), x) + (if o[g] == Some(x as usize) { 1int } else { 0 })
            == owned(o, x) + (if v == Some(x as usize) { 1int } else { 0 }),
        matched(o.update(g, v)) + (if o[g] is Some { 1int } else { 0 }) == matched(o) + (if v is Some { 1int } else { 0 }),
    decreases o.len(),
{
    let u = o.update(g, v);
    if g == o.len() - 1 {
        assert(u.drop_last() =~= o.drop_last());
    } else {
        assert(u.drop_last() =~= o.drop_last().update(g, v));
        lemma_owned_update(o.drop_last(), g, v, x);
    }
}

proof fn lemma_matched_full(o: Seq<Option<usize>>)
    requires
        matched(o) == o.len(),
    ensures
        forall|g: int| 0 <= g < o.len() ==> #[trigger] o[g] is Some,
    decreases o.len(),
{
    if o.len() > 0 {
        lemma_matched_bound(o.drop_last());
        lemma_matched_full(o.drop_last());
        assert forall|g: int| 0 <= g < o.len() implies #[trigger] o[g] is Some by {
            if g < o.len() - 1 {
                assert(o.drop_last()[g] == o[g]);
            }
        }
    }
}

proof fn lemma_matched_bound(o: Seq<Option<usize>>)
    ensures
        matched(o) <= o.len(),
    decreases o.len(),
{
    if o.len() > 0 {
        lemma_matched_bound(o.drop_last());
    }
}

/// Every item held with a positive count that some slot accepts is listed.
spec fn covers(items: Seq<i32>, a: Seq<(i32, i32)>, ings: Seq<Seq<i32>>) -> bool {
    forall|e: int, g: int| 0 <= e < a.len() && 0 <= g < ings.len() && a[e].1 > 0 && #[trigger] ings[g].contains(#[trigger] a[e].0)
        ==> exists|x: int| 0 <= x < items.len() && items[x] == a[e].0
}

/// The augmenting-path matcher's state: the item types that can take part,
/// which slot each accepts, which item each slot is matched to, and the
/// marks of the current search.
struct RecipePicker {
    items: Vec<i32>,
    connection: Vec<Vec<bool>>,
    owner: Vec<Option<usize>>,
    visited_item: Vec<bool>,
    visited_ingredient: Vec<bool>,
}

impl RecipePicker {
    /// The shape and the fixed part of the state: the matrix says which
    /// slot accepts which item, matches are along accepting pairs, and the
    /// items are distinct held ones.
    spec fn shape(&self, ings: Seq<Seq<i32>>, a0: Seq<(i32, i32)>) -> bool {
        &&& self.owner@.len() == ings.len()
        &&& self.items@.len() <= usize::MAX
        &&& self.connection@.len() == self.items@.len()
        &&& self.visited_item@.len() == self.items@.len()
        &&& self.visited_ingredient@.len() == ings.len()
        &&& forall|x: int| 0 <= x < self.items@.len() ==> (#[trigger] self.connection@[x])@.len() == ings.len()
        &&& forall|x: int, g: int| 0 <= x < self.items@.len() && 0 <= g < ings.len() ==>
            #[trigger] self.connection@[x]@[g] == ings[g].contains(self.items@[x])
        &&& forall|x: int, y: int| 0 <= x < y < self.items@.len() ==> self.items@[x] != self.items@[y]
        &&& forall|x: int| 0 <= x < self.items@.len() ==> holds(a0, #[trigger] self.items@[x])
        &&& covers(self.items@, a0, ings)
        &&& forall|g: int| 0 <= g < ings.len() ==> match #[trigger] self.owner@[g] {
            Some(x) => x < self.items@.len() && self.connection@[x as int]@[g],
            None => true,
        }
    }

    /// The contents are the original less `cap` per matched slot of each
    /// item, never below zero.
    spec fn takes(&self, c: Seq<(i32, i32)>, a0: Seq<(i32, i32)>, cap: int) -> bool {
        &&& items_distinct(c)
        &&& keys(c) == keys(a0)
        &&& forall|x: int| 0 <= x < self.items@.len() ==> count_of(c, #[trigger] self.items@[x]) == count_of(a0, self.items@[x]) - cap * owned(self.owner@, x)
        &&& forall|x: int| 0 <= x < self.items@.len() ==> count_of(c, #[trigger] self.items@[x]) >= 0
        &&& forall|it: i32| (forall|x: int| 0 <= x < self.items@.len() ==> self.items@[x] != it) ==> #[trigger] count_of(c, it) == count_of(a0, it)
    }
}

proof fn lemma_owned_none(o: Seq<Option<usize>>, x: int)
    requires
        forall|g: int| 0 <= g < o.len() ==> o[g] is None,
    ensures
        owned(o, x) == 0,
        matched(o) == 0,
    decreases o.len(),
{
    if o.len() > 0 {
        lemma_owned_none(o.drop_last(), x);
    }
}

/// Whether some slot accepts `item`.
fn any_accepts(ingredients: &[Ingredient], item: i32) -> (r: bool)
    ensures
        r == exists|g: int| 0 <= g < ingredients@.len() && ingredients@[g].accepts@.contains(item),
{
    let n = ingredients.len();
    let mut g: usize = 0;
    while g < n
        invariant
            n == ingredients@.len(),
            g <= n,
            forall|k: int| 0 <= k < g ==> !ingredients@[k].accepts@.contains(item),
        decreases n - g,
    {
        if ingredients[g].accepts_item(item) {
            return true;
        }
        g = g + 1;
    }
    false
}

impl RecipePicker {
    /// The held items with a positive count that some slot accepts, the
    /// matrix of which slot accepts which, and nothing matched.
    fn new(contents: &StackedContents, ingredients: &[Ingredient]) -> (r: Self)
        requires
            contents.wf(),
        ensures
            r.shape(ingredient_sets(ingredients@), contents.entries()),
            r.takes(contents.entries(), contents.entries(), 0),
            forall|g: int| 0 <= g < ingredients@.len() ==> r.owner@[g] is None,
    {
        let ghost a = contents.entries();
        let ghost sets = ingredient_sets(ingredients@);
        let m = contents.amounts.len();
        let mut items: Vec<i32> = Vec::new();
        let ghost mut idx: Seq<int> = Seq::empty();
        let mut i: usize = 0;
        while i < m
            invariant
                m == a.len(),
                a == contents.amounts@,
                items_distinct(a),
                i <= m,
                idx.len() == items@.len(),
                forall|x: int| 0 <= x < idx.len() ==> 0 <= #[trigger] idx[x] < i && a[idx[x]].0 == items@[x] && a[idx[x]].1 > 0,
                forall|x: int, y: int| 0 <= x < y < idx.len() ==> idx[x] < idx[y],
                sets == ingredient_sets(ingredients@),
                forall|e: int, g: int| 0 <= e < i && 0 <= g < sets.len() && a[e].1 > 0 && #[trigger] sets[g].contains(#[trigger] a[e].0)
                    ==> exists|x: int| 0 <= x < items@.len() && items@[x] == a[e].0,
            decreases m - i,
        {
            let (item, count) = contents.amounts[i];
            let ghost before = items@;
            if count > 0 && any_accepts(ingredients, item) {
                items.push(item);
                proof {
                    idx = idx.push(i as int);
                }
            }
            proof {
                assert forall|e: int, g: int| 0 <= e < i + 1 && 0 <= g < sets.len() && a[e].1 > 0 && #[trigger] sets[g].contains(#[trigger] a[e].0)
                    implies exists|x: int| 0 <= x < items@.len() && items@[x] == a[e].0 by {
                    if e < i {
                        let x = choose|x: int| 0 <= x < before.len() && before[x] == a[e].0;
                        assert(items@[x] == before[x]);
                    } else {
                        assert(sets[g] == ingredients@[g].accepts@);
                        assert(items@[items@.len() - 1] == item);
                    }
                }
            }
            i = i + 1;
        }
        let n = ingredients.len();
        let ni = items.len();
        let mut connection: Vec<Vec<bool>> = Vec::new();
        let mut x: usize = 0;
        while x < ni
            invariant
                ni == items@.len(),
                n == ingredients@.len(),
                sets == ingredient_sets(ingredients@),
                x <= ni,
                connection@.len() == x,
                forall|y: int| 0 <= y < x ==> (#[trigger] connection@[y])@.len() == n,
                forall|y: int, g: int| 0 <= y < x && 0 <= g < n ==> #[trigger] connection@[y]@[g] == sets[g].contains(items@[y]),
            decreases ni - x,
        {
            let mut row: Vec<bool> = Vec::new();
            let mut g: usize = 0;
            while g < n
                invariant
                    n == ingredients@.len(),
                    sets == ingredient_sets(ingredients@),
                    x < ni,
                    ni == items@.len(),
                    g <= n,
                    row@.len() == g,
                    forall|k: int| 0 <= k < g ==> #[trigger] row@[k] == sets[k].contains(items@[x as int]),
                decreases n - g,
            {
                let b = ingredients[g].accepts_item(items[x]);
                row.push(b);
                g = g + 1;
            }
            connection.push(row);
            x = x + 1;
        }
        let mut owner: Vec<Option<usize>> = Vec::new();
        let mut visited_ingredient: Vec<bool> = Vec::new();
        let mut g: usize = 0;
        while g < n
            invariant
                g <= n,
                owner@.len() == g,
                visited_ingredient@.len() == g,
                forall|k: int| 0 <= k < g ==> #[trigger] owner@[k] is None,
            decreases n - g,
        {
            owner.push(None);
            visited_ingredient.push(false);
            g = g + 1;
        }
        let mut visited_item: Vec<bool> = Vec::new();
        let mut k: usize = 0;
        while k < ni
            invariant
                k <= ni,
                visited_item@.len() == k,
            decreases ni - k,
        {
            visited_item.push(false);
            k = k + 1;
        }
        let r = RecipePicker { items, connection, owner, visited_item, visited_ingredient };
        proof {
            assert forall|x: int, y: int| 0 <= x < y < r.items@.len() implies r.items@[x] != r.items@[y] by {
                assert(idx[x] < idx[y]);
            }
            assert forall|x: int| 0 <= x < r.items@.len() implies holds(a, #[trigger] r.items@[x]) by {
                assert(0 <= idx[x] < a.len() && a[idx[x]].0 == r.items@[x]);
            }
            assert forall|x: int| 0 <= x < r.items@.len() implies count_of(a, #[trigger] r.items@[x]) == count_of(a, r.items@[x]) - 0 * owned(r.owner@, x) by {
                lemma_owned_none(r.owner@, x);
            }
            assert forall|x: int| 0 <= x < r.items@.len() implies count_of(a, #[trigger] r.items@[x]) >= 0 by {
                lemma_count_of_at(a, idx[x]);
            }
        }
        r
    }
}

/// Item `x` stands on path `p`.
pub open spec fn on_items(p: Seq<usize>, x: int) -> bool {
    exists|i: int| 0 <= i < p.len() && i % 2 == 0 && p[i] == x
}

/// Slot `g` stands on path `p`.
pub open spec fn on_slots(p: Seq<usize>, g: int) -> bool {
    exists|i: int| 0 <= i < p.len() && i % 2 == 1 && p[i] == g
}

/// How many marks are still clear.
pub open spec fn unvisited(v: Seq<bool>) -> nat
    decreases v.len(),
{
    if v.len() == 0 {
        0
    } else {
        unvisited(v.drop_last()) + if v.last() { 0nat } else { 1nat }
    }
}

proof fn lemma_unvisited_mark(v: Seq<bool>, i: int)
    requires
        0 <= i < v.len(),
        !v[i],
    ensures
        unvisited(v.update(i, true)) + 1 == unvisited(v),
    decreases v.len(),
{
    let u = v.update(i, true);
    if i == v.len() - 1 {
        assert(u.drop_last() =~= v.drop_last());
    } else {
        assert(u.drop_last() =~= v.drop_last().update(i, true));
        lemma_unvisited_mark(v.drop_last(), i);
    }
}

impl RecipePicker {
    /// `p` alternates item, slot, item, …: each item accepts the slot after
    /// it and is not already its match; each slot after the first is
    /// matched to the item after it; no item or slot occurs twice.
    spec fn path_ok(&self, p: Seq<usize>) -> bool {
        &&& forall|i: int| 0 <= i < p.len() && i % 2 == 0 ==> #[trigger] p[i] < self.items@.len()
        &&& forall|i: int| 0 <= i < p.len() && i % 2 == 1 ==> #[trigger] p[i] < self.owner@.len()
        &&& forall|i: int| 0 <= i && i + 1 < p.len() && i % 2 == 0 ==>
            self.connection@[#[trigger] p[i] as int]@[p[i + 1] as int] && self.owner@[p[i + 1] as int] != Some(p[i])
        &&& forall|i: int| 0 <= i && i + 1 < p.len() && i % 2 == 1 ==> self.owner@[#[trigger] p[i] as int] == Some(p[i + 1])
        &&& forall|i: int, j: int| 0 <= i < j < p.len() && i % 2 == j % 2 ==> #[trigger] p[i] != #[trigger] p[j]
    }

    /// An augmenting path: a valid path that ends at an unmatched slot.
    spec fn augmenting(&self, p: Seq<usize>) -> bool {
        &&& p.len() >= 2
        &&& p.len() % 2 == 0
        &&& self.path_ok(p)
        &&& self.owner@[p.last() as int] is None
    }

    /// Clear every search mark.
    fn clear_all_visited(&mut self)
        ensures
            final(self).items == old(self).items,
            final(self).connection == old(self).connection,
            final(self).owner == old(self).owner,
            final(self).visited_item@.len() == old(self).visited_item@.len(),
            final(self).visited_ingredient@.len() == old(self).visited_ingredient@.len(),
            forall|x: int| 0 <= x < final(self).visited_item@.len() ==> !#[trigger] final(self).visited_item@[x],
            forall|g: int| 0 <= g < final(self).visited_ingredient@.len() ==> !#[trigger] final(self).visited_ingredient@[g],
    {
        let n = self.visited_item.len();
        let mut i: usize = 0;
        while i < n
            invariant
                n == self.visited_item@.len(),
                i <= n,
                self.items == old(self).items,
                self.connection == old(self).connection,
                self.owner == old(self).owner,
                self.visited_ingredient == old(self).visited_ingredient,
                self.visited_item@.len() == old(self).visited_item@.len(),
                forall|x: int| 0 <= x < i ==> !#[trigger] self.visited_item@[x],
            decreases n - i,
        {
            self.visited_item.set(i, false);
            i = i + 1;
        }
        let m = self.visited_ingredient.len();
        let mut j: usize = 0;
        while j < m
            invariant
                m == self.visited_ingredient@.len(),
                j <= m,
                self.items == old(self).items,
                self.connection == old(self).connection,
                self.owner == old(self).owner,
                self.visited_item@.len() == old(self).visited_item@.len(),
                self.visited_ingredient@.len() == old(self).visited_ingredient@.len(),
                forall|x: int| 0 <= x < self.visited_item@.len() ==> !#[trigger] self.visited_item@[x],
                forall|g: int| 0 <= g < j ==> !#[trigger] self.visited_ingredient@[g],
            decreases m - j,
        {
            self.visited_ingredient.set(j, false);
            j = j + 1;
        }
    }

    /// The matrix and marks have their sizes, and every match names an item.
    spec fn dims(&self) -> bool {
        &&& self.connection@.len() == self.items@.len()
        &&& self.visited_item@.len() == self.items@.len()
        &&& self.visited_ingredient@.len() == self.owner@.len()
        &&& forall|x: int| 0 <= x < self.items@.len() ==> (#[trigger] self.connection@[x])@.len() == self.owner@.len()
        &&& forall|g: int| 0 <= g < self.owner@.len() ==> match #[trigger] self.owner@[g] {
            Some(x) => x < self.items@.len(),
            None => true,
        }
    }

    /// Every slot a path could take from item `x` has been visited.
    spec fn item_closed(&self, x: int) -> bool {
        forall|g: int| 0 <= g < self.owner@.len() && #[trigger] self.connection@[x]@[g] && self.owner@[g] != Some(x as usize)
            ==> self.visited_ingredient@[g]
    }

    /// Slot `g` is matched, and to a visited item.
    spec fn slot_closed(&self, g: int) -> bool {
        match self.owner@[g] {
            Some(y) => self.visited_item@[y as int],
            None => false,
        }
    }

    /// Every visited item and slot off the path `p` has been searched
    /// through: the marks are closed under the steps a path can take.
    spec fn closed_except(&self, p: Seq<usize>) -> bool {
        &&& forall|x: int| 0 <= x < self.items@.len() && #[trigger] self.visited_item@[x]
            && !on_items(p, x) ==> self.item_closed(x)
        &&& forall|g: int| 0 <= g < self.owner@.len() && #[trigger] self.visited_ingredient@[g]
            && !on_slots(p, g) ==> self.slot_closed(g)
    }

    /// Slot `g` can extend a path from item `x`: not yet visited, accepting
    /// `x`, and not already matched to it.
    spec fn eligible(&self, x: int, g: int) -> bool {
        &&& !self.visited_ingredient@[g]
        &&& self.connection@[x]@[g]
        &&& self.owner@[g] != Some(x as usize)
    }

    /// A slot that can extend a path from its last item extends it.
    proof fn lemma_push_slot(&self, p: Seq<usize>, g: usize, vg: Seq<bool>)
        requires
            self.dims(),
            self.path_ok(p),
            p.len() % 2 == 1,
            g < self.owner@.len(),
            !vg[g as int],
            vg.len() == self.owner@.len(),
            self.connection@[p.last() as int]@[g as int],
            self.owner@[g as int] != Some(p.last()),
            forall|i: int| 0 <= i < p.len() && i % 2 == 1 ==> vg[#[trigger] p[i] as int],
        ensures
            self.path_ok(p.push(g)),
    {
        let q = p.push(g);
        assert forall|i: int, j: int| 0 <= i < j < q.len() && i % 2 == j % 2 implies #[trigger] q[i] != #[trigger] q[j] by {
            if j == p.len() {
                assert(vg[p[i] as int]);
            } else {
                assert(q[i] == p[i] && q[j] == p[j]);
            }
        }
        assert forall|i: int| 0 <= i && i + 1 < q.len() && i % 2 == 0 implies
            self.connection@[#[trigger] q[i] as int]@[q[i + 1] as int] && self.owner@[q[i + 1] as int] != Some(q[i]) by {
            if i + 1 < p.len() {
                assert(q[i] == p[i] && q[i + 1] == p[i + 1]);
            } else {
                assert(q[i] == p.last());
            }
        }
        assert forall|i: int| 0 <= i && i + 1 < q.len() && i % 2 == 1 implies self.owner@[#[trigger] q[i] as int] == Some(q[i + 1]) by {
            assert(q[i] == p[i] && q[i + 1] == p[i + 1]);
        }
    }

    /// The item a path's last slot is matched to extends it, if unvisited.
    proof fn lemma_push_item(&self, p: Seq<usize>, x: usize, vi: Seq<bool>)
        requires
            self.dims(),
            self.path_ok(p),
            p.len() % 2 == 0,
            p.len() >= 2,
            x < self.items@.len(),
            !vi[x as int],
            vi.len() == self.items@.len(),
            self.owner@[p.last() as int] == Some(x),
            forall|i: int| 0 <= i < p.len() && i % 2 == 0 ==> vi[#[trigger] p[i] as int],
        ensures
            self.path_ok(p.push(x)),
    {
        let q = p.push(x);
        assert forall|i: int, j: int| 0 <= i < j < q.len() && i % 2 == j % 2 implies #[trigger] q[i] != #[trigger] q[j] by {
            if j == p.len() {
                assert(vi[p[i] as int]);
            } else {
                assert(q[i] == p[i] && q[j] == p[j]);
            }
        }
        assert forall|i: int| 0 <= i && i + 1 < q.len() && i % 2 == 0 implies
            self.connection@[#[trigger] q[i] as int]@[q[i + 1] as int] && self.owner@[q[i + 1] as int] != Some(q[i]) by {
            assert(q[i] == p[i] && q[i + 1] == p[i + 1]);
        }
        assert forall|i: int| 0 <= i && i + 1 < q.len() && i % 2 == 1 implies self.owner@[#[trigger] q[i] as int] == Some(q[i + 1]) by {
            if i + 1 < p.len() {
                assert(q[i] == p[i] && q[i + 1] == p[i + 1]);
            } else {
                assert(q[i] == p.last());
            }
        }
    }

    /// A path without its last node is a path.
    proof fn lemma_pop(&self, p: Seq<usize>)
        requires
            self.path_ok(p),
            p.len() > 0,
        ensures
            self.path_ok(p.drop_last()),
    {
        let q = p.drop_last();
        assert forall|i: int, j: int| 0 <= i < j < q.len() && i % 2 == j % 2 implies #[trigger] q[i] != #[trigger] q[j] by {
            assert(q[i] == p[i] && q[j] == p[j]);
        }
        assert forall|i: int| 0 <= i && i + 1 < q.len() && i % 2 == 0 implies
            self.connection@[#[trigger] q[i] as int]@[q[i + 1] as int] && self.owner@[q[i + 1] as int] != Some(q[i]) by {
            assert(q[i] == p[i] && q[i + 1] == p[i + 1]);
        }
        assert forall|i: int| 0 <= i && i + 1 < q.len() && i % 2 == 1 implies self.owner@[#[trigger] q[i] as int] == Some(q[i + 1]) by {
            assert(q[i] == p[i] && q[i + 1] == p[i + 1]);
        }
    }

    /// Depth-first search from `starting_item` for an augmenting path; the
    /// marks persist across searches until cleared. When it finds none,
    /// everything it reached is marked and searched through.
    #[verifier::rlimit(60)]
    #[verifier::spinoff_prover]
    fn find_new_item_assignment_path(&mut self, starting_item: usize) -> (r: Option<Vec<usize>>)
        requires
            old(self).dims(),
            starting_item < old(self).items@.len(),
            old(self).closed_except(Seq::empty()),
        ensures
            final(self).dims(),
            final(self).items == old(self).items,
            final(self).connection == old(self).connection,
            final(self).owner == old(self).owner,
            forall|x: int| 0 <= x < old(self).items@.len() && old(self).visited_item@[x] ==> #[trigger] final(self).visited_item@[x],
            r matches Some(p) ==> final(self).augmenting(p@) && p@[0] == starting_item,
            r is None ==> final(self).closed_except(Seq::empty()) && final(self).visited_item@[starting_item as int],
    {
        let ni = self.items.len();
        let ng = self.owner.len();
        let mut path: Vec<usize> = Vec::new();
        let ghost s0 = *self;
        self.visited_item.set(starting_item, true);
        path.push(starting_item);
        proof {
            assert(path@[0] == starting_item);
            lemma_closed_push(s0, *self, Seq::empty(), path@);
        }
        while path.len() > 0
            invariant
                ni == self.items@.len(),
                ng == self.owner@.len(),
                self.items == old(self).items,
                self.connection == old(self).connection,
                self.owner == old(self).owner,
                self.dims(),
                self.path_ok(path@),
                path@.len() > 0 ==> path@[0] == starting_item,
                forall|i: int| 0 <= i < path@.len() && i % 2 == 0 ==> self.visited_item@[#[trigger] path@[i] as int],
                forall|i: int| 0 <= i < path@.len() && i % 2 == 1 ==> self.visited_ingredient@[#[trigger] path@[i] as int],
                self.closed_except(path@),
                self.visited_item@[starting_item as int],
                forall|x: int| 0 <= x < ni && old(self).visited_item@[x] ==> #[trigger] self.visited_item@[x],
            decreases 2 * (unvisited(self.visited_item@) + unvisited(self.visited_ingredient@)) + path@.len(),
        {
            let len = path.len();
            let ghost before = path@;
            let ghost s1 = *self;
            if len % 2 == 1 {
                let x = path[len - 1];
                let mut g: usize = 0;
                let mut found = false;
                while g < ng
                    invariant_except_break
                        !found,
                    invariant
                        ni == self.items@.len(),
                        ng == self.owner@.len(),
                        self.dims(),
                        x < ni,
                        g <= ng,
                        forall|k: int| 0 <= k < g ==> !self.eligible(x as int, k),
                    ensures
                        found ==> g < ng && self.eligible(x as int, g as int),
                        !found ==> forall|k: int| 0 <= k < ng ==> !self.eligible(x as int, k),
                    decreases ng - g,
                {
                    let taken_by_x = match self.owner[g] {
                        Some(y) => y == x,
                        None => false,
                    };
                    if !self.visited_ingredient[g] && self.connection[x][g] && !taken_by_x {
                        found = true;
                        break;
                    }
                    g = g + 1;
                }
                if found {
                    proof {
                        lemma_unvisited_mark(self.visited_ingredient@, g as int);
                        self.lemma_push_slot(before, g, self.visited_ingredient@);
                    }
                    self.visited_ingredient.set(g, true);
                    path.push(g);
                    proof {
                        assert forall|i: int| 0 <= i < path@.len() && i % 2 == 1 implies self.visited_ingredient@[#[trigger] path@[i] as int] by {
                            if i < len {
                                assert(path@[i] == before[i]);
                            }
                        }
                        assert forall|i: int| 0 <= i < path@.len() && i % 2 == 0 implies self.visited_item@[#[trigger] path@[i] as int] by {
                            assert(path@[i] == before[i]);
                        }
                        assert(path@[len as int] == g);
                        lemma_closed_push(s1, *self, before, path@);
                    }
                } else {
                    proof {
                        assert forall|k: int| 0 <= k < self.owner@.len() && #[trigger] self.connection@[x as int]@[k] && self.owner@[k] != Some(x)
                            implies self.visited_ingredient@[k] by {
                            assert(!self.eligible(x as int, k));
                        }
                        assert(self.item_closed(x as int));
                    }
                }
            } else {
                let gl = path[len - 1];
                match self.owner[gl] {
                    None => {
                        return Some(path);
                    },
                    Some(x) => {
                        if !self.visited_item[x] {
                            proof {
                                lemma_unvisited_mark(self.visited_item@, x as int);
                                self.lemma_push_item(before, x, self.visited_item@);
                            }
                            self.visited_item.set(x, true);
                            path.push(x);
                            proof {
                                assert forall|i: int| 0 <= i < path@.len() && i % 2 == 0 implies self.visited_item@[#[trigger] path@[i] as int] by {
                                    if i < len {
                                        assert(path@[i] == before[i]);
                                    }
                                }
                                assert forall|i: int| 0 <= i < path@.len() && i % 2 == 1 implies self.visited_ingredient@[#[trigger] path@[i] as int] by {
                                    assert(path@[i] == before[i]);
                                }
                                assert(path@[len as int] == x);
                                lemma_closed_push(s1, *self, before, path@);
                                assert forall|z: int| 0 <= z < ni && old(self).visited_item@[z] implies #[trigger] self.visited_item@[z] by {
                                    assert(s1.visited_item@[z]);
                                }
                            }
                        } else {
                            proof {
                                assert(self.slot_closed(gl as int));
                            }
                        }
                    },
                }
            }
            if path.len() == len {
                let ghost q = path@;
                proof {
                    self.lemma_pop(path@);
                }
                path.pop();
                proof {
                    assert(path@ =~= q.drop_last());
                    assert forall|i: int| 0 <= i < path@.len() && i % 2 == 0 implies self.visited_item@[#[trigger] path@[i] as int] by {
                        assert(path@[i] == before[i]);
                    }
                    assert forall|i: int| 0 <= i < path@.len() && i % 2 == 1 implies self.visited_ingredient@[#[trigger] path@[i] as int] by {
                        assert(path@[i] == before[i]);
                    }
                    lemma_closed_pop(*self, q);
                }
            }
        }
        None
    }
}

/// Extending a path by a node it just marked keeps every other mark closed.
proof fn lemma_closed_push(s1: RecipePicker, s2: RecipePicker, p: Seq<usize>, q: Seq<usize>)
    requires
        s1.closed_except(p),
        q.len() == p.len() + 1,
        forall|i: int| 0 <= i < p.len() ==> q[i] == p[i],
        s2.items == s1.items,
        s2.connection == s1.connection,
        s2.owner == s1.owner,
        s2.visited_item@.len() == s1.visited_item@.len(),
        s2.visited_ingredient@.len() == s1.visited_ingredient@.len(),
        forall|x: int| 0 <= x < s1.visited_item@.len() && s1.visited_item@[x] ==> #[trigger] s2.visited_item@[x],
        forall|g: int| 0 <= g < s1.visited_ingredient@.len() && s1.visited_ingredient@[g] ==> #[trigger] s2.visited_ingredient@[g],
        forall|x: int| 0 <= x < s2.visited_item@.len() && #[trigger] s2.visited_item@[x] ==> s1.visited_item@[x] || on_items(q, x),
        forall|g: int| 0 <= g < s2.visited_ingredient@.len() && #[trigger] s2.visited_ingredient@[g] ==> s1.visited_ingredient@[g] || on_slots(q, g),
        s1.dims(),
    ensures
        s2.closed_except(q),
{
    assert forall|y: int| 0 <= y < s2.items@.len() && #[trigger] s2.visited_item@[y] && !on_items(q, y)
        implies s2.item_closed(y) by {
        if on_items(p, y) {
            let i = choose|i: int| 0 <= i < p.len() && i % 2 == 0 && p[i] == y;
            assert(q[i] == p[i]);
        }
        assert(s1.item_closed(y));
        assert forall|k: int| 0 <= k < s2.owner@.len() && #[trigger] s2.connection@[y]@[k] && s2.owner@[k] != Some(y as usize)
            implies s2.visited_ingredient@[k] by {
            assert(s1.visited_ingredient@[k]);
        }
    }
    assert forall|k: int| 0 <= k < s2.owner@.len() && #[trigger] s2.visited_ingredient@[k] && !on_slots(q, k)
        implies s2.slot_closed(k) by {
        if on_slots(p, k) {
            let i = choose|i: int| 0 <= i < p.len() && i % 2 == 1 && p[i] == k;
            assert(q[i] == p[i]);
        }
        assert(s1.slot_closed(k));
        match s1.owner@[k] {
            Some(z) => {
                assert(s1.visited_item@[z as int]);
            },
            None => {},
        }
    }
}

/// Dropping a path's last node, once that node is searched through, keeps
/// the marks closed.
proof fn lemma_closed_pop(s: RecipePicker, q: Seq<usize>)
    requires
        s.closed_except(q),
        q.len() > 0,
        q.len() % 2 == 1 ==> s.item_closed(q.last() as int),
        q.len() % 2 == 0 ==> s.slot_closed(q.last() as int),
    ensures
        s.closed_except(q.drop_last()),
{
    let p = q.drop_last();
    assert forall|y: int| 0 <= y < s.items@.len() && #[trigger] s.visited_item@[y] && !on_items(p, y)
        implies s.item_closed(y) by {
        if on_items(q, y) {
            let i = choose|i: int| 0 <= i < q.len() && i % 2 == 0 && q[i] == y;
            if i < q.len() - 1 {
                assert(p[i] == q[i]);
            }
        }
    }
    assert forall|k: int| 0 <= k < s.owner@.len() && #[trigger] s.visited_ingredient@[k] && !on_slots(p, k)
        implies s.slot_closed(k) by {
        if on_slots(q, k) {
            let i = choose|i: int| 0 <= i < q.len() && i % 2 == 1 && q[i] == k;
            if i < q.len() - 1 {
                assert(p[i] == q[i]);
            }
        }
    }
}

impl RecipePicker {
    /// Look for an augmenting path from each item still held `cap` times
    /// over, clearing the marks first.
    fn try_assigning_new_item(&mut self, contents: &StackedContents, cap: i32) -> (r: Option<Vec<usize>>)
        requires
            old(self).dims(),
            contents.wf(),
        ensures
            final(self).dims(),
            final(self).items == old(self).items,
            final(self).connection == old(self).connection,
            final(self).owner == old(self).owner,
            r matches Some(p) ==> final(self).augmenting(p@) && count_of(contents.entries(), final(self).items@[p@[0] as int]) >= cap,
            r is None ==> final(self).closed_except(Seq::empty()),
            r is None ==> forall|x: int| 0 <= x < final(self).items@.len() && count_of(contents.entries(), final(self).items@[x]) >= cap
                ==> #[trigger] final(self).visited_item@[x],
    {
        self.clear_all_visited();
        let ni = self.items.len();
        let mut x: usize = 0;
        while x < ni
            invariant
                ni == self.items@.len(),
                x <= ni,
                self.dims(),
                contents.wf(),
                self.items == old(self).items,
                self.connection == old(self).connection,
                self.owner == old(self).owner,
                self.closed_except(Seq::empty()),
                forall|y: int| 0 <= y < x && count_of(contents.entries(), self.items@[y]) >= cap ==> #[trigger] self.visited_item@[y],
            decreases ni - x,
        {
            if contents.has_at_least(self.items[x], cap) {
                match self.find_new_item_assignment_path(x) {
                    Some(p) => {
                        return Some(p);
                    },
                    None => {},
                }
            }
            x = x + 1;
        }
        None
    }
}

/// The `j`-th slot of a path.
pub open spec fn slot_of(p: Seq<usize>, j: int) -> usize {
    p[2 * j + 1]
}

/// The matches after the first `k` slots of path `p` are given to the item
/// before each.
pub open spec fn flipped(o: Seq<Option<usize>>, p: Seq<usize>, k: int) -> Seq<Option<usize>>
    decreases k,
{
    if k <= 0 {
        o
    } else {
        flipped(o, p, k - 1).update(p[2 * (k - 1) + 1] as int, Some(p[2 * (k - 1)]))
    }
}

/// The `j`-th item of a path.
pub open spec fn item_of(p: Seq<usize>, j: int) -> usize {
    p[2 * j]
}

/// What a flip needs of a path of `kk` item–slot pairs over matches `o`:
/// its slots are in range and distinct, its items distinct, each slot but
/// the last matched to the next item, the last unmatched.
pub open spec fn flip_ready(o: Seq<Option<usize>>, p: Seq<usize>, kk: int) -> bool {
    &&& p.len() == 2 * kk
    &&& kk >= 1
    &&& forall|j: int| 0 <= j < kk ==> #[trigger] slot_of(p, j) < o.len()
    &&& forall|i: int, j: int| 0 <= i < j < kk ==> #[trigger] slot_of(p, i) != #[trigger] slot_of(p, j)
    &&& forall|i: int, j: int| 0 <= i < j < kk ==> #[trigger] item_of(p, i) != #[trigger] item_of(p, j)
    &&& forall|j: int| 0 <= j < kk - 1 ==> o[#[trigger] slot_of(p, j) as int] == Some(item_of(p, j + 1))
    &&& o[slot_of(p, kk - 1) as int] is None
}

/// Flipping leaves the slots off the path, and those not reached yet,
/// alone.
proof fn lemma_flipped_other(o: Seq<Option<usize>>, p: Seq<usize>, kk: int, k: int, g: int)
    requires
        flip_ready(o, p, kk),
        0 <= k <= kk,
        0 <= g < o.len(),
        forall|j: int| 0 <= j < k ==> #[trigger] slot_of(p, j) != g,
    ensures
        flipped(o, p, k)[g] == o[g],
        flipped(o, p, k).len() == o.len(),
    decreases k,
{
    if k > 0 {
        lemma_flipped_other(o, p, kk, k - 1, g);
        assert(slot_of(p, k - 1) != g);
        assert(slot_of(p, k - 1) < o.len());
    }
}

/// Flipping gives each reached slot the item before it.
proof fn lemma_flipped_on(o: Seq<Option<usize>>, p: Seq<usize>, kk: int, k: int, j: int)
    requires
        flip_ready(o, p, kk),
        0 <= j < k <= kk,
    ensures
        flipped(o, p, k)[slot_of(p, j) as int] == Some(item_of(p, j)),
        flipped(o, p, k).len() == o.len(),
    decreases k,
{
    assert(slot_of(p, k - 1) < o.len());
    if k - 1 > j {
        lemma_flipped_on(o, p, kk, k - 1, j);
        assert(slot_of(p, j) != slot_of(p, k - 1));
    } else {
        assert forall|i: int| 0 <= i < k - 1 implies #[trigger] slot_of(p, i) != slot_of(p, k - 1) by {
        }
        lemma_flipped_other(o, p, kk, k - 1, slot_of(p, k - 1) as int);
    }
}

/// Counting through a flip: after `k` of the `kk` steps the first item has
/// gained one slot and the `k`-th has lost one (until the last step); once
/// all are done one more slot is filled.
proof fn lemma_flipped_counts(o: Seq<Option<usize>>, p: Seq<usize>, kk: int, k: int, x: int)
    requires
        flip_ready(o, p, kk),
        0 <= k <= kk,
        0 <= x <= usize::MAX,
    ensures
        owned(flipped(o, p, k), x) + (if 1 <= k < kk && x == item_of(p, k) { 1int } else { 0 })
            == owned(o, x) + (if k >= 1 && x == item_of(p, 0) { 1int } else { 0 }),
        matched(flipped(o, p, k)) == matched(o) + (if k == kk { 1int } else { 0 }),
    decreases k,
{
    if k > 0 {
        let j = k - 1;
        lemma_flipped_counts(o, p, kk, j, x);
        let g = slot_of(p, j) as int;
        assert(g < o.len());
        assert forall|i: int| 0 <= i < j implies #[trigger] slot_of(p, i) != g by {
        }
        lemma_flipped_other(o, p, kk, j, g);
        let f = flipped(o, p, j);
        lemma_owned_update(f, g, Some(item_of(p, j)), x);
        if j + 1 < kk {
            assert(o[g] == Some(item_of(p, j + 1)));
        }
        if j >= 1 {
            assert(item_of(p, 0) != item_of(p, j));
        }
    }
}

proof fn lemma_count_of_range(a: Seq<(i32, i32)>, it: i32)
    ensures
        i32::MIN <= count_of(a, it) <= i32::MAX,
    decreases a.len(),
{
    if a.len() > 0 {
        lemma_count_of_range(a.drop_last(), it);
    }
}

proof fn lemma_owned_pos(o: Seq<Option<usize>>, g: int, x: int)
    requires
        0 <= g < o.len(),
        o[g] == Some(x as usize),
    ensures
        owned(o, x) >= 1,
    decreases o.len(),
{
    if g < o.len() - 1 {
        lemma_owned_pos(o.drop_last(), g, x);
    }
}

/// Same items in the same order: held by one exactly when by the other.
proof fn lemma_holds_keys(a: Seq<(i32, i32)>, b: Seq<(i32, i32)>, it: i32)
    requires
        keys(a) == keys(b),
        holds(a, it),
    ensures
        holds(b, it),
{
    let j = choose|j: int| 0 <= j < a.len() && a[j].0 == it;
    assert(keys(a)[j] == a[j].0);
    assert(keys(b).len() == b.len());
    assert(keys(b)[j] == b[j].0);
}

/// Counting one list of choices through another that makes the same choice
/// at every slot.
proof fn lemma_uses_owned(o: Seq<Option<usize>>, asg: Seq<int>, e: int, x: int)
    requires
        o.len() == asg.len(),
        forall|g: int| 0 <= g < o.len() ==> (#[trigger] asg[g] == e) == (o[g] == Some(x as usize)),
    ensures
        uses(asg, e) == owned(o, x),
    decreases o.len(),
{
    if o.len() > 0 {
        lemma_uses_owned(o.drop_last(), asg.drop_last(), e, x);
        assert(asg.last() == asg[asg.len() - 1]);
    }
}

/// The entry index of a held item.
pub open spec fn entry_index(a: Seq<(i32, i32)>, it: i32) -> int {
    choose|j: int| 0 <= j < a.len() && a[j].0 == it
}

impl RecipePicker {
    /// An augmenting path is ready to flip, and every pair on it accepts.
    proof fn lemma_ready(&self, p: Seq<usize>)
        requires
            self.dims(),
            self.augmenting(p),
        ensures
            flip_ready(self.owner@, p, (p.len() / 2) as int),
            forall|j: int| 0 <= j < p.len() / 2 ==> #[trigger] item_of(p, j) < self.items@.len()
                && self.connection@[item_of(p, j) as int]@[slot_of(p, j) as int],
    {
        let kk = p.len() / 2;
        assert forall|j: int| 0 <= j < kk implies #[trigger] slot_of(p, j) < self.owner@.len() by {
            assert((2 * j + 1) % 2 == 1);
        }
        assert forall|i: int, j: int| 0 <= i < j < kk implies #[trigger] slot_of(p, i) != #[trigger] slot_of(p, j) by {
            assert((2 * i + 1) % 2 == (2 * j + 1) % 2);
        }
        assert forall|i: int, j: int| 0 <= i < j < kk implies #[trigger] item_of(p, i) != #[trigger] item_of(p, j) by {
            assert((2 * i) % 2 == (2 * j) % 2);
        }
        assert forall|j: int| 0 <= j < kk - 1 implies self.owner@[#[trigger] slot_of(p, j) as int] == Some(item_of(p, j + 1)) by {
            assert((2 * j + 1) % 2 == 1);
            assert(p[2 * j + 1 + 1] == item_of(p, j + 1));
        }
        assert(slot_of(p, kk - 1) == p.last());
        assert forall|j: int| 0 <= j < kk implies #[trigger] item_of(p, j) < self.items@.len()
            && self.connection@[item_of(p, j) as int]@[slot_of(p, j) as int] by {
            assert((2 * j) % 2 == 0);
        }
    }

    /// Give each slot of an augmenting path the item before it.
    fn flip(&mut self, path: &Vec<usize>)
        requires
            old(self).dims(),
            old(self).augmenting(path@),
        ensures
            final(self).owner@ == flipped(old(self).owner@, path@, (path@.len() / 2) as int),
            final(self).items == old(self).items,
            final(self).connection == old(self).connection,
            final(self).visited_item == old(self).visited_item,
            final(self).visited_ingredient == old(self).visited_ingredient,
    {
        proof {
            self.lemma_ready(path@);
        }
        let ghost o = self.owner@;
        let ghost kk: int = (path@.len() / 2) as int;
        let n = path.len();
        let mut i: usize = 0;
        while i + 1 < n
            invariant
                n == path@.len(),
                n % 2 == 0,
                n >= 2,
                i + 1 <= n,
                kk == n / 2,
                flip_ready(o, path@, kk),
                self.owner@ == flipped(o, path@, ((i + 1) / 2) as int),
                self.items == old(self).items,
                self.connection == old(self).connection,
                self.visited_item == old(self).visited_item,
                self.visited_ingredient == old(self).visited_ingredient,
            decreases n - i,
        {
            let ghost j = (i / 2) as int;
            if i % 2 == 0 {
                proof {
                    assert(slot_of(path@, j) == path@[i + 1]);
                    assert(item_of(path@, j) == path@[i as int]);
                    assert(path@[i + 1] < o.len());
                    assert forall|t: int| 0 <= t < j implies #[trigger] slot_of(path@, t) != slot_of(path@, j) by {}
                    lemma_flipped_other(o, path@, kk, j, slot_of(path@, j) as int);
                }
                self.owner.set(path[i + 1], Some(path[i]));
                proof {
                    assert((i + 2) / 2 == j + 1);
                }
            } else {
                proof {
                    assert(slot_of(path@, j) == path@[i as int]);
                    assert(item_of(path@, j) == path@[i - 1]);
                    lemma_flipped_on(o, path@, kk, j + 1, j);
                    assert((i + 1) / 2 == j + 1);
                    assert(item_of(path@, j + 1) == path@[i + 1]);
                    assert(item_of(path@, j) != item_of(path@, j + 1));
                }
                let g = path[i];
                let drop = match self.owner[g] {
                    Some(y) => y == path[i + 1],
                    None => false,
                };
                if drop {
                    self.owner.set(g, None);
                }
            }
            i = i + 1;
        }
    }
}

impl RecipePicker {
    /// Put back everything taken: each matched slot returns `cap` of its
    /// item and is unmatched.
    fn restore(&mut self, contents: &mut StackedContents, cap: i32, Ghost(ings): Ghost<Seq<Seq<i32>>>, Ghost(a0): Ghost<Seq<(i32, i32)>>)
        requires
            old(self).shape(ings, a0),
            old(self).takes(old(contents).entries(), a0, cap as int),
            items_distinct(a0),
            cap > 0,
        ensures
            final(contents).entries() == a0,
            final(contents).wf(),
    {
        let ng = self.owner.len();
        let mut g: usize = 0;
        while g < ng
            invariant
                ng == self.owner@.len(),
                g <= ng,
                cap > 0,
                items_distinct(a0),
                self.shape(ings, a0),
                self.takes(contents.entries(), a0, cap as int),
                contents.wf(),
                forall|k: int| 0 <= k < g ==> #[trigger] self.owner@[k] is None,
            decreases ng - g,
        {
            match self.owner[g] {
                Some(x) => {
                    let ghost o = self.owner@;
                    let ghost c = contents.entries();
                    let it = self.items[x];
                    proof {
                        lemma_owned_pos(o, g as int, x as int);
                        lemma_count_of_range(a0, it);
                        assert(cap * owned(o, x as int) >= cap) by (nonlinear_arith)
                            requires
                                owned(o, x as int) >= 1,
                                cap > 0,
                        ;
                        assert(holds(a0, it));
                        lemma_holds_keys(a0, c, it);
                        assert forall|y: int| 0 <= y < self.items@.len() implies count_of(c, #[trigger] self.items@[y])
                            == count_of(a0, self.items@[y]) - cap * owned(o, y) by {}
                    }
                    self.owner.set(g, None);
                    contents.add_to(it, cap);
                    proof {
                        let o2 = self.owner@;
                        assert(o2 == o.update(g as int, None));
                        assert forall|y: int| 0 <= y < self.items@.len() implies count_of(contents.entries(), #[trigger] self.items@[y])
                            == count_of(a0, self.items@[y]) - cap * owned(o2, y) by {
                            lemma_owned_update(o, g as int, None, y);
                            let iy = self.items@[y];
                            assert(count_of(contents.entries(), iy) == count_of(c, iy) + if iy == it { cap as int } else { 0 });
                            assert(count_of(c, iy) == count_of(a0, iy) - cap * owned(o, y));
                            if y == x as int {
                                assert(o[g as int] == Some(y as usize));
                                assert(owned(o2, y) + 1 == owned(o, y));
                                assert(cap * owned(o2, y) == cap * owned(o, y) - cap) by (nonlinear_arith)
                                    requires
                                        owned(o2, y) + 1 == owned(o, y),
                                ;
                            } else {
                                assert(iy != it);
                                assert(o[g as int] != Some(y as usize));
                                assert(owned(o2, y) == owned(o, y));
                            }
                        }
                        assert forall|y: int| 0 <= y < self.items@.len() implies count_of(contents.entries(), #[trigger] self.items@[y]) >= 0 by {
                            if y != x {
                                assert(self.items@[y] != it);
                            }
                        }
                        assert forall|h: int| 0 <= h < ings.len() implies match #[trigger] self.owner@[h] {
                            Some(z) => z < self.items@.len() && self.connection@[z as int]@[h],
                            None => true,
                        } by {
                            if h != g {
                                assert(self.owner@[h] == o[h]);
                            }
                        }
                    }
                },
                None => {},
            }
            g = g + 1;
        }
        proof {
            let c = contents.entries();
            assert forall|it: i32| #[trigger] count_of(c, it) == count_of(a0, it) by {
                if exists|y: int| 0 <= y < self.items@.len() && self.items@[y] == it {
                    let y = choose|y: int| 0 <= y < self.items@.len() && self.items@[y] == it;
                    lemma_owned_none(self.owner@, y);
                    assert(count_of(c, self.items@[y]) == count_of(a0, self.items@[y]) - cap * owned(self.owner@, y));
                }
            }
            lemma_same_entries(a0, c);
        }
    }
}

proof fn lemma_uses_pos(asg: Seq<int>, e: int)
    requires
        uses(asg, e) > 0,
    ensures
        exists|g: int| 0 <= g < asg.len() && asg[g] == e,
    decreases asg.len(),
{
    if asg.last() != e {
        lemma_uses_pos(asg.drop_last(), e);
        let g = choose|g: int| 0 <= g < asg.drop_last().len() && asg.drop_last()[g] == e;
        assert(asg[g] == e);
    } else {
        assert(asg[asg.len() - 1] == e);
    }
}

/// Flipping an augmenting path keeps every match along an accepting pair.
proof fn lemma_augment_shape(before: RecipePicker, after: RecipePicker, p: Seq<usize>, ings: Seq<Seq<i32>>, a0: Seq<(i32, i32)>)
    requires
        before.shape(ings, a0),
        before.dims(),
        before.augmenting(p),
        after.owner@ == flipped(before.owner@, p, (p.len() / 2) as int),
        after.items == before.items,
        after.connection == before.connection,
        after.visited_item == before.visited_item,
        after.visited_ingredient == before.visited_ingredient,
    ensures
        after.shape(ings, a0),
{
    let kk = (p.len() / 2) as int;
    let o = before.owner@;
    let o2 = after.owner@;
    before.lemma_ready(p);
    lemma_flipped_on(o, p, kk, kk, 0);
    assert forall|h: int| 0 <= h < ings.len() implies match #[trigger] o2[h] {
        Some(z) => z < after.items@.len() && after.connection@[z as int]@[h],
        None => true,
    } by {
        if exists|j: int| 0 <= j < kk && slot_of(p, j) == h {
            let j = choose|j: int| 0 <= j < kk && slot_of(p, j) == h;
            lemma_flipped_on(o, p, kk, kk, j);
        } else {
            lemma_flipped_other(o, p, kk, kk, h);
        }
    }
}

/// The premises shared by the two steps of an augmentation's count.
spec fn augment_step(
    before: RecipePicker,
    after: RecipePicker,
    p: Seq<usize>,
    c: Seq<(i32, i32)>,
    c2: Seq<(i32, i32)>,
    a0: Seq<(i32, i32)>,
    cap: int,
) -> bool {
    &&& before.dims()
    &&& before.items@.len() <= usize::MAX
    &&& forall|x: int, z: int| 0 <= x < z < before.items@.len() ==> before.items@[x] != before.items@[z]
    &&& before.takes(c, a0, cap)
    &&& before.augmenting(p)
    &&& cap > 0
    &&& count_of(c, before.items@[p[0] as int]) >= cap
    &&& items_distinct(c2)
    &&& forall|it: i32| #[trigger] count_of(c2, it) == count_of(c, it) + if it == before.items@[p[0] as int] { -cap } else { 0 }
    &&& keys(c2) == keys(c)
    &&& after.owner@ == flipped(before.owner@, p, (p.len() / 2) as int)
    &&& after.items == before.items
}

/// One item's count through an augmentation, as arithmetic: the first item
/// of the path gains a match and loses `cap`, every other keeps both.
proof fn lemma_take_step(cy: int, ay: int, c2y: int, cap: int, oy: int, o2y: int, hit: bool)
    by (nonlinear_arith)
    requires
        cy == ay - cap * oy,
        cy >= 0,
        hit ==> o2y == oy + 1 && c2y == cy - cap && cy >= cap,
        !hit ==> o2y == oy && c2y == cy,
    ensures
        c2y == ay - cap * o2y,
        c2y >= 0,
{
}

/// One item's count through an augmentation.
proof fn lemma_augment_item(
    o: Seq<Option<usize>>,
    p: Seq<usize>,
    kk: int,
    items: Seq<i32>,
    c: Seq<(i32, i32)>,
    c2: Seq<(i32, i32)>,
    a0: Seq<(i32, i32)>,
    cap: int,
    y: int,
)
    requires
        flip_ready(o, p, kk),
        0 <= y < items.len(),
        items.len() <= usize::MAX,
        item_of(p, 0) < items.len(),
        forall|x: int, z: int| 0 <= x < z < items.len() ==> items[x] != items[z],
        count_of(c, items[y]) == count_of(a0, items[y]) - cap * owned(o, y),
        count_of(c, items[y]) >= 0,
        count_of(c, items[item_of(p, 0) as int]) >= cap,
        count_of(c2, items[y]) == count_of(c, items[y]) + if items[y] == items[item_of(p, 0) as int] { -cap } else { 0 },
    ensures
        count_of(c2, items[y]) == count_of(a0, items[y]) - cap * owned(flipped(o, p, kk), y),
        count_of(c2, items[y]) >= 0,
{
    lemma_flipped_counts(o, p, kk, kk, y);
    let x0 = item_of(p, 0) as int;
    if y != x0 {
        if y < x0 {
            assert(items[y] != items[x0]);
        } else {
            assert(items[x0] != items[y]);
        }
    }
    lemma_take_step(
        count_of(c, items[y]),
        count_of(a0, items[y]),
        count_of(c2, items[y]),
        cap,
        owned(o, y) as int,
        owned(flipped(o, p, kk), y) as int,
        y == x0,
    );
}

/// Taking `cap` of the path's first item while flipping the path keeps the
/// contents at the original less `cap` per match.
#[verifier::rlimit(100)]
#[verifier::spinoff_prover]
proof fn lemma_augment_takes(
    before: RecipePicker,
    after: RecipePicker,
    p: Seq<usize>,
    c: Seq<(i32, i32)>,
    c2: Seq<(i32, i32)>,
    a0: Seq<(i32, i32)>,
    cap: int,
)
    requires
        augment_step(before, after, p, c, c2, a0, cap),
    ensures
        after.takes(c2, a0, cap),
        matched(after.owner@) == matched(before.owner@) + 1,
{
    let kk = (p.len() / 2) as int;
    before.lemma_ready(p);
    lemma_flipped_counts(before.owner@, p, kk, kk, 0);
    let items = before.items@;
    assert(item_of(p, 0) == p[0]);
    assert forall|y: int| 0 <= y < after.items@.len() implies count_of(c2, #[trigger] after.items@[y])
        == count_of(a0, after.items@[y]) - cap * owned(after.owner@, y) && count_of(c2, after.items@[y]) >= 0 by {
        lemma_augment_item(before.owner@, p, kk, items, c, c2, a0, cap, y);
    }
}

/// How many slots `o` gives to an item whose mark in `vis` is `want`.
pub open spec fn count_vis(o: Seq<Option<usize>>, vis: Seq<bool>, want: bool) -> nat
    decreases o.len(),
{
    if o.len() == 0 {
        0
    } else {
        count_vis(o.drop_last(), vis, want) + match o.last() {
            Some(x) => if x < vis.len() && vis[x as int] == want { 1nat } else { 0nat },
            None => 0nat,
        }
    }
}

/// The slots `o` gives to the items below `k` whose mark is `want`, summed
/// item by item.
pub open spec fn sum_owned(o: Seq<Option<usize>>, vis: Seq<bool>, want: bool, k: int) -> nat
    decreases k,
{
    if k <= 0 {
        0
    } else {
        sum_owned(o, vis, want, k - 1) + if vis[k - 1] == want { owned(o, k - 1) } else { 0nat }
    }
}

/// Every slot `o` fills goes to a marked or to an unmarked item.
proof fn lemma_count_vis_split(o: Seq<Option<usize>>, vis: Seq<bool>)
    requires
        forall|g: int| 0 <= g < o.len() ==> match #[trigger] o[g] {
            Some(x) => x < vis.len(),
            None => true,
        },
    ensures
        matched(o) == count_vis(o, vis, true) + count_vis(o, vis, false),
    decreases o.len(),
{
    if o.len() > 0 {
        assert(o.last() == o[o.len() - 1]);
        assert forall|g: int| 0 <= g < o.drop_last().len() implies match #[trigger] o.drop_last()[g] {
            Some(x) => x < vis.len(),
            None => true,
        } by {
            assert(o.drop_last()[g] == o[g]);
        }
        lemma_count_vis_split(o.drop_last(), vis);
    }
}

/// Where every slot given to a marked item by `s` is given to a marked item
/// by `t`, `t` gives marked items at least as many slots.
proof fn lemma_count_vis_mono(s: Seq<Option<usize>>, t: Seq<Option<usize>>, vis: Seq<bool>)
    requires
        s.len() == t.len(),
        forall|g: int| 0 <= g < s.len() && (#[trigger] s[g] matches Some(x) && x < vis.len() && vis[x as int])
            ==> (t[g] matches Some(y) && y < vis.len() && vis[y as int]),
    ensures
        count_vis(s, vis, true) <= count_vis(t, vis, true),
    decreases s.len(),
{
    if s.len() > 0 {
        assert(s.last() == s[s.len() - 1]);
        assert(t.last() == t[t.len() - 1]);
        assert forall|g: int| 0 <= g < s.drop_last().len() && (#[trigger] s.drop_last()[g] matches Some(x) && x < vis.len() && vis[x as int])
            implies (t.drop_last()[g] matches Some(y) && y < vis.len() && vis[y as int]) by {
            assert(s.drop_last()[g] == s[g]);
            assert(t.drop_last()[g] == t[g]);
        }
        lemma_count_vis_mono(s.drop_last(), t.drop_last(), vis);
    }
}

/// The item-by-item sum loses the last slot's item when the slot goes.
proof fn lemma_sum_owned_step(o: Seq<Option<usize>>, vis: Seq<bool>, want: bool, k: int)
    requires
        o.len() > 0,
        0 <= k <= vis.len(),
        vis.len() <= usize::MAX,
    ensures
        sum_owned(o, vis, want, k) == sum_owned(o.drop_last(), vis, want, k) + match o.last() {
            Some(x) => if x < k && vis[x as int] == want { 1int } else { 0int },
            None => 0int,
        },
    decreases k,
{
    if k > 0 {
        lemma_sum_owned_step(o, vis, want, k - 1);
        assert(owned(o, k - 1) == owned(o.drop_last(), k - 1) + if o.last() == Some((k - 1) as usize) { 1nat } else { 0nat });
        match o.last() {
            Some(x) => {
                if x == k - 1 {
                    assert(o.last() == Some((k - 1) as usize));
                } else {
                    assert(o.last() != Some((k - 1) as usize));
                }
            },
            None => {},
        }
    }
}

/// Counting slots by the mark of their item is summing item by item.
proof fn lemma_count_vis_sum(o: Seq<Option<usize>>, vis: Seq<bool>, want: bool)
    requires
        forall|g: int| 0 <= g < o.len() ==> match #[trigger] o[g] {
            Some(x) => x < vis.len(),
            None => true,
        },
        vis.len() <= usize::MAX,
    ensures
        count_vis(o, vis, want) == sum_owned(o, vis, want, vis.len() as int),
    decreases o.len(),
{
    if o.len() > 0 {
        assert(o.last() == o[o.len() - 1]);
        assert forall|g: int| 0 <= g < o.drop_last().len() implies match #[trigger] o.drop_last()[g] {
            Some(x) => x < vis.len(),
            None => true,
        } by {
            assert(o.drop_last()[g] == o[g]);
        }
        lemma_count_vis_sum(o.drop_last(), vis, want);
        lemma_sum_owned_step(o, vis, want, vis.len() as int);
    } else {
        lemma_sum_owned_zero(o, vis, want, vis.len() as int);
    }
}

proof fn lemma_sum_owned_zero(o: Seq<Option<usize>>, vis: Seq<bool>, want: bool, k: int)
    requires
        o.len() == 0,
    ensures
        sum_owned(o, vis, want, k) == 0,
    decreases k,
{
    if k > 0 {
        lemma_sum_owned_zero(o, vis, want, k - 1);
    }
}

/// Item by item no more, so no more in sum.
proof fn lemma_sum_owned_mono(s: Seq<Option<usize>>, t: Seq<Option<usize>>, vis: Seq<bool>, want: bool, k: int)
    requires
        0 <= k <= vis.len(),
        forall|x: int| 0 <= x < k && vis[x] == want ==> #[trigger] owned(s, x) <= owned(t, x),
    ensures
        sum_owned(s, vis, want, k) <= sum_owned(t, vis, want, k),
    decreases k,
{
    if k > 0 {
        lemma_sum_owned_mono(s, t, vis, want, k - 1);
    }
}

/// A slot's entry is used at least once.
proof fn lemma_uses_at(asg: Seq<int>, g: int)
    requires
        0 <= g < asg.len(),
    ensures
        uses(asg, asg[g]) >= 1,
    decreases asg.len(),
{
    if g < asg.len() - 1 {
        lemma_uses_at(asg.drop_last(), g);
    }
}

/// Every slot filled: as many matches as slots.
proof fn lemma_matched_all(o: Seq<Option<usize>>)
    requires
        forall|g: int| 0 <= g < o.len() ==> #[trigger] o[g] is Some,
    ensures
        matched(o) == o.len(),
    decreases o.len(),
{
    if o.len() > 0 {
        assert(o.last() == o[o.len() - 1]);
        assert forall|g: int| 0 <= g < o.drop_last().len() implies #[trigger] o.drop_last()[g] is Some by {
            assert(o.drop_last()[g] == o[g]);
        }
        lemma_matched_all(o.drop_last());
    }
}

impl RecipePicker {
    /// With no augmenting path left, the matching is as large as any
    /// assignment that fits: if one fits, every slot is matched.
    #[verifier::rlimit(40)]
    proof fn lemma_complete(&self, c: Seq<(i32, i32)>, a0: Seq<(i32, i32)>, ings: Seq<Seq<i32>>, cap: int)
        requires
            self.shape(ings, a0),
            self.takes(c, a0, cap),
            items_distinct(a0),
            cap > 0,
            self.closed_except(Seq::empty()),
            forall|x: int| 0 <= x < self.items@.len() && count_of(c, self.items@[x]) >= cap ==> #[trigger] self.visited_item@[x],
            feasible(a0, ings, cap),
        ensures
            matched(self.owner@) == self.owner@.len(),
    {
        let o = self.owner@;
        let items = self.items@;
        let vis = self.visited_item@;
        let n = o.len();
        let ni = items.len();
        let asg = choose|asg: Seq<int>| #[trigger] assignment_fits(a0, ings, cap, asg);
        assert forall|g: int| #![trigger asg[g]] 0 <= g < n implies exists|x: int| 0 <= x < ni && #[trigger] items[x] == a0[asg[g]].0 by {
            let e = asg[g];
            lemma_uses_at(asg, g);
            let u = uses(asg, e) as int;
            assert(cap * u <= a0[e].1);
            assert(cap <= cap * u) by (nonlinear_arith)
                requires
                    u >= 1,
                    cap > 0,
            ;
            assert(ings[g].contains(a0[e].0));
        }
        let f = Seq::new(n, |g: int| Some((choose|x: int| 0 <= x < ni && items[x] == a0[asg[g]].0) as usize));
        assert forall|g: int| 0 <= g < n implies (#[trigger] f[g] matches Some(x) && x < ni && items[x as int] == a0[asg[g]].0) by {
            assert(exists|x: int| 0 <= x < ni && #[trigger] items[x] == a0[asg[g]].0);
        }
        // Slots given to a marked item by `f` are matched to a marked item.
        assert forall|g: int| 0 <= g < n && (#[trigger] f[g] matches Some(x) && x < vis.len() && vis[x as int])
            implies (o[g] matches Some(y) && y < vis.len() && vis[y as int]) by {
            let x = f[g]->0 as int;
            assert(self.connection@[x]@[g] == ings[g].contains(items[x]));
            if o[g] != Some(x as usize) {
                assert(!on_items(Seq::<usize>::empty(), x));
                assert(self.item_closed(x));
                assert(self.visited_ingredient@[g]);
                assert(!on_slots(Seq::<usize>::empty(), g));
                assert(self.slot_closed(g));
            }
        }
        lemma_count_vis_mono(f, o, vis);
        // Each unmarked item is given no more slots by `f` than by the matching.
        assert forall|x: int| 0 <= x < ni && vis[x] == false implies #[trigger] owned(f, x) <= owned(o, x) by {
            assert(holds(a0, items[x]));
            let e = entry_index(a0, items[x]);
            assert(0 <= e < a0.len() && a0[e].0 == items[x]);
            assert forall|g: int| 0 <= g < n implies (#[trigger] asg[g] == e) == (f[g] == Some(x as usize)) by {
                let y = f[g]->0 as int;
                if asg[g] == e {
                    if y != x {
                        if y < x { assert(items[y] != items[x]); } else { assert(items[x] != items[y]); }
                    }
                }
                if f[g] == Some(x as usize) {
                    if asg[g] != e {
                        if asg[g] < e { assert(a0[asg[g]].0 != a0[e].0); } else { assert(a0[e].0 != a0[asg[g]].0); }
                    }
                }
            }
            lemma_uses_owned(f, asg, e, x);
            lemma_count_of_at(a0, e);
            let u = uses(asg, e) as int;
            let w = owned(o, x) as int;
            assert(count_of(c, items[x]) == a0[e].1 - cap * w);
            assert(count_of(c, items[x]) < cap);
            if u > 0 {
                assert(cap * u <= a0[e].1);
                assert(u <= w) by (nonlinear_arith)
                    requires
                        cap > 0,
                        cap * u < cap + cap * w,
                ;
            }
        }
        lemma_sum_owned_mono(f, o, vis, false, ni as int);
        assert forall|g: int| 0 <= g < n implies match #[trigger] o[g] {
            Some(x) => x < vis.len(),
            None => true,
        } by {}
        lemma_count_vis_sum(f, vis, false);
        lemma_count_vis_sum(o, vis, false);
        lemma_count_vis_split(f, vis);
        lemma_count_vis_split(o, vis);
        assert forall|g: int| 0 <= g < n implies #[trigger] f[g] is Some by {}
        lemma_matched_all(f);
        lemma_matched_bound(o);
    }
}

impl RecipePicker {
    /// A full matching within the counts is an assignment that fits.
    proof fn lemma_witness(&self, c: Seq<(i32, i32)>, a0: Seq<(i32, i32)>, ings: Seq<Seq<i32>>, cap: int)
        requires
            self.shape(ings, a0),
            self.takes(c, a0, cap),
            items_distinct(a0),
            cap > 0,
            forall|g: int| 0 <= g < self.owner@.len() ==> #[trigger] self.owner@[g] is Some,
        ensures
            feasible(a0, ings, cap),
    {
        let o = self.owner@;
        let items = self.items@;
        let asg = Seq::new(o.len(), |g: int| entry_index(a0, items[o[g]->0 as int]));
        assert forall|x: int| 0 <= x < items.len() implies 0 <= #[trigger] entry_index(a0, items[x]) < a0.len()
            && a0[entry_index(a0, items[x])].0 == items[x] by {
            assert(holds(a0, items[x]));
        }
        assert forall|g: int| 0 <= g < asg.len() implies 0 <= #[trigger] asg[g] < a0.len() && ings[g].contains(a0[asg[g]].0) by {
            let x = o[g]->0 as int;
            assert(o[g] is Some);
            assert(x < items.len());
            assert(0 <= entry_index(a0, items[x]) < a0.len());
        }
        assert forall|e: int| 0 <= e < a0.len() && uses(asg, e) > 0 implies cap * uses(asg, e) <= #[trigger] a0[e].1 by {
            lemma_uses_pos(asg, e);
            let g = choose|g: int| 0 <= g < asg.len() && asg[g] == e;
            let x = o[g]->0 as int;
            assert(o[g] is Some);
            assert(0 <= entry_index(a0, items[x]) < a0.len());
            assert forall|h: int| 0 <= h < o.len() implies (#[trigger] asg[h] == e) == (o[h] == Some(x as usize)) by {
                assert(o[h] is Some);
                let y = o[h]->0 as int;
                assert(0 <= entry_index(a0, items[y]) < a0.len());
                if asg[h] == e {
                    assert(items[y] == a0[e].0 && items[x] == a0[e].0);
                    if y != x {
                        if y < x { assert(items[y] != items[x]); } else { assert(items[x] != items[y]); }
                    }
                }
            }
            lemma_uses_owned(o, asg, e, x);
            lemma_count_of_at(a0, e);
            assert(count_of(c, items[x]) == count_of(a0, items[x]) - cap * owned(o, x));
            assert(count_of(c, items[x]) >= 0);
        }
        assert(assignment_fits(a0, ings, cap, asg));
    }

    /// Grow the matching by augmenting paths from items still held `cap`
    /// times over; answer whether every slot got matched, after putting
    /// everything back.
    fn try_pick(&mut self, contents: &mut StackedContents, capacity: i32, Ghost(ings): Ghost<Seq<Seq<i32>>>) -> (r: bool)
        requires
            old(self).shape(ings, old(contents).entries()),
            old(self).takes(old(contents).entries(), old(contents).entries(), capacity as int),
            forall|g: int| 0 <= g < old(self).owner@.len() ==> #[trigger] old(self).owner@[g] is None,
            old(contents).wf(),
        ensures
            final(contents).entries() == old(contents).entries(),
            final(contents).wf(),
            r == feasible(old(contents).entries(), ings, capacity as int),
    {
        if capacity <= 0 {
            return true;
        }
        let ghost a0 = contents.entries();
        let ng = self.owner.len();
        let mut sat: usize = 0;
        proof {
            lemma_owned_none(self.owner@, 0);
        }
        loop
            invariant
                ng == self.owner@.len(),
                capacity > 0,
                a0 == old(contents).entries(),
                items_distinct(a0),
                self.shape(ings, a0),
                self.takes(contents.entries(), a0, capacity as int),
                contents.wf(),
                matched(self.owner@) == sat,
                sat <= ng,
            decreases ng - sat,
        {
            if !self.augment_once(contents, capacity, Ghost(ings), Ghost(a0)) {
                let is_valid = sat == ng;
                proof {
                    if is_valid {
                        lemma_matched_full(self.owner@);
                        self.lemma_witness(contents.entries(), a0, ings, capacity as int);
                    } else if feasible(a0, ings, capacity as int) {
                        self.lemma_complete(contents.entries(), a0, ings, capacity as int);
                    }
                }
                self.restore(contents, capacity, Ghost(ings), Ghost(a0));
                return is_valid;
            }
            proof {
                lemma_matched_bound(self.owner@);
            }
            sat = sat + 1;
        }
    }

    /// One augmentation: find a path from an item still held `cap` times
    /// over, take `cap` of that item and flip the path. False when there is
    /// none, with nothing changed but the marks.
    #[verifier::rlimit(60)]
    fn augment_once(&mut self, contents: &mut StackedContents, capacity: i32, Ghost(ings): Ghost<Seq<Seq<i32>>>, Ghost(a0): Ghost<Seq<(i32, i32)>>) -> (found: bool)
        requires
            old(self).shape(ings, a0),
            old(self).takes(old(contents).entries(), a0, capacity as int),
            old(contents).wf(),
            items_distinct(a0),
            capacity > 0,
        ensures
            final(self).shape(ings, a0),
            final(self).takes(final(contents).entries(), a0, capacity as int),
            final(contents).wf(),
            found ==> matched(final(self).owner@) == matched(old(self).owner@) + 1,
            !found ==> final(self).owner@ == old(self).owner@ && final(contents).entries() == old(contents).entries(),
            !found ==> final(self).closed_except(Seq::empty()),
            !found ==> forall|x: int| 0 <= x < final(self).items@.len() && count_of(final(contents).entries(), final(self).items@[x]) >= capacity
                ==> #[trigger] final(self).visited_item@[x],
    {
        proof {
            self.lemma_shape_dims(ings, a0);
        }
        match self.try_assigning_new_item(contents, capacity) {
            None => false,
            Some(path) => {
                let ghost c = contents.entries();
                let x0 = path[0];
                let it = self.items[x0];
                proof {
                    assert(holds(a0, it));
                    lemma_holds_keys(a0, c, it);
                    lemma_count_of_range(c, it);
                }
                contents.add_to(it, -capacity);
                let ghost before = *self;
                self.flip(&path);
                proof {
                    lemma_augment_shape(before, *self, path@, ings, a0);
                    lemma_augment_takes(before, *self, path@, c, contents.entries(), a0, capacity as int);
                }
                true
            },
        }
    }

    proof fn lemma_shape_dims(&self, ings: Seq<Seq<i32>>, a0: Seq<(i32, i32)>)
        requires
            self.shape(ings, a0),
        ensures
            self.dims(),
    {
    }
}


impl StackedContents {
    /// Whether every slot can be given `amount` of an item it accepts at
    /// once, no item given out beyond its count. The contents are put back
    /// before it returns: this asks, it does not consume.
    pub fn try_pick(&mut self, ingredients: &[Ingredient], amount: i32) -> (r: bool)
        requires
            old(self).wf(),
        ensures
            final(self).wf(),
            final(self).entries() == old(self).entries(),
            r == feasible(old(self).entries(), ingredient_sets(ingredients@), amount as int),
    {
        let ghost sets = ingredient_sets(ingredients@);
        let mut picker = RecipePicker::new(self, ingredients);
        proof {
            picker.lemma_takes_any(self.entries(), amount as int);
        }
        picker.try_pick(self, amount, Ghost(sets))
    }

    /// The largest batch that can be picked, searched by halving between 0
    /// and the least of `max_size` and the bound any single slot allows.
    /// The contents are left as they were.
    pub fn try_pick_all(&mut self, ingredients: &[Ingredient], max_size: i32) -> (r: i32)
        requires
            old(self).wf(),
        ensures
            final(self).wf(),
            final(self).entries() == old(self).entries(),
            max_size > 0 ==> 0 <= r <= max_size && r < i32::MAX,
            max_size > 0 ==> feasible(old(self).entries(), ingredient_sets(ingredients@), r as int),
            max_size > 0 ==> forall|k: int| r < k <= max_size && k < i32::MAX
                ==> !#[trigger] feasible(old(self).entries(), ingredient_sets(ingredients@), k),
            max_size <= 0 ==> r == (if max_size >= -1 { 0 } else { -((-1 - max_size) / 2) }),
    {
        let ghost a = self.entries();
        let ghost sets = ingredient_sets(ingredients@);
        let ub = self.result_upper_bound(ingredients);
        proof {
            lemma_upper_bound_range(a, sets);
        }
        let top = if max_size < ub { max_size } else { ub };
        let ghost hi: int = if max_size < i32::MAX { max_size as int } else { i32::MAX - 1 };
        let mut min: i32 = 0;
        let mut max: i32 = if top < i32::MAX { top + 1 } else { i32::MAX };
        proof {
            if max_size > 0 {
                assert forall|k: int| max <= k <= hi implies !#[trigger] feasible(a, sets, k) by {
                    if feasible(a, sets, k) {
                        lemma_feasible_bounded(a, sets, k);
                    }
                }
            }
        }
        loop
            invariant
                self.wf(),
                self.entries() == a,
                a == old(self).entries(),
                sets == ingredient_sets(ingredients@),
                hi == (if max_size < i32::MAX { max_size as int } else { i32::MAX - 1 }),
                max_size <= 0 ==> min == 0 && max == max_size + 1,
                max_size > 0 ==> 0 <= min < max,
                max_size > 0 ==> max <= hi + 1,
                max_size > 0 ==> feasible(a, sets, min as int),
                max_size > 0 ==> forall|k: int| max <= k <= hi ==> !#[trigger] feasible(a, sets, k),
            decreases max - min,
        {
            let mid = min + (max - min) / 2;
            proof {
                if max_size <= 0 {
                    lemma_tdiv_bounds((max - min) as int, 2);
                    assert(mid <= 0);
                }
            }
            if self.try_pick(ingredients, mid) {
                if max - min <= 1 {
                    return mid;
                }
                min = mid;
            } else {
                proof {
                    assert forall|k: int| mid <= k <= hi implies !#[trigger] feasible(a, sets, k) by {
                        if feasible(a, sets, k) {
                            lemma_feasible_smaller(a, sets, k, mid as int);
                        }
                    }
                }
                max = mid;
            }
        }
    }
}

/// The largest accepted count is at least any accepted entry's count.
proof fn lemma_best_count_ge(a: Seq<(i32, i32)>, ing: Seq<i32>, e: int)
    requires
        0 <= e < a.len(),
        ing.contains(a[e].0),
    ensures
        best_count(a, ing) >= a[e].1,
    decreases a.len(),
{
    if e < a.len() - 1 {
        lemma_best_count_ge(a.drop_last(), ing, e);
    }
}

/// Where every slot's largest accepted count reaches `k`, so does the bound.
proof fn lemma_upper_bound_ge(a: Seq<(i32, i32)>, ings: Seq<Seq<i32>>, k: int)
    requires
        k <= i32::MAX,
        forall|g: int| 0 <= g < ings.len() ==> best_count(a, #[trigger] ings[g]) >= k,
    ensures
        upper_bound(a, ings) >= k,
    decreases ings.len(),
{
    if ings.len() > 0 {
        assert(ings.last() == ings[ings.len() - 1]);
        assert forall|g: int| 0 <= g < ings.drop_last().len() implies best_count(a, #[trigger] ings.drop_last()[g]) >= k by {
            assert(ings.drop_last()[g] == ings[g]);
        }
        lemma_upper_bound_ge(a, ings.drop_last(), k);
    }
}

/// A batch that can be picked is within the bound every slot allows.
proof fn lemma_feasible_bounded(a: Seq<(i32, i32)>, ings: Seq<Seq<i32>>, k: int)
    requires
        feasible(a, ings, k),
        0 < k <= i32::MAX,
    ensures
        k <= upper_bound(a, ings),
{
    let asg = choose|asg: Seq<int>| #[trigger] assignment_fits(a, ings, k, asg);
    assert forall|g: int| 0 <= g < ings.len() implies best_count(a, #[trigger] ings[g]) >= k by {
        let e = asg[g];
        lemma_uses_at(asg, g);
        let u = uses(asg, e) as int;
        assert(k * u <= a[e].1);
        assert(k <= k * u) by (nonlinear_arith)
            requires
                u >= 1,
                k > 0,
        ;
        lemma_best_count_ge(a, ings[g], e);
    }
    lemma_upper_bound_ge(a, ings, k);
}

impl RecipePicker {
    /// With nothing matched, the contents are the original at any batch.
    proof fn lemma_takes_any(&self, c: Seq<(i32, i32)>, cap: int)
        requires
            self.takes(c, c, 0),
            forall|g: int| 0 <= g < self.owner@.len() ==> #[trigger] self.owner@[g] is None,
        ensures
            self.takes(c, c, cap),
    {
        assert forall|x: int| 0 <= x < self.items@.len() implies count_of(c, #[trigger] self.items@[x])
            == count_of(c, self.items@[x]) - cap * owned(self.owner@, x) by {
            lemma_owned_none(self.owner@, x);
            let o = owned(self.owner@, x) as int;
            assert(cap * o == 0) by (nonlinear_arith)
                requires
                    o == 0,
            ;
        }
    }
}

} // verus!
