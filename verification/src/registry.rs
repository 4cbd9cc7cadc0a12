//! A registry as the client holds it: numeric ids paired with namespaced
//! names, neither repeated, looked up either way.

use vstd::prelude::*;
use crate::text::str_eq;

verus! {

/// The pairs as values.
pub open spec fn pairs_view(e: Seq<(i32, String)>) -> Seq<(i32, Seq<char>)> {
    e.map_values(|p: (i32, String)| (p.0, p.1@))
}

/// No id and no name occurs twice.
pub open spec fn pairs_ok(r: Seq<(i32, Seq<char>)>) -> bool {
    forall|i: int, j: int| 0 <= i < j < r.len() ==> r[i].0 != r[j].0 && r[i].1 != r[j].1
}

/// The id registered under `name`, if any.
pub open spec fn id_spec(r: Seq<(i32, Seq<char>)>, name: Seq<char>) -> Option<i32> {
    if exists|i: int| 0 <= i < r.len() && r[i].1 == name {
        Some(r[choose|i: int| 0 <= i < r.len() && r[i].1 == name].0)
    } else {
        None
    }
}

/// The name registered under `id`, if any.
pub open spec fn name_spec(r: Seq<(i32, Seq<char>)>, id: i32) -> Option<Seq<char>> {
    if exists|i: int| 0 <= i < r.len() && r[i].0 == id {
        Some(r[choose|i: int| 0 <= i < r.len() && r[i].0 == id].1)
    } else {
        None
    }
}

/// In a registry with nothing repeated the entry at `i` is what both
/// lookups find.
pub proof fn lemma_lookups_at(r: Seq<(i32, Seq<char>)>, i: int)
    requires
        pairs_ok(r),
        0 <= i < r.len(),
    ensures
        id_spec(r, r[i].1) == Some(r[i].0),
        name_spec(r, r[i].0) == Some(r[i].1),
{
    let a = choose|k: int| 0 <= k < r.len() && r[k].1 == r[i].1;
    if a != i {
        if a < i { assert(r[a].1 != r[i].1); } else { assert(r[i].1 != r[a].1); }
    }
    let b = choose|k: int| 0 <= k < r.len() && r[k].0 == r[i].0;
    if b != i {
        if b < i { assert(r[b].0 != r[i].0); } else { assert(r[i].0 != r[b].0); }
    }
}

/// The two lookups are inverse: `name` is registered under `id` exactly
/// when `id` is under `name`.
pub proof fn lemma_lookups_inverse(r: Seq<(i32, Seq<char>)>, id: i32, name: Seq<char>)
    requires
        pairs_ok(r),
    ensures
        (name_spec(r, id) == Some(name)) == (id_spec(r, name) == Some(id)),
{
    if name_spec(r, id) == Some(name) {
        let i = choose|k: int| 0 <= k < r.len() && r[k].0 == id;
        lemma_lookups_at(r, i);
    }
    if id_spec(r, name) == Some(id) {
        let i = choose|k: int| 0 <= k < r.len() && r[k].1 == name;
        lemma_lookups_at(r, i);
    }
}

/// A registry: `(id, name)` pairs, no id and no name twice.
#[derive(Clone, Debug)]
pub struct Registry {
    entries: Vec<(i32, String)>,
}

impl Registry {
    pub closed spec fn pairs(&self) -> Seq<(i32, Seq<char>)> {
        pairs_view(self.entries@)
    }

    pub open spec fn wf(&self) -> bool {
        pairs_ok(self.pairs())
    }

    /// A registry of `pairs`, or `None` when an id or a name repeats.
    pub fn from_pairs(pairs: &[(i32, &str)]) -> (r: Option<Self>)
        ensures
            r is Some <==> pairs_ok(pairs@.map_values(|p: (i32, &str)| (p.0, p.1@))),
            r matches Some(g) ==> g.wf() && g.pairs() == pairs@.map_values(|p: (i32, &str)| (p.0, p.1@)),
    {
        let ghost want = pairs@.map_values(|p: (i32, &str)| (p.0, p.1@));
        let n = pairs.len();
        let mut entries: Vec<(i32, String)> = Vec::new();
        let mut i: usize = 0;
        while i < n
            invariant
                n == pairs@.len(),
                i <= n,
                want == pairs@.map_values(|p: (i32, &str)| (p.0, p.1@)),
                pairs_view(entries@) == want.take(i as int),
                pairs_ok(want.take(i as int)),
            decreases n - i,
        {
            let (id, name) = pairs[i];
            let mut j: usize = 0;
            while j < i
                invariant
                    i < n,
                    n == pairs@.len(),
                    j <= i,
                    want == pairs@.map_values(|p: (i32, &str)| (p.0, p.1@)),
                    (id, name@) == want[i as int],
                    forall|k: int| 0 <= k < j ==> want[k].0 != id && want[k].1 != name@,
                decreases i - j,
            {
                let (id2, name2) = pairs[j];
                if id2 == id || str_eq(name2, name) {
                    proof {
                        assert(want[j as int] == (id2, name2@));
                        assert(!pairs_ok(want));
                    }
                    return None;
                }
                j = j + 1;
            }
            let owned = name.to_owned();
            let ghost before = entries@;
            entries.push((id, owned));
            proof {
                assert(owned@ == name@);
                assert(entries@ == before.push((id, owned)));
                assert(pairs_view(entries@) =~= pairs_view(before).push((id, name@)));
                assert(want[i as int] == (id, name@));
                assert(want.take(i + 1) =~= want.take(i as int).push(want[i as int]));
                assert(pairs_view(entries@) =~= want.take(i + 1));
                assert(pairs_ok(want.take(i + 1)));
            }
            i = i + 1;
        }
        proof {
            assert(want.take(n as int) =~= want);
        }
        Some(Registry { entries })
    }

    /// The id registered under `name`.
    pub fn id_of(&self, name: &str) -> (r: Option<i32>)
        requires
            self.wf(),
        ensures
            r == id_spec(self.pairs(), name@),
    {
        let n = self.entries.len();
        let mut i: usize = 0;
        while i < n
            invariant
                n == self.entries@.len(),
                i <= n,
                pairs_ok(self.pairs()),
                forall|k: int| 0 <= k < i ==> self.pairs()[k].1 != name@,
            decreases n - i,
        {
            if str_eq(self.entries[i].1.as_str(), name) {
                proof {
                    lemma_lookups_at(self.pairs(), i as int);
                }
                return Some(self.entries[i].0);
            }
            i = i + 1;
        }
        None
    }

    /// The name registered under `id`.
    pub fn name(&self, id: i32) -> (r: Option<&str>)
        requires
            self.wf(),
        ensures
            match r {
                Some(s) => name_spec(self.pairs(), id) == Some(s@),
                None => name_spec(self.pairs(), id) is None,
            },
    {
        let n = self.entries.len();
        let mut i: usize = 0;
        while i < n
            invariant
                n == self.entries@.len(),
                i <= n,
                pairs_ok(self.pairs()),
                forall|k: int| 0 <= k < i ==> self.pairs()[k].0 != id,
            decreases n - i,
        {
            if self.entries[i].0 == id {
                proof {
                    lemma_lookups_at(self.pairs(), i as int);
                }
                return Some(self.entries[i].1.as_str());
            }
            i = i + 1;
        }
        None
    }

    /// The ids, in registration order.
    pub fn ids(&self) -> (r: Vec<i32>)
        ensures
            r@ == self.pairs().map_values(|p: (i32, Seq<char>)| p.0),
    {
        let n = self.entries.len();
        let mut out: Vec<i32> = Vec::new();
        let mut i: usize = 0;
        while i < n
            invariant
                n == self.entries@.len(),
                i <= n,
                out@ == self.pairs().take(i as int).map_values(|p: (i32, Seq<char>)| p.0),
            decreases n - i,
        {
            out.push(self.entries[i].0);
            proof {
                assert(self.pairs().take(i + 1) =~= self.pairs().take(i as int).push(self.pairs()[i as int]));
                assert(out@ =~= self.pairs().take(i + 1).map_values(|p: (i32, Seq<char>)| p.0));
            }
            i = i + 1;
        }
        proof {
            assert(self.pairs().take(n as int) =~= self.pairs());
        }
        out
    }

    /// How many entries there are.
    pub fn len(&self) -> (r: usize)
        ensures
            r == self.pairs().len(),
    {
        self.entries.len()
    }
}

/// The three registries the statistics name through: the stat types, the
/// custom statistics and the blocks.
#[derive(Clone, Debug)]
pub struct StatRegistries {
    pub stat_type: Registry,
    pub custom_stat: Registry,
    pub block: Registry,
}

impl StatRegistries {
    pub open spec fn wf(&self) -> bool {
        self.stat_type.wf() && self.custom_stat.wf() && self.block.wf()
    }

    /// The three registries, or `None` when any repeats an id or a name.
    pub fn from_pairs(stat_types: &[(i32, &str)], custom: &[(i32, &str)], blocks: &[(i32, &str)]) -> (r: Option<Self>)
        ensures
            r is Some <==> pairs_ok(stat_types@.map_values(|p: (i32, &str)| (p.0, p.1@)))
                && pairs_ok(custom@.map_values(|p: (i32, &str)| (p.0, p.1@)))
                && pairs_ok(blocks@.map_values(|p: (i32, &str)| (p.0, p.1@))),
            r matches Some(g) ==> g.wf()
                && g.stat_type.pairs() == stat_types@.map_values(|p: (i32, &str)| (p.0, p.1@))
                && g.custom_stat.pairs() == custom@.map_values(|p: (i32, &str)| (p.0, p.1@))
                && g.block.pairs() == blocks@.map_values(|p: (i32, &str)| (p.0, p.1@)),
    {
        let stat_type = Registry::from_pairs(stat_types);
        let custom_stat = Registry::from_pairs(custom);
        let block = Registry::from_pairs(blocks);
        match (stat_type, custom_stat, block) {
            (Some(stat_type), Some(custom_stat), Some(block)) => Some(StatRegistries { stat_type, custom_stat, block }),
            _ => None,
        }
    }
}

} // verus!
