//! The language map: translation lookups that fall back to the key, and
//! filling a translation template with its arguments.

use vstd::prelude::*;
use crate::text::{chars_of, str_eq, string_from_chars};

verus! {

/// A template with its `%s` placeholders filled in order from `args`,
/// starting at argument `next`: `%%` stands for a literal `%`, a `%s` with no
/// argument left stays as written, and any other character is copied.
pub open spec fn fill(t: Seq<char>, args: Seq<Seq<char>>, next: int) -> Seq<char>
    decreases t.len(),
{
    if t.len() == 0 {
        Seq::empty()
    } else if t[0] == '%' && t.len() >= 2 && t[1] == 's' {
        (if 0 <= next < args.len() { args[next] } else { seq!['%', 's'] }) + fill(t.skip(2), args, next + 1)
    } else if t[0] == '%' && t.len() >= 2 && t[1] == '%' {
        seq!['%'] + fill(t.skip(2), args, next)
    } else {
        seq![t[0]] + fill(t.skip(1), args, next)
    }
}

/// Fills `template` from `args` (see [`fill`]).
pub fn format_chars(template: &Vec<char>, args: &Vec<Vec<char>>) -> (r: Vec<char>)
    ensures
        r@ == fill(template@, args@.map_values(|a: Vec<char>| a@), 0),
{
    let ghost a = args@.map_values(|a: Vec<char>| a@);
    let ghost t = template@;
    let mut out: Vec<char> = Vec::new();
    let n = template.len();
    let mut i: usize = 0;
    let mut next: usize = 0;
    proof {
        assert(t.skip(0) =~= t);
        assert(out@ =~= Seq::<char>::empty());
    }
    while i < n
        invariant
            n == t.len(),
            t == template@,
            a == args@.map_values(|a: Vec<char>| a@),
            i <= n,
            next <= i,
            out@ + fill(t.skip(i as int), a, next as int) == fill(t, a, 0),
        decreases n - i,
    {
        let ghost rest = t.skip(i as int);
        let c = template[i];
        if c == '%' && i + 1 < n && template[i + 1] == 's' {
            proof {
                assert(rest.skip(2) =~= t.skip(i + 2));
            }
            if next < args.len() {
                let arg = &args[next];
                let m = arg.len();
                let ghost before = out@;
                let mut k: usize = 0;
                while k < m
                    invariant
                        m == arg@.len(),
                        k <= m,
                        out@ == before + arg@.take(k as int),
                    decreases m - k,
                {
                    out.push(arg[k]);
                    proof {
                        assert(arg@.take(k + 1) =~= arg@.take(k as int).push(arg@[k as int]));
                    }
                    k = k + 1;
                }
                proof {
                    assert(arg@.take(m as int) =~= arg@);
                    assert(a[next as int] == arg@);
                    assert(out@ + fill(t.skip(i + 2), a, next + 1) =~= before + fill(rest, a, next as int));
                }
            } else {
                let ghost before = out@;
                out.push('%');
                out.push('s');
                proof {
                    assert(out@ + fill(t.skip(i + 2), a, next + 1) =~= before + fill(rest, a, next as int));
                }
            }
            i = i + 2;
            next = next + 1;
        } else if c == '%' && i + 1 < n && template[i + 1] == '%' {
            proof {
                assert(rest.skip(2) =~= t.skip(i + 2));
            }
            let ghost before = out@;
            out.push('%');
            proof {
                assert(out@ + fill(t.skip(i + 2), a, next as int) =~= before + fill(rest, a, next as int));
            }
            i = i + 2;
        } else {
            proof {
                assert(rest.skip(1) =~= t.skip(i + 1));
            }
            let ghost before = out@;
            out.push(c);
            proof {
                assert(out@ + fill(t.skip(i + 1), a, next as int) =~= before + fill(rest, a, next as int));
            }
            i = i + 1;
        }
    }
    proof {
        assert(t.skip(n as int) =~= Seq::<char>::empty());
    }
    out
}

/// The translation stored for `key`, the last entry for it winning.
pub open spec fn lookup_spec(e: Seq<(Seq<char>, Seq<char>)>, key: Seq<char>) -> Option<Seq<char>>
    decreases e.len(),
{
    if e.len() == 0 {
        None
    } else if e.last().0 == key {
        Some(e.last().1)
    } else {
        lookup_spec(e.drop_last(), key)
    }
}

/// `getOrDefault(key, key)`: the translation, or the key itself.
pub open spec fn or_key_spec(e: Seq<(Seq<char>, Seq<char>)>, key: Seq<char>) -> Seq<char> {
    match lookup_spec(e, key) {
        Some(t) => t,
        None => key,
    }
}

/// A language: translation keys and their texts.
#[derive(Clone, Debug)]
pub struct Language {
    entries: Vec<(String, String)>,
}

impl Language {
    pub closed spec fn pairs(&self) -> Seq<(Seq<char>, Seq<char>)> {
        self.entries@.map_values(|p: (String, String)| (p.0@, p.1@))
    }

    /// A language holding `pairs`; a later pair for the same key wins.
    pub fn from_map(pairs: &[(&str, &str)]) -> (r: Self)
        ensures
            r.pairs() == pairs@.map_values(|p: (&str, &str)| (p.0@, p.1@)),
    {
        let ghost want = pairs@.map_values(|p: (&str, &str)| (p.0@, p.1@));
        let n = pairs.len();
        let mut entries: Vec<(String, String)> = Vec::new();
        let mut i: usize = 0;
        while i < n
            invariant
                n == pairs@.len(),
                i <= n,
                want == pairs@.map_values(|p: (&str, &str)| (p.0@, p.1@)),
                entries@.map_values(|p: (String, String)| (p.0@, p.1@)) == want.take(i as int),
            decreases n - i,
        {
            let (k, v) = pairs[i];
            let ko = k.to_owned();
            let vo = v.to_owned();
            let ghost before = entries@;
            entries.push((ko, vo));
            proof {
                assert(entries@ == before.push((ko, vo)));
                assert(want.take(i + 1) =~= want.take(i as int).push(want[i as int]));
                assert(entries@.map_values(|p: (String, String)| (p.0@, p.1@)) =~= want.take(i + 1));
            }
            i = i + 1;
        }
        proof {
            assert(want.take(n as int) =~= want);
        }
        Language { entries }
    }

    /// The translation of `key`, or the key itself when there is none.
    pub fn or_key(&self, key: &str) -> (r: String)
        ensures
            r@ == or_key_spec(self.pairs(), key@),
    {
        let ghost e = self.pairs();
        let mut i = self.entries.len();
        proof {
            assert(e.take(i as int) =~= e);
        }
        while i > 0
            invariant
                i <= self.entries@.len(),
                e == self.pairs(),
                lookup_spec(e, key@) == lookup_spec(e.take(i as int), key@),
            decreases i,
        {
            proof {
                assert(e.take(i as int).drop_last() =~= e.take(i - 1));
                assert(e.take(i as int).last() == e[i - 1]);
            }
            if str_eq(self.entries[i - 1].0.as_str(), key) {
                return self.entries[i - 1].1.clone();
            }
            i = i - 1;
        }
        proof {
            assert(e.take(0) =~= Seq::<(Seq<char>, Seq<char>)>::empty());
        }
        key.to_owned()
    }

    /// The translation of `key` (or the key) with its `%s` placeholders
    /// filled from `args`.
    pub fn translate(&self, key: &str, args: &[&str]) -> (r: String)
        ensures
            r@ == fill(or_key_spec(self.pairs(), key@), args@.map_values(|a: &str| a@), 0),
    {
        let template = self.or_key(key);
        let t = chars_of(template.as_str());
        let n = args.len();
        let mut av: Vec<Vec<char>> = Vec::new();
        let mut i: usize = 0;
        while i < n
            invariant
                n == args@.len(),
                i <= n,
                av@.map_values(|a: Vec<char>| a@) == args@.take(i as int).map_values(|a: &str| a@),
            decreases n - i,
        {
            let arg: &str = args[i];
            let cs = chars_of(arg);
            let ghost before = av@;
            av.push(cs);
            proof {
                assert(cs@ == args@[i as int]@);
                assert(av@ == before.push(cs));
                assert(args@.take(i + 1) =~= args@.take(i as int).push(args@[i as int]));
                assert(av@.map_values(|a: Vec<char>| a@) =~= before.map_values(|a: Vec<char>| a@).push(cs@));
                assert(args@.take(i + 1).map_values(|a: &str| a@) =~= args@.take(i as int).map_values(|a: &str| a@).push(args@[i as int]@));
                assert(av@.map_values(|a: Vec<char>| a@) =~= args@.take(i + 1).map_values(|a: &str| a@));
            }
            i = i + 1;
        }
        proof {
            assert(args@.take(n as int) =~= args@);
        }
        let out = format_chars(&t, &av);
        string_from_chars(&out)
    }
}

} // verus!
