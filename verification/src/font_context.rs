//! Caching and name-substitution helpers for font selection: a
//! least-recently-used cache keyed by font style, and the table that maps
//! generic family names to concrete ones.

use vstd::prelude::*;
use vstd::laws_eq::obeys_concrete_eq;
use crate::cache::{first_match, first_match_at, lemma_first_match_at};
use crate::text::{first_at, lemma_first_at, split_at, str_eq, trim, trimmed};

verus! {

/// A least-recently-used cache of bounded size, keeping its entries oldest
/// first. A hit moves the entry to the newest end; inserting into a full
/// cache evicts the oldest entry.
pub struct LRUCache<K, V> {
    entries: Vec<(K, V)>,
    cache_size: usize,
}

impl<K: Copy + Eq, V: Copy> LRUCache<K, V> {
    pub closed spec fn entries(&self) -> Seq<(K, V)> {
        self.entries@
    }

    pub closed spec fn capacity(&self) -> nat {
        self.cache_size as nat
    }

    pub closed spec fn inv(&self) -> bool {
        self.cache_size >= 1 && self.entries@.len() <= self.cache_size
    }

    pub fn new(cache_size: usize) -> (c: LRUCache<K, V>)
        ensures
            c.entries() == Seq::<(K, V)>::empty(),
            c.capacity() == cache_size,
            cache_size >= 1 ==> c.inv(),
    {
        LRUCache { entries: Vec::new(), cache_size }
    }

    /// Move the entry at `pos` to the newest end and return its value.
    pub fn touch(&mut self, pos: usize) -> (r: V)
        requires
            pos < old(self).entries().len(),
        ensures
            r == old(self).entries()[pos as int].1,
            final(self).capacity() == old(self).capacity(),
            final(self).entries() == (if pos != old(self).capacity() {
                old(self).entries().remove(pos as int).push(old(self).entries()[pos as int])
            } else {
                old(self).entries()
            }),
            old(self).inv() ==> final(self).inv(),
    {
        let (key, val) = self.entries[pos];
        if pos != self.cache_size {
            self.entries.remove(pos);
            self.entries.push((key, val));
        }
        val
    }

    /// Look `key` up: the result is the value of the first entry whose key
    /// equals `key`, or `None`; a hit moves that entry to the newest end.
    pub fn lookup(&mut self, key: &K) -> (r: Option<V>)
        requires
            obeys_concrete_eq::<K>(),
            old(self).inv(),
        ensures
            final(self).inv(),
            final(self).capacity() == old(self).capacity(),
            r == first_match(old(self).entries(), *key),
            final(self).entries() == ({
                let es = old(self).entries();
                let p = first_match_at(es, *key);
                if p < es.len() {
                    es.remove(p).push(es[p])
                } else {
                    es
                }
            }),
    {
        proof {
            reveal(vstd::laws_eq::obeys_concrete_eq);
            lemma_first_match_at(self.entries@, *key);
        }
        let n = self.entries.len();
        let mut i: usize = 0;
        while i < n
            invariant
                i <= n,
                n == self.entries@.len(),
                self.entries@ == old(self).entries(),
                self.cache_size == old(self).cache_size,
                obeys_concrete_eq::<K>(),
                old(self).inv(),
                forall|j: int| 0 <= j < i ==> old(self).entries()[j].0 != *key,
            decreases n - i,
        {
            let (k, _) = self.entries[i];
            if k == *key {
                proof {
                    reveal(vstd::laws_eq::obeys_concrete_eq);
                    lemma_first_match_at(old(self).entries(), *key);
                    assert(first_match_at(old(self).entries(), *key) == i);
                }
                let v = self.touch(i);
                return Some(v);
            }
            proof {
                reveal(vstd::laws_eq::obeys_concrete_eq);
            }
            i += 1;
        }
        proof {
            lemma_first_match_at(old(self).entries(), *key);
        }
        None
    }

    /// Record `val` under `key` as the newest entry, evicting the oldest
    /// entry when the cache is full, and hand `val` back.
    pub fn insert(&mut self, key: &K, val: V) -> (r: V)
        requires
            old(self).inv(),
        ensures
            r == val,
            final(self).inv(),
            final(self).capacity() == old(self).capacity(),
            final(self).entries() == (if old(self).entries().len() == old(self).capacity() {
                old(self).entries().drop_first()
            } else {
                old(self).entries()
            }).push((*key, val)),
    {
        if self.entries.len() == self.cache_size {
            self.entries.remove(0);
            proof {
                assert(self.entries@ =~= old(self).entries().skip(1));
            }
        }
        self.entries.push((*key, val));
        proof {
            assert(old(self).entries().skip(1) =~= old(self).entries().drop_first());
        }
        val
    }

    /// Look `key` up; on a miss, compute the value with `f` and record it.
    pub fn lookup_or_insert<F: Fn(&K) -> V>(&mut self, key: &K, f: F) -> (r: V)
        requires
            obeys_concrete_eq::<K>(),
            old(self).inv(),
            call_requires(f, (key,)),
        ensures
            final(self).inv(),
            final(self).capacity() == old(self).capacity(),
            (match first_match(old(self).entries(), *key) {
                Some(v) => r == v,
                None => call_ensures(f, (key,), r) && final(self).entries() == (if old(
                    self,
                ).entries().len() == old(self).capacity() {
                    old(self).entries().drop_first()
                } else {
                    old(self).entries()
                }).push((*key, r)),
            }),
    {
        match self.lookup(key) {
            Some(v) => v,
            None => {
                let val = f(key);
                self.insert(key, val)
            },
        }
    }
}


/// The substitutions a font context is created with: each generic family
/// name and the concrete family it stands for.
pub open spec fn default_pairs() -> Seq<(Seq<char>, Seq<char>)> {
    seq![
        ("serif"@, "Times New Roman"@),
        ("sans-serif"@, "Arial"@),
        ("cursive"@, "Apple Chancery"@),
        ("fantasy"@, "Papyrus"@),
        ("monospace"@, "Menlo"@),
    ]
}

/// The table mapping generic font family names (`serif`, `monospace`, ...)
/// to the concrete families the platform is asked for.
pub struct FontSubstitutions {
    pairs: Vec<(String, String)>,
}

impl FontSubstitutions {
    pub closed spec fn pairs(&self) -> Seq<(Seq<char>, Seq<char>)> {
        self.pairs.deep_view()
    }

    pub fn new() -> (s: FontSubstitutions)
        ensures
            s.pairs() == default_pairs(),
    {
        let mut pairs: Vec<(String, String)> = Vec::new();
        pairs.push(("serif".to_owned(), "Times New Roman".to_owned()));
        pairs.push(("sans-serif".to_owned(), "Arial".to_owned()));
        pairs.push(("cursive".to_owned(), "Apple Chancery".to_owned()));
        pairs.push(("fantasy".to_owned(), "Papyrus".to_owned()));
        pairs.push(("monospace".to_owned(), "Menlo".to_owned()));
        let s = FontSubstitutions { pairs };
        proof {
            assert(s.pairs() =~~= default_pairs());
        }
        s
    }

    /// Map a family name through the table: the first matching entry's
    /// concrete family, or the name itself when no entry matches.
    pub fn transform_family(&self, family: &str) -> (r: String)
        ensures
            r@ == (match first_match(self.pairs(), family@) {
                Some(m) => m,
                None => family@,
            }),
    {
        proof {
            lemma_first_match_at(self.pairs(), family@);
        }
        let n = self.pairs.len();
        let mut i: usize = 0;
        while i < n
            invariant
                i <= n,
                n == self.pairs@.len(),
                forall|j: int| 0 <= j < i ==> self.pairs()[j].0 != family@,
            decreases n - i,
        {
            if str_eq(self.pairs[i].0.as_str(), family) {
                proof {
                    lemma_first_match_at(self.pairs(), family@);
                    assert(self.pairs()[i as int].0 == self.pairs@[i as int].0@);
                    assert(first_match_at(self.pairs(), family@) == i);
                }
                return self.pairs[i].1.clone();
            }
            i += 1;
        }
        proof {
            lemma_first_match_at(self.pairs(), family@);
        }
        family.to_owned()
    }
}


/// The concrete family a single (possibly padded) name resolves to: the
/// name is trimmed and mapped through the substitution table.
pub open spec fn resolved_family(
    pairs: Seq<(Seq<char>, Seq<char>)>,
    name: Seq<char>,
) -> Seq<char> {
    match first_match(pairs, trimmed(name)) {
        Some(m) => m,
        None => trimmed(name),
    }
}

/// The concrete families a comma-separated `font-family` list resolves
/// to, in order.
pub open spec fn resolved_families(
    pairs: Seq<(Seq<char>, Seq<char>)>,
    s: Seq<char>,
) -> Seq<Seq<char>> {
    split_at(s, ',').map_values(|part: Seq<char>| resolved_family(pairs, part))
}

impl FontSubstitutions {
    /// Split a `font-family` list on commas, trim each name, and map it
    /// through the substitution table: the family names, in order, that
    /// the platform's font list is then asked for.
    pub fn resolve_families(&self, families: &str) -> (r: Vec<String>)
        ensures
            r.deep_view() == resolved_families(self.pairs(), families@),
    {
        let s = families;
        let n = s.unicode_len();
        let mut r: Vec<String> = Vec::new();
        let mut start: usize = 0;
        proof {
            assert(r.deep_view() =~~= Seq::<Seq<char>>::empty());
            assert(s@.skip(0) =~= s@);
            assert(r.deep_view() + resolved_families(self.pairs(), s@.skip(0)) =~~=
                resolved_families(self.pairs(), s@));
        }
        loop
            invariant_except_break
                start <= n,
                n == s@.len(),
                r.deep_view() + resolved_families(self.pairs(), s@.skip(start as int))
                    =~~= resolved_families(self.pairs(), s@),
            ensures
                r.deep_view() =~~= resolved_families(self.pairs(), s@),
            decreases n - start,
        {
            let ghost tail = s@.skip(start as int);
            let mut c = start;
            while c < n
                invariant
                    start <= c <= n,
                    n == s@.len(),
                    forall|j: int| start <= j < c ==> s@[j] != ',',
                ensures
                    start <= c <= n,
                    forall|j: int| start <= j < c ==> s@[j] != ',',
                    c < n ==> s@[c as int] == ',',
                decreases n - c,
            {
                if s.get_char(c) == ',' {
                    break;
                }
                c += 1;
            }
            proof {
                lemma_first_at(tail, ',');
                assert forall|j: int| 0 <= j < c - start implies tail[j] != ',' by {
                    assert(tail[j] == s@[j + start]);
                }
                if c < n {
                    assert(tail[c - start] == s@[c as int]);
                }
                assert(first_at(tail, ',') == c - start);
            }
            let seg = s.substring_char(start, c);
            let name = trim(seg);
            let resolved = self.transform_family(name.as_str());
            let ghost before = r.deep_view();
            r.push(resolved);
            proof {
                assert(r.deep_view() =~~= before.push(resolved_family(
                    self.pairs(),
                    tail.take(c - start),
                ))) by {
                    assert(tail.take(c - start) =~= seg@);
                }
            }
            if c == n {
                proof {
                    assert(split_at(tail, ',') =~~= seq![tail]);
                    assert(tail.take(c - start) =~= tail);
                    assert(resolved_families(self.pairs(), tail) =~~= seq![
                        resolved_family(self.pairs(), tail),
                    ]);
                    assert(r.deep_view() =~~= before + resolved_families(self.pairs(), tail));
                }
                break;
            }
            proof {
                let rest = tail.skip(c - start + 1);
                assert(split_at(tail, ',') =~~= seq![tail.take(c - start)] + split_at(
                    rest,
                    ',',
                ));
                assert(resolved_families(self.pairs(), tail) =~~= seq![
                    resolved_family(self.pairs(), tail.take(c - start)),
                ] + resolved_families(self.pairs(), rest));
                assert(rest =~= s@.skip(c + 1));
            }
            start = c + 1;
        }
        r
    }
}

} // verus!
