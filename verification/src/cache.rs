//! Small key/value caches: a single-entry cache and a least-recently-used
//! cache with a fixed capacity, both behind one `Cache` trait.

use vstd::prelude::*;
use vstd::laws_eq::obeys_concrete_eq;

verus! {

/// The position of the first entry of `es` whose key equals `key`;
/// `es.len()` when no entry matches.
pub open spec fn first_match_at<K, V>(es: Seq<(K, V)>, key: K) -> int
    decreases es.len(),
{
    if es.len() == 0 {
        0
    } else if es[0].0 == key {
        0
    } else {
        1 + first_match_at(es.drop_first(), key)
    }
}

/// The value of the first entry of `es` whose key equals `key`, if any.
pub open spec fn first_match<K, V>(es: Seq<(K, V)>, key: K) -> Option<V> {
    let i = first_match_at(es, key);
    if i < es.len() {
        Some(es[i].1)
    } else {
        None
    }
}

pub proof fn lemma_first_match_at<K, V>(es: Seq<(K, V)>, key: K)
    ensures
        0 <= first_match_at(es, key) <= es.len(),
        forall|j: int| 0 <= j < first_match_at(es, key) ==> es[j].0 != key,
        first_match_at(es, key) < es.len() ==> es[first_match_at(es, key)].0 == key,
    decreases es.len(),
{
    if es.len() > 0 && !(es[0].0 == key) {
        lemma_first_match_at(es.drop_first(), key);
        assert forall|j: int| 0 <= j < first_match_at(es, key) implies es[j].0 != key by {
            if j > 0 {
                assert(es.drop_first()[j - 1] == es[j]);
            }
        }
        if first_match_at(es, key) < es.len() {
            assert(es.drop_first()[first_match_at(es, key) - 1] == es[first_match_at(es, key)]);
        }
    }
}

/// A bounded map from keys to values that may forget entries when full.
///
/// `entries()` lists the live entries oldest first; a lookup returns the
/// value of the first entry whose key matches, and `capacity()` bounds how
/// many entries a well-formed cache retains.
pub trait Cache<K: Copy + Eq, V: Copy>: Sized {
    spec fn entries(&self) -> Seq<(K, V)>;

    spec fn capacity(&self) -> nat;

    spec fn inv(&self) -> bool;

    /// Record `value` under `key`; the new entry becomes the newest one, and
    /// at most a prefix of the older entries is evicted to make room.
    fn insert(&mut self, key: &K, value: V)
        requires
            old(self).inv(),
        ensures
            final(self).inv(),
            final(self).capacity() == old(self).capacity(),
            exists|n: int|
                0 <= n <= old(self).entries().len() && final(self).entries() == old(
                    self,
                ).entries().skip(n).push((*key, value)),
    ;

    /// Look `key` up: the result is the value of the first entry whose key
    /// equals `key`, or `None`. The set of live keys is not changed.
    fn find(&mut self, key: &K) -> (r: Option<V>)
        requires
            obeys_concrete_eq::<K>(),
            old(self).inv(),
        ensures
            final(self).inv(),
            final(self).capacity() == old(self).capacity(),
            r == first_match(old(self).entries(), *key),
            final(self).entries().len() == old(self).entries().len(),
    ;

    /// Look `key` up; on a miss, compute the value with `blk` and record it.
    fn find_or_create<F: Fn(&K) -> V>(&mut self, key: &K, blk: F) -> (r: V)
        requires
            obeys_concrete_eq::<K>(),
            old(self).inv(),
            call_requires(blk, (key,)),
        ensures
            final(self).inv(),
            final(self).capacity() == old(self).capacity(),
            (match first_match(old(self).entries(), *key) {
                Some(v) => r == v,
                None => call_ensures(blk, (key,), r) && exists|n: int|
                    0 <= n <= old(self).entries().len() && final(self).entries() == old(
                        self,
                    ).entries().skip(n).push((*key, r)),
            }),
    ;

    /// Drop every entry.
    fn evict_all(&mut self)
        requires
            old(self).inv(),
        ensures
            final(self).inv(),
            final(self).capacity() == old(self).capacity(),
            final(self).entries() == Seq::<(K, V)>::empty(),
    ;
}

/// A cache that holds at most one entry: a new insertion replaces it.
pub struct MonoCache<K, V> {
    entry: Option<(K, V)>,
}

impl<K: Copy + Eq, V: Copy> MonoCache<K, V> {
    /// The size argument is accepted for interface parity and ignored:
    /// this cache always holds at most one entry.
    pub fn new(_size: usize) -> (c: MonoCache<K, V>)
        ensures
            c.inv(),
            c.entries() == Seq::<(K, V)>::empty(),
            c.capacity() == 1,
    {
        MonoCache { entry: None }
    }
}

impl<K: Copy + Eq, V: Copy> Cache<K, V> for MonoCache<K, V> {
    closed spec fn entries(&self) -> Seq<(K, V)> {
        match self.entry {
            None => Seq::empty(),
            Some(e) => seq![e],
        }
    }

    closed spec fn capacity(&self) -> nat {
        1
    }

    closed spec fn inv(&self) -> bool {
        true
    }

    fn insert(&mut self, key: &K, value: V)
        ensures
            final(self).entries() == seq![(*key, value)],
    {
        proof {
            let n = self.entries().len() as int;
            assert(self.entries().skip(n).push((*key, value)) =~= seq![(*key, value)]);
        }
        self.entry = Some((*key, value));
    }

    fn find(&mut self, key: &K) -> (r: Option<V>)
        ensures
            *final(self) == *old(self),
    {
        proof {
            reveal(vstd::laws_eq::obeys_concrete_eq);
        }
        match self.entry {
            None => None,
            Some((k, v)) => if k == *key {
                Some(v)
            } else {
                proof {
                    assert(first_match_at(self.entries().drop_first(), *key) == 0);
                }
                None
            },
        }
    }

    fn find_or_create<F: Fn(&K) -> V>(&mut self, key: &K, blk: F) -> (r: V)
        ensures
            (match first_match(old(self).entries(), *key) {
                Some(_) => *final(self) == *old(self),
                None => final(self).entries() == seq![(*key, r)],
            }),
    {
        match self.find(key) {
            None => {
                let value = blk(key);
                proof {
                    let n = self.entries().len() as int;
                    assert(self.entries().skip(n).push((*key, value)) =~= seq![(*key, value)]);
                }
                self.entry = Some((*key, value));
                value
            },
            Some(v) => v,
        }
    }

    fn evict_all(&mut self) {
        self.entry = None;
    }
}

/// A least-recently-used cache of bounded size. Entries are kept oldest
/// first; a hit moves its entry to the newest end, and an insertion into a
/// full cache evicts the oldest entry.
pub struct LRUCache<K, V> {
    entries: Vec<(K, V)>,
    cache_size: usize,
}

impl<K: Copy + Eq, V: Copy> LRUCache<K, V> {
    pub fn new(size: usize) -> (c: LRUCache<K, V>)
        ensures
            c.entries() == Seq::<(K, V)>::empty(),
            c.capacity() == size,
            size >= 1 ==> c.inv(),
    {
        LRUCache { entries: Vec::new(), cache_size: size }
    }

    /// Move the entry at `pos` to the newest end and return its value.
    pub fn touch(&mut self, pos: usize) -> (r: V)
        requires
            pos < old(self).entries().len(),
        ensures
            r == old(self).entries()[pos as int].1,
            final(self).capacity() == old(self).capacity(),
            final(self).entries() == (if pos != old(self).capacity() {
                old(self).entries().remove(pos as int).push(old(self).entries()[pos as int])
            } else {
                old(self).entries()
            }),
            old(self).inv() ==> final(self).inv(),
    {
        let (key, val) = self.entries[pos];
        if pos != self.cache_size {
            self.entries.remove(pos);
            self.entries.push((key, val));
        }
        val
    }
}

impl<K: Copy + Eq, V: Copy> Cache<K, V> for LRUCache<K, V> {
    closed spec fn entries(&self) -> Seq<(K, V)> {
        self.entries@
    }

    closed spec fn capacity(&self) -> nat {
        self.cache_size as nat
    }

    closed spec fn inv(&self) -> bool {
        self.cache_size >= 1 && self.entries@.len() <= self.cache_size
    }

    fn insert(&mut self, key: &K, val: V)
        ensures
            final(self).entries() == (if old(self).entries().len() == old(self).capacity() {
                old(self).entries().drop_first()
            } else {
                old(self).entries()
            }).push((*key, val)),
    {
        if self.entries.len() == self.cache_size {
            self.entries.remove(0);
            proof {
                assert(self.entries@ =~= old(self).entries().skip(1));
            }
        }
        self.entries.push((*key, val));
        proof {
            if old(self).entries().len() == old(self).capacity() {
                assert(self.entries@ =~= old(self).entries().skip(1).push((*key, val)));
            } else {
                assert(self.entries@ =~= old(self).entries().skip(0).push((*key, val)));
            }
        }
    }

    fn find(&mut self, key: &K) -> (r: Option<V>)
        ensures
            final(self).entries() == ({
                let es = old(self).entries();
                let p = first_match_at(es, *key);
                if p < es.len() {
                    es.remove(p).push(es[p])
                } else {
                    es
                }
            }),
    {
        proof {
            reveal(vstd::laws_eq::obeys_concrete_eq);
            lemma_first_match_at(self.entries@, *key);
        }
        let n = self.entries.len();
        let mut i: usize = 0;
        while i < n
            invariant
                i <= n,
                n == self.entries@.len(),
                self.entries@ == old(self).entries(),
                self.cache_size == old(self).cache_size,
                obeys_concrete_eq::<K>(),
                old(self).inv(),
                forall|j: int| 0 <= j < i ==> old(self).entries()[j].0 != *key,
            decreases n - i,
        {
            let (k, _) = self.entries[i];
            if k == *key {
                proof {
                    reveal(vstd::laws_eq::obeys_concrete_eq);
                    lemma_first_match_at(old(self).entries(), *key);
                    assert(first_match_at(old(self).entries(), *key) == i);
                }
                let v = self.touch(i);
                return Some(v);
            }
            proof {
                reveal(vstd::laws_eq::obeys_concrete_eq);
            }
            i += 1;
        }
        proof {
            lemma_first_match_at(old(self).entries(), *key);
        }
        None
    }

    fn find_or_create<F: Fn(&K) -> V>(&mut self, key: &K, blk: F) -> (r: V)
        ensures
            final(self).entries() == ({
                let es = old(self).entries();
                let p = first_match_at(es, *key);
                if p < es.len() {
                    es.remove(p).push(es[p])
                } else {
                    (if es.len() == old(self).capacity() {
                        es.drop_first()
                    } else {
                        es
                    }).push((*key, r))
                }
            }),
    {
        match self.find(key) {
            Some(v) => v,
            None => {
                let val = blk(key);
                self.insert(key, val);
                val
            },
        }
    }

    fn evict_all(&mut self) {
        self.entries.clear();
    }
}

} // verus!
