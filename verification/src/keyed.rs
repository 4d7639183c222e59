//! Maps keyed by text.

use crate::text::str_eq;
use vstd::prelude::*;

verus! {

/// A key that can be compared.
pub trait MapKey: View + Sized {
    fn same(&self, other: &Self) -> (r: bool)
        ensures
            r == (self@ == other@),
    ;
}

impl MapKey for String {
    fn same(&self, other: &Self) -> bool {
        str_eq(self.as_str(), other.as_str())
    }
}

impl MapKey for (String, String) {
    fn same(&self, other: &Self) -> bool {
        str_eq(self.0.as_str(), other.0.as_str()) && str_eq(self.1.as_str(), other.1.as_str())
    }
}

/// A map, held as a list of entries with distinct keys.
#[derive(Debug)]
pub struct KeyedMap<K, V> {
    pub entries: Vec<(K, V)>,
}

/// Whether no key occurs twice.
pub open spec fn distinct<K: MapKey, V>(s: Seq<(K, V)>) -> bool {
    forall|i: int, j: int| 0 <= i < j < s.len() ==> (#[trigger] s[i]).0@ != (#[trigger] s[j]).0@
}

/// The map that a list of entries makes.
pub open spec fn map_of<K: MapKey, V>(s: Seq<(K, V)>) -> Map<K::V, V>
    decreases s.len(),
{
    if s.len() == 0 {
        Map::empty()
    } else {
        map_of(s.drop_last()).insert(s.last().0@, s.last().1)
    }
}

/// A map holds the keys of its entries with their values, and nothing else.
pub proof fn lemma_map_of<K: MapKey, V>(s: Seq<(K, V)>)
    requires
        distinct(s),
    ensures
        forall|i: int|
            0 <= i < s.len() ==> map_of(s).dom().contains((#[trigger] s[i]).0@) && map_of(
                s,
            )[s[i].0@] == s[i].1,
        forall|k: K::V|
            #[trigger] map_of(s).dom().contains(k) ==> exists|i: int|
                0 <= i < s.len() && (#[trigger] s[i]).0@ == k,
        map_of(s).dom().finite(),
        map_of(s).dom().len() == s.len(),
    decreases s.len(),
{
    if s.len() > 0 {
        let t = s.drop_last();
        assert(distinct(t)) by {
            assert forall|i: int, j: int| 0 <= i < j < t.len() implies (#[trigger] t[i]).0@ != (
            #[trigger] t[j]).0@ by {
                assert(s[i].0@ != s[j].0@);
            }
        }
        lemma_map_of(t);
        let last = s.len() - 1;
        assert(!map_of(t).dom().contains(s[last].0@)) by {
            if map_of(t).dom().contains(s[last].0@) {
                let i = choose|i: int| 0 <= i < t.len() && (#[trigger] t[i]).0@ == s[last].0@;
                assert(s[i].0@ != s[last].0@);
            }
        }
        assert forall|i: int| 0 <= i < s.len() implies map_of(s).dom().contains(
            (#[trigger] s[i]).0@,
        ) && map_of(s)[s[i].0@] == s[i].1 by {
            if i < last {
                assert(t[i] == s[i]);
            }
        }
        assert forall|k: K::V| #[trigger] map_of(s).dom().contains(k) implies exists|i: int|
            0 <= i < s.len() && (#[trigger] s[i]).0@ == k by {
            if k == s[last].0@ {
                assert(s[last].0@ == k);
            } else {
                let i = choose|i: int| 0 <= i < t.len() && (#[trigger] t[i]).0@ == k;
                assert(s[i].0@ == k);
            }
        }
    }
}

/// The entries of a map that meet a condition.
pub open spec fn kept<Q, V>(m: Map<Q, V>, p: spec_fn(Q, V) -> bool) -> Map<Q, V> {
    Map::new(|k: Q| m.dom().contains(k) && p(k, m[k]), |k: Q| m[k])
}

/// Whether `e` is one of the entries of `s` from `i` on, and meets a condition.
spec fn taken_from<K: MapKey, V>(
    s: Seq<(K, V)>,
    i: int,
    e: (K, V),
    p: spec_fn(K::V, V) -> bool,
) -> bool {
    p(e.0@, e.1) && exists|x: int| i <= x < s.len() && #[trigger] s[x] == e
}

/// The entries that meet a condition make the map of what is kept.
proof fn lemma_kept<K: MapKey, V>(s: Seq<(K, V)>, t: Seq<(K, V)>, p: spec_fn(K::V, V) -> bool)
    requires
        distinct(s),
        distinct(t),
        forall|a: int| 0 <= a < t.len() ==> taken_from(s, 0, #[trigger] t[a], p),
        forall|x: int|
            0 <= x < s.len() && p((#[trigger] s[x]).0@, s[x].1) ==> t.contains(s[x]),
    ensures
        map_of(t) == kept(map_of(s), p),
        map_of(t).dom().len() == t.len(),
        map_of(s).dom().len() == s.len(),
        map_of(s).dom().finite(),
{
    lemma_map_of(s);
    lemma_map_of(t);
    let m = map_of(s);
    let w = kept(m, p);
    assert forall|q: K::V| #[trigger] map_of(t).dom().contains(q) implies w.dom().contains(q)
        && map_of(t)[q] == w[q] by {
        let a = choose|a: int| 0 <= a < t.len() && (#[trigger] t[a]).0@ == q;
        assert(taken_from(s, 0, t[a], p));
        let x = choose|x: int| 0 <= x < s.len() && #[trigger] s[x] == t[a];
        assert(m[s[x].0@] == s[x].1);
        assert(map_of(t)[t[a].0@] == t[a].1);
    }
    assert forall|q: K::V| #[trigger] w.dom().contains(q) implies map_of(t).dom().contains(q) by {
        assert(m.dom().contains(q));
        let x = choose|x: int| 0 <= x < s.len() && (#[trigger] s[x]).0@ == q;
        assert(m[s[x].0@] == s[x].1);
        assert(t.contains(s[x]));
        let a = choose|a: int| 0 <= a < t.len() && t[a] == s[x];
        assert(t[a].0@ == q);
    }
    assert(map_of(t) =~= w);
}

impl<K: MapKey, V> View for KeyedMap<K, V> {
    type V = Map<K::V, V>;

    open spec fn view(&self) -> Map<K::V, V> {
        map_of(self.entries@)
    }
}

impl<K: MapKey, V> KeyedMap<K, V> {
    /// Whether no key occurs twice.
    pub open spec fn wf(&self) -> bool {
        distinct(self.entries@)
    }

    /// An empty map.
    pub fn new() -> (r: Self)
        ensures
            r.wf(),
            r@ == Map::<K::V, V>::empty(),
    {
        KeyedMap { entries: Vec::new() }
    }

    /// The number of keys.
    pub fn len(&self) -> (r: usize)
        requires
            self.wf(),
        ensures
            r == self@.dom().len(),
            self@.dom().finite(),
    {
        proof {
            lemma_map_of(self.entries@);
        }
        self.entries.len()
    }

    /// The place of a key.
    pub fn find(&self, key: &K) -> (r: Option<usize>)
        requires
            self.wf(),
        ensures
            match r {
                Some(i) => i < self.entries@.len() && self.entries@[i as int].0@ == key@
                    && self@.dom().contains(key@) && self@[key@] == self.entries@[i as int].1,
                None => !self@.dom().contains(key@),
            },
    {
        proof {
            lemma_map_of(self.entries@);
        }
        let mut i: usize = 0;
        while i < self.entries.len()
            invariant
                i <= self.entries@.len(),
                self.wf(),
                forall|j: int| 0 <= j < i ==> (#[trigger] self.entries@[j]).0@ != key@,
            decreases self.entries.len() - i,
        {
            if self.entries[i].0.same(key) {
                proof {
                    lemma_map_of(self.entries@);
                    assert(self.entries@[i as int].0@ == key@);
                }
                return Some(i);
            }
            i += 1;
        }
        None
    }

    /// The value of a key.
    pub fn get(&self, key: &K) -> (r: Option<&V>)
        requires
            self.wf(),
        ensures
            match r {
                Some(v) => self@.dom().contains(key@) && self@[key@] == *v,
                None => !self@.dom().contains(key@),
            },
    {
        match self.find(key) {
            Some(i) => Some(&self.entries[i].1),
            None => None,
        }
    }

    /// Sets the value of a key.
    pub fn insert(&mut self, key: K, value: V)
        requires
            old(self).wf(),
        ensures
            final(self).wf(),
            final(self)@ == old(self)@.insert(key@, value),
    {
        let ghost s = self.entries@;
        let ghost k = key@;
        match self.find(&key) {
            Some(i) => {
                self.entries.set(i, (key, value));
                proof {
                    let t = self.entries@;
                    assert forall|a: int, b: int| 0 <= a < b < t.len() implies (#[trigger] t[a]).0@
                        != (#[trigger] t[b]).0@ by {
                        assert(s[a].0@ != s[b].0@);
                    }
                    lemma_map_of(s);
                    lemma_map_of(t);
                    assert(map_of(t) =~= map_of(s).insert(k, value)) by {
                        assert forall|q: K::V| map_of(t).dom().contains(q) <==> map_of(s).insert(
                            k,
                            value,
                        ).dom().contains(q) by {
                            if map_of(t).dom().contains(q) {
                                let a = choose|a: int|
                                    0 <= a < t.len() && (#[trigger] t[a]).0@ == q;
                                assert(s[a].0@ == q);
                            }
                            if map_of(s).dom().contains(q) {
                                let a = choose|a: int|
                                    0 <= a < s.len() && (#[trigger] s[a]).0@ == q;
                                assert(t[a].0@ == q);
                            }
                            if q == k {
                                assert(t[i as int].0@ == q);
                            }
                        }
                        assert forall|q: K::V| map_of(t).dom().contains(q) implies #[trigger] map_of(
                            t,
                        )[q] == map_of(s).insert(k, value)[q] by {
                            let a = choose|a: int| 0 <= a < t.len() && (#[trigger] t[a]).0@ == q;
                            if a != i {
                                assert(t[a] == s[a]);
                                assert(s[a].0@ != k) by {
                                    if a < i {
                                        assert(s[a].0@ != s[i as int].0@);
                                    } else {
                                        assert(s[i as int].0@ != s[a].0@);
                                    }
                                }
                            } else {
                                assert(t[i as int].0@ == k);
                            }
                        }
                    }
                }
            },
            None => {
                self.entries.push((key, value));
                proof {
                    let t = self.entries@;
                    lemma_map_of(s);
                    assert forall|a: int, b: int| 0 <= a < b < t.len() implies (#[trigger] t[a]).0@
                        != (#[trigger] t[b]).0@ by {
                        if b < s.len() {
                            assert(s[a].0@ != s[b].0@);
                        } else {
                            assert(t[a] == s[a]);
                            assert(map_of(s).dom().contains(s[a].0@));
                        }
                    }
                    assert(t.drop_last() =~= s);
                }
            },
        }
    }

    /// Takes a key out.
    pub fn remove(&mut self, key: &K) -> (r: Option<V>)
        requires
            old(self).wf(),
        ensures
            final(self).wf(),
            final(self)@ == old(self)@.remove(key@),
            match r {
                Some(v) => old(self)@.dom().contains(key@) && old(self)@[key@] == v,
                None => !old(self)@.dom().contains(key@),
            },
    {
        let ghost s = self.entries@;
        match self.find(key) {
            Some(i) => {
                let e = self.entries.remove(i);
                proof {
                    let t = self.entries@;
                    assert forall|a: int| 0 <= a < t.len() implies #[trigger] t[a] == s[if a < i {
                        a
                    } else {
                        a + 1
                    }] by {}
                    assert forall|a: int, b: int| 0 <= a < b < t.len() implies (#[trigger] t[a]).0@
                        != (#[trigger] t[b]).0@ by {
                        let x = if a < i {
                            a
                        } else {
                            a + 1
                        };
                        let y = if b < i {
                            b
                        } else {
                            b + 1
                        };
                        assert(s[x].0@ != s[y].0@);
                    }
                    lemma_map_of(s);
                    lemma_map_of(t);
                    assert(map_of(t) =~= map_of(s).remove(key@)) by {
                        assert forall|q: K::V|
                            #[trigger] map_of(t).dom().contains(q) <==> map_of(s).remove(
                            key@,
                        ).dom().contains(q) by {
                            if map_of(t).dom().contains(q) {
                                let a = choose|a: int|
                                    0 <= a < t.len() && (#[trigger] t[a]).0@ == q;
                                let x = if a < i {
                                    a
                                } else {
                                    a + 1
                                };
                                assert(s[x].0@ == q);
                                if x < i {
                                    assert(s[x].0@ != s[i as int].0@);
                                } else {
                                    assert(s[i as int].0@ != s[x].0@);
                                }
                            }
                            if map_of(s).remove(key@).dom().contains(q) {
                                let x = choose|x: int|
                                    0 <= x < s.len() && (#[trigger] s[x]).0@ == q;
                                let a = if x < i {
                                    x
                                } else {
                                    x - 1
                                };
                                assert(t[a].0@ == q);
                            }
                        }
                        assert forall|q: K::V| map_of(t).dom().contains(q) implies #[trigger] map_of(
                            t,
                        )[q] == map_of(s).remove(key@)[q] by {
                            let a = choose|a: int| 0 <= a < t.len() && (#[trigger] t[a]).0@ == q;
                            let x = if a < i {
                                a
                            } else {
                                a + 1
                            };
                            assert(t[a] == s[x]);
                            assert(map_of(t).dom().contains(q) && q != key@);
                        }
                    }
                }
                Some(e.1)
            },
            None => {
                assert(self@ =~= old(self)@.remove(key@));
                None
            },
        }
    }

    /// Takes every key out.
    pub fn clear(&mut self)
        ensures
            final(self).wf(),
            final(self)@ == Map::<K::V, V>::empty(),
    {
        self.entries = Vec::new();
    }

    /// Takes out the entries that do not meet a condition, and says how many there were.
    pub fn retain<F: Fn(&K, &V) -> bool>(
        &mut self,
        keep: F,
        Ghost(p): Ghost<spec_fn(K::V, V) -> bool>,
    ) -> (r: usize)
        requires
            old(self).wf(),
            forall|k: &K, v: &V| call_requires(keep, (k, v)),
            forall|k: &K, v: &V, b: bool|
                #![trigger call_ensures(keep, (k, v), b)]
                call_ensures(keep, (k, v), b) ==> b == p(k@, *v),
        ensures
            final(self).wf(),
            final(self)@ == kept(old(self)@, p),
            r + final(self)@.dom().len() == old(self)@.dom().len(),
            old(self)@.dom().finite(),
    {
        let ghost s = self.entries@;
        let ghost m = map_of(s);
        let n: usize = self.entries.len();
        let mut rest: Vec<(K, V)> = Vec::new();
        std::mem::swap(&mut rest, &mut self.entries);
        let mut out: Vec<(K, V)> = Vec::new();
        let mut i: usize = n;
        while i > 0
            invariant
                i <= n,
                n == s.len(),
                m == map_of(s),
                distinct(s),
                rest@ == s.take(i as int),
                distinct(out@),
                out@.len() <= n - i,
                forall|k: &K, v: &V| call_requires(keep, (k, v)),
                forall|k: &K, v: &V, b: bool|
                    #![trigger call_ensures(keep, (k, v), b)]
                    call_ensures(keep, (k, v), b) ==> b == p(k@, *v),
                forall|a: int| 0 <= a < out@.len() ==> taken_from(s, i as int, #[trigger] out@[a], p),
                forall|x: int|
                    i <= x < n && p((#[trigger] s[x]).0@, s[x].1) ==> out@.contains(s[x]),
            decreases i,
        {
            let e = rest.pop().unwrap();
            i -= 1;
            proof {
                assert(e == s[i as int]);
                assert(s.take(i + 1).drop_last() =~= s.take(i as int));
            }
            let ghost before = out@;
            if keep(&e.0, &e.1) {
                out.push(e);
                proof {
                    assert forall|a: int, b: int| 0 <= a < b < out@.len() implies (
                    #[trigger] out@[a]).0@ != (#[trigger] out@[b]).0@ by {
                        if b < before.len() {
                            assert(before[a].0@ != before[b].0@);
                        } else {
                            assert(out@[a] == before[a]);
                            assert(taken_from(s, i + 1, before[a], p));
                            let x = choose|x: int|
                                i + 1 <= x < s.len() && #[trigger] s[x] == before[a];
                            assert(s[i as int].0@ != s[x].0@);
                        }
                    }
                }
            }
            proof {
                assert forall|a: int| 0 <= a < out@.len() implies taken_from(
                    s,
                    i as int,
                    #[trigger] out@[a],
                    p,
                ) by {
                    if a < before.len() {
                        assert(out@[a] == before[a]);
                        assert(taken_from(s, i + 1, before[a], p));
                        let x = choose|x: int|
                            i + 1 <= x < s.len() && #[trigger] s[x] == before[a];
                        assert(s[x] == out@[a]);
                    } else {
                        assert(s[i as int] == out@[a]);
                    }
                }
                assert forall|x: int| i <= x < n && p(
                    (#[trigger] s[x]).0@,
                    s[x].1,
                ) implies out@.contains(s[x]) by {
                    if x == i {
                        assert(out@[before.len() as int] == s[x]);
                    } else {
                        assert(before.contains(s[x]));
                        let a = choose|a: int| 0 <= a < before.len() && before[a] == s[x];
                        assert(out@[a] == s[x]);
                    }
                }
            }
        }
        proof {
            lemma_kept(s, out@, p);
        }
        let removed: usize = n - out.len();
        self.entries = out;
        removed
    }
}

} // verus!
