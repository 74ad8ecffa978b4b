//! Values by text keys, kept in the order of the keys.

use crate::model::Duplicate;
use crate::text::{before, lemma_text_order, same_text, text_before};
use vstd::prelude::*;

verus! {

/// Values by keys.
#[derive(Debug)]
pub struct TextMap<V: View> {
    entries: Vec<(String, V)>,
}

impl<V: View> View for TextMap<V> {
    type V = Seq<(Seq<char>, V::V)>;

    closed spec fn view(&self) -> Seq<(Seq<char>, V::V)> {
        Seq::new(self.entries@.len(), |i: int| (self.entries@[i].0@, self.entries@[i].1@))
    }
}

/// Whether keys ascend.
pub open spec fn ascending<T>(s: Seq<(Seq<char>, T)>) -> bool {
    forall|i: int, j: int| #![trigger s[i], s[j]]
        0 <= i < j < s.len() ==> text_before(s[i].0, s[j].0)
}

/// How many entries stand before a key.
pub open spec fn rank<T>(s: Seq<(Seq<char>, T)>, key: Seq<char>) -> int
    decreases s.len(),
{
    if s.len() == 0 {
        0
    } else if text_before(s.last().0, key) {
        s.len() as int
    } else {
        rank(s.drop_last(), key)
    }
}

/// The value under a key.
pub open spec fn lookup<T>(s: Seq<(Seq<char>, T)>, key: Seq<char>) -> Option<T> {
    let p = rank(s, key);
    if p < s.len() && s[p].0 == key {
        Some(s[p].1)
    } else {
        None
    }
}

/// With a value under a key, in place of an earlier one.
pub open spec fn with_entry<T>(s: Seq<(Seq<char>, T)>, key: Seq<char>, value: T) -> Seq<
    (Seq<char>, T),
> {
    let p = rank(s, key);
    if p < s.len() && s[p].0 == key {
        s.update(p, (key, value))
    } else {
        s.insert(p, (key, value))
    }
}

/// Exactly the entries before the rank of a key come before it.
pub proof fn lemma_rank<T>(s: Seq<(Seq<char>, T)>, key: Seq<char>)
    requires
        ascending(s),
    ensures
        0 <= rank(s, key) <= s.len(),
        forall|i: int| #![trigger s[i]] 0 <= i < rank(s, key) ==> text_before(s[i].0, key),
        forall|i: int| #![trigger s[i]]
            rank(s, key) <= i < s.len() ==> !text_before(s[i].0, key),
    decreases s.len(),
{
    if s.len() > 0 {
        let last = s.last().0;
        if text_before(last, key) {
            assert forall|i: int| #![trigger s[i]] 0 <= i < s.len() implies text_before(
                s[i].0,
                key,
            ) by {
                if i < s.len() - 1 {
                    assert(text_before(s[i].0, s[s.len() - 1].0));
                    lemma_text_order(s[i].0, last, key);
                }
            }
        } else {
            let t = s.drop_last();
            assert(forall|i: int| #![trigger s[i]] 0 <= i < t.len() ==> t[i] == s[i]);
            lemma_rank(t, key);
        }
    }
}

/// A value is found exactly under the keys of the entries.
pub proof fn lemma_lookup<T>(s: Seq<(Seq<char>, T)>, i: int)
    requires
        ascending(s),
        0 <= i < s.len(),
    ensures
        lookup(s, s[i].0) == Some(s[i].1),
{
    let key = s[i].0;
    lemma_rank(s, key);
    lemma_text_order(key, key, key);
    let p = rank(s, key);
    if p < i {
        assert(text_before(s[p].0, s[i].0));
    }
    assert(p == i);
}

/// Entering a value keeps the order of the keys and changes what is found under that key alone.
pub proof fn lemma_with_entry<T>(s: Seq<(Seq<char>, T)>, key: Seq<char>, value: T)
    requires
        ascending(s),
    ensures
        ascending(with_entry(s, key, value)),
        lookup(with_entry(s, key, value), key) == Some(value),
        forall|other: Seq<char>| #![trigger lookup(with_entry(s, key, value), other)]
            other != key ==> lookup(with_entry(s, key, value), other) == lookup(s, other),
{
    let p = rank(s, key);
    let t = with_entry(s, key, value);
    lemma_rank(s, key);
    let replaced = p < s.len() && s[p].0 == key;
    assert(ascending(t)) by {
        assert forall|i: int, j: int| #![trigger t[i], t[j]] 0 <= i < j < t.len() implies text_before(
            t[i].0,
            t[j].0,
        ) by {
            if replaced {
                assert(t[i].0 == s[i].0 && t[j].0 == s[j].0);
            } else {
                let x = if i < p {
                    i
                } else {
                    i - 1
                };
                let y = if j < p {
                    j
                } else {
                    j - 1
                };
                if i != p {
                    assert(t[i] == s[x]);
                }
                if j != p {
                    assert(t[j] == s[y]);
                }
                if i == p {
                    assert(!text_before(s[y].0, key));
                    lemma_text_order(s[y].0, key, key);
                    if s[y].0 == key && y > p {
                        assert(text_before(s[p].0, s[y].0));
                    }
                }
            }
        }
    }
    assert(t[p] == (key, value));
    lemma_lookup(t, p);
    assert forall|other: Seq<char>| #![trigger lookup(t, other)] other != key implies lookup(t, other)
        == lookup(s, other) by {
        lemma_rank(t, other);
        lemma_rank(s, other);
        let a = rank(t, other);
        let b = rank(s, other);
        if lookup(t, other) is Some {
            assert(t[a].0 == other && a != p);
            let x = if replaced || a < p {
                a
            } else {
                a - 1
            };
            assert(t[a] == s[x]);
            lemma_lookup(s, x);
        } else if lookup(s, other) is Some {
            assert(s[b].0 == other);
            let x = if replaced || b < p {
                b
            } else {
                b + 1
            };
            assert(t[x] == s[b]);
            lemma_lookup(t, x);
        }
    }
}

/// What is found under the keys settles the entries and their order.
pub proof fn lemma_entries_settled<T>(a: Seq<(Seq<char>, T)>, b: Seq<(Seq<char>, T)>)
    requires
        ascending(a),
        ascending(b),
        forall|key: Seq<char>| #![trigger lookup(a, key)] lookup(a, key) == lookup(b, key),
    ensures
        a == b,
    decreases a.len(),
{
    if a.len() == 0 {
        if b.len() > 0 {
            lemma_lookup(b, 0);
            assert(lookup(a, b[0].0) == lookup(b, b[0].0));
        }
        assert(a =~= b);
    } else {
        let key = a.last().0;
        let n = a.len() - 1;
        lemma_lookup(a, n);
        assert(lookup(b, key) == lookup(a, key));
        lemma_rank(b, key);
        let p = rank(b, key);
        assert(p < b.len() && b[p] == a.last());
        if p < b.len() - 1 {
            let last = b.len() - 1;
            lemma_lookup(b, last);
            let top = b[last].0;
            assert(lookup(a, top) == lookup(b, top));
            lemma_rank(a, top);
            let q = rank(a, top);
            assert(a[q].0 == top);
            assert(text_before(b[p].0, b[last].0));
            if q < n {
                assert(text_before(a[q].0, a[n].0));
            }
            lemma_text_order(key, top, key);
        }
        let c = a.drop_last();
        let d = b.drop_last();
        assert(forall|i: int| 0 <= i < c.len() ==> #[trigger] c[i] == a[i]);
        assert(forall|i: int| 0 <= i < d.len() ==> #[trigger] d[i] == b[i]);
        assert forall|k: Seq<char>| #![trigger lookup(c, k)] lookup(c, k) == lookup(d, k) by {
            lemma_without_last(a, k);
            lemma_without_last(b, k);
            assert(lookup(a, k) == lookup(b, k));
        }
        lemma_entries_settled(c, d);
        assert(a =~= c.push(a.last()));
        assert(b =~= d.push(b.last()));
    }
}

proof fn lemma_without_last<T>(a: Seq<(Seq<char>, T)>, k: Seq<char>)
    requires
        ascending(a),
        a.len() > 0,
    ensures
        lookup(a.drop_last(), k) == if k == a.last().0 {
            None
        } else {
            lookup(a, k)
        },
{
    let c = a.drop_last();
    let n = a.len() - 1;
    assert(forall|i: int| 0 <= i < c.len() ==> #[trigger] c[i] == a[i]);
    lemma_rank(a, k);
    lemma_rank(c, k);
    let p = rank(c, k);
    let q = rank(a, k);
    if lookup(c, k) is Some {
        assert(a[p] == c[p]);
        lemma_lookup(a, p);
        assert(text_before(a[p].0, a[n].0));
        lemma_text_order(k, k, k);
    } else if lookup(a, k) is Some && k != a.last().0 {
        assert(q < n);
        assert(c[q] == a[q]);
        lemma_lookup(c, q);
    }
}

impl<V: View> TextMap<V> {
    #[verifier::type_invariant]
    closed spec fn valid(self) -> bool {
        ascending(self@)
    }

    /// No values.
    pub fn new() -> (r: TextMap<V>)
        ensures
            r@ == Seq::<(Seq<char>, V::V)>::empty(),
    {
        let r: TextMap<V> = TextMap { entries: Vec::new() };
        assert(r@ =~= Seq::<(Seq<char>, V::V)>::empty());
        r
    }

    /// How many entries there are.
    pub fn len(&self) -> (r: usize)
        ensures
            r == self@.len(),
            ascending(self@),
    {
        proof {
            use_type_invariant(self);
        }
        self.entries.len()
    }

    /// The key at a place.
    pub fn key(&self, i: usize) -> (r: &str)
        requires
            i < self@.len(),
        ensures
            r@ == self@[i as int].0,
    {
        self.entries[i].0.as_str()
    }

    /// The value at a place.
    pub fn value(&self, i: usize) -> (r: &V)
        requires
            i < self@.len(),
        ensures
            r@ == self@[i as int].1,
    {
        &self.entries[i].1
    }

    fn place(&self, key: &str) -> (r: usize)
        ensures
            r == rank(self@, key@),
            r <= self@.len(),
    {
        let ghost s = self@;
        let mut n: usize = self.entries.len();
        assert(s.take(n as int) =~= s);
        while n > 0 && !before(self.entries[n - 1].0.as_str(), key)
            invariant
                n <= self.entries@.len(),
                s == self@,
                rank(s, key@) == rank(s.take(n as int), key@),
            decreases n,
        {
            proof {
                assert(s.take(n as int).drop_last() =~= s.take(n - 1));
                assert(s.take(n as int).last() == s[n - 1]);
            }
            n = n - 1;
        }
        proof {
            if n > 0 {
                assert(s.take(n as int).last() == s[n - 1]);
            }
        }
        n
    }

    /// The value under a key.
    pub fn get(&self, key: &str) -> (r: Option<&V>)
        ensures
            match r {
                Some(v) => lookup(self@, key@) == Some(v@),
                None => lookup(self@, key@) is None,
            },
    {
        let p: usize = self.place(key);
        if p < self.entries.len() && same_text(self.entries[p].0.as_str(), key) {
            Some(&self.entries[p].1)
        } else {
            None
        }
    }

    /// Enters a value under a key, in place of an earlier one.
    pub fn insert(&mut self, key: &str, value: V)
        ensures
            final(self)@ == with_entry(old(self)@, key@, value@),
    {
        proof {
            use_type_invariant(&*self);
            lemma_with_entry(self@, key@, value@);
        }
        let p: usize = self.place(key);
        let ghost s = self@;
        let mut entries: Vec<(String, V)> = Vec::new();
        std::mem::swap(&mut entries, &mut self.entries);
        let ghost all = entries@;
        let entry: (String, V) = (key.to_owned(), value);
        if p < entries.len() && same_text(entries[p].0.as_str(), key) {
            entries.set(p, entry);
            assert(entries@ == all.update(p as int, entry));
        } else {
            entries.insert(p, entry);
            assert(entries@ == all.insert(p as int, entry));
        }
        let ghost shown = Seq::new(entries@.len(), |i: int| (entries@[i].0@, entries@[i].1@));
        assert(shown =~= with_entry(s, key@, value@));
        self.entries = entries;
    }
}

impl<V: View> Default for TextMap<V> {
    fn default() -> (r: Self)
        ensures
            r@ == Seq::<(Seq<char>, V::V)>::empty(),
    {
        TextMap::new()
    }
}

impl<V: Duplicate> TextMap<V> {
    /// The same entries.
    pub fn copied(&self) -> (r: TextMap<V>)
        ensures
            r@ == self@,
    {
        proof {
            use_type_invariant(self);
        }
        let mut entries: Vec<(String, V)> = Vec::new();
        let mut i: usize = 0;
        while i < self.entries.len()
            invariant
                i <= self.entries@.len(),
                entries@.len() == i,
                forall|j: int| #![trigger entries@[j]]
                    0 <= j < i ==> (entries@[j].0@, entries@[j].1@) == self@[j],
            decreases self.entries@.len() - i,
        {
            let ghost all = entries@;
            entries.push((self.entries[i].0.clone(), self.entries[i].1.duplicate()));
            assert(forall|j: int| 0 <= j < i ==> #[trigger] entries@[j] == all[j]);
            i = i + 1;
        }
        let ghost shown = Seq::new(entries@.len(), |j: int| (entries@[j].0@, entries@[j].1@));
        assert(shown =~= self@);
        TextMap { entries }
    }
}

} // verus!
