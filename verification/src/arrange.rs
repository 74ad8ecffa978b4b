//! Putting items into an order.

use vstd::prelude::*;

verus! {

/// Items with a strict order, in which different items may be equal.
pub trait Ranked: Sized + Copy {
    spec fn before(self, other: Self) -> bool;

    fn ranks_before(&self, other: &Self) -> (r: bool)
        ensures
            r == self.before(*other),
    ;
}

/// The sequence with one more item, behind all items that it does not rank before.
pub open spec fn placed<T: Ranked>(s: Seq<T>, x: T) -> Seq<T>
    decreases s.len(),
{
    if s.len() == 0 || !x.before(s.last()) {
        s.push(x)
    } else {
        placed(s.drop_last(), x).push(s.last())
    }
}

/// The items in order; items that are equal in it stay as they were.
pub open spec fn arranged<T: Ranked>(s: Seq<T>) -> Seq<T>
    decreases s.len(),
{
    if s.len() == 0 {
        s
    } else {
        placed(arranged(s.drop_last()), s.last())
    }
}

fn place<T: Ranked>(v: &mut Vec<T>, x: T)
    ensures
        final(v)@ == placed(old(v)@, x),
{
    let ghost s = v@;
    let mut p: usize = v.len();
    assert(s.take(p as int) =~= s);
    assert(placed(s, x) =~= placed(s.take(p as int), x) + s.skip(p as int));
    while p > 0 && x.ranks_before(&v[p - 1])
        invariant
            p <= v@.len(),
            v@ == s,
            placed(s, x) == placed(s.take(p as int), x) + s.skip(p as int),
        decreases p,
    {
        proof {
            let t = s.take(p as int);
            assert(t.drop_last() =~= s.take(p - 1));
            assert(placed(t, x) == placed(s.take(p - 1), x).push(t.last()));
            assert(placed(s, x) =~= placed(s.take(p - 1), x) + s.skip(p - 1));
        }
        p = p - 1;
    }
    proof {
        let t = s.take(p as int);
        assert(placed(t, x) == t.push(x));
        assert(placed(s, x) =~= s.insert(p as int, x));
    }
    v.insert(p, x);
}

/// Puts items in order.
pub fn arrange<T: Ranked>(items: &Vec<T>) -> (r: Vec<T>)
    ensures
        r@ == arranged(items@),
{
    let mut r: Vec<T> = Vec::new();
    let mut i: usize = 0;
    while i < items.len()
        invariant
            i <= items@.len(),
            r@ == arranged(items@.take(i as int)),
        decreases items@.len() - i,
    {
        assert(items@.take(i + 1).drop_last() =~= items@.take(i as int));
        place(&mut r, items[i]);
        i = i + 1;
    }
    assert(items@.take(i as int) =~= items@);
    r
}

proof fn lemma_placed<T: Ranked>(s: Seq<T>, x: T)
    ensures
        placed(s, x).to_multiset() == s.to_multiset().insert(x),
        placed(s, x).len() == s.len() + 1,
    decreases s.len(),
{
    broadcast use vstd::seq_lib::group_to_multiset_ensures;

    if s.len() > 0 && x.before(s.last()) {
        lemma_placed(s.drop_last(), x);
        assert(s =~= s.drop_last().push(s.last()));
        assert(placed(s, x).to_multiset() =~= s.to_multiset().insert(x));
    } else {
        assert(placed(s, x).to_multiset() =~= s.to_multiset().insert(x));
    }
}

/// Putting items in order neither adds nor loses any.
pub proof fn lemma_arranged_items<T: Ranked>(s: Seq<T>)
    ensures
        arranged(s).to_multiset() == s.to_multiset(),
        arranged(s).len() == s.len(),
    decreases s.len(),
{
    broadcast use vstd::seq_lib::group_to_multiset_ensures;

    if s.len() > 0 {
        lemma_arranged_items(s.drop_last());
        lemma_placed(arranged(s.drop_last()), s.last());
        assert(s =~= s.drop_last().push(s.last()));
        assert(arranged(s).to_multiset() =~= s.to_multiset());
    }
}

/// What is put in order was there before.
pub proof fn lemma_arranged_from<T: Ranked>(s: Seq<T>, k: int)
    requires
        0 <= k < arranged(s).len(),
    ensures
        s.contains(arranged(s)[k]),
{
    lemma_arranged_items(s);
    let x = arranged(s)[k];
    arranged(s).to_multiset_ensures();
    s.to_multiset_ensures();
    assert(arranged(s).contains(x));
    assert(arranged(s).to_multiset().count(x) > 0);
}

/// Whether no item ranks before one that stands in front of it.
pub open spec fn in_order<T: Ranked>(s: Seq<T>) -> bool {
    forall|i: int, j: int| #![trigger s[i], s[j]] 0 <= i < j < s.len() ==> !s[j].before(s[i])
}

/// Whether the ranks of items form a strict order with ties.
pub open spec fn ranks_agree<T: Ranked>() -> bool {
    &&& forall|a: T, b: T| #![trigger a.before(b)] a.before(b) ==> !b.before(a)
    &&& forall|a: T, b: T, c: T| #![trigger b.before(a), c.before(b)]
        !b.before(a) && !c.before(b) ==> !c.before(a)
}

proof fn lemma_placed_members<T: Ranked>(s: Seq<T>, x: T, k: int)
    requires
        0 <= k < placed(s, x).len(),
    ensures
        placed(s, x)[k] == x || s.contains(placed(s, x)[k]),
    decreases s.len(),
{
    if s.len() == 0 || !x.before(s.last()) {
        if k < s.len() {
            assert(s[k] == placed(s, x)[k]);
        }
    } else {
        let t = placed(s.drop_last(), x);
        if k < t.len() {
            lemma_placed_members(s.drop_last(), x, k);
            if s.drop_last().contains(t[k]) {
                let i = choose|i: int| 0 <= i < s.drop_last().len() && s.drop_last()[i] == t[k];
                assert(s[i] == t[k]);
            }
        } else {
            assert(s[s.len() - 1] == placed(s, x)[k]);
        }
    }
}

proof fn lemma_placed_in_order<T: Ranked>(s: Seq<T>, x: T)
    requires
        ranks_agree::<T>(),
        in_order(s),
    ensures
        in_order(placed(s, x)),
    decreases s.len(),
{
    let p = placed(s, x);
    if s.len() == 0 || !x.before(s.last()) {
        assert forall|i: int, j: int| #![trigger p[i], p[j]] 0 <= i < j < p.len() implies !p[j].before(
            p[i],
        ) by {
            assert(p[i] == s[i]);
            if j < s.len() {
                assert(p[j] == s[j]);
            } else if i < s.len() - 1 {
                assert(!s[s.len() - 1].before(s[i]));
                assert(!x.before(s[s.len() - 1]));
            }
        }
    } else {
        let u = s.drop_last();
        assert forall|i: int, j: int| #![trigger u[i], u[j]] 0 <= i < j < u.len() implies !u[j].before(
            u[i],
        ) by {
            assert(u[i] == s[i] && u[j] == s[j]);
        }
        lemma_placed_in_order(u, x);
        let t = placed(u, x);
        let last = s.last();
        assert forall|i: int, j: int| #![trigger p[i], p[j]] 0 <= i < j < p.len() implies !p[j].before(
            p[i],
        ) by {
            assert(p[i] == t[i]);
            if j < t.len() {
                assert(p[j] == t[j]);
            } else {
                lemma_placed_members(u, x, i);
                if u.contains(t[i]) {
                    let k = choose|k: int| 0 <= k < u.len() && u[k] == t[i];
                    assert(s[k] == t[i]);
                    assert(!s[s.len() - 1].before(s[k]));
                } else {
                    assert(x.before(last));
                }
            }
        }
    }
}

/// Arranged items are in order.
pub proof fn lemma_arranged_in_order<T: Ranked>(s: Seq<T>)
    requires
        ranks_agree::<T>(),
    ensures
        in_order(arranged(s)),
    decreases s.len(),
{
    if s.len() > 0 {
        lemma_arranged_in_order(s.drop_last());
        lemma_placed_in_order(arranged(s.drop_last()), s.last());
    }
}

} // verus!
