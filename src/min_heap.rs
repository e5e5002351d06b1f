use vstd::laws_cmp::obeys_cmp;
use vstd::multiset::Multiset;
use vstd::prelude::*;
use std::cmp::Ordering;
use vstd::std_specs::cmp::{OrdSpec, PartialOrdSpec};

verus! {

/// `a` is ordered no later than `b`.
pub open spec fn key_le<T: Ord>(a: T, b: T) -> bool {
    a.cmp_spec(&b) != Ordering::Greater
}

/// The order `key_le` is total and transitive for any type whose `cmp` obeys the
/// laws of a total order.
pub proof fn lemma_key_le_total_order<T: Ord>()
    requires
        obeys_cmp::<T>(),
    ensures
        T::obeys_cmp_spec(),
        forall|a: T, b: T| #[trigger] a.cmp_spec(&b) == Ordering::Less <==> b.cmp_spec(&a) == Ordering::Greater,
        forall|a: T| #[trigger] key_le(a, a),
        forall|a: T, b: T| #[trigger] key_le(a, b) || key_le(b, a),
        forall|a: T, b: T, c: T| #[trigger] key_le(a, b) && #[trigger] key_le(b, c) ==> key_le(a, c),
{
    reveal(vstd::laws_cmp::obeys_partial_cmp_spec_properties);
    reveal(vstd::laws_cmp::obeys_cmp_partial_ord);
    reveal(vstd::laws_cmp::obeys_cmp_ord);
    reveal(vstd::laws_eq::obeys_eq_spec_properties);
    assert forall|a: T, b: T| #[trigger] a.cmp_spec(&b) == Ordering::Less <==> b.cmp_spec(&a) == Ordering::Greater by {
        assert(a.partial_cmp_spec(&b) == Some(a.cmp_spec(&b)));
        assert(b.partial_cmp_spec(&a) == Some(b.cmp_spec(&a)));
    }
    assert forall|a: T| #[trigger] key_le(a, a) by {
        assert(a.partial_cmp_spec(&a) == Some(a.cmp_spec(&a)));
    }
    assert forall|a: T, b: T| #[trigger] key_le(a, b) || key_le(b, a) by {
        assert(a.partial_cmp_spec(&b) == Some(a.cmp_spec(&b)));
        assert(b.partial_cmp_spec(&a) == Some(b.cmp_spec(&a)));
    }
    assert forall|a: T, b: T, c: T| #[trigger] key_le(a, b) && #[trigger] key_le(b, c) implies key_le(a, c) by {
        assert(a.partial_cmp_spec(&b) == Some(a.cmp_spec(&b)));
        assert(b.partial_cmp_spec(&c) == Some(b.cmp_spec(&c)));
        assert(a.partial_cmp_spec(&c) == Some(a.cmp_spec(&c)));
        assert(c.partial_cmp_spec(&a) == Some(c.cmp_spec(&a)));
        assert(b.partial_cmp_spec(&a) == Some(b.cmp_spec(&a)));
        assert(c.partial_cmp_spec(&b) == Some(c.cmp_spec(&b)));
    }
}

/// Each item of `s` is ordered no later than those after it.
pub open spec fn sorted_by_key<T: Ord>(s: Seq<T>) -> bool {
    forall|i: int, j: int| 0 <= i < j < s.len() ==> #[trigger] key_le(s[i], s[j])
}

/// Draining a queue yields one order for what it holds, however it was filled:
/// two sequences sorted by `key_le` with the same items are equal, when items
/// that compare equal are equal.
pub proof fn lemma_sorted_unique<T: Ord>(a: Seq<T>, b: Seq<T>)
    requires
        obeys_cmp::<T>(),
        vstd::laws_eq::obeys_concrete_eq::<T>(),
        a.to_multiset() == b.to_multiset(),
        sorted_by_key(a),
        sorted_by_key(b),
    ensures
        a == b,
    decreases a.len(),
{
    broadcast use vstd::seq_lib::group_to_multiset_ensures, vstd::multiset::group_multiset_axioms;

    vstd::seq_lib::to_multiset_len(a);
    vstd::seq_lib::to_multiset_len(b);
    if a.len() == 0 {
        assert(a =~= b);
    } else {
        lemma_key_le_total_order::<T>();
        let x = a[0];
        let y = b[0];
        assert(a.to_multiset().count(y) > 0);
        assert(b.to_multiset().count(x) > 0);
        let i = choose|i: int| 0 <= i < a.len() && a[i] == y;
        let j = choose|j: int| 0 <= j < b.len() && b[j] == x;
        if i > 0 {
            assert(key_le(a[0], a[i]));
        }
        if j > 0 {
            assert(key_le(b[0], b[j]));
        }
        assert(key_le(x, y) && key_le(y, x));
        assert(x == y) by {
            reveal(vstd::laws_cmp::obeys_partial_cmp_spec_properties);
            reveal(vstd::laws_cmp::obeys_cmp_partial_ord);
            reveal(vstd::laws_cmp::obeys_cmp_ord);
            reveal(vstd::laws_eq::obeys_concrete_eq);
            assert(x.partial_cmp_spec(&y) == Some(x.cmp_spec(&y)));
            assert(y.partial_cmp_spec(&x) == Some(y.cmp_spec(&x)));
        }
        vstd::seq_lib::to_multiset_remove(a, 0);
        vstd::seq_lib::to_multiset_remove(b, 0);
        assert(a.remove(0) =~= a.drop_first());
        assert(b.remove(0) =~= b.drop_first());
        assert(sorted_by_key(a.drop_first())) by {
            assert forall|p: int, q: int| 0 <= p < q < a.drop_first().len() implies #[trigger] key_le(
                a.drop_first()[p],
                a.drop_first()[q],
            ) by {
                assert(key_le(a[p + 1], a[q + 1]));
            }
        }
        assert(sorted_by_key(b.drop_first())) by {
            assert forall|p: int, q: int| 0 <= p < q < b.drop_first().len() implies #[trigger] key_le(
                b.drop_first()[p],
                b.drop_first()[q],
            ) by {
                assert(key_le(b[p + 1], b[q + 1]));
            }
        }
        lemma_sorted_unique(a.drop_first(), b.drop_first());
        assert(a =~= seq![x] + a.drop_first());
        assert(b =~= seq![y] + b.drop_first());
    }
}

/// A priority queue that always surfaces its least element.
///
/// The items are kept in a vector ordered from greatest to least, so that the
/// minimum is the last element: `peek` and `pop` take constant time, and `push`
/// finds the place of a new item by comparing from the least end.
pub struct MinHeap<T> {
    items: Vec<T>,
}

impl<T> View for MinHeap<T> {
    type V = Multiset<T>;

    /// The items that the queue currently holds.
    closed spec fn view(&self) -> Multiset<T> {
        self.items@.to_multiset()
    }
}

/// `x` is ordered no later than every item of `m`.
pub open spec fn is_least<T: Ord>(x: T, m: Multiset<T>) -> bool {
    forall|y: T| m.contains(y) ==> #[trigger] key_le(x, y)
}

impl<T: Ord> MinHeap<T> {
    /// The item type is totally ordered, and the stored items are ordered from
    /// greatest to least.
    pub closed spec fn wf(&self) -> bool {
        &&& obeys_cmp::<T>()
        &&& forall|i: int, j: int|
            0 <= i < j < self.items@.len() ==> #[trigger] key_le(self.items@[j], self.items@[i])
    }

    /// Every queue of a totally ordered item type is well formed.
    pub proof fn lemma_wf_implies_total_order(&self)
        requires
            self.wf(),
        ensures
            obeys_cmp::<T>(),
    {
    }

    /// An empty queue.
    pub fn new() -> (r: Self)
        requires
            obeys_cmp::<T>(),
        ensures
            r.wf(),
            r@ == Multiset::<T>::empty(),
    {
        let r = MinHeap { items: Vec::new() };
        proof {
            broadcast use vstd::seq_lib::group_to_multiset_ensures;
            assert(r.items@.to_multiset() =~= Multiset::<T>::empty());
        }
        r
    }

    /// Number of items held.
    pub fn len(&self) -> (r: usize)
        ensures
            r == self@.len(),
    {
        proof {
            broadcast use vstd::seq_lib::group_to_multiset_ensures;
        }
        self.items.len()
    }

    /// Adds `t` to the queue.
    pub fn push(&mut self, t: T)
        requires
            old(self).wf(),
        ensures
            final(self).wf(),
            final(self)@ == old(self)@.insert(t),
    {
        proof {
            lemma_key_le_total_order::<T>();
        }
        let mut i: usize = self.items.len();
        let mut found: bool = false;
        while i > 0 && !found
            invariant
                found ==> i > 0 && key_le(t, self.items@[i - 1]),
                self.wf(),
                self.items@ == old(self).items@,
                i <= self.items@.len(),
                forall|k: int| i <= k < self.items@.len() ==> #[trigger] key_le(self.items@[k], t),
            decreases i + if found { 0int } else { 1int },
        {
            proof {
                lemma_key_le_total_order::<T>();
            }
            let below = match self.items[i - 1].cmp(&t) {
                Ordering::Less => true,
                _ => false,
            };
            if below {
                i = i - 1;
            } else {
                found = true;
            }
        }
        proof {
            lemma_key_le_total_order::<T>();
            // Every item before position `i` is at least `t`.
            assert forall|k: int| 0 <= k < i implies key_le(t, #[trigger] self.items@[k]) by {
                if k < i - 1 {
                    assert(key_le(self.items@[i - 1], self.items@[k]));
                }
            }
        }
        let ghost before = self.items@;
        self.items.insert(i, t);
        proof {
            broadcast use vstd::seq_lib::to_multiset_insert;
            before.insert_ensures(i as int, t);
            assert forall|a: int, b: int|
                0 <= a < b < self.items@.len() implies #[trigger] key_le(
                self.items@[b],
                self.items@[a],
            ) by {
                if b < i {
                } else if b == i {
                    assert(self.items@[a] == before[a]);
                } else if a < i {
                    assert(self.items@[b] == before[b - 1]);
                    assert(key_le(before[b - 1], t));
                } else if a == i {
                    assert(self.items@[b] == before[b - 1]);
                } else {
                    assert(self.items@[b] == before[b - 1]);
                    assert(self.items@[a] == before[a - 1]);
                }
            }
        }
    }

    /// The least item, if any, left in place.
    pub fn peek(&self) -> (r: Option<&T>)
        requires
            self.wf(),
        ensures
            r is None <==> self@.len() == 0,
            r matches Some(x) ==> self@.contains(*x) && is_least(*x, self@),
    {
        let n = self.items.len();
        proof {
            broadcast use vstd::seq_lib::group_to_multiset_ensures;
        }
        if n == 0 {
            None
        } else {
            proof {
                self.lemma_last_is_least();
            }
            Some(&self.items[n - 1])
        }
    }

    /// Removes and returns the least item, if any.
    pub fn pop(&mut self) -> (r: Option<T>)
        requires
            old(self).wf(),
        ensures
            final(self).wf(),
            r is None <==> old(self)@.len() == 0,
            r is None ==> final(self)@ == old(self)@,
            r matches Some(x) ==> old(self)@.contains(x) && is_least(x, old(self)@)
                && final(self)@ == old(self)@.remove(x),
    {
        proof {
            broadcast use vstd::seq_lib::group_to_multiset_ensures;
            if self.items@.len() > 0 {
                self.lemma_last_is_least();
            }
        }
        let ghost before = self.items@;
        let r = self.items.pop();
        proof {
            if before.len() > 0 {
                assert(before == self.items@.push(before.last()));
            }
        }
        r
    }

    /// A queue holding the items of `v`: the same queue as pushing them one by one.
    pub fn from_vec(v: Vec<T>) -> (r: Self)
        requires
            obeys_cmp::<T>(),
        ensures
            r.wf(),
            r@ == v@.to_multiset(),
    {
        broadcast use vstd::seq_lib::group_to_multiset_ensures, vstd::multiset::group_multiset_axioms;

        let mut r = MinHeap::new();
        let mut v = v;
        let ghost all = v@;
        // Items are moved from the back of `v`, so `v` keeps a prefix of `all`.
        while v.len() > 0
            invariant
                r.wf(),
                all.len() >= v@.len(),
                v@ == all.subrange(0, v@.len() as int),
                r@.add(v@.to_multiset()) == all.to_multiset(),
            decreases v@.len(),
        {
            let ghost before = v@;
            let ghost rb = r@;
            let t = v.pop().unwrap();
            proof {
                assert(before == v@.push(t));
                vstd::seq_lib::to_multiset_build(v@, t);
                assert(v@ =~= all.subrange(0, v@.len() as int));
            }
            r.push(t);
            proof {
                assert(r@ == rb.insert(t));
                assert(rb.add(before.to_multiset()) == all.to_multiset());
                assert(r@.add(v@.to_multiset()) =~= all.to_multiset());
            }
        }
        proof {
            assert(v@.to_multiset() =~= Multiset::<T>::empty());
            assert(r@.add(Multiset::<T>::empty()) =~= r@);
        }
        r
    }

    /// The items held, in no particular order.
    pub fn into_vec(self) -> (r: Vec<T>)
        ensures
            r@.to_multiset() == self@,
    {
        self.items
    }

    /// Empties the queue by popping it repeatedly: the items come out from least
    /// to greatest, and they are exactly the items it held.
    pub fn into_sorted_vec(self) -> (r: Vec<T>)
        requires
            self.wf(),
        ensures
            r@.to_multiset() == self@,
            sorted_by_key(r@),
    {
        broadcast use vstd::seq_lib::group_to_multiset_ensures, vstd::multiset::group_multiset_axioms;

        let mut h = self;
        let mut r: Vec<T> = Vec::new();
        let ghost all = h@;
        proof {
            h.lemma_wf_implies_total_order();
            lemma_key_le_total_order::<T>();
        }
        while h.len() > 0
            invariant
                h.wf(),
                obeys_cmp::<T>(),
                h@.add(r@.to_multiset()) == all,
                forall|i: int, j: int| 0 <= i < j < r@.len() ==> #[trigger] key_le(r@[i], r@[j]),
                forall|i: int, y: T| 0 <= i < r@.len() && h@.contains(y) ==> #[trigger] key_le(r@[i], y),
            decreases h@.len(),
        {
            let ghost hb = h@;
            let ghost rb = r@;
            let t = h.pop().unwrap();
            r.push(t);
            proof {
                lemma_key_le_total_order::<T>();
                assert(r@ == rb.push(t));
                vstd::seq_lib::to_multiset_build(rb, t);
                assert(h@ == hb.remove(t));
                assert(hb.contains(t));
                assert(h@.add(r@.to_multiset()) =~= all);
                assert forall|i: int, j: int| 0 <= i < j < r@.len() implies #[trigger] key_le(r@[i], r@[j]) by {
                    if j == r@.len() - 1 && i < j {
                        assert(hb.contains(t));
                        assert(key_le(rb[i], t));
                    }
                }
                assert forall|i: int, y: T| 0 <= i < r@.len() && h@.contains(y) implies #[trigger] key_le(r@[i], y) by {
                    assert(hb.contains(y));
                    if i == r@.len() - 1 {
                        assert(key_le(t, y));
                    } else {
                        assert(key_le(rb[i], y));
                    }
                }
            }
        }
        proof {
            assert(h@ =~= Multiset::<T>::empty());
            assert(h@.add(r@.to_multiset()) =~= r@.to_multiset());
        }
        r
    }

    /// The last stored item is ordered no later than any other.
    proof fn lemma_last_is_least(&self)
        requires
            self.wf(),
            self.items@.len() > 0,
        ensures
            is_least(self.items@.last(), self@),
    {
        broadcast use vstd::seq_lib::group_to_multiset_ensures;
        let s = self.items@;
        lemma_key_le_total_order::<T>();
        assert forall|y: T| self@.contains(y) implies #[trigger] key_le(s.last(), y) by {
            assert(s.contains(y));
            let k = choose|k: int| 0 <= k < s.len() && s[k] == y;
            if k < s.len() - 1 {
                assert(key_le(s[s.len() - 1], s[k]));
            }
        }
    }
}

} // verus!
