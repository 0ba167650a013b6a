//! The working set of a search: a binary min-heap of tentative costs, each
//! with the number of the record that it belongs to.

use vstd::prelude::*;
use vstd::multiset::Multiset;
use vstd::seq_lib::{to_multiset_update, to_multiset_remove, to_multiset_build, to_multiset_len, to_multiset_contains};

verus! {

/// A tentative cost and the number of the record that carries it.
pub type Entry = (usize, usize);

/// Each item costs no less than the item at its parent position.
pub open spec fn heap_ordered(s: Seq<Entry>) -> bool {
    forall|i: int| 0 < i < s.len() ==> s[(i - 1) / 2].0 <= (#[trigger] s[i]).0
}

/// The heap order with one position `hole` left out: every other item costs
/// no less than its parent, and the children of `hole` cost no less than its
/// parent.
pub open spec fn ordered_but_above(s: Seq<Entry>, hole: int) -> bool {
    &&& forall|i: int| 0 < i < s.len() && i != hole ==> s[(i - 1) / 2].0 <= (#[trigger] s[i]).0
    &&& forall|i: int|
        0 < i < s.len() && (i - 1) / 2 == hole && hole > 0 ==> s[(hole - 1) / 2].0 <= (#[trigger] s[i]).0
}

/// The heap order with the children of `hole` left out: every item that is
/// no child of `hole` costs no less than its parent, and the children of
/// `hole` cost no less than its parent.
pub open spec fn ordered_but_below(s: Seq<Entry>, hole: int) -> bool {
    &&& forall|i: int| 0 < i < s.len() && (i - 1) / 2 != hole ==> s[(i - 1) / 2].0 <= (#[trigger] s[i]).0
    &&& forall|i: int|
        0 < i < s.len() && (i - 1) / 2 == hole && hole > 0 ==> s[(hole - 1) / 2].0 <= (#[trigger] s[i]).0
}

/// In a heap no item costs less than the first.
pub proof fn lemma_root_least(s: Seq<Entry>, i: int)
    requires
        heap_ordered(s),
        0 <= i < s.len(),
    ensures
        s[0].0 <= s[i].0,
    decreases i,
{
    if i > 0 {
        lemma_root_least(s, (i - 1) / 2);
    }
}

/// Exchanging two items of a sequence keeps what it holds.
pub proof fn lemma_exchange_keeps_items(s: Seq<Entry>, i: int, j: int)
    requires
        0 <= i < s.len(),
        0 <= j < s.len(),
    ensures
        s.update(i, s[j]).update(j, s[i]).to_multiset() == s.to_multiset(),
{
    let t = s.update(i, s[j]);
    to_multiset_update(s, i, s[j]);
    to_multiset_update(t, j, s[i]);
    to_multiset_contains(s, s[i]);
    to_multiset_contains(s, s[j]);
    assert(s.contains(s[i]));
    assert(s.contains(s[j]));
    assert(t.update(j, s[i]).to_multiset() =~= s.to_multiset());
}

/// A min-priority working set of entries.
pub struct Frontier {
    items: Vec<Entry>,
}

impl View for Frontier {
    type V = Multiset<Entry>;

    closed spec fn view(&self) -> Multiset<Entry> {
        self.items@.to_multiset()
    }
}

impl Frontier {
    /// The invariant: the items are in heap order.
    pub closed spec fn well_formed(&self) -> bool {
        heap_ordered(self.items@)
    }

    /// An empty working set.
    pub fn new() -> (f: Frontier)
        ensures
            f.well_formed(),
            f@ == Multiset::<Entry>::empty(),
    {
        let f = Frontier { items: Vec::new() };
        proof {
            to_multiset_len(f.items@);
            assert(f@.len() == 0);
            assert(f@ =~= Multiset::<Entry>::empty());
        }
        f
    }

    /// The number of entries held.
    pub fn len(&self) -> (n: usize)
        ensures
            n == self@.len(),
    {
        proof {
            to_multiset_len(self.items@);
        }
        self.items.len()
    }

    fn exchange(&mut self, i: usize, j: usize)
        requires
            i < old(self).items@.len(),
            j < old(self).items@.len(),
        ensures
            final(self).items@ == old(self).items@.update(i as int, old(self).items@[j as int]).update(
                j as int,
                old(self).items@[i as int],
            ),
            final(self)@ == old(self)@,
    {
        let a = self.items[i];
        let b = self.items[j];
        proof {
            lemma_exchange_keeps_items(self.items@, i as int, j as int);
        }
        self.items.set(i, b);
        self.items.set(j, a);
    }

    /// Adds the entry with the given cost and record number.
    pub fn push(&mut self, cost: usize, id: usize)
        requires
            old(self).well_formed(),
        ensures
            final(self).well_formed(),
            final(self)@ == old(self)@.insert((cost, id)),
            final(self)@.len() == old(self)@.len() + 1,
            forall|e: Entry|
                (#[trigger] final(self)@.count(e)) == old(self)@.count(e) + if e == (cost, id) {
                    1nat
                } else {
                    0nat
                },
    {
        broadcast use vstd::multiset::group_multiset_axioms;

        proof {
            to_multiset_build(self.items@, (cost, id));
        }
        self.items.push((cost, id));
        let mut i: usize = self.items.len() - 1;
        while i > 0
            invariant
                i < self.items@.len(),
                self@ == old(self)@.insert((cost, id)),
                ordered_but_above(self.items@, i as int),
            ensures
                heap_ordered(self.items@),
            decreases i,
        {
            let parent: usize = (i - 1) / 2;
            if self.items[parent].0 <= self.items[i].0 {
                break;
            }
            self.exchange(parent, i);
            i = parent;
        }
    }

    /// Takes out an entry of least cost, if there is any entry.
    pub fn pop(&mut self) -> (r: Option<Entry>)
        requires
            old(self).well_formed(),
        ensures
            final(self).well_formed(),
            match r {
                None => old(self)@.len() == 0 && final(self)@ == old(self)@,
                Some(e) => {
                    &&& old(self)@.count(e) > 0
                    &&& final(self)@ == old(self)@.remove(e)
                    &&& final(self)@.len() == old(self)@.len() - 1
                    &&& forall|o: Entry| old(self)@.count(o) > 0 ==> e.0 <= o.0
                    &&& forall|o: Entry|
                        (#[trigger] final(self)@.count(o)) == old(self)@.count(o) - if o == e {
                            1int
                        } else {
                            0int
                        }
                },
            },
    {
        broadcast use vstd::multiset::group_multiset_axioms;

        let n: usize = self.items.len();
        proof {
            to_multiset_len(self.items@);
        }
        if n == 0 {
            return None;
        }
        let top = self.items[0];
        let ghost before = self.items@;
        proof {
            to_multiset_contains(before, top);
            assert(before.contains(top));
            assert forall|o: Entry| self@.count(o) > 0 implies top.0 <= o.0 by {
                to_multiset_contains(before, o);
                let k = choose|k: int| 0 <= k < before.len() && before[k] == o;
                lemma_root_least(before, k);
            }
            to_multiset_remove(before, n - 1);
            assert(before.remove(n - 1) =~= before.drop_last());
        }
        let last = self.items.pop().unwrap();
        if n == 1 {
            return Some(top);
        }
        proof {
            to_multiset_update(self.items@, 0, last);
            to_multiset_contains(before, last);
            assert(before.contains(last));
            assert(before.to_multiset().remove(last).insert(last).remove(top) =~= before.to_multiset().remove(
                top,
            ));
        }
        self.items.set(0, last);
        let len: usize = n - 1;
        let mut i: usize = 0;
        while i < len - 1 - i
            invariant
                len == self.items@.len(),
                i < len,
                self@ == before.to_multiset().remove(top),
                ordered_but_below(self.items@, i as int),
            ensures
                heap_ordered(self.items@),
            decreases len - i,
        {
            let left: usize = 2 * i + 1;
            let right: usize = left + 1;
            let mut least: usize = i;
            if self.items[left].0 < self.items[least].0 {
                least = left;
            }
            if right < len && self.items[right].0 < self.items[least].0 {
                least = right;
            }
            if least == i {
                break;
            }
            self.exchange(i, least);
            i = least;
        }
        Some(top)
    }
}

} // verus!
