//! An insertion-ordered set of coordinates.

use vstd::prelude::*;
use crate::grid::Coords;

verus! {

/// `acc` with `c` added at the end, unless it is already there.
pub open spec fn add_distinct(acc: Seq<Coords>, c: Coords) -> Seq<Coords> {
    if acc.contains(c) { acc } else { acc.push(c) }
}

/// `acc` with every item of `items` added in turn, skipping those present.
pub open spec fn collect_distinct(acc: Seq<Coords>, items: Seq<Coords>) -> Seq<Coords>
    decreases items.len(),
{
    if items.len() == 0 {
        acc
    } else {
        add_distinct(collect_distinct(acc, items.drop_last()), items.last())
    }
}

/// Adding a distinct item keeps a sequence free of duplicates.
pub proof fn lemma_add_distinct_no_duplicates(acc: Seq<Coords>, c: Coords)
    requires
        acc.no_duplicates(),
    ensures
        add_distinct(acc, c).no_duplicates(),
        add_distinct(acc, c).contains(c),
        forall|d: Coords| acc.contains(d) ==> add_distinct(acc, c).contains(d),
        forall|d: Coords| add_distinct(acc, c).contains(d) ==> d == c || acc.contains(d),
{
    let out = add_distinct(acc, c);
    if !acc.contains(c) {
        assert(out[acc.len() as int] == c);
        assert forall|d: Coords| acc.contains(d) implies out.contains(d) by {
            let i = choose|i: int| 0 <= i < acc.len() && acc[i] == d;
            assert(out[i] == d);
        }
    }
}

/// A set of coordinates that remembers the order in which they were added.
pub struct CoordSet {
    items: Vec<Coords>,
}

impl View for CoordSet {
    type V = Seq<Coords>;

    closed spec fn view(&self) -> Seq<Coords> {
        self.items@
    }
}

impl CoordSet {
    /// No coordinate is held twice.
    pub open spec fn wf(&self) -> bool {
        self@.no_duplicates()
    }

    /// The empty set.
    pub fn new() -> (s: CoordSet)
        ensures
            s@ == Seq::<Coords>::empty(),
            s.wf(),
    {
        CoordSet { items: Vec::new() }
    }

    /// Number of coordinates held.
    pub fn len(&self) -> (n: usize)
        ensures
            n == self@.len(),
    {
        self.items.len()
    }

    /// The `i`-th coordinate in insertion order.
    pub fn get(&self, i: usize) -> (c: Coords)
        requires
            i < self@.len(),
        ensures
            c == self@[i as int],
    {
        self.items[i]
    }

    /// Whether `c` is in the set.
    pub fn contains(&self, c: Coords) -> (b: bool)
        ensures
            b == self@.contains(c),
    {
        let mut i: usize = 0;
        while i < self.items.len()
            invariant
                i <= self.items@.len(),
                forall|k: int| 0 <= k < i ==> self.items@[k] != c,
            decreases self.items@.len() - i,
        {
            if self.items[i] == c {
                return true;
            }
            i = i + 1;
        }
        false
    }

    /// Adds `c` unless it is present; returns whether it was added.
    pub fn insert(&mut self, c: Coords) -> (added: bool)
        requires
            old(self).wf(),
        ensures
            final(self)@ == add_distinct(old(self)@, c),
            final(self).wf(),
            added == !old(self)@.contains(c),
    {
        proof {
            lemma_add_distinct_no_duplicates(self@, c);
        }
        if self.contains(c) {
            false
        } else {
            self.items.push(c);
            true
        }
    }

    /// The coordinates in insertion order.
    pub fn to_vec(&self) -> (v: Vec<Coords>)
        ensures
            v@ == self@,
    {
        let mut v: Vec<Coords> = Vec::new();
        let mut i: usize = 0;
        while i < self.items.len()
            invariant
                i <= self.items@.len(),
                v@ == self.items@.take(i as int),
            decreases self.items@.len() - i,
        {
            v.push(self.items[i]);
            proof {
                assert(self.items@.take(i + 1) =~= self.items@.take(i as int).push(self.items@[i as int]));
            }
            i = i + 1;
        }
        proof {
            assert(self.items@.take(self.items@.len() as int) =~= self.items@);
        }
        v
    }
}

} // verus!
