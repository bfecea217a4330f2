//! Weighted edges ordered for a min-weight-first priority queue.

use vstd::prelude::*;

verus! {

/// A weighted edge between two positions of a candidate-node list.
///
/// The ordering is inverted: the edge with the smaller weight is the greater
/// one, so that the "largest" element of a queue is the cheapest edge. Two
/// edges are equal when their weights are equal; the endpoints are ignored.
#[derive(Debug, Clone, Copy)]
pub struct Edge {
    weight: u64,
    from: usize,
    to: usize,
}

impl Edge {
    pub closed spec fn spec_weight(&self) -> u64 {
        self.weight
    }

    pub closed spec fn spec_from(&self) -> usize {
        self.from
    }

    pub closed spec fn spec_to(&self) -> usize {
        self.to
    }

    pub fn new(weight: u64, from: usize, to: usize) -> (r: Self)
        ensures
            r.spec_weight() == weight,
            r.spec_from() == from,
            r.spec_to() == to,
    {
        Edge { weight, from, to }
    }

    pub fn get_weight(&self) -> (r: u64)
        ensures
            r == self.spec_weight(),
    {
        self.weight
    }

    pub fn get_from(&self) -> (r: usize)
        ensures
            r == self.spec_from(),
    {
        self.from
    }

    pub fn get_to(&self) -> (r: usize)
        ensures
            r == self.spec_to(),
    {
        self.to
    }

    /// The edge as `(from, to, weight)`.
    pub fn get_tuple(&self) -> (r: (usize, usize, u64))
        ensures
            r == (self.spec_from(), self.spec_to(), self.spec_weight()),
    {
        (self.from, self.to, self.weight)
    }
}

impl PartialEq for Edge {
    fn eq(&self, other: &Edge) -> (r: bool) {
        self.weight == other.weight
    }
}

impl vstd::std_specs::cmp::PartialEqSpecImpl for Edge {
    open spec fn obeys_eq_spec() -> bool {
        true
    }

    open spec fn eq_spec(&self, other: &Edge) -> bool {
        self.spec_weight() == other.spec_weight()
    }
}

impl Eq for Edge {

}

/// The inverted order on weights: a lighter edge is greater.
pub open spec fn inverted_order(a: u64, b: u64) -> Option<core::cmp::Ordering> {
    if a < b {
        Some(core::cmp::Ordering::Greater)
    } else if a > b {
        Some(core::cmp::Ordering::Less)
    } else {
        Some(core::cmp::Ordering::Equal)
    }
}

impl PartialOrd for Edge {
    fn partial_cmp(&self, other: &Edge) -> (r: Option<core::cmp::Ordering>) {
        if self.weight < other.weight {
            Some(core::cmp::Ordering::Greater)
        } else if self.weight > other.weight {
            Some(core::cmp::Ordering::Less)
        } else {
            Some(core::cmp::Ordering::Equal)
        }
    }
}

impl vstd::std_specs::cmp::PartialOrdSpecImpl for Edge {
    open spec fn obeys_partial_cmp_spec() -> bool {
        true
    }

    open spec fn partial_cmp_spec(&self, other: &Edge) -> Option<core::cmp::Ordering> {
        inverted_order(self.spec_weight(), other.spec_weight())
    }
}

/// `i` is the first position of a lightest edge of `s`.
pub open spec fn is_first_lightest(s: Seq<Edge>, i: int) -> bool {
    &&& 0 <= i < s.len()
    &&& forall|j: int| 0 <= j < s.len() ==> s[i].spec_weight() <= (#[trigger] s[j]).spec_weight()
    &&& forall|j: int| 0 <= j < i ==> s[i].spec_weight() < (#[trigger] s[j]).spec_weight()
}

/// A min-weight-first queue of edges; among edges of equal weight the one
/// pushed first leaves first.
pub struct EdgeQueue {
    items: Vec<Edge>,
}

impl View for EdgeQueue {
    type V = Seq<Edge>;

    closed spec fn view(&self) -> Seq<Edge> {
        self.items@
    }
}

impl EdgeQueue {
    pub fn new() -> (r: Self)
        ensures
            r@ == Seq::<Edge>::empty(),
    {
        EdgeQueue { items: Vec::new() }
    }

    pub fn len(&self) -> (r: usize)
        ensures
            r == self@.len(),
    {
        self.items.len()
    }

    pub fn is_empty(&self) -> (r: bool)
        ensures
            r == (self@.len() == 0),
    {
        self.items.len() == 0
    }

    pub fn push(&mut self, e: Edge)
        ensures
            final(self)@ == old(self)@.push(e),
    {
        self.items.push(e);
    }

    /// Removes and returns the lightest edge, the earliest pushed among equals.
    pub fn pop(&mut self) -> (r: Option<Edge>)
        ensures
            old(self)@.len() == 0 ==> r is None && final(self)@ == old(self)@,
            old(self)@.len() > 0 ==> exists|i: int|
                is_first_lightest(old(self)@, i) && r == Some(old(self)@[i]) && final(self)@ == old(self)@.remove(i),
    {
        if self.items.len() == 0 {
            return None;
        }
        let mut best: usize = 0;
        let mut j: usize = 1;
        while j < self.items.len()
            invariant
                0 <= best < j <= self.items@.len(),
                forall|t: int| 0 <= t < j ==> self.items@[best as int].spec_weight() <= (#[trigger] self.items@[t]).spec_weight(),
                forall|t: int| 0 <= t < best ==> self.items@[best as int].spec_weight() < (#[trigger] self.items@[t]).spec_weight(),
            decreases self.items@.len() - j,
        {
            if self.items[j].get_weight() < self.items[best].get_weight() {
                best = j;
            }
            j = j + 1;
        }
        let e = self.items.remove(best);
        assert(is_first_lightest(old(self)@, best as int));
        Some(e)
    }
}

} // verus!
