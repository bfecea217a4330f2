//! A candidate subtree of `k` nodes with its cached cost, normalisation factor
//! and one-swap neighbour.

use vstd::prelude::*;
use crate::graph::{Graph, appended_count, attached, cand_view, count_false, names_distinct, prim_greedy, prim_trace, start_flags};

verus! {

/// The names of a list of strings.
pub open spec fn names_view(v: Seq<String>) -> Seq<Seq<char>> {
    v.map_values(|s: String| s@)
}

/// The sum of the weights of a list of edges.
pub open spec fn weight_sum(e: Seq<(String, String, u64)>) -> int
    decreases e.len(),
{
    if e.len() == 0 {
        0
    } else {
        weight_sum(e.drop_last()) + e.last().2
    }
}

/// The weights, in row-major order, of the original edges of positive weight
/// among the first `x` cells of an `n`-by-`n` matrix, each unordered pair
/// counted once (the cell above the diagonal).
pub open spec fn upper_weights(m: Seq<(u64, bool)>, n: int, x: int) -> Seq<u64>
    decreases x,
{
    if x <= 0 {
        Seq::empty()
    } else {
        let p = upper_weights(m, n, x - 1);
        let c = m[x - 1];
        if (x - 1) / n < (x - 1) % n && c.1 && c.0 > 0 {
            p.push(c.0)
        } else {
            p
        }
    }
}

/// `i` is the first position of a largest value of `s`.
pub open spec fn is_first_largest(s: Seq<u64>, i: int) -> bool {
    &&& 0 <= i < s.len()
    &&& forall|j: int| 0 <= j < s.len() ==> (#[trigger] s[j]) <= s[i]
    &&& forall|j: int| 0 <= j < i ==> (#[trigger] s[j]) < s[i]
}

/// The first position of a largest value of a non-empty `s`.
pub open spec fn first_largest(s: Seq<u64>) -> int
    decreases s.len(),
{
    if s.len() <= 1 {
        0
    } else {
        let p = first_largest(s.drop_last());
        if s.last() > s[p] {
            s.len() - 1
        } else {
            p
        }
    }
}

pub proof fn lemma_first_largest(s: Seq<u64>)
    requires
        s.len() > 0,
    ensures
        is_first_largest(s, first_largest(s)),
    decreases s.len(),
{
    if s.len() > 1 {
        lemma_first_largest(s.drop_last());
        let d = s.drop_last();
        let p = first_largest(d);
        assert forall|j: int| 0 <= j < s.len() - 1 implies s[j] == #[trigger] d[j] by {}
        if s.last() > s[p] {
            assert forall|j: int| 0 <= j < s.len() implies (#[trigger] s[j]) <= s[s.len() - 1] by {
                if j < s.len() - 1 {
                    assert(d[j] <= d[p]);
                }
            }
            assert forall|j: int| 0 <= j < s.len() - 1 implies (#[trigger] s[j]) < s[s.len() - 1] by {
                assert(d[j] <= d[p]);
            }
        } else {
            assert forall|j: int| 0 <= j < s.len() implies (#[trigger] s[j]) <= s[p] by {
                if j < s.len() - 1 {
                    assert(d[j] <= d[p]);
                }
            }
            assert forall|j: int| 0 <= j < p implies (#[trigger] s[j]) < s[p] by {
                assert(d[j] < d[p]);
            }
        }
    }
}

/// The sum of the `m` largest values of `s`, or of all of them when `s` has
/// fewer: the largest is taken out, then the rest are summed the same way.
pub open spec fn top_sum(s: Seq<u64>, m: int) -> int
    decreases s.len(),
{
    let i = first_largest(s);
    if m <= 0 || s.len() == 0 || i < 0 || i >= s.len() {
        0
    } else {
        s[i] + top_sum(s.remove(i), m - 1)
    }
}

/// The normalisation factor of a `k`-node tree in `g`: the sum of the `k - 1`
/// largest original edge weights.
pub open spec fn normalize_of(g: &Graph, k: int) -> int {
    top_sum(upper_weights(g.spec_matrix(), g.spec_n(), g.spec_n() * g.spec_n()), k - 1)
}

/// The sum of the values of `s`.
pub open spec fn seq_sum(s: Seq<u64>) -> int
    decreases s.len(),
{
    if s.len() == 0 {
        0
    } else {
        seq_sum(s.drop_last()) + s.last()
    }
}

proof fn lemma_sum_remove(s: Seq<u64>, i: int)
    requires
        0 <= i < s.len(),
    ensures
        seq_sum(s) == s[i] + seq_sum(s.remove(i)),
    decreases s.len(),
{
    if i == s.len() - 1 {
        assert(s.remove(i) =~= s.drop_last());
    } else {
        lemma_sum_remove(s.drop_last(), i);
        assert(s.remove(i).drop_last() =~= s.drop_last().remove(i));
        assert(s.remove(i).last() == s.last());
    }
}

/// When `s` holds at most `m` values, the sum of its `m` largest values is
/// the sum of all of them.
pub proof fn lemma_top_sum_all(s: Seq<u64>, m: int)
    requires
        m >= s.len(),
    ensures
        top_sum(s, m) == seq_sum(s),
    decreases s.len(),
{
    if s.len() > 0 {
        lemma_first_largest(s);
        let i = first_largest(s);
        lemma_top_sum_all(s.remove(i), m - 1);
        lemma_sum_remove(s, i);
    }
}

/// The normalisation factor of a `k`-node tree is the sum of all original
/// edge weights when the graph has at most `k - 1` of them.
pub proof fn lemma_normalize_few_edges(g: &Graph, k: int)
    requires
        upper_weights(g.spec_matrix(), g.spec_n(), g.spec_n() * g.spec_n()).len() <= k - 1,
    ensures
        normalize_of(g, k) == seq_sum(upper_weights(g.spec_matrix(), g.spec_n(), g.spec_n() * g.spec_n())),
{
    lemma_top_sum_all(upper_weights(g.spec_matrix(), g.spec_n(), g.spec_n() * g.spec_n()), k - 1);
}

pub proof fn lemma_first_largest_unique(s: Seq<u64>, i: int, j: int)
    requires
        is_first_largest(s, i),
        is_first_largest(s, j),
    ensures
        i == j,
{
    if i < j {
        assert(s[i] < s[j]);
    } else if j < i {
        assert(s[j] < s[i]);
    }
}

/// A cost as an exact fraction: the sum of a tree's edge weights over the
/// normalisation factor. A cost whose normalisation factor is zero (a tree of
/// one node, or a graph without positive weights) has the value zero.
#[derive(Debug, Clone, Copy, PartialEq, Eq, Structural)]
pub struct TreeCost {
    pub sum: u128,
    pub normalize: u128,
}

/// The numerator of a cost's value.
pub open spec fn cost_num(c: TreeCost) -> int {
    if c.normalize == 0 {
        0
    } else {
        c.sum as int
    }
}

/// The denominator of a cost's value.
pub open spec fn cost_den(c: TreeCost) -> int {
    if c.normalize == 0 {
        1
    } else {
        c.normalize as int
    }
}

/// The value of `a` is below the value of `b`.
pub open spec fn cost_lt(a: TreeCost, b: TreeCost) -> bool {
    cost_num(a) * cost_den(b) < cost_num(b) * cost_den(a)
}

/// Whether `a / b < c / d`, for positive `b` and `d`, without forming the
/// products: the integer parts are compared, then the fractional parts by
/// the same rule on their reciprocals.
fn fraction_lt(a: u128, b: u128, c: u128, d: u128) -> (r: bool)
    requires
        b > 0,
        d > 0,
    ensures
        r == (a * d < c * b),
    decreases b + d,
{
    let qa = a / b;
    let qc = c / d;
    let ra = a % b;
    let rc = c % d;
    proof {
        vstd::arithmetic::div_mod::lemma_fundamental_div_mod(a as int, b as int);
        vstd::arithmetic::div_mod::lemma_fundamental_div_mod(c as int, d as int);
        assert(a * d == qa * (b * d) + ra * d) by (nonlinear_arith)
            requires
                a == b * qa + ra,
        ;
        assert(c * b == qc * (b * d) + rc * b) by (nonlinear_arith)
            requires
                c == d * qc + rc,
        ;
        assert(0 <= ra * d < b * d) by (nonlinear_arith)
            requires
                0 <= ra < b,
                d > 0,
        ;
        assert(0 <= rc * b < b * d) by (nonlinear_arith)
            requires
                0 <= rc < d,
                b > 0,
        ;
    }
    if qa != qc {
        proof {
            let bd = b * d;
            if qa < qc {
                assert(qa * bd + bd <= qc * bd) by (nonlinear_arith)
                    requires
                        qa < qc,
                        bd > 0,
                ;
            } else {
                assert(qc * bd + bd <= qa * bd) by (nonlinear_arith)
                    requires
                        qc < qa,
                        bd > 0,
                ;
            }
        }
        return qa < qc;
    }
    proof {
        assert(ra == 0 ==> ra * d == 0) by (nonlinear_arith);
        assert(rc == 0 ==> rc * b == 0) by (nonlinear_arith);
        assert(rc > 0 ==> rc * b > 0) by (nonlinear_arith)
            requires
                b > 0,
        ;
    }
    if ra == 0 {
        return rc > 0;
    }
    if rc == 0 {
        return false;
    }
    proof {
        assert(ra * d == d * ra && rc * b == b * rc) by (nonlinear_arith);
    }
    fraction_lt(d, rc, b, ra)
}

impl TreeCost {
    /// Whether this cost's value is below that of `other`.
    pub fn less_than(&self, other: &TreeCost) -> (r: bool)
        ensures
            r == cost_lt(*self, *other),
    {
        let a = if self.normalize == 0 { 0 } else { self.sum };
        let b = if self.normalize == 0 { 1 } else { self.normalize };
        let c = if other.normalize == 0 { 0 } else { other.sum };
        let d = if other.normalize == 0 { 1 } else { other.normalize };
        fraction_lt(a, b, c, d)
    }
}

/// A one-swap alternative of a tree: its edges and cost, the node added and
/// the node removed.
#[derive(Debug)]
pub struct Neighbor {
    pub edges: Vec<(String, String, u64)>,
    pub cost: TreeCost,
    pub new_node: String,
    pub remove_node: String,
}

/// Copies a list of edges.
pub fn clone_edges(e: &Vec<(String, String, u64)>) -> (r: Vec<(String, String, u64)>)
    ensures
        r@ == e@,
{
    let mut r: Vec<(String, String, u64)> = Vec::new();
    let mut i: usize = 0;
    while i < e.len()
        invariant
            0 <= i <= e@.len(),
            r@ == e@.subrange(0, i as int),
        decreases e@.len() - i,
    {
        let t = (e[i].0.clone(), e[i].1.clone(), e[i].2);
        r.push(t);
        assert(r@ =~= e@.subrange(0, i + 1));
        i = i + 1;
    }
    assert(r@ =~= e@);
    r
}

impl Neighbor {
    pub fn copy(&self) -> (r: Neighbor)
        ensures
            r.edges@ == self.edges@,
            r.cost == self.cost,
            r.new_node == self.new_node,
            r.remove_node == self.remove_node,
    {
        Neighbor {
            edges: clone_edges(&self.edges),
            cost: self.cost,
            new_node: self.new_node.clone(),
            remove_node: self.remove_node.clone(),
        }
    }
}

/// Whether `s` is one of `v`.
pub fn contains_name(v: &Vec<String>, s: &String) -> (r: bool)
    ensures
        r == names_view(v@).contains(s@),
{
    let mut i: usize = 0;
    while i < v.len()
        invariant
            0 <= i <= v@.len(),
            forall|k: int| 0 <= k < i ==> v@[k]@ != s@,
        decreases v@.len() - i,
    {
        if v[i] == *s {
            assert(names_view(v@)[i as int] == s@);
            return true;
        }
        i = i + 1;
    }
    proof {
        if names_view(v@).contains(s@) {
            let k = choose|k: int| 0 <= k < names_view(v@).len() && names_view(v@)[k] == s@;
            assert(v@[k]@ == s@);
        }
    }
    false
}

/// `s` without the entries equal to `rm`, in order.
pub open spec fn without(s: Seq<Seq<char>>, rm: Seq<char>) -> Seq<Seq<char>>
    decreases s.len(),
{
    if s.len() == 0 {
        Seq::empty()
    } else if s.last() == rm {
        without(s.drop_last(), rm)
    } else {
        without(s.drop_last(), rm).push(s.last())
    }
}

/// The edges of `e` that do not touch the node `rm`, in order.
pub open spec fn retained(e: Seq<(String, String, u64)>, rm: Seq<char>) -> Seq<(String, String, u64)>
    decreases e.len(),
{
    if e.len() == 0 {
        Seq::empty()
    } else if e.last().0@ == rm || e.last().1@ == rm {
        retained(e.drop_last(), rm)
    } else {
        retained(e.drop_last(), rm).push(e.last())
    }
}

/// Some edge of `e` has `s` as an endpoint.
pub open spec fn touches(e: Seq<(String, String, u64)>, s: Seq<char>) -> bool {
    exists|q: int| 0 <= q < e.len() && ((#[trigger] e[q]).0@ == s || e[q].1@ == s)
}

/// The candidate list from which the neighbour that adds `new_node` and
/// removes `remove_node` is built: the current nodes and the new one, without
/// the removed one, each marked when a retained edge touches it.
pub open spec fn neighbor_candidates(
    nodes: Seq<String>,
    edges: Seq<(String, String, u64)>,
    new_node: Seq<char>,
    remove_node: Seq<char>,
) -> Seq<(Seq<char>, bool)> {
    let names = without(names_view(nodes).push(new_node), remove_node);
    let kept = retained(edges, remove_node);
    Seq::new(names.len(), |i: int| (names[i], touches(kept, names[i])))
}

proof fn lemma_without(s: Seq<Seq<char>>, rm: Seq<char>)
    ensures
        forall|x: Seq<char>| #[trigger] without(s, rm).contains(x) ==> s.contains(x) && x != rm,
        s.no_duplicates() ==> without(s, rm).no_duplicates(),
    decreases s.len(),
{
    if s.len() > 0 {
        let d = s.drop_last();
        lemma_without(d, rm);
        let w = without(d, rm);
        assert forall|x: Seq<char>| #[trigger] without(s, rm).contains(x) implies s.contains(x) && x != rm by {
            let k = choose|k: int| 0 <= k < without(s, rm).len() && without(s, rm)[k] == x;
            if s.last() != rm && k == w.len() {
                assert(s[s.len() - 1] == x);
            } else {
                assert(w[k] == x);
                assert(w.contains(x));
                let j = choose|j: int| 0 <= j < d.len() && d[j] == x;
                assert(s[j] == x);
            }
        }
        if s.no_duplicates() && s.last() != rm {
            assert(d.no_duplicates());
            if w.contains(s.last()) {
                let j = choose|j: int| 0 <= j < d.len() && d[j] == s.last();
                assert(s[j] == s[s.len() - 1]);
            }
            let p = w.push(s.last());
            assert forall|a: int, b: int| 0 <= a < b < p.len() implies p[a] != p[b] by {
                if b == w.len() {
                    assert(w.contains(p[a]));
                }
            }
        }
    }
}

/// Candidates built from distinct nodes and a new node that is not one of
/// them have distinct names.
pub proof fn lemma_candidates_distinct(
    nodes: Seq<String>,
    edges: Seq<(String, String, u64)>,
    new_node: Seq<char>,
    remove_node: Seq<char>,
)
    requires
        names_view(nodes).no_duplicates(),
        !names_view(nodes).contains(new_node),
    ensures
        names_distinct(neighbor_candidates(nodes, edges, new_node, remove_node)),
{
    let s = names_view(nodes).push(new_node);
    assert forall|a: int, b: int| 0 <= a < b < s.len() implies s[a] != s[b] by {
        if b == s.len() - 1 {
            assert(names_view(nodes)[a] == s[a]);
        }
    }
    lemma_without(s, remove_node);
}

/// The neighbour's edges as Prim's algorithm builds them from the retained
/// edges over `cands`, for a tree of `k` nodes in `g`.
pub open spec fn neighbor_edges_ok(
    g: &Graph,
    cands: Seq<(Seq<char>, bool)>,
    kept: Seq<(String, String, u64)>,
    k: int,
    r: Seq<(String, String, u64)>,
) -> bool {
    &&& r.len() == kept.len() + appended_count(kept.len() as int, k, count_false(start_flags(cands)))
    &&& r.subrange(0, kept.len() as int) == kept
    &&& forall|s: int| kept.len() <= s < r.len() ==> attached(g, cands, #[trigger] r[s])
    &&& names_distinct(cands) ==> prim_greedy(g, cands, kept.len() as int, r)
    &&& exists|order: Seq<int>, froms: Seq<int>| prim_trace(g, cands, kept.len() as int, r, order, froms)
}

/// The normalisation factor a tree uses in `g`: its cached one, or else the
/// one of `g`.
pub open spec fn cached_normalize(t: &Tree, g: &Graph) -> int {
    match t.normalize {
        Some(v) => v as int,
        None => normalize_of(g, t.k as int),
    }
}

/// The nodes reached from `r` in one more step along the edges `e`.
pub open spec fn hop(e: Seq<(String, String, u64)>, r: Set<Seq<char>>) -> Set<Seq<char>> {
    r.union(
        Set::new(
            |v: Seq<char>|
                exists|q: int|
                    0 <= q < e.len() && ((r.contains((#[trigger] e[q]).0@) && e[q].1@ == v) || (r.contains(e[q].1@)
                        && e[q].0@ == v)),
        ),
    )
}

/// The nodes within `t` steps of `start` along the edges `e`.
pub open spec fn reach(e: Seq<(String, String, u64)>, start: Seq<char>, t: nat) -> Set<Seq<char>>
    decreases t,
{
    if t == 0 {
        set![start]
    } else {
        hop(e, reach(e, start, (t - 1) as nat))
    }
}

/// Whether the names in `v` are pairwise different.
pub fn all_distinct(v: &Vec<String>) -> (r: bool)
    ensures
        r == names_view(v@).no_duplicates(),
{
    let mut i: usize = 0;
    while i < v.len()
        invariant
            0 <= i <= v@.len(),
            forall|p: int, q: int| 0 <= p < i && p < q < v@.len() ==> v@[p]@ != v@[q]@,
        decreases v@.len() - i,
    {
        let mut j: usize = i + 1;
        while j < v.len()
            invariant
                0 <= i < v@.len(),
                i < j <= v@.len(),
                forall|p: int, q: int| 0 <= p < i && p < q < v@.len() ==> v@[p]@ != v@[q]@,
                forall|q: int| i < q < j ==> v@[i as int]@ != v@[q]@,
            decreases v@.len() - j,
        {
            if v[i] == v[j] {
                assert(names_view(v@)[i as int] == names_view(v@)[j as int]);
                return false;
            }
            j = j + 1;
        }
        i = i + 1;
    }
    assert forall|p: int, q: int| 0 <= p < names_view(v@).len() && 0 <= q < names_view(v@).len() && p != q implies names_view(
        v@,
    )[p] != names_view(v@)[q] by {
        if p < q {
            assert(v@[p]@ != v@[q]@);
        } else {
            assert(v@[q]@ != v@[p]@);
        }
    }
    true
}

/// The tree is a valid `k`-node subtree of `g`: it has `k` distinct nodes and `k - 1`
/// edges, every edge joins two of its nodes by an original edge of `g`, and
/// every node is reached from the first one along the edges.
pub open spec fn is_valid_tree(t: &Tree, g: &Graph) -> bool {
    let nodes = names_view(t.nodes@);
    let e = t.edges@;
    if t.k == 0 {
        t.nodes@.len() == 0 && e.len() == 0
    } else if e.len() != t.k - 1 {
        false
    } else if t.k == 1 {
        t.nodes@.len() == 1
    } else {
        &&& t.nodes@.len() == t.k
        &&& nodes.no_duplicates()
        &&& forall|q: int|
            0 <= q < e.len() ==> nodes.contains((#[trigger] e[q]).0@) && nodes.contains(e[q].1@) && g.edge_between(
                e[q].0@,
                e[q].1@,
            ).1
        &&& forall|i: int| 0 <= i < nodes.len() ==> reach(e, nodes[0], t.k as nat).contains(#[trigger] nodes[i])
    }
}

proof fn lemma_reach_within(e: Seq<(String, String, u64)>, nodes: Seq<Seq<char>>, t: nat)
    requires
        nodes.len() > 0,
        forall|q: int| 0 <= q < e.len() ==> nodes.contains((#[trigger] e[q]).0@) && nodes.contains(e[q].1@),
    ensures
        forall|v: Seq<char>| #[trigger] reach(e, nodes[0], t).contains(v) ==> nodes.contains(v),
    decreases t,
{
    if t == 0 {
        assert(nodes.contains(nodes[0]));
    } else {
        let r = reach(e, nodes[0], (t - 1) as nat);
        lemma_reach_within(e, nodes, (t - 1) as nat);
        assert forall|v: Seq<char>| #[trigger] hop(e, r).contains(v) implies nodes.contains(v) by {
            if !r.contains(v) {
                let q = choose|q: int|
                    0 <= q < e.len() && ((r.contains((#[trigger] e[q]).0@) && e[q].1@ == v) || (r.contains(e[q].1@)
                        && e[q].0@ == v));
            }
        }
    }
}

/// Whether the node `name` is marked, by the first position that holds it.
fn is_marked(nodes: &Vec<String>, marked: &Vec<bool>, name: &String) -> (r: bool)
    requires
        marked@.len() == nodes@.len(),
        forall|a: int, b: int|
            0 <= a < nodes@.len() && 0 <= b < nodes@.len() && nodes@[a]@ == nodes@[b]@ ==> #[trigger] marked@[a]
                == #[trigger] marked@[b],
    ensures
        r <==> exists|j: int| 0 <= j < nodes@.len() && nodes@[j]@ == name@ && #[trigger] marked@[j],
        !names_view(nodes@).contains(name@) ==> !r,
{
    let mut j: usize = 0;
    while j < nodes.len()
        invariant
            marked@.len() == nodes@.len(),
            forall|a: int, b: int|
                0 <= a < nodes@.len() && 0 <= b < nodes@.len() && nodes@[a]@ == nodes@[b]@ ==> #[trigger] marked@[a]
                    == #[trigger] marked@[b],
            0 <= j <= nodes@.len(),
            forall|p: int| 0 <= p < j ==> nodes@[p]@ != name@,
        decreases nodes@.len() - j,
    {
        if nodes[j] == *name {
            assert(names_view(nodes@)[j as int] == name@);
            proof {
                if exists|p: int| 0 <= p < nodes@.len() && nodes@[p]@ == name@ && #[trigger] marked@[p] {
                    let p = choose|p: int| 0 <= p < nodes@.len() && nodes@[p]@ == name@ && #[trigger] marked@[p];
                    assert(marked@[p] == marked@[j as int]);
                }
            }
            return marked[j];
        }
        j = j + 1;
    }
    proof {
        if names_view(nodes@).contains(name@) {
            let p = choose|p: int| 0 <= p < names_view(nodes@).len() && names_view(nodes@)[p] == name@;
            assert(nodes@[p]@ == name@);
        }
    }
    false
}

/// A candidate subtree of `k` nodes.
#[derive(Debug)]
pub struct Tree {
    /// The node names, without duplicates.
    pub nodes: Vec<String>,
    /// The edges (from, to, adjusted weight).
    pub edges: Vec<(String, String, u64)>,
    /// The cached cost, once computed.
    pub total_cost: Option<TreeCost>,
    /// The cached normalisation factor, once computed.
    pub normalize: Option<u128>,
    /// The cached one-swap neighbour, if any.
    pub neighbors: Option<Neighbor>,
    /// The number of nodes the tree should have.
    pub k: usize,
}

impl Tree {
    /// A copy of the tree.
    pub fn copy(&self) -> (r: Tree)
        ensures
            r.nodes@ == self.nodes@,
            r.edges@ == self.edges@,
            r.total_cost == self.total_cost,
            r.normalize == self.normalize,
            r.neighbors is Some <==> self.neighbors is Some,
            r.neighbors matches Some(c) ==> self.neighbors matches Some(d) && c.edges@ == d.edges@ && c.cost == d.cost
                && c.new_node == d.new_node && c.remove_node == d.remove_node,
            r.k == self.k,
    {
        let mut nodes: Vec<String> = Vec::new();
        let mut i: usize = 0;
        while i < self.nodes.len()
            invariant
                0 <= i <= self.nodes@.len(),
                nodes@ == self.nodes@.subrange(0, i as int),
            decreases self.nodes@.len() - i,
        {
            nodes.push(self.nodes[i].clone());
            assert(nodes@ =~= self.nodes@.subrange(0, i + 1));
            i = i + 1;
        }
        assert(nodes@ =~= self.nodes@);
        let neighbors = match &self.neighbors {
            Some(c) => Some(c.copy()),
            None => None,
        };
        Tree {
            nodes,
            edges: clone_edges(&self.edges),
            total_cost: self.total_cost,
            normalize: self.normalize,
            neighbors,
            k: self.k,
        }
    }

    /// A tree over the names in `nodes` (repetitions dropped) with `edges`,
    /// and empty caches.
    pub fn new(edges: Vec<(String, String, u64)>, nodes: Vec<String>, k: usize) -> (r: Self)
        ensures
            r.edges@ == edges@,
            names_view(r.nodes@).no_duplicates(),
            forall|s: Seq<char>| names_view(r.nodes@).contains(s) <==> names_view(nodes@).contains(s),
            names_view(nodes@).no_duplicates() ==> r.nodes@ == nodes@,
            r.total_cost is None,
            r.normalize is None,
            r.neighbors is None,
            r.k == k,
    {
        let mut unique: Vec<String> = Vec::new();
        let mut i: usize = 0;
        while i < nodes.len()
            invariant
                0 <= i <= nodes@.len(),
                names_view(unique@).no_duplicates(),
                forall|s: Seq<char>| names_view(unique@).contains(s) <==> names_view(nodes@.subrange(0, i as int)).contains(s),
                names_view(nodes@).no_duplicates() ==> unique@ == nodes@.subrange(0, i as int),
            decreases nodes@.len() - i,
        {
            let ghost u0 = unique@;
            proof {
                if names_view(nodes@).no_duplicates() && names_view(u0).contains(nodes@[i as int]@) {
                    let q = choose|q: int| 0 <= q < names_view(u0).len() && names_view(u0)[q] == nodes@[i as int]@;
                    assert(names_view(nodes@)[q] == names_view(nodes@)[i as int]);
                }
            }
            if !contains_name(&unique, &nodes[i]) {
                unique.push(nodes[i].clone());
                proof {
                    if names_view(nodes@).no_duplicates() {
                        assert(unique@ =~= nodes@.subrange(0, i + 1));
                    }
                }
            }
            proof {
                assert(names_view(nodes@.subrange(0, i + 1)) =~= names_view(nodes@.subrange(0, i as int)).push(nodes@[i as int]@));
                if names_view(u0).contains(nodes@[i as int]@) {
                    assert(unique@ == u0);
                } else {
                    assert(names_view(unique@) =~= names_view(u0).push(nodes@[i as int]@));
                }
                lemma_push_contains(names_view(nodes@.subrange(0, i as int)), nodes@[i as int]@);
                lemma_push_contains(names_view(u0), nodes@[i as int]@);
            }
            i = i + 1;
        }
        assert(nodes@.subrange(0, nodes@.len() as int) =~= nodes@);
        Tree { nodes: unique, edges, total_cost: None, normalize: None, neighbors: None, k }
    }

    pub fn get_edges(&self) -> (r: Vec<(String, String, u64)>)
        ensures
            r@ == self.edges@,
    {
        clone_edges(&self.edges)
    }

    /// Forgets the cached neighbour.
    pub fn clear_neighbour(&mut self)
        ensures
            final(self).neighbors is None,
            final(self).nodes == old(self).nodes,
            final(self).edges == old(self).edges,
            final(self).total_cost == old(self).total_cost,
            final(self).normalize == old(self).normalize,
            final(self).k == old(self).k,
    {
        self.neighbors = None;
    }

    /// Accepts the cached neighbour: its edges and cost become the tree's,
    /// its new node joins and its removed node leaves, and the cache is
    /// cleared. Returns false, changing nothing, when no neighbour is cached.
    pub fn recover_solution(&mut self) -> (r: bool)
        ensures
            r == (old(self).neighbors is Some),
            !r ==> *final(self) == *old(self),
            r ==> {
                let nb = old(self).neighbors->Some_0;
                &&& final(self).edges@ == nb.edges@
                &&& final(self).total_cost == Some(nb.cost)
                &&& final(self).neighbors is None
                &&& final(self).normalize == old(self).normalize
                &&& final(self).k == old(self).k
                &&& forall|s: Seq<char>|
                    names_view(final(self).nodes@).contains(s) <==> ((names_view(old(self).nodes@).contains(s)
                        || s == nb.new_node@) && s != nb.remove_node@)
                &&& names_view(old(self).nodes@).no_duplicates() ==> names_view(final(self).nodes@).no_duplicates()
            },
    {
        let nb = match self.neighbors.take() {
            Some(nb) => nb,
            None => {
                return false;
            },
        };
        let Neighbor { edges, cost, new_node, remove_node } = nb;
        self.edges = edges;
        self.total_cost = Some(cost);
        let ghost n0 = self.nodes@;
        if !contains_name(&self.nodes, &new_node) {
            self.nodes.push(new_node);
            proof {
                assert(names_view(self.nodes@) =~= names_view(n0).push(new_node@));
                lemma_push_contains(names_view(n0), new_node@);
            }
        }
        remove_name(&mut self.nodes, &remove_node);
        true
    }

    /// The normalisation factor: the cached one, or else the sum of the
    /// `k - 1` largest original edge weights of `graph`, which is then cached.
    pub fn get_normalize(&mut self, graph: &Graph) -> (r: u128)
        requires
            graph.wf(),
        ensures
            old(self).normalize matches Some(v) ==> r == v && *final(self) == *old(self),
            old(self).normalize is None ==> r == normalize_of(graph, old(self).k as int) && final(self).normalize
                == Some(r) && final(self).nodes == old(self).nodes && final(self).edges == old(self).edges
                && final(self).total_cost == old(self).total_cost && final(self).neighbors == old(self).neighbors
                && final(self).k == old(self).k,
    {
        if let Some(v) = self.normalize {
            return v;
        }
        let n = graph.get_num_nodes();
        let total = n * n;
        let ghost m = graph.spec_matrix();
        let mut weights: Vec<u64> = Vec::new();
        let mut x: usize = 0;
        while x < total
            invariant
                graph.wf(),
                n == graph.spec_n(),
                total == n * n,
                m == graph.spec_matrix(),
                0 <= x <= total,
                weights@ == upper_weights(m, n as int, x as int),
            decreases total - x,
        {
            let c = graph.get_edge_index(x);
            if x / n < x % n && c.1 && c.0 > 0 {
                weights.push(c.0);
            }
            x = x + 1;
        }
        let ghost all = weights@;
        let count: usize = if self.k == 0 { 0 } else { self.k - 1 };
        let mut sum: u128 = 0;
        let mut taken: usize = 0;
        while taken < count && weights.len() > 0
            invariant
                0 <= taken <= count,
                sum + top_sum(weights@, count - taken) == top_sum(all, count as int),
                sum <= taken * 0xffff_ffff_ffff_ffffu128,
                count < usize::MAX,
            decreases count - taken,
        {
            let ghost w0 = weights@;
            let mut best: usize = 0;
            let mut j: usize = 1;
            while j < weights.len()
                invariant
                    weights@ == w0,
                    0 <= best < j <= w0.len(),
                    forall|t: int| 0 <= t < j ==> (#[trigger] w0[t]) <= w0[best as int],
                    forall|t: int| 0 <= t < best ==> (#[trigger] w0[t]) < w0[best as int],
                decreases w0.len() - j,
            {
                if weights[j] > weights[best] {
                    best = j;
                }
                j = j + 1;
            }
            proof {
                assert(is_first_largest(w0, best as int));
                lemma_first_largest(w0);
                lemma_first_largest_unique(w0, best as int, first_largest(w0));
            }
            let w = weights.remove(best);
            assert(sum + w <= (taken + 1) * 0xffff_ffff_ffff_ffffu128) by (nonlinear_arith)
                requires
                    sum <= taken * 0xffff_ffff_ffff_ffffu128,
                    w <= 0xffff_ffff_ffff_ffffu64,
            ;
            sum = sum + w as u128;
            taken = taken + 1;
        }
        proof {
            assert(top_sum(weights@, count - taken) == 0);
        }
        self.normalize = Some(sum);
        sum
    }
}

impl Tree {
    /// The cost of `edges` with this tree's normalisation factor, which is
    /// computed and cached when missing.
    pub fn get_cost_raw(&mut self, graph: &Graph, edges: &Vec<(String, String, u64)>) -> (r: TreeCost)
        requires
            graph.wf(),
        ensures
            r.sum == weight_sum(edges@),
            r.normalize == cached_normalize(old(self), graph),
            final(self).normalize == Some(r.normalize),
            final(self).nodes == old(self).nodes,
            final(self).edges == old(self).edges,
            final(self).total_cost == old(self).total_cost,
            final(self).neighbors == old(self).neighbors,
            final(self).k == old(self).k,
    {
        let mut sum: u128 = 0;
        let mut i: usize = 0;
        while i < edges.len()
            invariant
                0 <= i <= edges@.len(),
                sum == weight_sum(edges@.subrange(0, i as int)),
                sum <= i * 0xffff_ffff_ffff_ffffu128,
            decreases edges@.len() - i,
        {
            proof {
                assert(edges@.subrange(0, i + 1).drop_last() =~= edges@.subrange(0, i as int));
            }
            let w = edges[i].2;
            assert(sum + w <= (i + 1) * 0xffff_ffff_ffff_ffffu128) by (nonlinear_arith)
                requires
                    sum <= i * 0xffff_ffff_ffff_ffffu128,
                    w <= 0xffff_ffff_ffff_ffffu64,
            ;
            sum = sum + w as u128;
            i = i + 1;
        }
        assert(edges@.subrange(0, edges@.len() as int) =~= edges@);
        let normalize = self.get_normalize(graph);
        TreeCost { sum, normalize }
    }

    /// The tree's cost: the cached one, or else the sum of its edge weights
    /// over its normalisation factor, which is then cached. A second call
    /// returns the same value and changes nothing.
    pub fn get_cost(&mut self, graph: &Graph) -> (r: TreeCost)
        requires
            graph.wf(),
        ensures
            final(self).total_cost == Some(r),
            old(self).total_cost matches Some(c) ==> r == c && *final(self) == *old(self),
            old(self).total_cost is None && old(self).normalize is None && old(self).k <= 1 ==> cost_num(r) == 0,
            old(self).total_cost is None ==> r.sum == weight_sum(old(self).edges@) && r.normalize == cached_normalize(
                old(self),
                graph,
            ) && final(self).normalize == Some(r.normalize) && final(self).nodes == old(self).nodes
                && final(self).edges == old(self).edges && final(self).neighbors == old(self).neighbors
                && final(self).k == old(self).k,
    {
        if let Some(c) = self.total_cost {
            return c;
        }
        let edges = clone_edges(&self.edges);
        let cost = self.get_cost_raw(graph, &edges);
        self.total_cost = Some(cost);
        cost
    }

    /// Whether the tree is a valid `k`-node subtree of `graph` (see
    /// `is_valid_tree`).
    pub fn is_connected(&self, graph: &Graph) -> (r: bool)
        requires
            graph.wf(),
            forall|q: int| 0 <= q < self.nodes@.len() ==> graph.spec_index().contains_key(#[trigger] self.nodes@[q]@),
        ensures
            r == is_valid_tree(self, graph),
    {
        if self.k == 0 {
            return self.nodes.len() == 0 && self.edges.len() == 0;
        }
        if self.edges.len() != self.k - 1 {
            return false;
        }
        if self.k == 1 {
            return self.nodes.len() == 1;
        }
        if self.nodes.len() != self.k {
            return false;
        }
        if !all_distinct(&self.nodes) {
            return false;
        }
        let ghost nodes = names_view(self.nodes@);
        let ghost e = self.edges@;
        let mut q: usize = 0;
        while q < self.edges.len()
            invariant
                graph.wf(),
                forall|p: int| 0 <= p < self.nodes@.len() ==> graph.spec_index().contains_key(#[trigger] self.nodes@[p]@),
                nodes == names_view(self.nodes@),
                e == self.edges@,
                0 <= q <= e.len(),
                forall|p: int|
                    0 <= p < q ==> nodes.contains((#[trigger] e[p]).0@) && nodes.contains(e[p].1@) && graph.edge_between(
                        e[p].0@,
                        e[p].1@,
                    ).1,
            decreases e.len() - q,
        {
            if !contains_name(&self.nodes, &self.edges[q].0) || !contains_name(&self.nodes, &self.edges[q].1) {
                return false;
            }
            proof {
                let a = choose|a: int| 0 <= a < nodes.len() && nodes[a] == e[q as int].0@;
                let b = choose|b: int| 0 <= b < nodes.len() && nodes[b] == e[q as int].1@;
                assert(self.nodes@[a]@ == e[q as int].0@);
                assert(self.nodes@[b]@ == e[q as int].1@);
            }
            if !graph.get_edge(&self.edges[q].0, &self.edges[q].1).1 {
                return false;
            }
            q = q + 1;
        }
        let m = self.nodes.len();
        let ghost start = nodes[0];
        proof {
            lemma_reach_within(e, nodes, 0);
        }
        // Round 0: only the first node is reached.
        let mut marked: Vec<bool> = Vec::new();
        let mut i: usize = 0;
        while i < m
            invariant
                m == self.nodes@.len(),
                m > 1,
                nodes == names_view(self.nodes@),
                start == nodes[0],
                0 <= i <= m,
                marked@.len() == i,
                forall|j: int| 0 <= j < i ==> #[trigger] marked@[j] == reach(e, start, 0).contains(nodes[j]),
            decreases m - i,
        {
            let same = self.nodes[i] == self.nodes[0];
            proof {
                assert(reach(e, start, 0) == set![start]);
            }
            marked.push(same);
            i = i + 1;
        }
        let mut round: usize = 0;
        while round < m
            invariant
                m == self.nodes@.len(),
                m > 1,
                nodes == names_view(self.nodes@),
                e == self.edges@,
                start == nodes[0],
                forall|p: int| 0 <= p < e.len() ==> nodes.contains((#[trigger] e[p]).0@) && nodes.contains(e[p].1@),
                0 <= round <= m,
                marked@.len() == m,
                forall|j: int| 0 <= j < m ==> #[trigger] marked@[j] == reach(e, start, round as nat).contains(nodes[j]),
            decreases m - round,
        {
            let ghost rr = reach(e, start, round as nat);
            proof {
                lemma_reach_within(e, nodes, round as nat);
            }
            let mut next: Vec<bool> = Vec::new();
            let mut i: usize = 0;
            while i < m
                invariant
                    m == self.nodes@.len(),
                    nodes == names_view(self.nodes@),
                    e == self.edges@,
                    rr == reach(e, start, round as nat),
                    forall|v: Seq<char>| #[trigger] rr.contains(v) ==> nodes.contains(v),
                    marked@.len() == m,
                    forall|j: int| 0 <= j < m ==> #[trigger] marked@[j] == rr.contains(nodes[j]),
                    0 <= i <= m,
                    next@.len() == i,
                    forall|j: int| 0 <= j < i ==> #[trigger] next@[j] == hop(e, rr).contains(nodes[j]),
                decreases m - i,
            {
                let ghost v = nodes[i as int];
                let mut found = marked[i];
                let mut q: usize = 0;
                while q < self.edges.len()
                    invariant
                        m == self.nodes@.len(),
                        nodes == names_view(self.nodes@),
                        e == self.edges@,
                        forall|w: Seq<char>| #[trigger] rr.contains(w) ==> nodes.contains(w),
                        marked@.len() == m,
                        forall|j: int| 0 <= j < m ==> #[trigger] marked@[j] == rr.contains(nodes[j]),
                        0 <= i < m,
                        v == nodes[i as int],
                        0 <= q <= e.len(),
                        found <==> rr.contains(v) || exists|p: int|
                            0 <= p < q && ((rr.contains((#[trigger] e[p]).0@) && e[p].1@ == v) || (rr.contains(e[p].1@)
                                && e[p].0@ == v)),
                    decreases e.len() - q,
                {
                    if !found {
                        let ghost ep = e[q as int];
                        proof {
                            assert forall|a: int, b: int|
                                0 <= a < self.nodes@.len() && 0 <= b < self.nodes@.len() && self.nodes@[a]@
                                    == self.nodes@[b]@ implies #[trigger] marked@[a] == #[trigger] marked@[b] by {
                                assert(nodes[a] == nodes[b]);
                            }
                        }
                        if self.edges[q].1 == self.nodes[i] && is_marked(&self.nodes, &marked, &self.edges[q].0) {
                            found = true;
                        } else if self.edges[q].0 == self.nodes[i] && is_marked(&self.nodes, &marked, &self.edges[q].1) {
                            found = true;
                        }
                        proof {
                            assert forall|a: int, b: int|
                                0 <= a < self.nodes@.len() && 0 <= b < self.nodes@.len() && self.nodes@[a]@ == self.nodes@[b]@ implies #[trigger] marked@[a]
                                    == #[trigger] marked@[b] by {
                                assert(nodes[a] == nodes[b]);
                            }
                            assert forall|w: Seq<char>| #[trigger] rr.contains(w) implies exists|j: int|
                                0 <= j < self.nodes@.len() && self.nodes@[j]@ == w && #[trigger] marked@[j] by {
                                let j = choose|j: int| 0 <= j < nodes.len() && nodes[j] == w;
                                assert(marked@[j]);
                            }
                            if found {
                                if ep.1@ == v && rr.contains(ep.0@) {
                                } else {
                                    assert(rr.contains(ep.1@) && ep.0@ == v);
                                }
                            }
                        }
                    }
                    q = q + 1;
                }
                proof {
                    assert(found == hop(e, rr).contains(v));
                }
                next.push(found);
                i = i + 1;
            }
            marked = next;
            round = round + 1;
        }
        let mut all = true;
        let mut i: usize = 0;
        while i < m
            invariant
                m == self.nodes@.len(),
                marked@.len() == m,
                0 <= i <= m,
                all <==> forall|j: int| 0 <= j < i ==> #[trigger] marked@[j],
            decreases m - i,
        {
            if !marked[i] {
                all = false;
            }
            i = i + 1;
        }
        proof {
            assert(m == self.k);
            assert(all == forall|j: int| 0 <= j < nodes.len() ==> reach(e, nodes[0], self.k as nat).contains(
                #[trigger] nodes[j],
            )) by {
                if all {
                    assert forall|j: int| 0 <= j < nodes.len() implies reach(e, nodes[0], self.k as nat).contains(
                        #[trigger] nodes[j],
                    ) by {
                        assert(marked@[j]);
                    }
                } else {
                    let j = choose|j: int| 0 <= j < m && !#[trigger] marked@[j];
                    assert(!reach(e, nodes[0], self.k as nat).contains(nodes[j]));
                }
            }
        }
        all
    }

    /// The neighbour that adds `new_node` and removes `remove_node`.
    ///
    /// A cached neighbour for the same pair is returned as it is. Otherwise it
    /// fails when `new_node` is already a node; else the edges that do not
    /// touch `remove_node` are kept, the candidates (the nodes and `new_node`,
    /// without `remove_node`) touched by them are marked, Prim's algorithm
    /// completes the tree, and the result, with its cost, is cached.
    pub fn get_neighbor(&mut self, graph: &Graph, new_node: &String, remove_node: &String) -> (r: Result<Neighbor, ()>)
        requires
            graph.wf(),
            forall|q: int| 0 <= q < old(self).nodes@.len() ==> graph.spec_index().contains_key(#[trigger] old(self).nodes@[q]@),
            graph.spec_index().contains_key(new_node@),
        ensures
            ({
                let hit = old(self).neighbors matches Some(c) && c.new_node@ == new_node@ && c.remove_node@
                    == remove_node@;
                &&& hit ==> r is Ok && *final(self) == *old(self)
                &&& !hit && names_view(old(self).nodes@).contains(new_node@) ==> r is Err && *final(self) == *old(self)
                &&& !hit && !names_view(old(self).nodes@).contains(new_node@) ==> r is Ok && neighbor_edges_ok(
                    graph,
                    neighbor_candidates(old(self).nodes@, old(self).edges@, new_node@, remove_node@),
                    retained(old(self).edges@, remove_node@),
                    old(self).k as int,
                    r->Ok_0.edges@,
                ) && r->Ok_0.cost == (TreeCost {
                    sum: weight_sum(r->Ok_0.edges@) as u128,
                    normalize: cached_normalize(old(self), graph) as u128,
                }) && r->Ok_0.new_node@ == new_node@ && r->Ok_0.remove_node@ == remove_node@
                    && final(self).normalize == Some(r->Ok_0.cost.normalize) && final(self).nodes == old(self).nodes
                    && final(self).edges == old(self).edges && final(self).total_cost == old(self).total_cost
                    && final(self).k == old(self).k
            }),
            r matches Ok(nb) ==> final(self).neighbors matches Some(c) && c.edges@ == nb.edges@ && c.cost == nb.cost
                && c.new_node == nb.new_node && c.remove_node == nb.remove_node,
    {
        if let Some(c) = &self.neighbors {
            if c.remove_node == *remove_node && c.new_node == *new_node {
                return Ok(c.copy());
            }
        }
        if contains_name(&self.nodes, new_node) {
            return Err(());
        }
        let ghost nodes0 = self.nodes@;
        // The candidate names: the nodes and the new one, without the removed one.
        let mut names: Vec<String> = Vec::new();
        let mut i: usize = 0;
        while i < self.nodes.len()
            invariant
                self.nodes@ == nodes0,
                0 <= i <= nodes0.len(),
                names_view(names@) == without(names_view(nodes0.subrange(0, i as int)), remove_node@),
                forall|q: int| 0 <= q < names@.len() ==> graph.spec_index().contains_key(#[trigger] names@[q]@),
                forall|q: int| 0 <= q < nodes0.len() ==> graph.spec_index().contains_key(#[trigger] nodes0[q]@),
            decreases nodes0.len() - i,
        {
            proof {
                assert(names_view(nodes0.subrange(0, i + 1)).drop_last() =~= names_view(nodes0.subrange(0, i as int)));
                assert(names_view(nodes0.subrange(0, i + 1)).last() == nodes0[i as int]@);
            }
            if self.nodes[i] != *remove_node {
                names.push(self.nodes[i].clone());
                proof {
                    assert(names_view(names@) =~= without(names_view(nodes0.subrange(0, i + 1)), remove_node@));
                }
            }
            i = i + 1;
        }
        proof {
            assert(nodes0.subrange(0, nodes0.len() as int) =~= nodes0);
            assert(names_view(nodes0.push(*new_node)) =~= names_view(nodes0).push(new_node@));
            assert(names_view(nodes0.push(*new_node)).drop_last() =~= names_view(nodes0));
        }
        if *new_node != *remove_node {
            names.push(new_node.clone());
            proof {
                assert(names_view(names@) =~= without(names_view(nodes0).push(new_node@), remove_node@));
            }
        }
        // The edges that do not touch the removed node.
        let ghost edges0 = self.edges@;
        let mut kept: Vec<(String, String, u64)> = Vec::new();
        let mut i: usize = 0;
        while i < self.edges.len()
            invariant
                self.edges@ == edges0,
                0 <= i <= edges0.len(),
                kept@ == retained(edges0.subrange(0, i as int), remove_node@),
            decreases edges0.len() - i,
        {
            proof {
                assert(edges0.subrange(0, i + 1).drop_last() =~= edges0.subrange(0, i as int));
            }
            if self.edges[i].0 != *remove_node && self.edges[i].1 != *remove_node {
                let t = (self.edges[i].0.clone(), self.edges[i].1.clone(), self.edges[i].2);
                kept.push(t);
            }
            i = i + 1;
        }
        proof {
            assert(edges0.subrange(0, edges0.len() as int) =~= edges0);
        }
        let ghost cands = neighbor_candidates(nodes0, edges0, new_node@, remove_node@);
        // Mark the candidates that a kept edge touches.
        let mut nodes_prim_input: Vec<(String, bool)> = Vec::new();
        let mut i: usize = 0;
        while i < names.len()
            invariant
                0 <= i <= names@.len(),
                names_view(names@) == without(names_view(nodes0).push(new_node@), remove_node@),
                kept@ == retained(edges0, remove_node@),
                cands == neighbor_candidates(nodes0, edges0, new_node@, remove_node@),
                nodes_prim_input@.len() == i,
                forall|q: int| 0 <= q < i ==> #[trigger] cand_view(nodes_prim_input@)[q] == cands[q],
                forall|q: int| 0 <= q < names@.len() ==> graph.spec_index().contains_key(#[trigger] names@[q]@),
                forall|q: int| 0 <= q < i ==> graph.spec_index().contains_key(#[trigger] nodes_prim_input@[q].0@),
            decreases names@.len() - i,
        {
            let mut touched = false;
            let mut q: usize = 0;
            while q < kept.len()
                invariant
                    0 <= i < names@.len(),
                    0 <= q <= kept@.len(),
                    touched <==> exists|p: int| 0 <= p < q && ((#[trigger] kept@[p]).0@ == names@[i as int]@ || kept@[p].1@ == names@[i as int]@),
                decreases kept@.len() - q,
            {
                if kept[q].0 == names[i] || kept[q].1 == names[i] {
                    touched = true;
                }
                q = q + 1;
            }
            proof {
                assert(names_view(names@)[i as int] == names@[i as int]@);
            }
            let ghost p0 = nodes_prim_input@;
            nodes_prim_input.push((names[i].clone(), touched));
            proof {
                assert(cand_view(nodes_prim_input@)[i as int] == cands[i as int]);
                assert forall|q: int| 0 <= q < i + 1 implies #[trigger] cand_view(nodes_prim_input@)[q] == cands[q] by {
                    if q < i {
                        assert(nodes_prim_input@[q] == p0[q]);
                        assert(cand_view(p0)[q] == cands[q]);
                    }
                }
                assert forall|q: int| 0 <= q < i + 1 implies graph.spec_index().contains_key(
                    #[trigger] nodes_prim_input@[q].0@,
                ) by {
                    if q < i {
                        assert(nodes_prim_input@[q] == p0[q]);
                    }
                }
            }
            i = i + 1;
        }
        proof {
            assert(cand_view(nodes_prim_input@) =~= cands);
        }
        let new_tree = graph.prim(&mut nodes_prim_input, clone_edges(&kept), self.k);
        let cost = self.get_cost_raw(graph, &new_tree);
        let nb = Neighbor { edges: new_tree, cost, new_node: new_node.clone(), remove_node: remove_node.clone() };
        let out = nb.copy();
        self.neighbors = Some(nb);
        Ok(out)
    }
}

proof fn lemma_push_contains(s: Seq<Seq<char>>, v: Seq<char>)
    ensures
        forall|t: Seq<char>| #[trigger] s.push(v).contains(t) <==> s.contains(t) || t == v,
{
    assert forall|t: Seq<char>| #[trigger] s.push(v).contains(t) <==> s.contains(t) || t == v by {
        if s.contains(t) {
            let k = choose|k: int| 0 <= k < s.len() && s[k] == t;
            assert(s.push(v)[k] == t);
        }
        if t == v {
            assert(s.push(v)[s.len() as int] == v);
        }
        if s.push(v).contains(t) {
            let k = choose|k: int| 0 <= k < s.push(v).len() && s.push(v)[k] == t;
            if k < s.len() {
                assert(s[k] == t);
            }
        }
    }
}

/// Removes every occurrence of `s` from `v`, keeping the order of the rest.
fn remove_name(v: &mut Vec<String>, s: &String)
    ensures
        forall|t: Seq<char>| names_view(final(v)@).contains(t) <==> names_view(old(v)@).contains(t) && t != s@,
        names_view(old(v)@).no_duplicates() ==> names_view(final(v)@).no_duplicates(),
{
    let ghost v0 = v@;
    let mut kept: Vec<String> = Vec::new();
    let mut i: usize = 0;
    while i < v.len()
        invariant
            v@ == v0,
            0 <= i <= v0.len(),
            forall|t: Seq<char>| names_view(kept@).contains(t) <==> names_view(v0.subrange(0, i as int)).contains(t) && t != s@,
            names_view(v0).no_duplicates() ==> names_view(kept@).no_duplicates(),
        decreases v0.len() - i,
    {
        let ghost k0 = kept@;
        proof {
            assert(names_view(v0.subrange(0, i + 1)) =~= names_view(v0.subrange(0, i as int)).push(v0[i as int]@));
            lemma_push_contains(names_view(v0.subrange(0, i as int)), v0[i as int]@);
            lemma_push_contains(names_view(k0), v0[i as int]@);
        }
        if v[i] != *s {
            kept.push(v[i].clone());
            proof {
                assert(names_view(kept@) =~= names_view(k0).push(v0[i as int]@));
                if names_view(v0).no_duplicates() {
                    if names_view(v0.subrange(0, i as int)).contains(v0[i as int]@) {
                        let q = choose|q: int| 0 <= q < i && #[trigger] names_view(v0.subrange(0, i as int))[q] == v0[i as int]@;
                        assert(names_view(v0)[q] == names_view(v0)[i as int]);
                    }
                    assert(!names_view(k0).contains(v0[i as int]@));
                    assert forall|a: int, b: int| 0 <= a < b < names_view(kept@).len() implies names_view(kept@)[a] != names_view(kept@)[b] by {
                        if b == names_view(k0).len() {
                            assert(names_view(k0)[a] == names_view(kept@)[a]);
                        }
                    }
                }
            }
        }
        i = i + 1;
    }
    assert(v0.subrange(0, v0.len() as int) =~= v0);
    *v = kept;
}

} // verus!
