//! The weighted undirected graph with its complete adjusted cost matrix.

use vstd::prelude::*;
use vstd::hash_map::StringHashMap;
use crate::edge::{Edge, EdgeQueue, is_first_lightest};
use crate::random::random_below;
use crate::tree::{Tree, names_view};
use rand::rngs::StdRng;
use crate::cost::{
    Cost,
    MAX_DISTANCE,
    adjusted_weight,
    cell,
    diameter_of,
    direct,
    distances,
    is_diameter,
    lemma_cell,
    lemma_cell_injective,
    lemma_shortest_is_least,
    lemma_shortest_symmetric,
    shortest,
    is_walk,
    walk_weight,
    val,
    base_bounded,
};

verus! {

/// The input edges as (name, name, weight) over string views.
pub open spec fn edge_view(edges: Seq<(String, String, u32)>) -> Seq<(Seq<char>, Seq<char>, u32)> {
    edges.map_values(|t: (String, String, u32)| (t.0@, t.1@, t.2))
}

pub open spec fn add_name(names: Seq<Seq<char>>, s: Seq<char>) -> Seq<Seq<char>> {
    if names.contains(s) {
        names
    } else {
        names.push(s)
    }
}

/// The node names of an edge list, in order of first appearance.
pub open spec fn node_names(e: Seq<(Seq<char>, Seq<char>, u32)>) -> Seq<Seq<char>>
    decreases e.len(),
{
    if e.len() == 0 {
        Seq::empty()
    } else {
        add_name(add_name(node_names(e.drop_last()), e.last().0), e.last().1)
    }
}

/// Cell `(i, j)` of the matrix before distances are computed: the weight of
/// the last input edge joining the two nodes, zero on the diagonal, and no
/// distance elsewhere.
pub open spec fn raw_cell(e: Seq<(Seq<char>, Seq<char>, u32)>, names: Seq<Seq<char>>, i: int, j: int) -> (
    Option<u64>,
    bool,
)
    decreases e.len(),
{
    if e.len() == 0 {
        if i == j {
            (Some(0u64), true)
        } else {
            (None, false)
        }
    } else {
        let a = names.index_of(e.last().0);
        let b = names.index_of(e.last().1);
        if (a == i && b == j) || (a == j && b == i) {
            (Some(e.last().2 as u64), true)
        } else {
            raw_cell(e.drop_last(), names, i, j)
        }
    }
}

/// The flattened matrix of raw cells over the nodes `names`.
pub open spec fn raw_matrix(e: Seq<(Seq<char>, Seq<char>, u32)>, names: Seq<Seq<char>>) -> Seq<
    (Option<u64>, bool),
> {
    let n = names.len() as int;
    Seq::new((n * n) as nat, |x: int| raw_cell(e, names, x / n, x % n))
}

/// The shortest distances between the nodes of the graph built from `e`.
pub open spec fn graph_distances(e: Seq<(Seq<char>, Seq<char>, u32)>) -> spec_fn(int, int) -> Option<int> {
    let names = node_names(e);
    distances(raw_matrix(e, names), names.len() as int)
}

/// The distance between nodes `i` and `j` of the graph built from `e`.
pub open spec fn graph_distance(e: Seq<(Seq<char>, Seq<char>, u32)>, i: int, j: int) -> Option<int> {
    graph_distances(e)(i, j)
}

/// The diameter of the graph built from `e`.
pub open spec fn graph_diameter(e: Seq<(Seq<char>, Seq<char>, u32)>) -> u64 {
    diameter_of(graph_distances(e), node_names(e).len() as int)
}

/// The adjusted weight of cell `(i, j)` of the graph built from `e`.
pub open spec fn graph_weight(e: Seq<(Seq<char>, Seq<char>, u32)>, i: int, j: int) -> int {
    adjusted_weight(raw_cell(e, node_names(e), i, j), graph_distance(e, i, j), graph_diameter(e))
}

pub proof fn lemma_cell_div(i: int, j: int, n: int)
    requires
        0 <= i < n,
        0 <= j < n,
    ensures
        cell(i, j, n) / n == i,
        cell(i, j, n) % n == j,
{
    vstd::arithmetic::div_mod::lemma_fundamental_div_mod_converse(i * n + j, n, i, j);
}

proof fn lemma_raw_cell_symmetric(e: Seq<(Seq<char>, Seq<char>, u32)>, names: Seq<Seq<char>>, i: int, j: int)
    ensures
        raw_cell(e, names, i, j) == raw_cell(e, names, j, i),
    decreases e.len(),
{
    if e.len() > 0 {
        lemma_raw_cell_symmetric(e.drop_last(), names, i, j);
    }
}

proof fn lemma_index_of_distinct(names: Seq<Seq<char>>, i: int)
    requires
        names.no_duplicates(),
        0 <= i < names.len(),
    ensures
        names.index_of(names[i]) == i,
{
    let k = names.index_of(names[i]);
    assert(0 <= k < names.len() && names[k] == names[i]);
}

proof fn lemma_add_name(names: Seq<Seq<char>>, s: Seq<char>)
    requires
        names.no_duplicates(),
    ensures
        add_name(names, s).no_duplicates(),
        add_name(names, s).contains(s),
        forall|t: Seq<char>| names.contains(t) ==> add_name(names, s).contains(t),
        forall|t: Seq<char>| #[trigger] add_name(names, s).contains(t) ==> names.contains(t) || t == s,
        names.len() <= add_name(names, s).len(),
        forall|i: int| 0 <= i < names.len() ==> add_name(names, s)[i] == names[i],
{
    if !names.contains(s) {
        let r = names.push(s);
        assert(r[names.len() as int] == s);
        assert forall|t: Seq<char>| names.contains(t) implies r.contains(t) by {
            let k = choose|k: int| 0 <= k < names.len() && names[k] == t;
            assert(r[k] == t);
        }
        assert forall|t: Seq<char>| #[trigger] r.contains(t) implies names.contains(t) || t == s by {
            let k = choose|k: int| 0 <= k < r.len() && r[k] == t;
            if k < names.len() {
                assert(names[k] == t);
            }
        }
    }
}

proof fn lemma_node_names(e: Seq<(Seq<char>, Seq<char>, u32)>)
    ensures
        node_names(e).no_duplicates(),
        forall|t: int| 0 <= t < e.len() ==> node_names(e).contains(#[trigger] e[t].0) && node_names(e).contains(e[t].1),
        node_names(e).len() <= 2 * e.len(),
    decreases e.len(),
{
    if e.len() > 0 {
        let p = e.drop_last();
        lemma_node_names(p);
        let q = add_name(node_names(p), e.last().0);
        lemma_add_name(node_names(p), e.last().0);
        lemma_add_name(q, e.last().1);
        assert forall|t: int| 0 <= t < e.len() implies node_names(e).contains(#[trigger] e[t].0) && node_names(e).contains(e[t].1) by {
            if t < e.len() - 1 {
                assert(p[t] == e[t]);
            }
        }
    }
}

/// A weighted undirected graph over named nodes, with the complete matrix of
/// (adjusted weight, is-original-edge) cells.
pub struct Graph {
    nodes: StringHashMap<usize>,
    names: Vec<String>,
    edges: Vec<(u64, bool)>,
    diameter: u64,
}

impl Graph {
    /// The number of nodes.
    pub closed spec fn spec_n(&self) -> int {
        self.names@.len() as int
    }

    /// The node names by index.
    pub closed spec fn spec_names(&self) -> Seq<Seq<char>> {
        Seq::new(self.names@.len(), |i: int| self.names@[i]@)
    }

    /// The index of each node name.
    pub closed spec fn spec_index(&self) -> Map<Seq<char>, usize> {
        self.nodes@
    }

    /// Cell `(i, j)` of the matrix.
    pub closed spec fn spec_cell(&self, i: int, j: int) -> (u64, bool) {
        self.edges@[cell(i, j, self.names@.len() as int)]
    }

    /// The flattened matrix.
    pub closed spec fn spec_matrix(&self) -> Seq<(u64, bool)> {
        self.edges@
    }

    pub closed spec fn spec_diameter(&self) -> u64 {
        self.diameter
    }

    /// The cell between two named nodes.
    pub open spec fn edge_between(&self, a: Seq<char>, b: Seq<char>) -> (u64, bool) {
        self.spec_cell(self.spec_index()[a] as int, self.spec_index()[b] as int)
    }

    /// Names are distinct, indexed consistently, and the matrix is a complete
    /// symmetric `n`-by-`n` matrix.
    pub open spec fn wf(&self) -> bool {
        &&& self.spec_names().len() == self.spec_n()
        &&& self.spec_names().no_duplicates()
        &&& forall|s: Seq<char>| #[trigger] self.spec_index().contains_key(s) <==> self.spec_names().contains(s)
        &&& forall|i: int| 0 <= i < self.spec_n() ==> #[trigger] self.spec_index()[self.spec_names()[i]] == i
        &&& self.spec_matrix().len() == self.spec_n() * self.spec_n()
        &&& self.spec_n() * self.spec_n() <= usize::MAX
        &&& forall|i: int, j: int|
            0 <= i < self.spec_n() && 0 <= j < self.spec_n() ==> #[trigger] self.spec_cell(i, j) == self.spec_cell(j, i)
        &&& forall|i: int, j: int|
            0 <= i < self.spec_n() && 0 <= j < self.spec_n() ==> #[trigger] self.spec_cell(i, j)
                == self.spec_matrix()[cell(i, j, self.spec_n())]
    }

    /// The graph is the one built from the edge list `e`.
    pub open spec fn built_from(&self, e: Seq<(Seq<char>, Seq<char>, u32)>) -> bool {
        &&& self.wf()
        &&& self.spec_names() == node_names(e)
        &&& self.spec_diameter() == graph_diameter(e)
        &&& is_diameter(graph_distances(e), self.spec_n(), self.spec_diameter())
        &&& base_bounded(direct(raw_matrix(e, self.spec_names()), self.spec_n()), self.spec_n())
        &&& forall|i: int, j: int|
            0 <= i < self.spec_n() && 0 <= j < self.spec_n() ==> {
                &&& (#[trigger] self.spec_cell(i, j)).1 == raw_cell(e, self.spec_names(), i, j).1
                &&& self.spec_cell(i, j).0 as int == graph_weight(e, i, j)
            }
    }

    /// Builds the graph of the edge list `edges`: nodes are numbered in order
    /// of first appearance, each input edge sets both cells of its pair (a
    /// later edge overrides an earlier one), and every other cell gets its
    /// distance times the diameter, or the diameter squared when no path
    /// joins the pair. Each weight times the number of nodes must be at most
    /// `MAX_DISTANCE`, so that every shortest distance stays within it and
    /// every adjusted weight fits in 64 bits.
    pub fn new(edges: Vec<(String, String, u32)>) -> (r: Self)
        requires
            node_names(edge_view(edges@)).len() * node_names(edge_view(edges@)).len() <= usize::MAX,
            forall|t: int|
                0 <= t < edges@.len() ==> node_names(edge_view(edges@)).len() * (#[trigger] edges@[t]).2 <= MAX_DISTANCE,
        ensures
            r.built_from(edge_view(edges@)),
    {
        let ghost e = edge_view(edges@);
        let mut nodes: StringHashMap<usize> = StringHashMap::new();
        let mut names: Vec<String> = Vec::new();
        let ghost mut gnames: Seq<Seq<char>> = Seq::empty();
        let mut t: usize = 0;
        while t < edges.len()
            invariant
                e == edge_view(edges@),
                0 <= t <= edges@.len(),
                gnames == node_names(e.take(t as int)),
                gnames.len() == names@.len(),
                forall|i: int| 0 <= i < names@.len() ==> #[trigger] names@[i]@ == gnames[i],
                forall|s: Seq<char>| #[trigger] nodes@.contains_key(s) <==> gnames.contains(s),
                forall|i: int| 0 <= i < gnames.len() ==> #[trigger] nodes@[gnames[i]] == i,
                gnames.len() <= 2 * t,
            decreases edges@.len() - t,
        {
            proof {
                lemma_node_names(e.take(t as int));
                assert(e.take(t as int + 1).drop_last() =~= e.take(t as int));
                assert(e.take(t as int + 1).last() == e[t as int]);
            }
            let ghost g0 = gnames;
            let n1 = &edges[t].0;
            if !nodes.contains_key(n1.as_str()) {
                let len = names.len();
                nodes.insert(n1.clone(), len);
                names.push(n1.clone());
                proof {
                    gnames = gnames.push(n1@);
                    assert forall|s: Seq<char>| #[trigger] nodes@.contains_key(s) <==> gnames.contains(s) by {
                        if g0.contains(s) {
                            let k = choose|k: int| 0 <= k < g0.len() && g0[k] == s;
                            assert(gnames[k] == s);
                        }
                        if gnames.contains(s) && s != n1@ {
                            let k = choose|k: int| 0 <= k < gnames.len() && gnames[k] == s;
                            assert(g0[k] == s);
                        }
                        assert(gnames[g0.len() as int] == n1@);
                    }
                    assert forall|i: int| 0 <= i < gnames.len() implies #[trigger] nodes@[gnames[i]] == i by {
                        if i < g0.len() {
                            assert(g0.contains(g0[i]));
                        }
                    }
                }
            }
            proof {
                lemma_add_name(g0, e[t as int].0);
                assert(gnames == add_name(g0, e[t as int].0));
            }
            let ghost g1 = gnames;
            let n2 = &edges[t].1;
            if !nodes.contains_key(n2.as_str()) {
                let len = names.len();
                nodes.insert(n2.clone(), len);
                names.push(n2.clone());
                proof {
                    gnames = gnames.push(n2@);
                    assert forall|s: Seq<char>| #[trigger] nodes@.contains_key(s) <==> gnames.contains(s) by {
                        if g1.contains(s) {
                            let k = choose|k: int| 0 <= k < g1.len() && g1[k] == s;
                            assert(gnames[k] == s);
                        }
                        if gnames.contains(s) && s != n2@ {
                            let k = choose|k: int| 0 <= k < gnames.len() && gnames[k] == s;
                            assert(g1[k] == s);
                        }
                        assert(gnames[g1.len() as int] == n2@);
                    }
                    assert forall|i: int| 0 <= i < gnames.len() implies #[trigger] nodes@[gnames[i]] == i by {
                        if i < g1.len() {
                            assert(g1.contains(g1[i]));
                        }
                    }
                }
            }
            proof {
                lemma_add_name(g1, e[t as int].1);
                assert(gnames == add_name(g1, e[t as int].1));
            }
            t = t + 1;
        }
        proof {
            assert(e.take(edges@.len() as int) =~= e);
            lemma_node_names(e);
        }
        let n = names.len();
        let ghost nn = n as int;
        // The raw matrix: zero on the diagonal, no distance elsewhere.
        let mut raw: Vec<(Option<u64>, bool)> = Vec::new();
        let mut i: usize = 0;
        while i < n
            invariant
                0 <= i <= n,
                nn == n,
                n * n <= usize::MAX,
                raw@.len() == i * n,
                forall|a: int, b: int|
                    0 <= a < i && 0 <= b < n ==> #[trigger] raw@[cell(a, b, nn)] == raw_cell(
                        Seq::empty(),
                        gnames,
                        a,
                        b,
                    ),
            decreases n - i,
        {
            let mut j: usize = 0;
            while j < n
                invariant
                    0 <= i < n,
                    0 <= j <= n,
                    nn == n,
                    n * n <= usize::MAX,
                    raw@.len() == i * n + j,
                    forall|a: int, b: int|
                        0 <= a <= i && 0 <= b < n && cell(a, b, nn) < i * n + j ==> #[trigger] raw@[cell(
                            a,
                            b,
                            nn,
                        )] == raw_cell(Seq::empty(), gnames, a, b),
                decreases n - j,
            {
                proof {
                    lemma_cell(i as int, j as int, nn);
                }
                if i == j {
                    raw.push((Some(0u64), true));
                } else {
                    raw.push((None, false));
                }
                proof {
                    assert forall|a: int, b: int|
                        0 <= a <= i && 0 <= b < n && cell(a, b, nn) < i * n + j + 1 implies #[trigger] raw@[cell(
                            a,
                            b,
                            nn,
                        )] == raw_cell(Seq::empty(), gnames, a, b) by {
                        lemma_cell(a, b, nn);
                        if cell(a, b, nn) == cell(i as int, j as int, nn) {
                            lemma_cell_injective(a, b, i as int, j as int, nn);
                        }
                    }
                }
                j = j + 1;
            }
            proof {
                assert forall|a: int, b: int| 0 <= a < i + 1 && 0 <= b < n implies #[trigger] cell(a, b, nn) < i * n + n by {
                    assert(a * n + b < i * n + n) by (nonlinear_arith)
                        requires
                            0 <= a < i + 1,
                            0 <= b < n,
                    ;
                }
                assert((i + 1) * n == i * n + n) by (nonlinear_arith);
            }
            i = i + 1;
        }
        // Overlay the input edges, both directions.
        let mut t: usize = 0;
        while t < edges.len()
            invariant
                e == edge_view(edges@),
                gnames == node_names(e),
                gnames.no_duplicates(),
                forall|q: int| 0 <= q < e.len() ==> gnames.contains(#[trigger] e[q].0) && gnames.contains(e[q].1),
                gnames.len() == n,
                nn == n,
                n * n <= usize::MAX,
                forall|s: Seq<char>| #[trigger] nodes@.contains_key(s) <==> gnames.contains(s),
                forall|i: int| 0 <= i < gnames.len() ==> #[trigger] nodes@[gnames[i]] == i,
                0 <= t <= edges@.len(),
                raw@.len() == n * n,
                forall|a: int, b: int|
                    0 <= a < n && 0 <= b < n ==> #[trigger] raw@[cell(a, b, nn)] == raw_cell(
                        e.take(t as int),
                        gnames,
                        a,
                        b,
                    ),
            decreases edges@.len() - t,
        {
            let a: usize = match nodes.get(edges[t].0.as_str()) {
                Some(v) => *v,
                None => 0,
            };
            let b: usize = match nodes.get(edges[t].1.as_str()) {
                Some(v) => *v,
                None => 0,
            };
            let w = edges[t].2 as u64;
            proof {
                let ka = choose|k: int| 0 <= k < gnames.len() && gnames[k] == e[t as int].0;
                let kb = choose|k: int| 0 <= k < gnames.len() && gnames[k] == e[t as int].1;
                assert(a == ka);
                assert(b == kb);
                lemma_index_of_distinct(gnames, ka);
                lemma_index_of_distinct(gnames, kb);
                lemma_cell(a as int, b as int, nn);
                lemma_cell(b as int, a as int, nn);
                assert(e.take(t as int + 1).drop_last() =~= e.take(t as int));
                assert(e.take(t as int + 1).last() == e[t as int]);
            }
            let ghost r0 = raw@;
            raw.set(a * n + b, (Some(w), true));
            raw.set(b * n + a, (Some(w), true));
            proof {
                assert forall|x: int, y: int| 0 <= x < n && 0 <= y < n implies #[trigger] raw@[cell(x, y, nn)] == raw_cell(
                    e.take(t as int + 1),
                    gnames,
                    x,
                    y,
                ) by {
                    lemma_cell(x, y, nn);
                    if cell(x, y, nn) == cell(a as int, b as int, nn) {
                        lemma_cell_injective(x, y, a as int, b as int, nn);
                    } else if cell(x, y, nn) == cell(b as int, a as int, nn) {
                        lemma_cell_injective(x, y, b as int, a as int, nn);
                    } else {
                        assert(raw@[cell(x, y, nn)] == r0[cell(x, y, nn)]);
                        if (x == a && y == b) || (x == b && y == a) {
                            assert(false);
                        }
                    }
                }
            }
            t = t + 1;
        }
        proof {
            assert(e.take(edges@.len() as int) =~= e);
            assert forall|x: int| 0 <= x < raw@.len() implies raw@[x] == raw_matrix(e, gnames)[x] by {
                assert(x == (x / nn) * nn + x % nn && 0 <= x % nn < nn) by {
                    vstd::arithmetic::div_mod::lemma_fundamental_div_mod(x, nn);
                    vstd::arithmetic::div_mod::lemma_mod_bound(x, nn);
                }
                let q = x / nn;
                assert(q < nn) by (nonlinear_arith)
                    requires
                        x == q * nn + x % nn,
                        0 <= x % nn,
                        x < nn * nn,
                        nn > 0,
                ;
                assert(x / nn >= 0) by (nonlinear_arith)
                    requires
                        x == (x / nn) * nn + x % nn,
                        x % nn < nn,
                        0 <= x,
                ;
                lemma_cell(x / nn, x % nn, nn);
            }
            assert(raw@ =~= raw_matrix(e, gnames));
            assert(base_bounded(direct(raw@, nn), nn)) by {
                assert forall|t: int| 0 <= t < e.len() implies gnames.len() * (#[trigger] e[t]).2 <= MAX_DISTANCE by {
                    assert(e[t].2 == edges@[t].2);
                }
                assert forall|a: int, b: int| 0 <= a < nn && 0 <= b < nn implies match #[trigger] direct(raw@, nn)(a, b) {
                    Some(v) => 0 <= v && nn * v <= MAX_DISTANCE,
                    None => true,
                } by {
                    lemma_cell(a, b, nn);
                    lemma_raw_cell_bounded(e, gnames, a, b);
                }
                assert forall|a: int| 0 <= a < nn implies (#[trigger] direct(raw@, nn)(a, a)) is Some by {
                    lemma_cell(a, a, nn);
                    lemma_raw_cell_bounded(e, gnames, a, a);
                }
            }
            assert forall|x: int| 0 <= x < raw@.len() && (#[trigger] raw@[x]).1 implies raw@[x].0 is Some by {
                lemma_raw_cell_original(e, gnames, x / nn, x % nn);
            }
        }
        let mut cost = Cost::new();
        let matrix = cost.calculate_edges(n, &raw);
        proof {
            assert forall|a: int, b: int| 0 <= a < n && 0 <= b < n implies crate::cost::within_bound(
                crate::cost::widen(#[trigger] cost.matrix()[cell(a, b, nn)]),
            ) by {
                crate::cost::lemma_shortest_bounded(direct(raw@, nn), nn, nn, a, b);
            }
            assert forall|a: int, b: int| 0 <= a < nn && 0 <= b < nn implies #[trigger] direct(raw@, nn)(a, b)
                == direct(raw@, nn)(b, a) by {
                lemma_cell(a, b, nn);
                lemma_cell(b, a, nn);
                lemma_raw_cell_symmetric(e, gnames, a, b);
            }
        }
        let diameter = cost.get_diameter(n);
        let g = Graph { nodes, names, edges: matrix, diameter };
        proof {
            let dist = distances(raw@, nn);
            let f = |a: int, b: int| crate::cost::widen(cost.matrix()[cell(a, b, nn)]);
            assert forall|a: int, b: int| 0 <= a < n && 0 <= b < n implies match #[trigger] dist(a, b) {
                Some(v) => v <= diameter,
                None => true,
            } by {
                assert(f(a, b) == dist(a, b));
            }
            if diameter != 0 {
                let (a, b) = choose|a: int, b: int| 0 <= a < n && 0 <= b < n && #[trigger] f(a, b) == Some(diameter as int);
                assert(dist(a, b) == Some(diameter as int));
            }
            crate::cost::lemma_diameter_unique(dist, nn, diameter, diameter_of(dist, nn));
            assert(dist == graph_distances(e));
            assert(g.spec_names() =~= gnames);
            assert forall|s: Seq<char>| #[trigger] g.spec_index().contains_key(s) <==> g.spec_names().contains(s) by {}
            assert forall|i: int, j: int|
                0 <= i < n && 0 <= j < n implies #[trigger] g.spec_cell(i, j) == g.spec_cell(j, i) by {
                lemma_cell(i, j, nn);
                lemma_cell(j, i, nn);
                lemma_cell_div(i, j, nn);
                lemma_cell_div(j, i, nn);
                lemma_raw_cell_symmetric(e, gnames, i, j);
                lemma_shortest_symmetric(direct(raw@, nn), nn, nn, i, j);
            }
            assert forall|i: int, j: int|
                0 <= i < n && 0 <= j < n implies {
                    &&& (#[trigger] g.spec_cell(i, j)).1 == raw_cell(e, g.spec_names(), i, j).1
                    &&& g.spec_cell(i, j).0 as int == graph_weight(e, i, j)
                } by {
                lemma_cell(i, j, nn);
                lemma_cell_div(i, j, nn);
            }
        }
        g
    }

    /// The diameter: the largest finite shortest distance between two nodes.
    pub fn get_diameter(&self) -> (r: u64)
        ensures
            r == self.spec_diameter(),
    {
        self.diameter
    }

    pub fn get_num_nodes(&self) -> (r: usize)
        requires
            self.wf(),
        ensures
            r == self.spec_n(),
    {
        self.names.len()
    }

    /// The node names, by index.
    pub fn get_nodes(&self) -> (r: Vec<String>)
        requires
            self.wf(),
        ensures
            r@.len() == self.spec_n(),
            forall|i: int| 0 <= i < r@.len() ==> #[trigger] r@[i]@ == self.spec_names()[i],
    {
        let mut r: Vec<String> = Vec::new();
        let mut i: usize = 0;
        while i < self.names.len()
            invariant
                0 <= i <= self.names@.len(),
                r@.len() == i,
                forall|k: int| 0 <= k < i ==> #[trigger] r@[k]@ == self.spec_names()[k],
            decreases self.names@.len() - i,
        {
            r.push(self.names[i].clone());
            i = i + 1;
        }
        r
    }

    pub proof fn lemma_index_in_range(&self, a: Seq<char>)
        requires
            self.wf(),
            self.spec_index().contains_key(a),
        ensures
            0 <= self.spec_index()[a] < self.spec_n(),
            self.spec_names()[self.spec_index()[a] as int] == a,
    {
        assert(self.spec_names().contains(a));
        let k = choose|k: int| 0 <= k < self.spec_names().len() && self.spec_names()[k] == a;
        assert(self.spec_index()[self.spec_names()[k]] == k);
    }

    /// The (adjusted weight, is-original) cell between two known nodes.
    pub fn get_edge(&self, node_a: &String, node_b: &String) -> (r: (u64, bool))
        requires
            self.wf(),
            self.spec_index().contains_key(node_a@),
            self.spec_index().contains_key(node_b@),
        ensures
            r == self.edge_between(node_a@, node_b@),
    {
        proof {
            self.lemma_index_in_range(node_a@);
            self.lemma_index_in_range(node_b@);
        }
        let i: usize = match self.nodes.get(node_a.as_str()) {
            Some(v) => *v,
            None => 0,
        };
        let j: usize = match self.nodes.get(node_b.as_str()) {
            Some(v) => *v,
            None => 0,
        };
        proof {
            lemma_cell(i as int, j as int, self.spec_n());
        }
        self.edges[i * self.names.len() + j]
    }

    /// The cell at a position of the flattened matrix.
    pub fn get_edge_index(&self, index: usize) -> (r: (u64, bool))
        requires
            self.wf(),
            index < self.spec_n() * self.spec_n(),
        ensures
            r == self.spec_matrix()[index as int],
    {
        self.edges[index]
    }

    /// A tree of `k` nodes drawn at random, without repetition, and joined by
    /// Prim's algorithm.
    pub fn generate_tree(&self, k: usize, random: &mut StdRng) -> (r: Tree)
        requires
            self.wf(),
            k <= self.spec_n(),
        ensures
            r.k == k,
            r.nodes@.len() == k,
            names_view(r.nodes@).no_duplicates(),
            forall|q: int| 0 <= q < r.nodes@.len() ==> self.spec_index().contains_key(#[trigger] r.nodes@[q]@),
            r.edges@.len() == if k == 0 { 0 } else { k - 1 },
            forall|s: int| 0 <= s < r.edges@.len() ==> attached(self, fresh_candidates(r.nodes@), #[trigger] r.edges@[s]),
            prim_greedy(self, fresh_candidates(r.nodes@), 0, r.edges@),
            exists|order: Seq<int>, froms: Seq<int>| prim_trace(self, fresh_candidates(r.nodes@), 0, r.edges@, order, froms),
            r.total_cost is None && r.normalize is None && r.neighbors is None,
    {
        let mut nodes = self.get_nodes();
        let mut nodes_tree: Vec<(String, bool)> = Vec::new();
        let mut i: usize = 0;
        while i < k
            invariant
                self.wf(),
                k <= self.spec_n(),
                0 <= i <= k,
                nodes@.len() == self.spec_n() - i,
                nodes_tree@.len() == i,
                forall|q: int| 0 <= q < i ==> !(#[trigger] nodes_tree@[q]).1,
                names_view(nodes@ + nodes_tree@.map_values(|p: (String, bool)| p.0)).no_duplicates(),
                forall|q: int| 0 <= q < nodes@.len() ==> self.spec_index().contains_key(#[trigger] nodes@[q]@),
                forall|q: int| 0 <= q < i ==> self.spec_index().contains_key(#[trigger] nodes_tree@[q].0@),
            decreases k - i,
        {
            let index = random_below(random, nodes.len());
            let ghost n0 = nodes@;
            let ghost t0 = nodes_tree@;
            let name = nodes.remove(index);
            nodes_tree.push((name, false));
            proof {
                let f = |p: (String, bool)| p.0;
                let before = names_view(n0 + t0.map_values(f));
                let after = names_view(nodes@ + nodes_tree@.map_values(f));
                assert(after.len() == before.len());
                let g = |x: int| if x < index { x } else if x < n0.len() - 1 { x + 1 } else if x < before.len() - 1 { x + 1 } else { index as int };
                assert forall|x: int| 0 <= x < after.len() implies #[trigger] after[x] == before[g(x)] && 0 <= g(x) < before.len() by {
                    if x < n0.len() - 1 {
                        assert(after[x] == nodes@[x]@);
                    } else if x < before.len() - 1 {
                        assert(after[x] == nodes_tree@[x - (n0.len() - 1)].0@);
                        assert(before[x + 1] == t0[x + 1 - n0.len()].0@);
                    } else {
                        assert(after[x] == name@);
                    }
                }
                assert forall|a: int, b: int| 0 <= a < b < after.len() implies after[a] != after[b] by {
                    assert(after[a] == before[g(a)]);
                    assert(after[b] == before[g(b)]);
                }
                assert forall|q: int| 0 <= q < i + 1 implies self.spec_index().contains_key(#[trigger] nodes_tree@[q].0@) by {
                    if q < i {
                        assert(nodes_tree@[q] == t0[q]);
                    }
                }
                assert forall|q: int| 0 <= q < nodes@.len() implies self.spec_index().contains_key(#[trigger] nodes@[q]@) by {
                    if q < index {
                        assert(nodes@[q] == n0[q]);
                    } else {
                        assert(nodes@[q] == n0[q + 1]);
                    }
                }
            }
            i = i + 1;
        }
        let ghost nt = nodes_tree@;
        let r = self.generate_tree_by_nodes(k, &mut nodes_tree);
        proof {
            let names_in = names_view(nodes@ + nt.map_values(|p: (String, bool)| p.0)).subrange(
                nodes@.len() as int,
                nodes@.len() + k,
            );
            assert(names_in.no_duplicates()) by {
                let all = names_view(nodes@ + nt.map_values(|p: (String, bool)| p.0));
                assert forall|a: int, b: int| 0 <= a < b < names_in.len() implies names_in[a] != names_in[b] by {
                    assert(names_in[a] == all[nodes@.len() + a]);
                    assert(names_in[b] == all[nodes@.len() + b]);
                }
            }
            assert forall|q: int| 0 <= q < k implies #[trigger] names_in[q] == nt[q].0@ by {}
            assert(names_distinct(cand_view(nt))) by {
                assert forall|a: int, b: int| 0 <= a < b < cand_view(nt).len() implies cand_view(nt)[a].0 != cand_view(
                    nt,
                )[b].0 by {
                    assert(names_in[a] == nt[a].0@);
                    assert(names_in[b] == nt[b].0@);
                }
            }
            assert(cand_view(nt) =~= fresh_candidates(r.nodes@)) by {
                assert forall|q: int| 0 <= q < nt.len() implies cand_view(nt)[q] == fresh_candidates(r.nodes@)[q] by {
                    assert(r.nodes@[q]@ == nt[q].0@);
                    assert(!nt[q].1);
                }
            }
            assert(names_view(r.nodes@).to_set() =~= names_in.to_set()) by {
                assert forall|s: Seq<char>| names_view(r.nodes@).to_set().contains(s) <==> names_in.to_set().contains(s) by {
                    if names_in.contains(s) {
                        let q = choose|q: int| 0 <= q < names_in.len() && names_in[q] == s;
                        assert(nt[q].0@ == s);
                    }
                    if exists|q: int| 0 <= q < nt.len() && #[trigger] nt[q].0@ == s {
                        let q = choose|q: int| 0 <= q < nt.len() && #[trigger] nt[q].0@ == s;
                        assert(names_in[q] == s);
                    }
                }
            }
            names_view(r.nodes@).unique_seq_to_set();
            names_in.unique_seq_to_set();
            assert forall|q: int| 0 <= q < r.nodes@.len() implies self.spec_index().contains_key(#[trigger] r.nodes@[q]@) by {
                assert(names_view(r.nodes@)[q] == r.nodes@[q]@);
                assert(names_view(r.nodes@).contains(r.nodes@[q]@));
            }
            if k > 0 {
                assert(forall|q: int| 0 <= q < nt.len() ==> !(#[trigger] cand_view(nt)[q]).1);
                lemma_prim_spans(cand_view(nt));
            }
        }
        r
    }

    /// The tree Prim's algorithm builds over the candidates `nodes_tree`,
    /// starting from no edge.
    pub fn generate_tree_by_nodes(&self, k: usize, nodes_tree: &mut Vec<(String, bool)>) -> (r: Tree)
        requires
            self.wf(),
            forall|q: int| 0 <= q < old(nodes_tree)@.len() ==> self.spec_index().contains_key(#[trigger] old(nodes_tree)@[q].0@),
        ensures
            r.k == k,
            forall|s: Seq<char>| names_view(r.nodes@).contains(s) <==> exists|q: int| 0 <= q < old(nodes_tree)@.len() && #[trigger] old(nodes_tree)@[q].0@ == s,
            names_view(r.nodes@).no_duplicates(),
            r.edges@.len() == appended_count(0, k as int, count_false(start_flags(cand_view(old(nodes_tree)@)))),
            forall|s: int| 0 <= s < r.edges@.len() ==> attached(self, cand_view(old(nodes_tree)@), #[trigger] r.edges@[s]),
            names_distinct(cand_view(old(nodes_tree)@)) ==> prim_greedy(self, cand_view(old(nodes_tree)@), 0, r.edges@),
            exists|order: Seq<int>, froms: Seq<int>| prim_trace(self, cand_view(old(nodes_tree)@), 0, r.edges@, order, froms),
            names_distinct(cand_view(old(nodes_tree)@)) ==> r.nodes@.len() == old(nodes_tree)@.len() && forall|q: int|
                0 <= q < r.nodes@.len() ==> #[trigger] r.nodes@[q]@ == old(nodes_tree)@[q].0@,
            r.total_cost is None && r.normalize is None && r.neighbors is None,
            final(nodes_tree)@.len() == old(nodes_tree)@.len(),
            forall|q: int| 0 <= q < old(nodes_tree)@.len() ==> #[trigger] final(nodes_tree)@[q].0@ == old(nodes_tree)@[q].0@,
    {
        let edges_tree = self.prim(nodes_tree, Vec::new(), k);
        let mut nodes_set: Vec<String> = Vec::new();
        let mut i: usize = 0;
        while i < nodes_tree.len()
            invariant
                0 <= i <= nodes_tree@.len(),
                nodes_set@.len() == i,
                forall|q: int| 0 <= q < i ==> #[trigger] nodes_set@[q] == nodes_tree@[q].0,
            decreases nodes_tree@.len() - i,
        {
            nodes_set.push(nodes_tree[i].0.clone());
            i = i + 1;
        }
        proof {
            if names_distinct(cand_view(old(nodes_tree)@)) {
                assert forall|a: int, b: int| 0 <= a < b < names_view(nodes_set@).len() implies names_view(nodes_set@)[a]
                    != names_view(nodes_set@)[b] by {
                    assert(cand_view(old(nodes_tree)@)[a].0 != cand_view(old(nodes_tree)@)[b].0);
                }
            }
        }
        let r = Tree::new(edges_tree, nodes_set, k);
        proof {
            assert forall|s: Seq<char>| names_view(r.nodes@).contains(s) <==> exists|q: int| 0 <= q < old(nodes_tree)@.len() && #[trigger] old(nodes_tree)@[q].0@ == s by {
                if names_view(nodes_set@).contains(s) {
                    let q = choose|q: int| 0 <= q < names_view(nodes_set@).len() && names_view(nodes_set@)[q] == s;
                    assert(old(nodes_tree)@[q].0@ == s);
                }
                if exists|q: int| 0 <= q < old(nodes_tree)@.len() && #[trigger] old(nodes_tree)@[q].0@ == s {
                    let q = choose|q: int| 0 <= q < old(nodes_tree)@.len() && #[trigger] old(nodes_tree)@[q].0@ == s;
                    assert(names_view(nodes_set@)[q] == s);
                }
            }
        }
        r
    }

    /// Prim's algorithm over the candidate nodes `nodes_tree`, each marked as
    /// already in the partial tree or not, continuing the tree `edges`.
    ///
    /// When no candidate is marked, the first one is. The cheapest edge from a
    /// marked node to an unmarked one is taken repeatedly (the earliest queued
    /// among equal weights), marking its target, until the tree holds
    /// `size - 1` edges or no unmarked candidate is left. Returns `edges`
    /// followed by the new edges.
    pub fn prim(&self, nodes_tree: &mut Vec<(String, bool)>, edges: Vec<(String, String, u64)>, size: usize) -> (r: Vec<
        (String, String, u64),
    >)
        requires
            self.wf(),
            forall|k: int| 0 <= k < old(nodes_tree)@.len() ==> self.spec_index().contains_key(#[trigger] old(nodes_tree)@[k].0@),
        ensures
            final(nodes_tree)@.len() == old(nodes_tree)@.len(),
            forall|k: int| 0 <= k < old(nodes_tree)@.len() ==> #[trigger] final(nodes_tree)@[k].0@ == old(nodes_tree)@[k].0@,
            forall|k: int| 0 <= k < old(nodes_tree)@.len() && start_flags(cand_view(old(nodes_tree)@))[k] ==> #[trigger] final(nodes_tree)@[k].1,
            r@.len() == edges@.len() + appended_count(edges@.len() as int, size as int, count_false(start_flags(cand_view(old(nodes_tree)@)))),
            r@.subrange(0, edges@.len() as int) == edges@,
            r@.len() == edges@.len() + count_false(start_flags(cand_view(old(nodes_tree)@))) ==> forall|k: int| 0 <= k < old(nodes_tree)@.len() ==> #[trigger] final(nodes_tree)@[k].1,
            forall|s: int| edges@.len() <= s < r@.len() ==> attached(self, cand_view(old(nodes_tree)@), #[trigger] r@[s]),
            names_distinct(cand_view(old(nodes_tree)@)) ==> prim_greedy(self, cand_view(old(nodes_tree)@), edges@.len() as int, r@),
            exists|order: Seq<int>, froms: Seq<int>|
                prim_trace(self, cand_view(old(nodes_tree)@), edges@.len() as int, r@, order, froms) && forall|k: int|
                    0 <= k < old(nodes_tree)@.len() ==> #[trigger] final(nodes_tree)@[k].1 == in_at(
                        start_flags(cand_view(old(nodes_tree)@)),
                        order,
                        order.len() as int,
                        k,
                    ),
            names_distinct(cand_view(old(nodes_tree)@)) ==> forall|k: int|
                0 <= k < old(nodes_tree)@.len() ==> (#[trigger] final(nodes_tree)@[k].1 <==> marked_before(
                    cand_view(old(nodes_tree)@),
                    r@,
                    edges@.len() as int,
                    r@.len() as int,
                    cand_view(old(nodes_tree)@)[k].0,
                )),
    {
        let ghost nt0 = nodes_tree@;
        let ghost cv0 = cand_view(nt0);
        let len = nodes_tree.len();
        let mut any_node_visited = false;
        let mut i: usize = 0;
        while i < len
            invariant
                nodes_tree@ == nt0,
                len == nt0.len(),
                0 <= i <= len,
                any_node_visited <==> exists|k: int| 0 <= k < i && #[trigger] nt0[k].1,
            decreases len - i,
        {
            if nodes_tree[i].1 {
                any_node_visited = true;
            }
            i = i + 1;
        }
        if !any_node_visited && len > 0 {
            mark(nodes_tree, 0);
        }
        proof {
            assert forall|k: int| 0 <= k < len implies #[trigger] cand_view(nt0)[k].1 == nt0[k].1 by {}
            if any_node_visited {
                let k = choose|k: int| 0 <= k < len && #[trigger] nt0[k].1;
                assert(cand_view(nt0)[k].1);
            }
            assert(flags_of(cand_view(nodes_tree@)) =~= start_flags(cand_view(nt0)));
        }
        let ghost fl0 = start_flags(cand_view(nt0));
        let mut queue = EdgeQueue::new();
        let mut i: usize = 0;
        while i < len
            invariant
                self.wf(),
                len == nt0.len(),
                nodes_tree@.len() == len,
                flags_of(cand_view(nodes_tree@)) == fl0,
                forall|k: int| 0 <= k < len ==> #[trigger] nodes_tree@[k].0@ == nt0[k].0@,
                forall|k: int| 0 <= k < len ==> self.spec_index().contains_key(#[trigger] nt0[k].0@),
                0 <= i <= len,
                queue_sound(self, nodes_tree@, queue@),
                forall|a: int, b: int|
                    0 <= a < i && 0 <= b < len && nodes_tree@[a].1 && !nodes_tree@[b].1 ==> #[trigger] covers(queue@, a, b),
                fl0.len() == len,
                queue_sorted(fl0, Seq::<int>::empty(), queue@),
                queue_below(fl0, Seq::<int>::empty(), queue@, i * len),
            decreases len - i,
        {
            proof {
                assert((i + 1) * len == i * len + len) by (nonlinear_arith);
            }
            if nodes_tree[i].1 {
                let mut j: usize = 0;
                while j < len
                    invariant
                        self.wf(),
                        len == nt0.len(),
                        nodes_tree@.len() == len,
                        flags_of(cand_view(nodes_tree@)) == fl0,
                        forall|k: int| 0 <= k < len ==> #[trigger] nodes_tree@[k].0@ == nt0[k].0@,
                        forall|k: int| 0 <= k < len ==> self.spec_index().contains_key(#[trigger] nt0[k].0@),
                        0 <= i < len,
                        nodes_tree@[i as int].1,
                        0 <= j <= len,
                        queue_sound(self, nodes_tree@, queue@),
                        forall|a: int, b: int|
                            0 <= b < len && nodes_tree@[a].1 && !nodes_tree@[b].1 && (0 <= a < i || (a == i && b < j))
                                ==> #[trigger] covers(queue@, a, b),
                        fl0.len() == len,
                        queue_sorted(fl0, Seq::<int>::empty(), queue@),
                        queue_below(fl0, Seq::<int>::empty(), queue@, i * len + j),
                    decreases len - j,
                {
                    if !nodes_tree[j].1 {
                        proof {
                            assert(self.spec_index().contains_key(nt0[i as int].0@));
                            assert(self.spec_index().contains_key(nt0[j as int].0@));
                        }
                        let w = self.get_edge(&nodes_tree[i].0, &nodes_tree[j].0).0;
                        let ghost q0 = queue@;
                        let new_edge = Edge::new(w, i, j);
                        queue.push(new_edge);
                        proof {
                            assert(fl0[i as int] == nodes_tree@[i as int].1) by {
                                assert(flags_of(cand_view(nodes_tree@))[i as int] == nodes_tree@[i as int].1);
                            }
                            lemma_sorted_push(fl0, Seq::<int>::empty(), q0, new_edge, i * len + j);
                            lemma_covers_push(q0, new_edge);
                            assert(covers(queue@, i as int, j as int)) by {
                                assert(queue@[q0.len() as int] == new_edge);
                            }
                        }
                    }
                    proof {
                        assert forall|p: int| 0 <= p < queue@.len() implies edge_key(fl0, Seq::<int>::empty(), (#[trigger] queue@[p]).spec_from() as int, queue@[p].spec_to() as int)
                            < i * len + j + 1 by {}
                    }
                    j = j + 1;
                }
            }
            proof {
                assert forall|p: int| 0 <= p < queue@.len() implies edge_key(fl0, Seq::<int>::empty(), (#[trigger] queue@[p]).spec_from() as int, queue@[p].spec_to() as int)
                    < (i + 1) * len by {}
            }
            i = i + 1;
        }
        let ghost seed = edges@;
        let ghost mut order: Seq<int> = Seq::empty();
        let ghost mut froms: Seq<int> = Seq::empty();
        let mut mst_edges = edges;
        proof {
            assert(mst_edges@.subrange(0, seed.len() as int) =~= seed);
            lemma_count_false_bound(fl0);
            if len > 0 {
                if exists|k: int| 0 <= k < len && #[trigger] nt0[k].1 {
                    let k = choose|k: int| 0 <= k < len && #[trigger] nt0[k].1;
                    assert(flags_of(cand_view(nodes_tree@))[k] == nodes_tree@[k].1);
                    assert(nodes_tree@[k].1);
                } else {
                    assert(flags_of(cand_view(nodes_tree@))[0] == nodes_tree@[0].1);
                    assert(nodes_tree@[0].1);
                }
            }
        }
        proof {
            assert forall|i: int| 0 <= i < len implies (#[trigger] nodes_tree@[i]).1 == in_at(fl0, order, order.len() as int, i) by {
                assert(flags_of(cand_view(nodes_tree@))[i] == nodes_tree@[i].1);
            }
            assert forall|i: int| 0 <= i < len && (#[trigger] nodes_tree@[i]).1 implies marked_before(
                cv0,
                mst_edges@,
                seed.len() as int,
                mst_edges@.len() as int,
                cv0[i].0,
            ) by {
                assert(flags_of(cand_view(nodes_tree@))[i] == nodes_tree@[i].1);
                assert(fl0[i]);
            }
            assert forall|name: Seq<char>|
                #[trigger] marked_before(cv0, mst_edges@, seed.len() as int, mst_edges@.len() as int, name) implies exists|i: int|
                    0 <= i < len && nodes_tree@[i].1 && #[trigger] cv0[i].0 == name by {
                let i = choose|i: int| 0 <= i < cv0.len() && start_flags(cv0)[i] && #[trigger] cv0[i].0 == name;
                assert(flags_of(cand_view(nodes_tree@))[i] == nodes_tree@[i].1);
            }
        }
        while size > 0 && mst_edges.len() < size - 1 && !queue.is_empty()
            invariant
                self.wf(),
                len == nt0.len(),
                nodes_tree@.len() == len,
                forall|k: int| 0 <= k < len ==> #[trigger] nodes_tree@[k].0@ == nt0[k].0@,
                forall|k: int| 0 <= k < len ==> self.spec_index().contains_key(#[trigger] nt0[k].0@),
                forall|k: int| 0 <= k < len && fl0[k] ==> #[trigger] nodes_tree@[k].1,
                fl0 == start_flags(cand_view(nt0)),
                fl0.len() == len,
                len > 0 ==> exists|k: int| 0 <= k < len && #[trigger] nodes_tree@[k].1,
                count_false(flags_of(cand_view(nodes_tree@))) <= count_false(fl0),
                mst_edges@.len() == seed.len() + count_false(fl0) - count_false(flags_of(cand_view(nodes_tree@))),
                mst_edges@.len() + 1 <= size || mst_edges@.len() == seed.len(),
                mst_edges@.subrange(0, seed.len() as int) == seed,
                forall|s: int| seed.len() <= s < mst_edges@.len() ==> attached(self, cand_view(nt0), #[trigger] mst_edges@[s]),
                queue_sound(self, nodes_tree@, queue@),
                forall|a: int, b: int|
                    0 <= a < len && 0 <= b < len && nodes_tree@[a].1 && !nodes_tree@[b].1 ==> #[trigger] covers(queue@, a, b),
                cv0 == cand_view(nt0),
                cv0.len() == len,
                forall|i: int|
                    0 <= i < len && (#[trigger] nodes_tree@[i]).1 ==> marked_before(
                        cv0,
                        mst_edges@,
                        seed.len() as int,
                        mst_edges@.len() as int,
                        cv0[i].0,
                    ),
                forall|name: Seq<char>|
                    #[trigger] marked_before(cv0, mst_edges@, seed.len() as int, mst_edges@.len() as int, name) ==> exists|i: int|
                        0 <= i < len && nodes_tree@[i].1 && #[trigger] cv0[i].0 == name,
                names_distinct(cv0) ==> prim_greedy(self, cv0, seed.len() as int, mst_edges@),
                prim_trace(self, cv0, seed.len() as int, mst_edges@, order, froms),
                forall|i: int| 0 <= i < len ==> (#[trigger] nodes_tree@[i]).1 == in_at(fl0, order, order.len() as int, i),
                queue_sorted(fl0, order, queue@),
            decreases count_false(flags_of(cand_view(nodes_tree@))), queue@.len(),
        {
            let ghost q0 = queue@;
            let popped = queue.pop();
            if let Some(edge) = popped {
                let ghost idx = choose|x: int| is_first_lightest(q0, x) && popped == Some(q0[x]) && queue@ == q0.remove(x);
                proof {
                    assert(q0[idx] == edge);
                    lemma_covers_remove(q0, idx);
                }
                let from_node_tree_idx = edge.get_from();
                let to_node_tree_idx = edge.get_to();
                if !nodes_tree[to_node_tree_idx].1 {
                    let ghost nt1 = nodes_tree@;
                    mark(nodes_tree, to_node_tree_idx);
                    proof {
                        lemma_count_false_mark(flags_of(cand_view(nt1)), to_node_tree_idx as int);
                        assert(flags_of(cand_view(nodes_tree@)) =~= flags_of(cand_view(nt1)).update(to_node_tree_idx as int, true));
                        lemma_count_false_bound(flags_of(cand_view(nodes_tree@)));
                    }
                    let ghost m0 = mst_edges@;
                    let t = (
                        nodes_tree[from_node_tree_idx].0.clone(),
                        nodes_tree[to_node_tree_idx].0.clone(),
                        edge.get_weight(),
                    );
                    mst_edges.push(t);
                    proof {
                        assert(!fl0[to_node_tree_idx as int]);
                        assert(attached(self, cand_view(nt0), t)) by {
                            assert(cand_view(nt0)[from_node_tree_idx as int].0 == t.0@);
                            assert(cand_view(nt0)[to_node_tree_idx as int].0 == t.1@);
                        }
                        assert forall|s: int| seed.len() <= s < mst_edges@.len() implies attached(
                            self,
                            cand_view(nt0),
                            #[trigger] mst_edges@[s],
                        ) by {
                            if s < m0.len() {
                                assert(mst_edges@[s] == m0[s]);
                            }
                        }
                        assert(mst_edges@.subrange(0, seed.len() as int) =~= m0.subrange(0, seed.len() as int));
                        assert forall|a: int, b: int|
                            0 <= a < len && 0 <= b < len && nodes_tree@[a].1 && !nodes_tree@[b].1
                                && a != to_node_tree_idx implies #[trigger] covers(queue@, a, b) by {
                            assert(nt1[a].1);
                            assert(!nt1[b].1);
                            assert(covers(q0, a, b));
                        }
                        let sl = seed.len() as int;
                        let u = m0.len() as int;
                        let to = to_node_tree_idx as int;
                        let from = from_node_tree_idx as int;
                        lemma_marked_step(cv0, mst_edges@, sl, u);
                        lemma_marked_push(cv0, m0, t, sl, u);
                        assert(mst_edges@ == m0.push(t));
                        assert(mst_edges@[u] == t);
                        assert(cv0[to].0 == t.1@);
                        assert(cv0[from].0 == t.0@);
                        assert forall|i: int| 0 <= i < len && (#[trigger] nodes_tree@[i]).1 implies marked_before(
                            cv0,
                            mst_edges@,
                            sl,
                            u + 1,
                            cv0[i].0,
                        ) by {
                            if i != to {
                                assert(nt1[i].1);
                                assert(marked_before(cv0, m0, sl, u, cv0[i].0));
                            }
                        }
                        assert forall|name: Seq<char>|
                            #[trigger] marked_before(cv0, mst_edges@, sl, u + 1, name) implies exists|i: int|
                                0 <= i < len && nodes_tree@[i].1 && #[trigger] cv0[i].0 == name by {
                            if name == t.1@ {
                                assert(nodes_tree@[to].1 && cv0[to].0 == name);
                            } else {
                                assert(marked_before(cv0, m0, sl, u, name));
                                let i = choose|i: int| 0 <= i < len && nt1[i].1 && #[trigger] cv0[i].0 == name;
                                assert(nodes_tree@[i].1);
                            }
                        }
                        if names_distinct(cv0) {
                            assert forall|s: int| sl <= s < mst_edges@.len() implies #[trigger] greedy_at(
                                self,
                                cv0,
                                sl,
                                mst_edges@,
                                s,
                            ) by {
                                if s < u {
                                    lemma_greedy_push(self, cv0, sl, m0, t, s);
                                } else {
                                    assert(s == u);
                                    // The source was in the tree when the edge was queued.
                                    assert(nt1[from].1);
                                    assert(marked_before(cv0, m0, sl, u, cv0[from].0));
                                    // The target was not.
                                    if marked_before(cv0, m0, sl, u, t.1@) {
                                        let i = choose|i: int| 0 <= i < len && nt1[i].1 && #[trigger] cv0[i].0 == t.1@;
                                        if i != to {
                                            if i < to {
                                                assert(cv0[i].0 != cv0[to].0);
                                            } else {
                                                assert(cv0[to].0 != cv0[i].0);
                                            }
                                        }
                                    }
                                    assert forall|a: int, b: int|
                                        0 <= a < cv0.len() && 0 <= b < cv0.len() && marked_before(cv0, mst_edges@, sl, u, cv0[a].0)
                                            && !marked_before(cv0, mst_edges@, sl, u, cv0[b].0) implies mst_edges@[u].2 <= (
                                        #[trigger] self.edge_between(cv0[a].0, cv0[b].0)).0 by {
                                        assert(marked_before(cv0, m0, sl, u, cv0[a].0));
                                        let i = choose|i: int| 0 <= i < len && nt1[i].1 && #[trigger] cv0[i].0 == cv0[a].0;
                                        if i != a {
                                            if i < a {
                                                assert(cv0[i].0 != cv0[a].0);
                                            } else {
                                                assert(cv0[a].0 != cv0[i].0);
                                            }
                                        }
                                        if nt1[b].1 {
                                            assert(marked_before(cv0, m0, sl, u, cv0[b].0));
                                        }
                                        assert(covers(q0, a, b));
                                        let k = choose|k: int| 0 <= k < q0.len() && (#[trigger] q0[k]).spec_from() == a && q0[k].spec_to() == b;
                                        assert(q0[idx].spec_weight() <= q0[k].spec_weight());
                                        assert(nt1[a].0@ == cv0[a].0);
                                        assert(nt1[b].0@ == cv0[b].0);
                                    }
                                }
                            }
                        }
                    }
                    proof {
                        let sl = seed.len() as int;
                        let st = order.len() as int;
                        let from = from_node_tree_idx as int;
                        let to = to_node_tree_idx as int;
                        let o1 = order;
                        let f1 = froms;
                        assert(q0[idx].spec_from() == from_node_tree_idx && q0[idx].spec_to() == to_node_tree_idx);
                        assert(nt1[from].1);
                        assert(in_at(fl0, o1, st, from));
                        assert(!in_at(fl0, o1, st, to));
                        let o2 = o1.push(to);
                        assert(o2.no_duplicates()) by {
                            assert forall|x: int, y: int| 0 <= x < o2.len() && 0 <= y < o2.len() && x != y implies o2[x] != o2[y] by {
                                if x == st {
                                    assert(o2[y] == o1[y]);
                                } else if y == st {
                                    assert(o2[x] == o1[x]);
                                } else {
                                    assert(o2[x] == o1[x] && o2[y] == o1[y]);
                                }
                            }
                        }
                        assert(mst_edges@ == m0.push(t));
                        assert forall|u: int| 0 <= u < st implies #[trigger] prim_step(self, cv0, sl, mst_edges@, o2, f1.push(from), u) by {
                            lemma_step_push(self, cv0, sl, m0, o1, f1, to, from, t, u);
                        }
                        assert forall|a: int| #[trigger] in_at(fl0, o2, st, a) == in_at(fl0, o1, st, a) by {
                            lemma_in_at_push(fl0, o1, to, st, a);
                        }
                        lemma_rank_push(fl0, o1, to, from);
                        assert forall|a: int, b: int|
                            0 <= a < len && 0 <= b < len && in_at(fl0, o2, st, a) && !in_at(fl0, o2, st, b) implies t.2
                                < (#[trigger] self.edge_between(cv0[a].0, cv0[b].0)).0 || (t.2 == self.edge_between(
                                cv0[a].0,
                                cv0[b].0,
                            ).0 && edge_key(fl0, o2, from, to) <= edge_key(fl0, o2, a, b)) by {
                            assert(nt1[a].1 && !nt1[b].1);
                            assert(covers(q0, a, b));
                            let k = choose|k: int| 0 <= k < q0.len() && (#[trigger] q0[k]).spec_from() == a && q0[k].spec_to() == b;
                            assert(nt1[a].0@ == cv0[a].0 && nt1[b].0@ == cv0[b].0);
                            assert(q0[idx].spec_weight() <= q0[k].spec_weight());
                            if k < idx {
                                assert(q0[idx].spec_weight() < q0[k].spec_weight());
                            }
                            if idx < k {
                                assert(edge_key(fl0, o1, from, to) < edge_key(fl0, o1, a, b));
                            }
                            lemma_rank_push(fl0, o1, to, a);
                        }
                        assert(prim_step(self, cv0, sl, mst_edges@, o2, f1.push(from), st));
                        lemma_sorted_remove(fl0, o1, q0, idx);
                        assert forall|p: int| 0 <= p < queue@.len() implies in_at(fl0, o1, o1.len() as int, (#[trigger] queue@[p]).spec_from() as int) by {
                            let pp = if p < idx { p } else { p + 1 };
                            assert(queue@[p] == q0[pp]);
                            assert(nt1[q0[pp].spec_from() as int].1);
                        }
                        lemma_keys_push(fl0, o1, to, queue@);
                        assert forall|p: int| 0 <= p < queue@.len() implies edge_key(fl0, o2, (#[trigger] queue@[p]).spec_from() as int, queue@[p].spec_to() as int)
                            < (len + st) * len by {
                            let a = queue@[p].spec_from() as int;
                            let b = queue@[p].spec_to() as int;
                            let pp = if p < idx { p } else { p + 1 };
                            assert(queue@[p] == q0[pp]);
                            lemma_rank_push(fl0, o1, to, a);
                            let rk = join_rank(fl0, o1, a);
                            assert(rk < len + st);
                            assert(rk * len + b < (len + st) * len) by (nonlinear_arith)
                                requires
                                    0 <= rk < len + st,
                                    0 <= b < len,
                            ;
                        }
                        assert forall|p: int, x: int| 0 <= p < x < queue@.len() implies edge_key(fl0, o2, queue@[p].spec_from() as int, queue@[p].spec_to() as int)
                            < edge_key(fl0, o2, queue@[x].spec_from() as int, queue@[x].spec_to() as int) by {
                            assert(edge_key(fl0, o2, queue@[p].spec_from() as int, queue@[p].spec_to() as int) == edge_key(fl0, o1, queue@[p].spec_from() as int, queue@[p].spec_to() as int));
                            assert(edge_key(fl0, o2, queue@[x].spec_from() as int, queue@[x].spec_to() as int) == edge_key(fl0, o1, queue@[x].spec_from() as int, queue@[x].spec_to() as int));
                        }
                        assert forall|i: int| 0 <= i < len implies (#[trigger] nodes_tree@[i]).1 == in_at(fl0, o2, o2.len() as int, i) by {
                            lemma_in_at_push(fl0, o1, to, st, i);
                            if in_at(fl0, o2, st + 1, i) && !in_at(fl0, o2, st, i) {
                                let u = choose|u: int| 0 <= u < st + 1 && o2[u] == i;
                                assert(u == st);
                            }
                        }
                        assert(o2[st] == to);
                        assert(o2.drop_last() =~= o1);
                        assert(join_rank(fl0, o2, to) == len + st);
                        order = o2;
                        froms = f1.push(from);
                    }
                    let mut i: usize = 0;
                    while i < len
                        invariant
                            self.wf(),
                            len == nt0.len(),
                            nodes_tree@.len() == len,
                            forall|k: int| 0 <= k < len ==> #[trigger] nodes_tree@[k].0@ == nt0[k].0@,
                            forall|k: int| 0 <= k < len ==> self.spec_index().contains_key(#[trigger] nt0[k].0@),
                            0 <= to_node_tree_idx < len,
                            nodes_tree@[to_node_tree_idx as int].1,
                            0 <= i <= len,
                            queue_sound(self, nodes_tree@, queue@),
                            fl0.len() == len,
                            order.len() >= 1,
                            join_rank(fl0, order, to_node_tree_idx as int) == len + order.len() - 1,
                            queue_sorted(fl0, order, queue@),
                            queue_below(fl0, order, queue@, (len + order.len() - 1) * len + i),
                            forall|a: int, b: int|
                                0 <= a < len && 0 <= b < len && nodes_tree@[a].1 && !nodes_tree@[b].1 && (a
                                    != to_node_tree_idx || b < i) ==> #[trigger] covers(queue@, a, b),
                        decreases len - i,
                    {
                        if !nodes_tree[i].1 {
                            proof {
                                assert(self.spec_index().contains_key(nt0[to_node_tree_idx as int].0@));
                                assert(self.spec_index().contains_key(nt0[i as int].0@));
                            }
                            let w = self.get_edge(&nodes_tree[to_node_tree_idx].0, &nodes_tree[i].0).0;
                            let ghost q1 = queue@;
                            let new_edge = Edge::new(w, to_node_tree_idx, i);
                            queue.push(new_edge);
                            proof {
                                lemma_sorted_push(fl0, order, q1, new_edge, (len + order.len() - 1) * len + i);
                                lemma_covers_push(q1, new_edge);
                                assert(covers(queue@, to_node_tree_idx as int, i as int)) by {
                                    assert(queue@[q1.len() as int] == new_edge);
                                }
                            }
                        }
                        proof {
                            assert forall|p: int| 0 <= p < queue@.len() implies edge_key(fl0, order, (#[trigger] queue@[p]).spec_from() as int, queue@[p].spec_to() as int)
                                < (len + order.len() - 1) * len + i + 1 by {}
                        }
                        i = i + 1;
                    }
                } else {
                    proof {
                        lemma_sorted_remove(fl0, order, q0, idx);
                        assert forall|a: int, b: int|
                            0 <= a < len && 0 <= b < len && nodes_tree@[a].1 && !nodes_tree@[b].1 implies #[trigger] covers(
                            queue@,
                            a,
                            b,
                        ) by {
                            assert(covers(q0, a, b));
                        }
                    }
                }
            }
        }
        proof {
            if mst_edges@.len() + 1 < size {
                // The queue is empty, so no candidate is left unmarked.
                assert forall|k: int| 0 <= k < len implies #[trigger] nodes_tree@[k].1 by {
                    if !nodes_tree@[k].1 {
                        let a = choose|a: int| 0 <= a < len && #[trigger] nodes_tree@[a].1;
                        assert(covers(queue@, a, k));
                    }
                }
                lemma_count_false_all_true(flags_of(cand_view(nodes_tree@)));
            }
            if mst_edges@.len() == seed.len() + count_false(fl0) {
                lemma_count_false_zero(flags_of(cand_view(nodes_tree@)));
                assert forall|k: int| 0 <= k < len implies #[trigger] nodes_tree@[k].1 by {
                    assert(flags_of(cand_view(nodes_tree@))[k] == nodes_tree@[k].1);
                }
            }
        }
        proof {
            if names_distinct(cv0) {
                assert forall|k: int| 0 <= k < len implies (#[trigger] nodes_tree@[k].1 <==> marked_before(
                    cv0,
                    mst_edges@,
                    seed.len() as int,
                    mst_edges@.len() as int,
                    cv0[k].0,
                )) by {
                    if marked_before(cv0, mst_edges@, seed.len() as int, mst_edges@.len() as int, cv0[k].0) {
                        let i = choose|i: int| 0 <= i < len && nodes_tree@[i].1 && #[trigger] cv0[i].0 == cv0[k].0;
                        if i != k {
                            if i < k {
                                assert(cv0[i].0 != cv0[k].0);
                            } else {
                                assert(cv0[k].0 != cv0[i].0);
                            }
                        }
                    }
                }
            }
        }
        mst_edges
    }
}

/// A candidate-node list as (name, marked) pairs.
pub open spec fn cand_view(s: Seq<(String, bool)>) -> Seq<(Seq<char>, bool)> {
    s.map_values(|p: (String, bool)| (p.0@, p.1))
}

/// The nodes as candidates of which none is marked yet.
pub open spec fn fresh_candidates(nodes: Seq<String>) -> Seq<(Seq<char>, bool)> {
    Seq::new(nodes.len(), |q: int| (nodes[q]@, false))
}

/// The membership flags of a candidate-node list.
pub open spec fn flags_of(s: Seq<(Seq<char>, bool)>) -> Seq<bool> {
    s.map_values(|p: (Seq<char>, bool)| p.1)
}

/// The flags Prim's algorithm starts from: as given, or with the first
/// candidate marked when none is.
pub open spec fn start_flags(s: Seq<(Seq<char>, bool)>) -> Seq<bool> {
    if s.len() > 0 && forall|k: int| 0 <= k < s.len() ==> !(#[trigger] s[k]).1 {
        flags_of(s).update(0, true)
    } else {
        flags_of(s)
    }
}

/// The number of unmarked flags.
pub open spec fn count_false(f: Seq<bool>) -> nat
    decreases f.len(),
{
    if f.len() == 0 {
        0
    } else {
        count_false(f.drop_last()) + if f.last() {
            0nat
        } else {
            1nat
        }
    }
}

/// How many edges Prim's algorithm adds to a tree of `seed_len` edges, with
/// `outs` unmarked candidates and a target of `size - 1` edges.
pub open spec fn appended_count(seed_len: int, size: int, outs: nat) -> int {
    if seed_len + 1 >= size {
        0
    } else if outs <= size - 1 - seed_len {
        outs as int
    } else {
        size - 1 - seed_len
    }
}

/// The edge `t` joins two candidates of `nt`, the second of which was not
/// marked at the start, and carries the adjusted weight between them.
pub open spec fn attached(g: &Graph, nt: Seq<(Seq<char>, bool)>, t: (String, String, u64)) -> bool {
    exists|i: int, j: int|
        0 <= i < nt.len() && 0 <= j < nt.len() && !start_flags(nt)[j] && t.0@ == #[trigger] nt[i].0 && t.1@
            == #[trigger] nt[j].0 && t.2 == g.edge_between(nt[i].0, nt[j].0).0
}

/// Some queued edge leads from candidate `a` to candidate `b`.
pub open spec fn covers(q: Seq<Edge>, a: int, b: int) -> bool {
    exists|k: int| 0 <= k < q.len() && (#[trigger] q[k]).spec_from() == a && q[k].spec_to() == b
}

/// Every queued edge leads from a marked candidate to a candidate, with the
/// adjusted weight between them.
pub open spec fn queue_sound(g: &Graph, nt: Seq<(String, bool)>, q: Seq<Edge>) -> bool {
    forall|k: int|
        0 <= k < q.len() ==> {
            let e = #[trigger] q[k];
            &&& e.spec_from() < nt.len()
            &&& e.spec_to() < nt.len()
            &&& nt[e.spec_from() as int].1
            &&& e.spec_weight() == g.edge_between(nt[e.spec_from() as int].0@, nt[e.spec_to() as int].0@).0
        }
}

/// The name is marked at the start among `cands`, or is the target of one of
/// the edges `r[seed_len]` to `r[upto - 1]`.
pub open spec fn marked_before(
    cands: Seq<(Seq<char>, bool)>,
    r: Seq<(String, String, u64)>,
    seed_len: int,
    upto: int,
    name: Seq<char>,
) -> bool {
    (exists|i: int| 0 <= i < cands.len() && start_flags(cands)[i] && #[trigger] cands[i].0 == name) || (exists|t: int|
        seed_len <= t < upto && (#[trigger] r[t]).1@ == name)
}

/// The edge `r[s]` joins a node already in the tree to one that is not, and
/// no edge from a node in the tree to a candidate outside it is lighter.
pub open spec fn greedy_at(
    g: &Graph,
    cands: Seq<(Seq<char>, bool)>,
    seed_len: int,
    r: Seq<(String, String, u64)>,
    s: int,
) -> bool {
    &&& marked_before(cands, r, seed_len, s, r[s].0@)
    &&& !marked_before(cands, r, seed_len, s, r[s].1@)
    &&& forall|a: int, b: int|
        0 <= a < cands.len() && 0 <= b < cands.len() && marked_before(cands, r, seed_len, s, cands[a].0)
            && !marked_before(cands, r, seed_len, s, cands[b].0) ==> r[s].2 <= (#[trigger] g.edge_between(
            cands[a].0,
            cands[b].0,
        )).0
}

/// Every edge after the first `seed_len` of `r` is a lightest edge leaving
/// the tree built so far.
pub open spec fn prim_greedy(g: &Graph, cands: Seq<(Seq<char>, bool)>, seed_len: int, r: Seq<(String, String, u64)>) -> bool {
    forall|s: int| seed_len <= s < r.len() ==> #[trigger] greedy_at(g, cands, seed_len, r, s)
}

/// Candidate `a` is in the tree after `t` steps: marked at the start, or the
/// target of one of the first `t` steps.
pub open spec fn in_at(fl0: Seq<bool>, order: Seq<int>, t: int, a: int) -> bool {
    fl0[a] || exists|u: int| 0 <= u < t && order[u] == a
}

/// When candidate `a` joined the tree: its own position when marked at the
/// start, else the number of candidates plus the step that added it.
pub open spec fn join_rank(fl0: Seq<bool>, order: Seq<int>, a: int) -> int {
    if fl0[a] {
        a
    } else {
        fl0.len() + last_pos(order, a)
    }
}

/// The last position of `a` in `order` (zero when absent).
pub open spec fn last_pos(order: Seq<int>, a: int) -> int
    decreases order.len(),
{
    if order.len() == 0 {
        0
    } else if order.last() == a {
        order.len() - 1
    } else {
        last_pos(order.drop_last(), a)
    }
}

proof fn lemma_last_pos(order: Seq<int>, u: int)
    requires
        order.no_duplicates(),
        0 <= u < order.len(),
    ensures
        last_pos(order, order[u]) == u,
    decreases order.len(),
{
    if u < order.len() - 1 {
        assert(order.last() != order[u]);
        assert(order.drop_last()[u] == order[u]);
        lemma_last_pos(order.drop_last(), u);
    }
}

/// The order in which edges leave the queue among equal weights: by when the
/// source joined the tree, then by the position of the target.
pub open spec fn edge_key(fl0: Seq<bool>, order: Seq<int>, a: int, b: int) -> int {
    join_rank(fl0, order, a) * fl0.len() + b
}

/// Step `t` of Prim's algorithm over `cands`: the edge `r[seed_len + t]` goes
/// from candidate `froms[t]`, in the tree, to candidate `order[t]`, not in
/// it, and among the edges leaving the tree it is the lightest, and the first
/// by `edge_key` among the lightest.
pub open spec fn prim_step(
    g: &Graph,
    cands: Seq<(Seq<char>, bool)>,
    seed_len: int,
    r: Seq<(String, String, u64)>,
    order: Seq<int>,
    froms: Seq<int>,
    t: int,
) -> bool {
    let fl0 = start_flags(cands);
    let n = cands.len() as int;
    let e = r[seed_len + t];
    &&& 0 <= froms[t] < n
    &&& 0 <= order[t] < n
    &&& e.0@ == cands[froms[t]].0
    &&& e.1@ == cands[order[t]].0
    &&& in_at(fl0, order, t, froms[t])
    &&& !in_at(fl0, order, t, order[t])
    &&& forall|a: int, b: int|
        0 <= a < n && 0 <= b < n && in_at(fl0, order, t, a) && !in_at(fl0, order, t, b) ==> e.2 < (#[trigger] g.edge_between(
            cands[a].0,
            cands[b].0,
        )).0 || (e.2 == g.edge_between(cands[a].0, cands[b].0).0 && edge_key(fl0, order, froms[t], order[t])
            <= edge_key(fl0, order, a, b))
}

/// The edges after the first `seed_len` of `r` are the steps of Prim's
/// algorithm over `cands`, adding the candidates `order` from `froms`.
pub open spec fn prim_trace(
    g: &Graph,
    cands: Seq<(Seq<char>, bool)>,
    seed_len: int,
    r: Seq<(String, String, u64)>,
    order: Seq<int>,
    froms: Seq<int>,
) -> bool {
    &&& order.len() == r.len() - seed_len
    &&& froms.len() == order.len()
    &&& order.no_duplicates()
    &&& forall|t: int| 0 <= t < order.len() ==> #[trigger] prim_step(g, cands, seed_len, r, order, froms, t)
}

proof fn lemma_in_at_push(fl0: Seq<bool>, order: Seq<int>, x: int, t: int, a: int)
    requires
        0 <= t <= order.len(),
    ensures
        in_at(fl0, order.push(x), t, a) == in_at(fl0, order, t, a),
{
    if exists|u: int| 0 <= u < t && order.push(x)[u] == a {
        let u = choose|u: int| 0 <= u < t && order.push(x)[u] == a;
        assert(order[u] == a);
    }
    if exists|u: int| 0 <= u < t && order[u] == a {
        let u = choose|u: int| 0 <= u < t && order[u] == a;
        assert(order.push(x)[u] == a);
    }
}

proof fn lemma_rank_push(fl0: Seq<bool>, order: Seq<int>, x: int, a: int)
    requires
        order.push(x).no_duplicates(),
        in_at(fl0, order, order.len() as int, a),
    ensures
        join_rank(fl0, order.push(x), a) == join_rank(fl0, order, a),
        !fl0[a] ==> join_rank(fl0, order, a) < fl0.len() + order.len(),
        !fl0[a] ==> join_rank(fl0, order, a) >= fl0.len(),
{
    if !fl0[a] {
        let u0 = choose|u: int| 0 <= u < order.len() && order[u] == a;
        let o2 = order.push(x);
        assert(o2[u0] == a);
        assert(o2[o2.len() - 1] == x);
        assert(x != a);
        assert(o2.drop_last() =~= order);
        assert(order.no_duplicates()) by {
            assert forall|i: int, j: int| 0 <= i < order.len() && 0 <= j < order.len() && i != j implies order[i] != order[j] by {
                assert(o2[i] == order[i] && o2[j] == order[j]);
            }
        }
        lemma_last_pos(order, u0);
    }
}

/// The queued edges are in strictly increasing `edge_key` order.
pub open spec fn queue_sorted(fl0: Seq<bool>, order: Seq<int>, q: Seq<Edge>) -> bool {
    forall|p: int, x: int|
        0 <= p < x < q.len() ==> edge_key(fl0, order, q[p].spec_from() as int, q[p].spec_to() as int) < edge_key(
            fl0,
            order,
            q[x].spec_from() as int,
            q[x].spec_to() as int,
        )
}

/// Every queued edge has an `edge_key` below `bound`.
pub open spec fn queue_below(fl0: Seq<bool>, order: Seq<int>, q: Seq<Edge>, bound: int) -> bool {
    forall|p: int| 0 <= p < q.len() ==> edge_key(fl0, order, (#[trigger] q[p]).spec_from() as int, q[p].spec_to() as int) < bound
}

proof fn lemma_sorted_remove(fl0: Seq<bool>, order: Seq<int>, q: Seq<Edge>, idx: int)
    requires
        queue_sorted(fl0, order, q),
        0 <= idx < q.len(),
    ensures
        queue_sorted(fl0, order, q.remove(idx)),
{
    let r = q.remove(idx);
    assert forall|p: int, x: int| 0 <= p < x < r.len() implies edge_key(fl0, order, r[p].spec_from() as int, r[p].spec_to() as int)
        < edge_key(fl0, order, r[x].spec_from() as int, r[x].spec_to() as int) by {
        let pp = if p < idx { p } else { p + 1 };
        let xx = if x < idx { x } else { x + 1 };
        assert(r[p] == q[pp] && r[x] == q[xx]);
    }
}

proof fn lemma_sorted_push(fl0: Seq<bool>, order: Seq<int>, q: Seq<Edge>, e: Edge, bound: int)
    requires
        queue_sorted(fl0, order, q),
        queue_below(fl0, order, q, bound),
        edge_key(fl0, order, e.spec_from() as int, e.spec_to() as int) == bound,
    ensures
        queue_sorted(fl0, order, q.push(e)),
        queue_below(fl0, order, q.push(e), bound + 1),
{
    let r = q.push(e);
    assert forall|p: int, x: int| 0 <= p < x < r.len() implies edge_key(fl0, order, r[p].spec_from() as int, r[p].spec_to() as int)
        < edge_key(fl0, order, r[x].spec_from() as int, r[x].spec_to() as int) by {
        assert(r[p] == q[p]);
        if x < q.len() {
            assert(r[x] == q[x]);
        }
    }
    assert forall|p: int| 0 <= p < r.len() implies edge_key(fl0, order, (#[trigger] r[p]).spec_from() as int, r[p].spec_to() as int)
        < bound + 1 by {
        if p < q.len() {
            assert(r[p] == q[p]);
        }
    }
}

/// Adding a candidate to the order changes no key of an edge leaving a node
/// already in the tree.
proof fn lemma_keys_push(fl0: Seq<bool>, order: Seq<int>, x: int, q: Seq<Edge>)
    requires
        order.push(x).no_duplicates(),
        forall|p: int| 0 <= p < q.len() ==> in_at(fl0, order, order.len() as int, (#[trigger] q[p]).spec_from() as int),
    ensures
        forall|p: int| 0 <= p < q.len() ==> edge_key(fl0, order.push(x), (#[trigger] q[p]).spec_from() as int, q[p].spec_to() as int)
            == edge_key(fl0, order, q[p].spec_from() as int, q[p].spec_to() as int),
{
    assert forall|p: int| 0 <= p < q.len() implies edge_key(fl0, order.push(x), (#[trigger] q[p]).spec_from() as int, q[p].spec_to() as int)
        == edge_key(fl0, order, q[p].spec_from() as int, q[p].spec_to() as int) by {
        lemma_rank_push(fl0, order, x, q[p].spec_from() as int);
    }
}

/// The steps recorded so far stay steps when one more is recorded.
proof fn lemma_step_push(
    g: &Graph,
    cands: Seq<(Seq<char>, bool)>,
    seed_len: int,
    r: Seq<(String, String, u64)>,
    order: Seq<int>,
    froms: Seq<int>,
    x: int,
    f: int,
    y: (String, String, u64),
    t: int,
)
    requires
        0 <= seed_len,
        order.len() == r.len() - seed_len,
        froms.len() == order.len(),
        order.push(x).no_duplicates(),
        0 <= t < order.len(),
        prim_step(g, cands, seed_len, r, order, froms, t),
        start_flags(cands).len() == cands.len(),
    ensures
        prim_step(g, cands, seed_len, r.push(y), order.push(x), froms.push(f), t),
{
    let fl0 = start_flags(cands);
    let o2 = order.push(x);
    assert(r.push(y)[seed_len + t] == r[seed_len + t]);
    assert(froms.push(f)[t] == froms[t]);
    assert(o2[t] == order[t]);
    assert forall|a: int| #[trigger] in_at(fl0, o2, t, a) == in_at(fl0, order, t, a) by {
        lemma_in_at_push(fl0, order, x, t, a);
    }
    assert forall|a: int| in_at(fl0, order, t, a) implies #[trigger] join_rank(fl0, o2, a) == join_rank(fl0, order, a) by {
        if !fl0[a] {
            let u = choose|u: int| 0 <= u < t && order[u] == a;
        }
        lemma_rank_push(fl0, order, x, a);
    }
}

/// No two candidates share a name.
pub open spec fn names_distinct(c: Seq<(Seq<char>, bool)>) -> bool {
    forall|i: int, j: int| 0 <= i < j < c.len() ==> c[i].0 != c[j].0
}

proof fn lemma_marked_push(
    cands: Seq<(Seq<char>, bool)>,
    r: Seq<(String, String, u64)>,
    x: (String, String, u64),
    seed_len: int,
    upto: int,
)
    requires
        0 <= seed_len,
        upto <= r.len(),
    ensures
        forall|name: Seq<char>|
            #[trigger] marked_before(cands, r.push(x), seed_len, upto, name) == marked_before(cands, r, seed_len, upto, name),
{
    assert forall|name: Seq<char>|
        #[trigger] marked_before(cands, r.push(x), seed_len, upto, name) == marked_before(cands, r, seed_len, upto, name) by {
        if exists|t: int| seed_len <= t < upto && (#[trigger] r.push(x)[t]).1@ == name {
            let t = choose|t: int| seed_len <= t < upto && (#[trigger] r.push(x)[t]).1@ == name;
            assert(r[t] == r.push(x)[t]);
        }
        if exists|t: int| seed_len <= t < upto && (#[trigger] r[t]).1@ == name {
            let t = choose|t: int| seed_len <= t < upto && (#[trigger] r[t]).1@ == name;
            assert(r[t] == r.push(x)[t]);
        }
    }
}

proof fn lemma_marked_step(cands: Seq<(Seq<char>, bool)>, r: Seq<(String, String, u64)>, seed_len: int, upto: int)
    requires
        0 <= seed_len <= upto < r.len(),
    ensures
        forall|name: Seq<char>|
            #[trigger] marked_before(cands, r, seed_len, upto + 1, name) == (marked_before(cands, r, seed_len, upto, name)
                || r[upto].1@ == name),
{
    assert forall|name: Seq<char>|
        #[trigger] marked_before(cands, r, seed_len, upto + 1, name) == (marked_before(cands, r, seed_len, upto, name)
            || r[upto].1@ == name) by {
        if exists|t: int| seed_len <= t < upto + 1 && (#[trigger] r[t]).1@ == name {
            let t = choose|t: int| seed_len <= t < upto + 1 && (#[trigger] r[t]).1@ == name;
        }
    }
}

proof fn lemma_greedy_push(g: &Graph, cands: Seq<(Seq<char>, bool)>, seed_len: int, r: Seq<(String, String, u64)>, x: (String, String, u64), s: int)
    requires
        0 <= seed_len,
        0 <= s < r.len(),
        greedy_at(g, cands, seed_len, r, s),
    ensures
        greedy_at(g, cands, seed_len, r.push(x), s),
{
    lemma_marked_push(cands, r, x, seed_len, s);
    assert(r.push(x)[s] == r[s]);
}

proof fn lemma_covers_push(q: Seq<Edge>, e: Edge)
    ensures
        forall|a: int, b: int| covers(q, a, b) ==> #[trigger] covers(q.push(e), a, b),
{
    assert forall|a: int, b: int| covers(q, a, b) implies #[trigger] covers(q.push(e), a, b) by {
        let k = choose|k: int| 0 <= k < q.len() && (#[trigger] q[k]).spec_from() == a && q[k].spec_to() == b;
        assert(q.push(e)[k] == q[k]);
    }
}

proof fn lemma_covers_remove(q: Seq<Edge>, idx: int)
    requires
        0 <= idx < q.len(),
    ensures
        forall|a: int, b: int|
            covers(q, a, b) && q[idx].spec_to() != b ==> #[trigger] covers(q.remove(idx), a, b),
{
    assert forall|a: int, b: int| covers(q, a, b) && q[idx].spec_to() != b implies #[trigger] covers(q.remove(idx), a, b) by {
        let k = choose|k: int| 0 <= k < q.len() && (#[trigger] q[k]).spec_from() == a && q[k].spec_to() == b;
        if k < idx {
            assert(q.remove(idx)[k] == q[k]);
        } else {
            assert(q.remove(idx)[k - 1] == q[k]);
        }
    }
}

proof fn lemma_count_false_bound(f: Seq<bool>)
    ensures
        count_false(f) <= f.len(),
    decreases f.len(),
{
    if f.len() > 0 {
        lemma_count_false_bound(f.drop_last());
    }
}

proof fn lemma_count_false_mark(f: Seq<bool>, i: int)
    requires
        0 <= i < f.len(),
        !f[i],
    ensures
        count_false(f.update(i, true)) + 1 == count_false(f),
    decreases f.len(),
{
    if i == f.len() - 1 {
        assert(f.update(i, true).drop_last() =~= f.drop_last());
    } else {
        assert(f.update(i, true).drop_last() =~= f.drop_last().update(i, true));
        lemma_count_false_mark(f.drop_last(), i);
    }
}

proof fn lemma_count_false_all_true(f: Seq<bool>)
    requires
        forall|k: int| 0 <= k < f.len() ==> #[trigger] f[k],
    ensures
        count_false(f) == 0,
    decreases f.len(),
{
    if f.len() > 0 {
        lemma_count_false_all_true(f.drop_last());
    }
}

proof fn lemma_count_false_all_false(f: Seq<bool>)
    requires
        forall|k: int| 0 <= k < f.len() ==> !#[trigger] f[k],
    ensures
        count_false(f) == f.len(),
    decreases f.len(),
{
    if f.len() > 0 {
        lemma_count_false_all_false(f.drop_last());
    }
}

proof fn lemma_count_false_zero(f: Seq<bool>)
    requires
        count_false(f) == 0,
    ensures
        forall|k: int| 0 <= k < f.len() ==> #[trigger] f[k],
    decreases f.len(),
{
    if f.len() > 0 {
        lemma_count_false_zero(f.drop_last());
        assert forall|k: int| 0 <= k < f.len() implies #[trigger] f[k] by {
            if k < f.len() - 1 {
                assert(f.drop_last()[k] == f[k]);
            }
        }
    }
}

/// The adjusted matrix is symmetric: the cell between `a` and `b` is the cell
/// between `b` and `a`.
pub proof fn lemma_edge_symmetric(g: &Graph, a: Seq<char>, b: Seq<char>)
    requires
        g.wf(),
        g.spec_index().contains_key(a),
        g.spec_index().contains_key(b),
    ensures
        g.edge_between(a, b) == g.edge_between(b, a),
{
    g.lemma_index_in_range(a);
    g.lemma_index_in_range(b);
}

/// A pair of nodes without a direct edge gets its shortest distance times the
/// diameter when a path joins it, and the diameter squared otherwise; the
/// shortest distance is the least weight of a walk between the two nodes
/// along the input edges, and the diameter is the largest finite one.
pub proof fn lemma_adjusted_weight(g: &Graph, e: Seq<(Seq<char>, Seq<char>, u32)>, i: int, j: int)
    requires
        g.built_from(e),
        0 <= i < g.spec_n(),
        0 <= j < g.spec_n(),
        !g.spec_cell(i, j).1,
    ensures
        g.spec_cell(i, j).0 as int == match graph_distance(e, i, j) {
            Some(d) => d * g.spec_diameter(),
            None => g.spec_diameter() * g.spec_diameter(),
        },
        is_diameter(graph_distances(e), g.spec_n(), g.spec_diameter()),
        ({
            let base = direct(raw_matrix(e, node_names(e)), g.spec_n());
            &&& graph_distance(e, i, j) is Some <==> exists|w: Seq<int>|
                is_walk(base, g.spec_n(), w) && w[0] == i && w[w.len() - 1] == j
            &&& graph_distance(e, i, j) is Some ==> exists|w: Seq<int>|
                is_walk(base, g.spec_n(), w) && w[0] == i && w[w.len() - 1] == j && #[trigger] walk_weight(base, w)
                    == val(graph_distance(e, i, j))
            &&& forall|w: Seq<int>|
                is_walk(base, g.spec_n(), w) && w[0] == i && w[w.len() - 1] == j ==> val(graph_distance(e, i, j))
                    <= #[trigger] walk_weight(base, w)
        }),
{
    lemma_shortest_is_least(direct(raw_matrix(e, node_names(e)), g.spec_n()), g.spec_n(), i, j);
}

/// Prim's algorithm over `m` candidates of which none is marked, starting
/// from no edge with a target of `m` nodes, adds exactly `m - 1` edges.
pub proof fn lemma_prim_spans(cands: Seq<(Seq<char>, bool)>)
    requires
        cands.len() >= 1,
        forall|q: int| 0 <= q < cands.len() ==> !(#[trigger] cands[q]).1,
    ensures
        appended_count(0, cands.len() as int, count_false(start_flags(cands))) == cands.len() - 1,
{
    lemma_count_false_all_false(flags_of(cands));
    lemma_count_false_mark(flags_of(cands), 0);
}

/// Marks candidate `i` as in the tree.
fn mark(nodes_tree: &mut Vec<(String, bool)>, i: usize)
    requires
        i < old(nodes_tree)@.len(),
    ensures
        final(nodes_tree)@.len() == old(nodes_tree)@.len(),
        forall|k: int| 0 <= k < old(nodes_tree)@.len() ==> #[trigger] final(nodes_tree)@[k].0@ == old(nodes_tree)@[k].0@,
        forall|k: int| 0 <= k < old(nodes_tree)@.len() ==> #[trigger] final(nodes_tree)@[k].1 == (k == i || old(nodes_tree)@[k].1),
        flags_of(cand_view(final(nodes_tree)@)) == flags_of(cand_view(old(nodes_tree)@)).update(i as int, true),
{
    let name = nodes_tree[i].0.clone();
    nodes_tree.set(i, (name, true));
    assert(flags_of(cand_view(nodes_tree@)) =~= flags_of(cand_view(old(nodes_tree)@)).update(i as int, true));
}

proof fn lemma_raw_cell_bounded(e: Seq<(Seq<char>, Seq<char>, u32)>, names: Seq<Seq<char>>, i: int, j: int)
    requires
        forall|t: int| 0 <= t < e.len() ==> names.len() * (#[trigger] e[t]).2 <= MAX_DISTANCE,
    ensures
        match raw_cell(e, names, i, j).0 {
            Some(v) => names.len() * v <= MAX_DISTANCE,
            None => true,
        },
        i == j ==> raw_cell(e, names, i, j).0 is Some,
    decreases e.len(),
{
    if e.len() > 0 {
        let d = e.drop_last();
        assert forall|t: int| 0 <= t < d.len() implies names.len() * (#[trigger] d[t]).2 <= MAX_DISTANCE by {
            assert(d[t] == e[t]);
        }
        lemma_raw_cell_bounded(d, names, i, j);
        assert(names.len() * e[e.len() - 1].2 <= MAX_DISTANCE);
    }
}

proof fn lemma_raw_cell_original(e: Seq<(Seq<char>, Seq<char>, u32)>, names: Seq<Seq<char>>, i: int, j: int)
    ensures
        raw_cell(e, names, i, j).1 ==> raw_cell(e, names, i, j).0 is Some,
    decreases e.len(),
{
    if e.len() > 0 {
        lemma_raw_cell_original(e.drop_last(), names, i, j);
    }
}

} // verus!
