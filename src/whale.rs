//! One member of the search population: which graph nodes are in its tree,
//! and the tree itself.

use vstd::prelude::*;
use rand::rngs::StdRng;
use crate::graph::{Graph, cand_view, lemma_prim_spans, prim_greedy, prim_trace};
use crate::random::{choose_name, random_below};
use crate::tree::{
    Tree,
    TreeCost,
    cached_normalize,
    contains_name,
    lemma_candidates_distinct,
    names_view,
    neighbor_candidates,
    neighbor_edges_ok,
    retained,
    weight_sum,
};

verus! {

/// `a` comes before `b`, or equals it, in the lexicographic order of
/// characters (the order of `String`).
pub open spec fn lex_le(a: Seq<char>, b: Seq<char>) -> bool
    decreases a.len(),
{
    if a.len() == 0 {
        true
    } else if b.len() == 0 {
        false
    } else if (a[0] as u32) < (b[0] as u32) {
        true
    } else if (a[0] as u32) > (b[0] as u32) {
        false
    } else {
        lex_le(a.drop_first(), b.drop_first())
    }
}

/// Graph node `i` is one of `sel`.
pub open spec fn is_selected(sel: Seq<usize>, i: int) -> bool {
    exists|p: int| 0 <= p < sel.len() && #[trigger] sel[p] as int == i
}

/// The graph nodes `sel`, by index, as unmarked candidates.
pub open spec fn selected_candidates(g: &Graph, sel: Seq<usize>) -> Seq<(Seq<char>, bool)> {
    Seq::new(sel.len(), |q: int| (g.spec_names()[sel[q] as int], false))
}

/// Relies on `slice::sort` for `String`: the same strings, in ascending order.
#[verifier::external_body]
fn sort_names(v: &mut Vec<String>)
    ensures
        final(v)@.to_multiset() == old(v)@.to_multiset(),
        forall|i: int, j: int| 0 <= i < j < final(v)@.len() ==> lex_le(#[trigger] final(v)@[i]@, #[trigger] final(v)@[j]@),
{
    v.sort();
}

/// A population member: for each graph node, by index, its name and whether
/// it is in the member's tree; the tree; and the tree's cost.
#[derive(Debug)]
pub struct Whale {
    nodes: Vec<(String, bool)>,
    pub tree: Tree,
    pub cost: TreeCost,
    size: usize,
}

impl Whale {
    pub closed spec fn spec_nodes(&self) -> Seq<(String, bool)> {
        self.nodes@
    }

    pub closed spec fn spec_tree(&self) -> Tree {
        self.tree
    }

    pub closed spec fn spec_cost(&self) -> TreeCost {
        self.cost
    }

    pub closed spec fn spec_size(&self) -> usize {
        self.size
    }

    /// The member covers the nodes of `g` in index order, and its tree uses
    /// only nodes of `g`.
    pub open spec fn wf(&self, g: &Graph) -> bool {
        &&& g.wf()
        &&& self.spec_size() == g.spec_n()
        &&& self.spec_nodes().len() == self.spec_size()
        &&& forall|i: int| 0 <= i < self.spec_size() ==> #[trigger] self.spec_nodes()[i].0@ == g.spec_names()[i]
        &&& forall|q: int| 0 <= q < self.spec_tree().nodes@.len() ==> g.spec_index().contains_key(#[trigger] self.spec_tree().nodes@[q]@)
        &&& names_view(self.spec_tree().nodes@).no_duplicates()
    }

    /// Moves graph node `idx_new` into the tree and graph node `idx_remove`
    /// out of it: the neighbour for that pair is built, accepted, and its cost
    /// becomes the member's. Nothing but the cost is refreshed when the new
    /// node is already in the tree. Returns whether the tree changed.
    pub fn swap_nodes(&mut self, graph: &Graph, idx_new: usize, idx_remove: usize) -> (r: bool)
        requires
            old(self).wf(graph),
            idx_new < old(self).spec_size(),
            idx_remove < old(self).spec_size(),
        ensures
            final(self).wf(graph),
            final(self).spec_nodes() == old(self).spec_nodes(),
            final(self).spec_tree().total_cost == Some(final(self).spec_cost()),
            final(self).spec_tree().neighbors is None,
            final(self).spec_tree().k == old(self).spec_tree().k,
            ({
                let new_name = old(self).spec_nodes()[idx_new as int].0@;
                let remove_name = old(self).spec_nodes()[idx_remove as int].0@;
                let t0 = old(self).spec_tree();
                let t1 = final(self).spec_tree();
                &&& r == !names_view(t0.nodes@).contains(new_name)
                &&& !r ==> t1.nodes == t0.nodes && t1.edges == t0.edges
                &&& r ==> {
                    &&& forall|s: Seq<char>|
                        names_view(t1.nodes@).contains(s) <==> ((names_view(t0.nodes@).contains(s) || s == new_name) && s
                            != remove_name)
                    &&& neighbor_edges_ok(
                        graph,
                        neighbor_candidates(t0.nodes@, t0.edges@, new_name, remove_name),
                        retained(t0.edges@, remove_name),
                        t0.k as int,
                        t1.edges@,
                    )
                    &&& prim_greedy(
                        graph,
                        neighbor_candidates(t0.nodes@, t0.edges@, new_name, remove_name),
                        retained(t0.edges@, remove_name).len() as int,
                        t1.edges@,
                    )
                    &&& final(self).spec_cost() == (TreeCost {
                        sum: weight_sum(t1.edges@) as u128,
                        normalize: cached_normalize(&t0, graph) as u128,
                    })
                }
            }),
    {
        let new_node = self.nodes[idx_new].0.clone();
        let remove_node = self.nodes[idx_remove].0.clone();
        proof {
            assert(graph.spec_index()[graph.spec_names()[idx_new as int]] == idx_new);
            assert(graph.spec_names().contains(graph.spec_names()[idx_new as int]));
        }
        let ghost t0 = self.tree;
        proof {
            if !names_view(t0.nodes@).contains(new_node@) {
                lemma_candidates_distinct(t0.nodes@, t0.edges@, new_node@, remove_node@);
            }
        }
        self.tree.clear_neighbour();
        let result = self.tree.get_neighbor(graph, &new_node, &remove_node);
        let changed = self.tree.recover_solution();
        let cost = self.tree.get_cost(graph);
        self.cost = cost;
        proof {
            if changed {
                assert forall|q: int| 0 <= q < self.tree.nodes@.len() implies graph.spec_index().contains_key(
                    #[trigger] self.tree.nodes@[q]@,
                ) by {
                    assert(names_view(self.tree.nodes@)[q] == self.tree.nodes@[q]@);
                    assert(names_view(self.tree.nodes@).contains(self.tree.nodes@[q]@));
                    if self.tree.nodes@[q]@ != new_node@ {
                        let p = choose|p: int| 0 <= p < names_view(t0.nodes@).len() && names_view(t0.nodes@)[p] == self.tree.nodes@[q]@;
                        assert(t0.nodes@[p]@ == self.tree.nodes@[q]@);
                    }
                }
            }
        }
        changed
    }

    /// The member whose tree joins the graph nodes `selected` (by index, in
    /// that order) with Prim's algorithm; those nodes are marked in.
    pub fn new(graph: &Graph, selected: &Vec<usize>, k: usize) -> (r: Self)
        requires
            graph.wf(),
            selected@.len() == k,
            forall|q: int| 0 <= q < k ==> #[trigger] selected@[q] < graph.spec_n(),
            forall|p: int, q: int| 0 <= p < q < k ==> selected@[p] != selected@[q],
        ensures
            r.wf(graph),
            forall|i: int| 0 <= i < r.spec_size() ==> (#[trigger] r.spec_nodes()[i]).1 == is_selected(selected@, i),
            r.spec_tree().k == k,
            forall|s: Seq<char>| names_view(r.spec_tree().nodes@).contains(s) <==> exists|q: int| 0 <= q < k && #[trigger] graph.spec_names()[selected@[q] as int] == s,
            r.spec_tree().total_cost == Some(r.spec_cost()),
            k >= 1 ==> r.spec_tree().edges@.len() == k - 1,
            exists|order: Seq<int>, froms: Seq<int>|
                prim_trace(graph, selected_candidates(graph, selected@), 0, r.spec_tree().edges@, order, froms),
    {
        let names = graph.get_nodes();
        let size = names.len();
        let mut nodes: Vec<(String, bool)> = Vec::new();
        let mut i: usize = 0;
        while i < size
            invariant
                graph.wf(),
                size == names@.len(),
                size == graph.spec_n(),
                forall|q: int| 0 <= q < names@.len() ==> #[trigger] names@[q]@ == graph.spec_names()[q],
                0 <= i <= size,
                nodes@.len() == i,
                forall|q: int| 0 <= q < i ==> #[trigger] nodes@[q].0@ == graph.spec_names()[q] && nodes@[q].1 == is_selected(selected@, q),
            decreases size - i,
        {
            let mut chosen = false;
            let mut q: usize = 0;
            while q < selected.len()
                invariant
                    graph.wf(),
                    size == names@.len(),
                    size == graph.spec_n(),
                    forall|p: int| 0 <= p < names@.len() ==> #[trigger] names@[p]@ == graph.spec_names()[p],
                    0 <= i < size,
                    nodes@.len() == i,
                    forall|p: int| 0 <= p < i ==> #[trigger] nodes@[p].0@ == graph.spec_names()[p] && nodes@[p].1 == is_selected(selected@, p),
                    0 <= q <= selected@.len(),
                    chosen <==> exists|p: int| 0 <= p < q && #[trigger] selected@[p] == i,
                decreases selected@.len() - q,
            {
                if selected[q] == i {
                    chosen = true;
                }
                q = q + 1;
            }
            proof {
                if chosen {
                    let p = choose|p: int| 0 <= p < selected@.len() && #[trigger] selected@[p] == i;
                    assert(is_selected(selected@, i as int));
                } else if is_selected(selected@, i as int) {
                    let p = choose|p: int| 0 <= p < selected@.len() && #[trigger] selected@[p] as int == i;
                    assert(selected@[p] == i);
                }
            }
            let ghost n0 = nodes@;
            nodes.push((names[i].clone(), chosen));
            proof {
                assert forall|q: int| 0 <= q < i + 1 implies #[trigger] nodes@[q].0@ == graph.spec_names()[q] && nodes@[q].1
                    == is_selected(selected@, q) by {
                    if q < i {
                        assert(nodes@[q] == n0[q]);
                    }
                }
                assert(nodes@[i as int].1 == is_selected(selected@, i as int));
                assert(forall|q: int| 0 <= q < i + 1 ==> #[trigger] nodes@[q].0@ == graph.spec_names()[q] && nodes@[q].1 == is_selected(selected@, q));
            }
            i = i + 1;
        }
        let mut nodes_tree: Vec<(String, bool)> = Vec::new();
        let mut q: usize = 0;
        while q < k
            invariant
                graph.wf(),
                selected@.len() == k,
                forall|p: int| 0 <= p < k ==> #[trigger] selected@[p] < graph.spec_n(),
                size == names@.len(),
                size == graph.spec_n(),
                forall|p: int| 0 <= p < names@.len() ==> #[trigger] names@[p]@ == graph.spec_names()[p],
                0 <= q <= k,
                nodes@.len() == size,
                forall|p: int| 0 <= p < size ==> #[trigger] nodes@[p].0@ == graph.spec_names()[p] && nodes@[p].1 == is_selected(selected@, p),
                nodes_tree@.len() == q,
                forall|p: int| 0 <= p < q ==> !(#[trigger] nodes_tree@[p]).1,
                forall|p: int| 0 <= p < q ==> #[trigger] nodes_tree@[p].0@ == graph.spec_names()[selected@[p] as int],
                forall|p: int| 0 <= p < q ==> graph.spec_index().contains_key(#[trigger] nodes_tree@[p].0@),
            decreases k - q,
        {
            let idx = selected[q];
            proof {
                assert(graph.spec_index()[graph.spec_names()[idx as int]] == idx);
                assert(graph.spec_names().contains(graph.spec_names()[idx as int]));
            }
            nodes_tree.push((names[idx].clone(), false));
            q = q + 1;
        }
        let ghost nt = nodes_tree@;
        proof {
            if k >= 1 {
                assert forall|q: int| 0 <= q < nt.len() implies !(#[trigger] cand_view(nt)[q]).1 by {
                    assert(!nt[q].1);
                }
                lemma_prim_spans(cand_view(nt));
            }
        }
        proof {
            assert(cand_view(nt) =~= selected_candidates(graph, selected@));
        }
        let mut tree = graph.generate_tree_by_nodes(k, &mut nodes_tree);
        let cost = tree.get_cost(graph);
        let ghost nv = nodes@;
        let r = Whale { nodes, tree, cost, size };
        proof {
            assert forall|i: int| 0 <= i < r.spec_size() implies (#[trigger] r.spec_nodes()[i]).1 == is_selected(selected@, i) by {
                assert(nv[i].0@ == graph.spec_names()[i] && nv[i].1 == is_selected(selected@, i));
            }
            assert forall|p: int| 0 <= p < r.spec_tree().nodes@.len() implies graph.spec_index().contains_key(#[trigger] r.spec_tree().nodes@[p]@) by {
                assert(names_view(r.spec_tree().nodes@)[p] == r.spec_tree().nodes@[p]@);
                assert(names_view(r.spec_tree().nodes@).contains(r.spec_tree().nodes@[p]@));
                let q = choose|q: int| 0 <= q < nt.len() && #[trigger] nt[q].0@ == r.spec_tree().nodes@[p]@;
            }
            assert forall|s: Seq<char>| names_view(r.spec_tree().nodes@).contains(s) <==> exists|q: int| 0 <= q < k && #[trigger] graph.spec_names()[selected@[q] as int] == s by {
                if names_view(r.spec_tree().nodes@).contains(s) {
                    let q = choose|q: int| 0 <= q < nt.len() && #[trigger] nt[q].0@ == s;
                    assert(graph.spec_names()[selected@[q] as int] == s);
                }
                if exists|q: int| 0 <= q < k && #[trigger] graph.spec_names()[selected@[q] as int] == s {
                    let q = choose|q: int| 0 <= q < k && #[trigger] graph.spec_names()[selected@[q] as int] == s;
                    assert(nt[q].0@ == s);
                }
            }
        }
        r
    }

    /// The tree's cost (cached by the tree).
    pub fn get_cost(&mut self, graph: &Graph) -> (r: TreeCost)
        requires
            graph.wf(),
        ensures
            final(self).spec_tree().total_cost == Some(r),
            old(self).spec_tree().total_cost matches Some(c) ==> r == c,
            old(self).spec_tree().total_cost is None ==> r.sum == weight_sum(old(self).spec_tree().edges@)
                && r.normalize == cached_normalize(&old(self).spec_tree(), graph),
            final(self).spec_tree().nodes == old(self).spec_tree().nodes,
            final(self).spec_tree().edges == old(self).spec_tree().edges,
            final(self).spec_nodes() == old(self).spec_nodes(),
            final(self).spec_size() == old(self).spec_size(),
            final(self).spec_cost() == old(self).spec_cost(),
    {
        self.tree.get_cost(graph)
    }

    /// The tree's edges.
    pub fn get_tree(&self) -> (r: Vec<(String, String, u64)>)
        ensures
            r@ == self.spec_tree().edges@,
    {
        self.tree.get_edges()
    }

    /// A copy of the tree.
    pub fn get_tree_struct(&self) -> (r: Tree)
        ensures
            r.nodes@ == self.spec_tree().nodes@,
            r.edges@ == self.spec_tree().edges@,
            r.total_cost == self.spec_tree().total_cost,
            r.normalize == self.spec_tree().normalize,
            r.k == self.spec_tree().k,
    {
        self.tree.copy()
    }

    /// The number of graph nodes the member covers.
    pub fn get_len_position(&self) -> (r: usize)
        ensures
            r == self.spec_size(),
    {
        self.size
    }

    /// The name of graph node `index` and whether it is in the tree.
    pub fn get_node(&self, index: usize) -> (r: (String, bool))
        requires
            index < self.spec_nodes().len(),
        ensures
            r == self.spec_nodes()[index as int],
    {
        (self.nodes[index].0.clone(), self.nodes[index].1)
    }

    /// Marks graph node `index` in or out of the tree.
    pub fn set_node(&mut self, index: usize, in_tree: bool)
        requires
            index < old(self).spec_nodes().len(),
        ensures
            final(self).spec_nodes().len() == old(self).spec_nodes().len(),
            forall|i: int| 0 <= i < old(self).spec_nodes().len() ==> #[trigger] final(self).spec_nodes()[i].0 == old(self).spec_nodes()[i].0,
            forall|i: int| 0 <= i < old(self).spec_nodes().len() ==> #[trigger] final(self).spec_nodes()[i].1 == if i == index {
                in_tree
            } else {
                old(self).spec_nodes()[i].1
            },
            final(self).spec_tree() == old(self).spec_tree(),
            final(self).spec_cost() == old(self).spec_cost(),
            final(self).spec_size() == old(self).spec_size(),
    {
        let name = self.nodes[index].0.clone();
        self.nodes.set(index, (name, in_tree));
    }

    /// A random index among the graph nodes marked `marked`, or any index
    /// when there is none.
    fn random_index_marked(&self, random: &mut StdRng, marked: bool) -> (r: usize)
        requires
            self.spec_size() > 0,
            self.spec_nodes().len() == self.spec_size(),
        ensures
            r < self.spec_size(),
            (exists|i: int| 0 <= i < self.spec_size() && (#[trigger] self.spec_nodes()[i]).1 == marked) ==> self.spec_nodes()[r as int].1 == marked,
    {
        let mut candidates: Vec<usize> = Vec::new();
        let mut i: usize = 0;
        while i < self.size
            invariant
                self.nodes@.len() == self.size,
                0 <= i <= self.size,
                forall|q: int| 0 <= q < candidates@.len() ==> #[trigger] candidates@[q] < self.size && self.nodes@[candidates@[q] as int].1 == marked,
                candidates@.len() == 0 ==> forall|q: int| 0 <= q < i ==> (#[trigger] self.nodes@[q]).1 != marked,
            decreases self.size - i,
        {
            if self.nodes[i].1 == marked {
                candidates.push(i);
            }
            i = i + 1;
        }
        if candidates.len() == 0 {
            return random_below(random, self.size);
        }
        let pick = random_below(random, candidates.len());
        candidates[pick]
    }

    /// A random index of a graph node in the tree (any index when none is).
    pub fn get_index_node_in_tree(&self, random: &mut StdRng) -> (r: usize)
        requires
            self.spec_size() > 0,
            self.spec_nodes().len() == self.spec_size(),
        ensures
            r < self.spec_size(),
            (exists|i: int| 0 <= i < self.spec_size() && (#[trigger] self.spec_nodes()[i]).1) ==> self.spec_nodes()[r as int].1,
    {
        self.random_index_marked(random, true)
    }

    /// A random index of a graph node not in the tree (any index when every
    /// node is).
    pub fn get_index_node_nin_tree(&self, random: &mut StdRng) -> (r: usize)
        requires
            self.spec_size() > 0,
            self.spec_nodes().len() == self.spec_size(),
        ensures
            r < self.spec_size(),
            (exists|i: int| 0 <= i < self.spec_size() && !(#[trigger] self.spec_nodes()[i]).1) ==> !self.spec_nodes()[r as int].1,
    {
        self.random_index_marked(random, false)
    }

    /// A random index of a node of this member's tree that is not in
    /// `other_tree`, drawn from the sorted names of that difference; when the
    /// difference is empty, a random index of a node in the tree.
    pub fn get_index_node_in_other_tree(&self, random: &mut StdRng, other_tree: &Tree) -> (r: usize)
        requires
            self.spec_size() > 0,
            self.spec_nodes().len() == self.spec_size(),
            forall|q: int|
                0 <= q < self.spec_tree().nodes@.len() ==> exists|i: int|
                    0 <= i < self.spec_size() && #[trigger] self.spec_nodes()[i].0@ == #[trigger] self.spec_tree().nodes@[q]@,
        ensures
            r < self.spec_size(),
            ({
                let diff = |s: Seq<char>|
                    names_view(self.spec_tree().nodes@).contains(s) && !names_view(other_tree.nodes@).contains(s)
                        && exists|i: int| 0 <= i < self.spec_size() && #[trigger] self.spec_nodes()[i].0@ == s;
                (exists|s: Seq<char>| #[trigger] diff(s)) ==> diff(self.spec_nodes()[r as int].0@)
            }),
            (forall|s: Seq<char>| names_view(self.spec_tree().nodes@).contains(s) ==> names_view(other_tree.nodes@).contains(s))
                && (exists|i: int| 0 <= i < self.spec_size() && (#[trigger] self.spec_nodes()[i]).1) ==> self.spec_nodes()[r as int].1,
    {
        let mut candidates: Vec<String> = Vec::new();
        let mut i: usize = 0;
        while i < self.tree.nodes.len()
            invariant
                0 <= i <= self.spec_tree().nodes@.len(),
                forall|q: int| 0 <= q < candidates@.len() ==> names_view(self.spec_tree().nodes@).contains(#[trigger] candidates@[q]@)
                    && !names_view(other_tree.nodes@).contains(candidates@[q]@),
                forall|q: int| 0 <= q < i && !names_view(other_tree.nodes@).contains(#[trigger] self.spec_tree().nodes@[q]@) ==> names_view(candidates@).contains(self.spec_tree().nodes@[q]@),
            decreases self.spec_tree().nodes@.len() - i,
        {
            let ghost c0 = candidates@;
            proof {
                assert(names_view(self.spec_tree().nodes@)[i as int] == self.spec_tree().nodes@[i as int]@);
            }
            if !contains_name(&other_tree.nodes, &self.tree.nodes[i]) {
                candidates.push(self.tree.nodes[i].clone());
                proof {
                    assert(names_view(candidates@)[c0.len() as int] == self.spec_tree().nodes@[i as int]@);
                    assert forall|q: int| 0 <= q < i && !names_view(other_tree.nodes@).contains(#[trigger] self.spec_tree().nodes@[q]@) implies names_view(candidates@).contains(self.spec_tree().nodes@[q]@) by {
                        let p = choose|p: int| 0 <= p < names_view(c0).len() && names_view(c0)[p] == self.spec_tree().nodes@[q]@;
                        assert(names_view(candidates@)[p] == self.spec_tree().nodes@[q]@);
                    }
                }
            }
            i = i + 1;
        }
        let ghost before = candidates@;
        sort_names(&mut candidates);
        proof {
            assert forall|q: int| 0 <= q < candidates@.len() implies names_view(self.spec_tree().nodes@).contains(#[trigger] candidates@[q]@)
                && !names_view(other_tree.nodes@).contains(candidates@[q]@) by {
                vstd::seq_lib::to_multiset_contains(candidates@, candidates@[q]);
                vstd::seq_lib::to_multiset_contains(before, candidates@[q]);
                let p = choose|p: int| 0 <= p < before.len() && before[p] == candidates@[q];
            }
        }
        if candidates.len() == 0 {
            proof {
                assert forall|s: Seq<char>| !(names_view(self.spec_tree().nodes@).contains(s) && !names_view(other_tree.nodes@).contains(s)) by {
                    if names_view(self.spec_tree().nodes@).contains(s) && !names_view(other_tree.nodes@).contains(s) {
                        let q = choose|q: int| 0 <= q < names_view(self.spec_tree().nodes@).len() && names_view(self.spec_tree().nodes@)[q] == s;
                        assert(names_view(before).contains(self.spec_tree().nodes@[q]@));
                        vstd::seq_lib::to_multiset_contains(before, before[0]);
                        vstd::seq_lib::to_multiset_contains(candidates@, before[0]);
                    }
                }
            }
            return self.get_index_node_in_tree(random);
        }
        let element = match choose_name(random, &candidates) {
            Some(e) => e,
            None => {
                return self.get_index_node_in_tree(random);
            },
        };
        proof {
            let c = choose|c: int| 0 <= c < candidates@.len() && candidates@[c] == element;
            assert(names_view(self.tree.nodes@).contains(element@));
            assert(!names_view(other_tree.nodes@).contains(element@));
            let q = choose|q: int| 0 <= q < names_view(self.tree.nodes@).len() && names_view(self.tree.nodes@)[q] == element@;
            assert(self.tree.nodes@[q]@ == element@);
            let w = choose|w: int| 0 <= w < self.size && #[trigger] self.nodes@[w].0@ == self.tree.nodes@[q]@;
        }
        let mut j: usize = 0;
        while j < self.size
            invariant
                self.nodes@.len() == self.size,
                0 <= j <= self.size,
                forall|q: int| 0 <= q < j ==> (#[trigger] self.nodes@[q]).0@ != element@,
                names_view(self.tree.nodes@).contains(element@),
                !names_view(other_tree.nodes@).contains(element@),
                exists|w: int| 0 <= w < self.size && #[trigger] self.nodes@[w].0@ == element@,
            decreases self.size - j,
        {
            if self.nodes[j].0 == element {
                return j;
            }
            j = j + 1;
        }
        self.get_index_node_in_tree(random)
    }
}

} // verus!
