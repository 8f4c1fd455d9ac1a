//! Interval labels of the GRAIL reachability index: `[min, max]` ranges of
//! postorder numbers, where an ancestor's range contains its descendants'.

use vstd::prelude::*;
use rand::seq::SliceRandom;
use std::collections::VecDeque;
use crate::compact_hierarchy::{
    count_true, lemma_count_true_set, lemma_count_true_bound, thing_text, nothing_text, hierarchy_iris, edge_of,
    axiom_edge, axiom_edge_within,
};
use crate::optimized_hierarchy::IriPool;
use crate::iri::IRI;
use crate::error::OwlResult;
use crate::class_expression::ClassExpression;
use crate::ontology::{Ontology, class_iris, subclass_axioms_of};
use crate::binary_format::add_names;
use crate::reachability::{step, steps_within, reaches, table_wf, reached_from};

verus! {

broadcast use vstd::std_specs::vec::group_vec_axioms;

/// A GRAIL interval label: the postorder range `[min, max]`.
#[derive(Clone, Copy, Debug, Default)]
pub struct GrailInterval {
    pub min: u32,
    pub max: u32,
}

impl GrailInterval {
    /// Whether `other` lies within `self`.
    pub fn contains(&self, other: &GrailInterval) -> (r: bool)
        ensures
            r == (self.min <= other.min && other.max <= self.max),
    {
        self.min <= other.min && other.max <= self.max
    }

    /// Whether the two intervals share no point.
    pub fn is_disjoint(&self, other: &GrailInterval) -> (r: bool)
        ensures
            r == (self.max < other.min || other.max < self.min),
    {
        self.max < other.min || other.max < self.min
    }
}

/// Containment of intervals is transitive.
pub proof fn lemma_contains_transitive(a: GrailInterval, b: GrailInterval, c: GrailInterval)
    requires
        a.min <= b.min && b.max <= a.max,
        b.min <= c.min && c.max <= b.max,
    ensures
        a.min <= c.min && c.max <= a.max,
{
}

/// Of two non-empty intervals, one containing the other, neither is
/// disjoint from the other.
pub proof fn lemma_contained_not_disjoint(a: GrailInterval, b: GrailInterval)
    requires
        b.min <= b.max,
        a.min <= b.min && b.max <= a.max,
    ensures
        !(a.max < b.min || b.max < a.min),
{
}


/// `b` has every `true` entry of `a`.
pub open spec fn covers(a: Seq<bool>, b: Seq<bool>) -> bool {
    a.len() == b.len() && forall|i: int| 0 <= i < a.len() && #[trigger] a[i] ==> b[i]
}

/// Counting `true` entries is monotone.
pub proof fn lemma_count_true_mono(a: Seq<bool>, b: Seq<bool>)
    requires
        covers(a, b),
    ensures
        count_true(a) <= count_true(b),
    decreases a.len(),
{
    if a.len() > 0 {
        assert(covers(a.drop_last(), b.drop_last())) by {
            assert forall|i: int| 0 <= i < a.drop_last().len() && #[trigger] a.drop_last()[i]
                implies b.drop_last()[i] by {
                assert(a[i]);
            }
        }
        lemma_count_true_mono(a.drop_last(), b.drop_last());
    }
}

/// The GRAIL reachability index: direct parents and children of each class
/// and, for each traversal, the interval label of each class.
#[derive(Debug)]
pub struct GrailIndex {
    num_traversals: usize,
    intervals: Vec<Vec<GrailInterval>>,
    direct_parents: Vec<Vec<u32>>,
    direct_children: Vec<Vec<u32>>,
    is_tree: bool,
}

impl GrailIndex {
    /// The number of classes.
    pub closed spec fn n(&self) -> int {
        self.direct_parents@.len() as int
    }

    /// The number of traversals.
    pub closed spec fn traversals(&self) -> int {
        self.num_traversals as int
    }

    /// The direct parents of class `i`, in order.
    pub closed spec fn parents(&self, i: int) -> Seq<u32> {
        self.direct_parents@[i]@
    }

    /// The direct children of class `i`, in order.
    pub closed spec fn children(&self, i: int) -> Seq<u32> {
        self.direct_children@[i]@
    }

    /// The interval of class `i` in traversal `t`.
    pub closed spec fn iv(&self, t: int, i: int) -> GrailInterval {
        self.intervals@[t]@[i]
    }

    /// Whether every class has at most one direct parent.
    pub closed spec fn tree(&self) -> bool {
        self.is_tree
    }

    /// Class `j` is a direct parent of class `i`.
    pub open spec fn has_parent(&self, i: int, j: int) -> bool {
        0 <= i < self.n() && 0 <= j < self.n() && self.parents(i).contains(j as u32)
    }

    /// The tables cover the classes, children mirror parents, and the tree
    /// flag says whether every class has at most one parent.
    pub closed spec fn wf(&self) -> bool {
        &&& self.n() < u32::MAX
        &&& self.direct_children@.len() == self.n()
        &&& self.intervals@.len() == self.num_traversals
        &&& forall|t: int| 0 <= t < self.num_traversals ==> (#[trigger] self.intervals@[t])@.len() == self.n()
        &&& forall|i: int, k: int| 0 <= i < self.n() && 0 <= k < self.parents(i).len()
            ==> (#[trigger] self.parents(i)[k] as int) < self.n()
        &&& forall|i: int, k: int| 0 <= i < self.n() && 0 <= k < self.children(i).len()
            ==> (#[trigger] self.children(i)[k] as int) < self.n()
        &&& forall|i: int, j: int| 0 <= i < self.n() && 0 <= j < self.n()
            ==> (#[trigger] self.parents(i).contains(j as u32) <==> #[trigger] self.children(j).contains(i as u32))
        &&& self.is_tree == forall|i: int| 0 <= i < self.n() ==> #[trigger] self.parents(i).len() <= 1
    }

    /// A class `j` is reached from class `i` in one to `k` parent steps.
    pub open spec fn within(&self, i: int, j: int, k: nat) -> bool
        decreases k,
    {
        if k == 0 {
            false
        } else {
            self.has_parent(i, j) || exists|p: int| #[trigger] self.has_parent(i, p) && self.within(p, j, (k - 1) as nat)
        }
    }

    /// Class `j` is reached from class `i` in one or more parent steps.
    pub open spec fn reachable(&self, i: int, j: int) -> bool {
        exists|k: nat| #[trigger] self.within(i, j, k)
    }

    /// `o` lists every class once, each after all of its direct parents:
    /// the hierarchy has no cycle.
    pub open spec fn parent_order(&self, o: Seq<u32>) -> bool {
        &&& o.len() == self.n()
        &&& o.no_duplicates()
        &&& forall|a: int| 0 <= a < o.len() ==> (#[trigger] o[a] as int) < self.n()
        &&& forall|v: u32| (v as int) < self.n() ==> o.contains(v)
        &&& forall|a: int, b: int| 0 <= a < o.len() && 0 <= b < o.len()
            && #[trigger] self.has_parent(o[b] as int, o[a] as int) ==> a < b
    }

    /// An index with `num_classes` classes, no edge, and `num_traversals`
    /// traversals of zero intervals.
    pub fn new(num_classes: usize, num_traversals: usize) -> (r: Self)
        requires
            num_classes < u32::MAX,
        ensures
            r.wf(),
            r.n() == num_classes,
            r.traversals() == num_traversals,
            r.tree(),
            forall|i: int, j: int| !r.has_parent(i, j),
    {
        let mut direct_parents: Vec<Vec<u32>> = Vec::new();
        let mut direct_children: Vec<Vec<u32>> = Vec::new();
        let mut i: usize = 0;
        while i < num_classes
            invariant
                i <= num_classes,
                direct_parents@.len() == i,
                direct_children@.len() == i,
                forall|j: int| 0 <= j < i ==> (#[trigger] direct_parents@[j])@.len() == 0,
                forall|j: int| 0 <= j < i ==> (#[trigger] direct_children@[j])@.len() == 0,
            decreases num_classes - i,
        {
            direct_parents.push(Vec::new());
            direct_children.push(Vec::new());
            i += 1;
        }
        let mut intervals: Vec<Vec<GrailInterval>> = Vec::new();
        let mut t: usize = 0;
        while t < num_traversals
            invariant
                t <= num_traversals,
                intervals@.len() == t,
                forall|u: int| 0 <= u < t ==> (#[trigger] intervals@[u])@.len() == num_classes,
            decreases num_traversals - t,
        {
            let mut row: Vec<GrailInterval> = Vec::new();
            let mut k: usize = 0;
            while k < num_classes
                invariant
                    k <= num_classes,
                    row@.len() == k,
                decreases num_classes - k,
            {
                row.push(GrailInterval { min: 0, max: 0 });
                k += 1;
            }
            intervals.push(row);
            t += 1;
        }
        let r = GrailIndex { num_traversals, intervals, direct_parents, direct_children, is_tree: true };
        proof {
            assert forall|i: int, j: int| !r.has_parent(i, j) by {
                if 0 <= i < r.n() {
                    assert(r.parents(i).len() == 0);
                }
            }
            assert forall|i: int, j: int| 0 <= i < r.n() && 0 <= j < r.n()
                implies (#[trigger] r.parents(i).contains(j as u32) <==> #[trigger] r.children(j).contains(i as u32)) by {
                assert(r.parents(i).len() == 0);
                assert(r.children(j).len() == 0);
            }
        }
        r
    }

    /// Records the edge from `from` up to its parent `to`.
    pub fn add_edge(&mut self, from: u32, to: u32)
        requires
            old(self).wf(),
            (from as int) < old(self).n(),
            (to as int) < old(self).n(),
        ensures
            final(self).wf(),
            final(self).n() == old(self).n(),
            final(self).traversals() == old(self).traversals(),
            forall|i: int, j: int| #[trigger] final(self).has_parent(i, j)
                == (old(self).has_parent(i, j) || (i == from && j == to)),
            final(self).parents(from as int) == old(self).parents(from as int).push(to),
            forall|i: int| 0 <= i < old(self).n() && i != from ==> #[trigger] final(self).parents(i) == old(self).parents(i),
            final(self).tree() == (old(self).tree() && final(self).parents(from as int).len() <= 1),
            forall|t: int, i: int| #[trigger] final(self).iv(t, i) == old(self).iv(t, i),
    {
        let f = from as usize;
        let tt = to as usize;
        let mut prow = Vec::new();
        std::mem::swap(&mut prow, &mut self.direct_parents[f]);
        let ghost pbefore = prow@;
        assert(pbefore == old(self).parents(from as int));
        prow.push(to);
        let plen = prow.len();
        self.direct_parents.set(f, prow);
        let mut crow = Vec::new();
        std::mem::swap(&mut crow, &mut self.direct_children[tt]);
        let ghost cbefore = crow@;
        assert(cbefore == old(self).children(to as int));
        crow.push(from);
        self.direct_children.set(tt, crow);
        if plen > 1 {
            self.is_tree = false;
        }
        proof {
            let n = old(self).n();
            assert forall|i: int| 0 <= i < n && i != from implies #[trigger] self.parents(i) == old(self).parents(i) by {
                assert(self.direct_parents@[i] == old(self).direct_parents@[i]);
            }
            assert forall|i: int| 0 <= i < n && i != to implies #[trigger] self.children(i) == old(self).children(i) by {
                assert(self.direct_children@[i] == old(self).direct_children@[i]);
            }
            assert(self.children(to as int) == cbefore.push(from));
            assert forall|i: int, k: int| 0 <= i < n && 0 <= k < self.parents(i).len()
                implies (#[trigger] self.parents(i)[k] as int) < n by {
                if i != from || k < pbefore.len() {
                    assert(self.parents(i)[k] == old(self).parents(i)[k]);
                }
            }
            assert forall|i: int, k: int| 0 <= i < n && 0 <= k < self.children(i).len()
                implies (#[trigger] self.children(i)[k] as int) < n by {
                if i != to || k < cbefore.len() {
                    assert(self.children(i)[k] == old(self).children(i)[k]);
                }
            }
            assert forall|i: int, j: int| 0 <= i < n && 0 <= j < n
                implies (#[trigger] self.parents(i).contains(j as u32) <==> #[trigger] self.children(j).contains(i as u32)) by {
                let op = old(self).parents(i);
                let oc = old(self).children(j);
                assert(op.contains(j as u32) <==> oc.contains(i as u32));
                if i == from {
                    assert(self.parents(i) == op.push(to));
                    if op.push(to).contains(j as u32) && j != to {
                        let m = choose|m: int| 0 <= m < op.len() + 1 && #[trigger] op.push(to)[m] == j as u32;
                        assert(op[m] == j as u32);
                    }
                    if op.contains(j as u32) {
                        let m = choose|m: int| 0 <= m < op.len() && #[trigger] op[m] == j as u32;
                        assert(op.push(to)[m] == j as u32);
                    }
                    assert(op.push(to)[op.len() as int] == to);
                }
                if j == to {
                    assert(self.children(j) == oc.push(from));
                    if oc.push(from).contains(i as u32) && i != from {
                        let m = choose|m: int| 0 <= m < oc.len() + 1 && #[trigger] oc.push(from)[m] == i as u32;
                        assert(oc[m] == i as u32);
                    }
                    if oc.contains(i as u32) {
                        let m = choose|m: int| 0 <= m < oc.len() && #[trigger] oc[m] == i as u32;
                        assert(oc.push(from)[m] == i as u32);
                    }
                    assert(oc.push(from)[oc.len() as int] == from);
                }
            }
            assert forall|i: int, j: int| #[trigger] self.has_parent(i, j)
                == (old(self).has_parent(i, j) || (i == from && j == to)) by {
                if i == from && 0 <= j < n {
                    let op = old(self).parents(i);
                    if op.push(to).contains(j as u32) && j != to {
                        let m = choose|m: int| 0 <= m < op.len() + 1 && #[trigger] op.push(to)[m] == j as u32;
                        assert(op[m] == j as u32);
                    }
                    if op.contains(j as u32) {
                        let m = choose|m: int| 0 <= m < op.len() && #[trigger] op[m] == j as u32;
                        assert(op.push(to)[m] == j as u32);
                    }
                    assert(op.push(to)[op.len() as int] == to);
                }
            }
            assert(self.is_tree == forall|i: int| 0 <= i < n ==> #[trigger] self.parents(i).len() <= 1) by {
                if old(self).is_tree && plen <= 1 {
                    assert forall|i: int| 0 <= i < n implies #[trigger] self.parents(i).len() <= 1 by {
                        if i != from {
                            assert(old(self).parents(i).len() <= 1);
                        }
                    }
                }
                if !old(self).is_tree {
                    let i = choose|i: int| 0 <= i < n && !(#[trigger] old(self).parents(i).len() <= 1);
                    if i != from {
                        assert(self.parents(i).len() > 1);
                    } else {
                        assert(self.parents(i).len() > 1);
                    }
                }
                if plen > 1 {
                    assert(self.parents(from as int).len() > 1);
                }
            }
            assert forall|t: int, i: int| #[trigger] self.iv(t, i) == old(self).iv(t, i) by {}
        }
    }
}


/// The two intervals share no point.
pub open spec fn separated(a: GrailInterval, b: GrailInterval) -> bool {
    a.max < b.min || b.max < a.min
}

/// `inner` lies within `outer`.
pub open spec fn nested(outer: GrailInterval, inner: GrailInterval) -> bool {
    outer.min <= inner.min && inner.max <= outer.max
}

/// The position of class `v` in `o`.
pub open spec fn rank(o: Seq<u32>, v: int) -> int {
    choose|a: int| 0 <= a < o.len() && o[a] == v as u32
}

impl GrailIndex {
    /// An index with the same edges and tree flag and intervals of the
    /// same shape is well formed when the first one is.
    proof fn lemma_wf_same_shape(a: &Self, b: &Self)
        requires
            a.wf(),
            b.direct_parents == a.direct_parents,
            b.direct_children == a.direct_children,
            b.is_tree == a.is_tree,
            b.num_traversals == a.num_traversals,
            b.intervals@.len() == a.intervals@.len(),
            forall|t: int| 0 <= t < b.num_traversals ==> (#[trigger] b.intervals@[t])@.len() == b.n(),
        ensures
            b.wf(),
            forall|o: Seq<u32>| #[trigger] b.parent_order(o) == a.parent_order(o),
    {
        assert forall|i: int, k: int| 0 <= i < b.n() && 0 <= k < b.parents(i).len()
            implies (#[trigger] b.parents(i)[k] as int) < b.n() by {
            assert(b.parents(i) == a.parents(i));
            assert(a.parents(i)[k] == b.parents(i)[k]);
        }
        assert forall|i: int, k: int| 0 <= i < b.n() && 0 <= k < b.children(i).len()
            implies (#[trigger] b.children(i)[k] as int) < b.n() by {
            assert(b.children(i) == a.children(i));
            assert(a.children(i)[k] == b.children(i)[k]);
        }
        assert forall|i: int, j: int| 0 <= i < b.n() && 0 <= j < b.n()
            implies (#[trigger] b.parents(i).contains(j as u32) <==> #[trigger] b.children(j).contains(i as u32)) by {
            assert(b.parents(i) == a.parents(i));
            assert(b.children(j) == a.children(j));
        }
        assert(b.is_tree == forall|i: int| 0 <= i < b.n() ==> #[trigger] b.parents(i).len() <= 1) by {
            assert forall|i: int| 0 <= i < b.n() implies #[trigger] b.parents(i) == a.parents(i) by {}
            if b.is_tree {
                assert forall|i: int| 0 <= i < b.n() implies #[trigger] b.parents(i).len() <= 1 by {
                    assert(a.parents(i).len() <= 1);
                }
            } else {
                let i = choose|i: int| 0 <= i < a.n() && !(#[trigger] a.parents(i).len() <= 1);
                assert(b.parents(i).len() > 1);
            }
        }
        assert forall|i: int, j: int| #[trigger] b.has_parent(i, j) == a.has_parent(i, j) by {
            if 0 <= i < b.n() {
                assert(b.parents(i) == a.parents(i));
            }
        }
        assert forall|o: Seq<u32>| #[trigger] b.parent_order(o) == a.parent_order(o) by {
            if a.parent_order(o) {
                assert forall|x: int, y: int| 0 <= x < o.len() && 0 <= y < o.len()
                    && #[trigger] b.has_parent(o[y] as int, o[x] as int) implies x < y by {
                    assert(a.has_parent(o[y] as int, o[x] as int));
                }
            }
            if b.parent_order(o) {
                assert forall|x: int, y: int| 0 <= x < o.len() && 0 <= y < o.len()
                    && #[trigger] a.has_parent(o[y] as int, o[x] as int) implies x < y by {
                    assert(b.has_parent(o[y] as int, o[x] as int));
                }
            }
        }
    }

    /// Every finished class has an interval ending below `c`.
    pub open spec fn ends_below(&self, t: int, fin: Seq<bool>, c: int) -> bool {
        forall|w: int| 0 <= w < self.n() && #[trigger] fin[w] ==> self.iv(t, w).max < c
    }

    /// Between finished classes, an interval that holds the end of another's
    /// is that class's own or one of a class it reaches in `g`.
    pub open spec fn ends_nested_reach(&self, g: GrailIndex, t: int, fin: Seq<bool>) -> bool {
        forall|u: int, v: int| 0 <= u < self.n() && 0 <= v < self.n() && #[trigger] fin[u] && #[trigger] fin[v]
            && self.iv(t, v).min <= self.iv(t, u).max && self.iv(t, u).max <= self.iv(t, v).max
            ==> u == v || g.reachable(u, v)
    }

    /// The direct parents of every visited class are visited.
    pub open spec fn parents_visited(&self, vis: Seq<bool>) -> bool {
        forall|w: int, p: int| 0 <= w < self.n() && #[trigger] vis[w] && #[trigger] self.has_parent(w, p) ==> vis[p]
    }

    /// The interval of a finished class is not empty, its children are
    /// finished, and it contains theirs.
    pub open spec fn sound_at(&self, t: int, fin: Seq<bool>, w: int) -> bool {
        &&& self.iv(t, w).min <= self.iv(t, w).max
        &&& forall|k: int| 0 <= k < self.children(w).len() ==>
            fin[#[trigger] self.children(w)[k] as int]
            && self.iv(t, w).min <= self.iv(t, self.children(w)[k] as int).min
            && self.iv(t, self.children(w)[k] as int).max <= self.iv(t, w).max
    }

    /// Every finished class is sound in traversal `t`.
    pub open spec fn sound(&self, t: int, fin: Seq<bool>) -> bool {
        forall|w: int| 0 <= w < self.n() && #[trigger] fin[w] ==> self.sound_at(t, fin, w)
    }

    /// The rank of a class in a parent order is its position there.
    proof fn lemma_rank(&self, o: Seq<u32>, v: int)
        requires
            self.parent_order(o),
            0 <= v < self.n(),
        ensures
            0 <= rank(o, v) < o.len(),
            o[rank(o, v)] == v as u32,
    {
        assert(o.contains(v as u32));
    }

    /// A parent comes before its child in a parent order.
    proof fn lemma_rank_parent(&self, o: Seq<u32>, child: int, parent: int)
        requires
            self.wf(),
            self.parent_order(o),
            0 <= parent < self.n(),
            0 <= child < self.n(),
            self.children(parent).contains(child as u32),
        ensures
            rank(o, parent) < rank(o, child),
    {
        self.lemma_rank(o, parent);
        self.lemma_rank(o, child);
        assert(self.parents(child).contains(parent as u32));
        assert(self.has_parent(o[rank(o, child)] as int, o[rank(o, parent)] as int));
    }

    /// Depth-first labelling from `node` in traversal `traversal`: the
    /// children first, then `node` gets the next postorder number and the
    /// interval spanning it and its children's intervals.
    fn dfs_build(&mut self, node: u32, visited: &mut Vec<bool>, post_counter: &mut u32, traversal: usize,
        Ghost(order): Ghost<Seq<u32>>, Ghost(fin): Ghost<Seq<bool>>, Ghost(g0): Ghost<GrailIndex>) -> (fin2: Ghost<Seq<bool>>)
        requires
            g0.direct_parents == old(self).direct_parents,
            old(self).parent_order(order) ==> old(self).ends_below(traversal as int, fin, *old(post_counter) as int),
            old(self).parent_order(order) && old(self).tree() ==> old(self).ends_nested_reach(g0, traversal as int, fin),
            old(self).parent_order(order) && old(self).tree() ==> old(self).parents_visited(old(visited)@),
            old(self).parent_order(order) && old(self).tree() ==> forall|p: int| #[trigger] old(self).has_parent(node as int, p)
                ==> old(visited)@[p],
            old(self).wf(),
            traversal < old(self).traversals(),
            (node as int) < old(self).n(),
            old(visited)@.len() == old(self).n(),
            fin.len() == old(self).n(),
            covers(fin, old(visited)@),
            *old(post_counter) as nat == count_true(fin),
            old(self).parent_order(order) ==> forall|w: int| 0 <= w < old(self).n() && #[trigger] old(visited)@[w] && !fin[w]
                ==> rank(order, w) < rank(order, node as int),
            old(self).parent_order(order) ==> old(self).sound(traversal as int, fin),
        ensures
            final(self).wf(),
            final(self).direct_parents == old(self).direct_parents,
            final(self).direct_children == old(self).direct_children,
            final(self).is_tree == old(self).is_tree,
            final(self).num_traversals == old(self).num_traversals,
            final(self).intervals@.len() == old(self).intervals@.len(),
            forall|t: int| 0 <= t < old(self).traversals() && t != traversal ==> #[trigger] final(self).intervals@[t] == old(self).intervals@[t],
            forall|i: int| 0 <= i < old(self).n() && #[trigger] fin[i] ==> final(self).iv(traversal as int, i) == old(self).iv(traversal as int, i),
            final(visited)@.len() == old(self).n(),
            fin2@.len() == old(self).n(),
            covers(old(visited)@, final(visited)@),
            covers(fin, fin2@),
            covers(fin2@, final(visited)@),
            fin2@[node as int] || (old(visited)@[node as int] && !fin[node as int]),
            forall|w: int| 0 <= w < old(self).n() && #[trigger] fin2@[w] && !fin[w] ==> !old(visited)@[w],
            forall|w: int| 0 <= w < old(self).n() ==> (#[trigger] final(visited)@[w] && !fin2@[w]) == (old(visited)@[w] && !fin[w]),
            *final(post_counter) as nat == count_true(fin2@),
            old(self).parent_order(order) ==> final(self).sound(traversal as int, fin2@),
            old(self).parent_order(order) ==> final(self).ends_below(traversal as int, fin2@, *final(post_counter) as int),
            old(self).parent_order(order) && old(self).tree() ==> final(self).ends_nested_reach(g0, traversal as int, fin2@),
            old(self).parent_order(order) && old(self).tree() ==> final(self).parents_visited(final(visited)@),
            old(self).parent_order(order) && old(self).tree() ==> forall|w: int| 0 <= w < old(self).n() && #[trigger] fin2@[w] && !fin[w]
                ==> *old(post_counter) <= final(self).iv(traversal as int, w).min
                    && (w == node as int || g0.reachable(w, node as int)),
            old(self).parent_order(order) && old(self).tree() && !old(visited)@[node as int]
                ==> final(self).iv(traversal as int, node as int).min == *old(post_counter),
        decreases old(self).n() - count_true(old(visited)@),
    {
        let ghost n = self.n();
        let ghost t = traversal as int;
        let ghost h0 = *self;
        let ghost has_order = self.parent_order(order);
        let ghost tord = has_order && h0.tree();
        let ghost c_in = *post_counter as int;
        proof {
            lemma_count_true_mono(fin, visited@);
            lemma_count_true_bound(visited@);
        }
        if visited[node as usize] {
            proof {
                if has_order {
                    if !fin[node as int] {
                        assert(rank(order, node as int) < rank(order, node as int));
                    }
                }
            }
            return Ghost(fin);
        }
        let ghost v0 = visited@;
        visited.set(node as usize, true);
        proof {
            lemma_count_true_set(v0, node as int);
            if tord {
                assert forall|w: int, p: int| 0 <= w < n && #[trigger] visited@[w] && #[trigger] self.has_parent(w, p)
                    implies visited@[p] by {
                    if w != node as int {
                        assert(v0[w]);
                        assert(v0[p]);
                    }
                }
            }
        }
        proof {
            lemma_count_true_bound(fin);
        }
        let children = self.copy_children(node);
        let mut min_post: u32 = u32::MAX;
        let mut max_post: u32 = 0;
        let ghost mut cur = fin;
        let mut k: usize = 0;
        while k < children.len()
            invariant
                self.wf(),
                self.direct_parents == old(self).direct_parents,
                self.direct_children == old(self).direct_children,
                self.is_tree == old(self).is_tree,
                self.num_traversals == old(self).num_traversals,
                self.intervals@.len() == old(self).intervals@.len(),
                forall|u: int| 0 <= u < old(self).traversals() && u != traversal ==> #[trigger] self.intervals@[u] == old(self).intervals@[u],
                forall|i: int| 0 <= i < n && #[trigger] fin[i] ==> self.iv(t, i) == old(self).iv(t, i),
                n == self.n(),
                t == traversal,
                traversal < self.traversals(),
                (node as int) < n,
                has_order == h0.parent_order(order),
                h0 == *old(self),
                h0.wf(),
                children@ == self.children(node as int),
                k <= children@.len(),
                visited@.len() == n,
                cur.len() == n,
                visited@[node as int],
                !cur[node as int],
                !v0[node as int],
                v0 == old(visited)@,
                covers(v0, visited@),
                covers(fin, cur),
                covers(cur, visited@),
                count_true(visited@) >= count_true(v0) + 1,
                forall|w: int| 0 <= w < n && #[trigger] cur[w] && !fin[w] ==> !v0[w],
                forall|w: int| 0 <= w < n ==> (#[trigger] visited@[w] && !cur[w]) == ((v0[w] || w == node) && !fin[w]),
                *post_counter as nat == count_true(cur),
                has_order ==> forall|w: int| 0 <= w < n && #[trigger] v0[w] && !fin[w]
                    ==> rank(order, w) < rank(order, node as int),
                has_order ==> self.sound(t, cur),
                has_order ==> forall|q: int| 0 <= q < k ==> cur[#[trigger] children@[q] as int]
                    && min_post <= self.iv(t, children@[q] as int).min
                    && self.iv(t, children@[q] as int).max <= max_post,
                g0.direct_parents == h0.direct_parents,
                tord == (has_order && h0.tree()),
                c_in == count_true(fin),
                covers(fin, v0),
                k == 0 ==> cur == fin,
                has_order ==> h0.ends_below(t, fin, c_in),
                has_order ==> self.ends_below(t, cur, *post_counter as int),
                has_order ==> max_post <= *post_counter,
                tord ==> h0.parents_visited(v0),
                tord ==> self.ends_nested_reach(g0, t, cur),
                tord ==> self.parents_visited(visited@),
                tord ==> forall|w: int| 0 <= w < n && #[trigger] cur[w] && !fin[w]
                    ==> c_in <= self.iv(t, w).min && g0.reachable(w, node as int),
                tord && k > 0 ==> min_post as int == c_in,
                k == 0 ==> min_post == u32::MAX,
                c_in < u32::MAX,
            decreases children@.len() - k,
        {
            let child = children[k];
            assert((child as int) < n);
            proof {
                if has_order {
                    assert(self.children(node as int) == h0.children(node as int));
                    assert(h0.children(node as int).contains(child));
                    h0.lemma_rank_parent(order, child as int, node as int);
                }
            }
            let ghost before_cur = cur;
            let ghost before_self = *self;
            proof {
                if tord {
                    assert(h0.children(node as int).contains(child));
                    assert(h0.parents(child as int).contains(node));
                    assert(h0.has_parent(child as int, node as int));
                    assert forall|p: int| #[trigger] self.has_parent(child as int, p) implies p == node as int by {
                        assert(h0.parents(child as int).len() <= 1);
                        let a = choose|a: int| 0 <= a < h0.parents(child as int).len() && h0.parents(child as int)[a] == p as u32;
                        let b = choose|b: int| 0 <= b < h0.parents(child as int).len() && h0.parents(child as int)[b] == node;
                        assert(a == b);
                    }
                }
                assert(tord && visited@[child as int] ==> cur[child as int] && !fin[child as int]) by {
                    if tord && visited@[child as int] {
                        if v0[child as int] {
                            assert(h0.has_parent(child as int, node as int));
                            assert(v0[node as int]);
                        }
                        assert(cur[child as int]);
                        assert(!fin[child as int]);
                    }
                }
            }
            if !visited[child as usize] {
                proof {
                    lemma_count_true_mono(v0.update(node as int, true), visited@);
                    if has_order {
                        assert forall|w: int| 0 <= w < n && #[trigger] visited@[w] && !cur[w]
                            implies rank(order, w) < rank(order, child as int) by {
                            if w != node as int {
                                assert(v0[w] && !fin[w]);
                            }
                        }
                    }
                    assert(v0.update(node as int, true) =~= v0.update(node as int, true));
                    assert(covers(v0.update(node as int, true), visited@)) by {
                        assert forall|i: int| 0 <= i < n && #[trigger] v0.update(node as int, true)[i] implies visited@[i] by {
                            if i != node as int {
                                assert(v0[i]);
                            }
                        }
                    }
                }
                proof {
                    lemma_count_true_bound(visited@);
                    Self::lemma_wf_same_shape(&h0, self);
                }
                assert(n - count_true(visited@) < n - count_true(v0));
                assert(self.parent_order(order) == has_order);
                let ghost vb = visited@;
                let g = self.dfs_build(child, visited, post_counter, traversal, Ghost(order), Ghost(cur), Ghost(g0));
                proof {
                    cur = g@;
                    lemma_count_true_mono(vb, visited@);
                    lemma_count_true_mono(fin, before_cur);
                    lemma_count_true_mono(before_cur, cur);
                    if tord {
                        assert(g0.has_parent(child as int, node as int)) by {
                            assert(h0.has_parent(child as int, node as int));
                        }
                        assert forall|w: int| 0 <= w < n && #[trigger] cur[w] && !fin[w]
                            implies c_in <= self.iv(t, w).min && g0.reachable(w, node as int) by {
                            if before_cur[w] {
                                assert(self.iv(t, w) == before_self.iv(t, w));
                            } else if w == child as int {
                                assert(g0.within(child as int, node as int, 1));
                            } else {
                                let kk = choose|kk: nat| #[trigger] g0.within(w, child as int, kk);
                                g0.lemma_within_append(w, child as int, node as int, kk);
                            }
                        }
                        if k == 0 {
                            assert(self.iv(t, child as int).min as int == c_in);
                        }
                    }
                }
            } else {
                proof {
                    if has_order && !cur[child as int] {
                        if child as int == node as int {
                            assert(rank(order, node as int) < rank(order, node as int));
                        } else {
                            assert(v0[child as int] && !fin[child as int]);
                        }
                    }
                }
            }
            proof {
                assert(tord ==> cur[child as int] && !fin[child as int] && c_in <= self.iv(t, child as int).min);
                assert(tord && k == 0 ==> self.iv(t, child as int).min as int == c_in);
                assert(has_order ==> cur[child as int]);
            }
            let ci = self.intervals[traversal][child as usize];
            if ci.min < min_post {
                min_post = ci.min;
            }
            if ci.max > max_post {
                max_post = ci.max;
            }
            proof {
                if has_order {
                    assert forall|q: int| 0 <= q < k + 1 implies cur[#[trigger] children@[q] as int]
                        && min_post <= self.iv(t, children@[q] as int).min
                        && self.iv(t, children@[q] as int).max <= max_post by {
                        if q < k {
                            assert(before_cur[children@[q] as int]);
                            assert(self.iv(t, children@[q] as int) == before_self.iv(t, children@[q] as int));
                        }
                    }
                }
                assert(!cur[node as int]);
            }
            k += 1;
        }
        proof {
            lemma_count_true_set(cur, node as int);
        }
        let post_id = *post_counter;
        *post_counter = post_id + 1;
        let lo = if min_post < post_id { min_post } else { post_id };
        let hi = if max_post > post_id { max_post } else { post_id };
        let ghost before_self = *self;
        self.set_interval(traversal, node, GrailInterval { min: lo, max: hi });
        let ghost fin2 = cur.update(node as int, true);
        proof {
            if has_order {
                assert forall|w: int| 0 <= w < n && #[trigger] fin2[w] implies self.sound_at(t, fin2, w) by {
                    if w == node as int {
                        assert forall|q: int| 0 <= q < self.children(w).len() implies
                            fin2[#[trigger] self.children(w)[q] as int]
                            && self.iv(t, w).min <= self.iv(t, self.children(w)[q] as int).min
                            && self.iv(t, self.children(w)[q] as int).max <= self.iv(t, w).max by {
                            assert(cur[children@[q] as int]);
                            assert(children@[q] as int != node as int);
                            assert(self.iv(t, children@[q] as int) == before_self.iv(t, children@[q] as int));
                        }
                    } else {
                        assert(cur[w]);
                        assert(before_self.sound_at(t, cur, w));
                        assert(self.children(w) == before_self.children(w));
                        assert(self.iv(t, w) == before_self.iv(t, w));
                        assert forall|q: int| 0 <= q < self.children(w).len() implies
                            fin2[#[trigger] self.children(w)[q] as int]
                            && self.iv(t, w).min <= self.iv(t, self.children(w)[q] as int).min
                            && self.iv(t, self.children(w)[q] as int).max <= self.iv(t, w).max by {
                            assert(cur[self.children(w)[q] as int]);
                            assert(self.children(w)[q] as int != node as int);
                            assert(self.iv(t, self.children(w)[q] as int) == before_self.iv(t, self.children(w)[q] as int));
                        }
                    }
                }
            }
            assert forall|w: int| 0 <= w < n implies (#[trigger] visited@[w] && !fin2[w]) == (old(visited)@[w] && !fin[w]) by {
                if w == node as int {
                    assert(!old(visited)@[w]);
                }
            }
            assert(covers(fin2, visited@)) by {
                assert forall|i: int| 0 <= i < n && #[trigger] fin2[i] implies visited@[i] by {
                    if i != node as int {
                        assert(cur[i]);
                    }
                }
            }
            assert(covers(fin, fin2)) by {
                assert forall|i: int| 0 <= i < n && #[trigger] fin[i] implies fin2[i] by {
                    assert(cur[i]);
                }
            }
            assert forall|i: int| 0 <= i < n && #[trigger] fin[i] implies self.iv(t, i) == old(self).iv(t, i) by {
                assert(i != node as int);
            }
            lemma_count_true_mono(fin, cur);
            if has_order {
                assert(hi == post_id);
                assert forall|w: int| 0 <= w < n && #[trigger] fin2[w] implies self.iv(t, w).max < post_id + 1 by {
                    if w != node as int {
                        assert(cur[w]);
                        assert(self.iv(t, w) == before_self.iv(t, w));
                    }
                }
            }
            if tord {
                if k == 0 {
                    assert(cur == fin);
                }
                assert(lo as int == c_in);
                assert forall|u: int, v: int| 0 <= u < n && 0 <= v < n && #[trigger] fin2[u] && #[trigger] fin2[v]
                    && self.iv(t, v).min <= self.iv(t, u).max && self.iv(t, u).max <= self.iv(t, v).max
                    implies u == v || g0.reachable(u, v) by {
                    if u == v {
                    } else if v == node as int {
                        assert(cur[u]);
                        assert(self.iv(t, u) == before_self.iv(t, u));
                        if fin[u] {
                            assert(h0.iv(t, u) == self.iv(t, u));
                        }
                    } else if u == node as int {
                        assert(cur[v]);
                        assert(self.iv(t, v) == before_self.iv(t, v));
                    } else {
                        assert(cur[u] && cur[v]);
                        assert(self.iv(t, u) == before_self.iv(t, u));
                        assert(self.iv(t, v) == before_self.iv(t, v));
                    }
                }
                assert forall|w: int| 0 <= w < n && #[trigger] fin2[w] && !fin[w]
                    implies c_in <= self.iv(t, w).min && (w == node as int || g0.reachable(w, node as int)) by {
                    if w != node as int {
                        assert(cur[w]);
                        assert(self.iv(t, w) == before_self.iv(t, w));
                    }
                }
                assert forall|w: int, p: int| 0 <= w < n && #[trigger] visited@[w] && #[trigger] self.has_parent(w, p)
                    implies visited@[p] by {
                    assert(before_self.has_parent(w, p));
                }
            }
        }
        Ghost(fin2)
    }

    /// A copy of the children list of `node`.
    fn copy_children(&self, node: u32) -> (r: Vec<u32>)
        requires
            (node as int) < self.n(),
            self.wf(),
        ensures
            r@ == self.children(node as int),
    {
        let src = &self.direct_children[node as usize];
        let mut r: Vec<u32> = Vec::new();
        let mut k: usize = 0;
        while k < src.len()
            invariant
                k <= src@.len(),
                r@ == src@.take(k as int),
            decreases src@.len() - k,
        {
            r.push(src[k]);
            assert(src@.take(k + 1) =~= src@.take(k as int).push(src@[k as int]));
            k += 1;
        }
        assert(src@.take(k as int) =~= src@);
        r
    }

    /// Sets the interval of `node` in traversal `traversal`.
    fn set_interval(&mut self, traversal: usize, node: u32, iv: GrailInterval)
        requires
            old(self).wf(),
            traversal < old(self).traversals(),
            (node as int) < old(self).n(),
        ensures
            final(self).wf(),
            final(self).direct_parents == old(self).direct_parents,
            final(self).direct_children == old(self).direct_children,
            final(self).is_tree == old(self).is_tree,
            final(self).num_traversals == old(self).num_traversals,
            final(self).intervals@.len() == old(self).intervals@.len(),
            forall|t: int| 0 <= t < old(self).traversals() && t != traversal ==> #[trigger] final(self).intervals@[t] == old(self).intervals@[t],
            final(self).iv(traversal as int, node as int) == iv,
            forall|i: int| 0 <= i < old(self).n() && i != node ==> #[trigger] final(self).iv(traversal as int, i) == old(self).iv(traversal as int, i),
    {
        let mut row = Vec::new();
        std::mem::swap(&mut row, &mut self.intervals[traversal]);
        row.set(node as usize, iv);
        self.intervals.set(traversal, row);
        proof {
            assert(self.intervals@[traversal as int]@.len() == self.n());
            assert forall|u: int| 0 <= u < self.num_traversals implies (#[trigger] self.intervals@[u])@.len() == self.n() by {
                if u != traversal {
                    assert(self.intervals@[u] == old(self).intervals@[u]);
                }
            }
            Self::lemma_wf_same_shape(old(self), self);
            assert forall|u: int| 0 <= u < self.num_traversals implies (#[trigger] self.intervals@[u])@.len() == self.n() by {
                if u != traversal {
                    assert(self.intervals@[u] == old(self).intervals@[u]);
                }
            }
            assert forall|u: int| 0 <= u < old(self).traversals() && u != traversal implies #[trigger] self.intervals@[u] == old(self).intervals@[u] by {}
        }
    }
}


/// The same items in a random order (`rand::seq::SliceRandom::shuffle` with
/// the thread-local generator `rand::thread_rng`). Which order comes out is
/// left open: only that it is a permutation is stated.
#[verifier::external_body]
fn shuffled(v: Vec<u32>) -> (r: Vec<u32>)
    ensures
        r@.to_multiset() == v@.to_multiset(),
{
    let mut v = v;
    v.shuffle(&mut rand::thread_rng());
    v
}

/// All `n` entries are `true`.
pub open spec fn all_done(n: int) -> Seq<bool> {
    Seq::new(n as nat, |i: int| true)
}

impl GrailIndex {
    /// In every traversal, an interval that holds the end of another
    /// class's interval is that class's own or one of a class it reaches.
    pub open spec fn ends_exact(&self) -> bool {
        forall|t: int| 0 <= t < self.traversals() ==> #[trigger] self.ends_nested_reach(*self, t, all_done(self.n()))
    }

    /// Every traversal labels every class soundly: its interval is not
    /// empty and contains the intervals of its children.
    pub open spec fn labelled(&self) -> bool {
        forall|t: int| 0 <= t < self.traversals() ==> #[trigger] self.sound(t, all_done(self.n()))
    }

    /// In a hierarchy without a cycle, a set of finished classes that holds
    /// every class without a parent and the children of every finished
    /// class holds every class.
    proof fn lemma_all_finished(&self, t: int, fin: Seq<bool>, o: Seq<u32>, v: int)
        requires
            self.wf(),
            self.parent_order(o),
            fin.len() == self.n(),
            self.sound(t, fin),
            forall|w: int| 0 <= w < self.n() && #[trigger] self.parents(w).len() == 0 ==> fin[w],
            0 <= v < self.n(),
        ensures
            fin[v],
        decreases rank(o, v),
    {
        self.lemma_rank(o, v);
        if self.parents(v).len() > 0 {
            let p = self.parents(v)[0] as int;
            assert(self.parents(v).contains(p as u32));
            assert(self.children(p).contains(v as u32));
            self.lemma_rank_parent(o, v, p);
            self.lemma_rank(o, p);
            self.lemma_all_finished(t, fin, o, p);
            assert(self.sound_at(t, fin, p));
            let k = choose|k: int| 0 <= k < self.children(p).len() && self.children(p)[k] == v as u32;
            assert(fin[self.children(p)[k] as int]);
        }
    }

    /// Labels the classes in each traversal by depth-first walks from the
    /// classes without a parent, taken in a random order. Without a cycle,
    /// every class is labelled and each interval contains its children's.
    pub fn build(&mut self)
        requires
            old(self).wf(),
        ensures
            final(self).wf(),
            final(self).n() == old(self).n(),
            final(self).traversals() == old(self).traversals(),
            final(self).tree() == old(self).tree(),
            forall|i: int, j: int| #[trigger] final(self).has_parent(i, j) == old(self).has_parent(i, j),
            forall|i: int| 0 <= i < old(self).n() ==> #[trigger] final(self).parents(i) == old(self).parents(i),
            (exists|o: Seq<u32>| old(self).parent_order(o)) ==> final(self).labelled(),
            (exists|o: Seq<u32>| old(self).parent_order(o)) && old(self).tree() ==> final(self).ends_exact(),
    {
        let ghost h0 = *self;
        let ghost has_order = exists|o: Seq<u32>| #[trigger] h0.parent_order(o);
        let ghost order = choose|o: Seq<u32>| #[trigger] h0.parent_order(o);
        let n = self.direct_parents.len();
        let mut t: usize = 0;
        while t < self.num_traversals
            invariant
                self.wf(),
                h0.wf(),
                self.direct_parents == h0.direct_parents,
                self.direct_children == h0.direct_children,
                self.is_tree == h0.is_tree,
                self.num_traversals == h0.num_traversals,
                self.intervals@.len() == h0.intervals@.len(),
                n == self.n(),
                t <= self.num_traversals,
                has_order ==> h0.parent_order(order),
                has_order == (exists|o: Seq<u32>| #[trigger] h0.parent_order(o)),
                has_order ==> forall|u: int| 0 <= u < t ==> #[trigger] self.sound(u, all_done(n as int)),
                has_order && h0.tree() ==> forall|u: int| 0 <= u < t ==> #[trigger] self.ends_nested_reach(h0, u, all_done(n as int)),
            decreases self.num_traversals - t,
        {
            let mut roots: Vec<u32> = Vec::new();
            let mut i: usize = 0;
            while i < n
                invariant
                    self.wf(),
                    n == self.n(),
                    self.direct_parents == h0.direct_parents,
                    i <= n,
                    forall|q: int| 0 <= q < roots@.len() ==> (#[trigger] roots@[q] as int) < n,
                    forall|w: int| 0 <= w < i && #[trigger] h0.parents(w).len() == 0 ==> roots@.contains(w as u32),
                    forall|q: int| 0 <= q < roots@.len() ==> #[trigger] h0.parents(roots@[q] as int).len() == 0,
                decreases n - i,
            {
                if self.direct_parents[i].len() == 0 {
                    let ghost before = roots@;
                    roots.push(i as u32);
                    proof {
                        assert(self.parents(i as int) == h0.parents(i as int));
                        assert forall|q: int| 0 <= q < roots@.len() implies #[trigger] h0.parents(roots@[q] as int).len() == 0 by {
                            if q < before.len() {
                                assert(roots@[q] == before[q]);
                            }
                        }
                        assert forall|w: int| 0 <= w < i + 1 && #[trigger] h0.parents(w).len() == 0 implies roots@.contains(w as u32) by {
                            if w < i {
                                let q = choose|q: int| 0 <= q < before.len() && before[q] == w as u32;
                                assert(roots@[q] == w as u32);
                            } else {
                                assert(roots@[before.len() as int] == w as u32);
                            }
                        }
                    }
                }
                i += 1;
            }
            let ghost unshuffled = roots@;
            let roots = shuffled(roots);
            proof {
                roots@.to_multiset_ensures();
                unshuffled.to_multiset_ensures();
                assert forall|x: u32| roots@.contains(x) <==> #[trigger] unshuffled.contains(x) by {
                    assert(roots@.to_multiset().count(x) == unshuffled.to_multiset().count(x));
                }
                assert forall|q: int| 0 <= q < roots@.len() implies (#[trigger] roots@[q] as int) < n by {
                    assert(roots@.contains(roots@[q]));
                    assert(unshuffled.contains(roots@[q]));
                    let q2 = choose|q2: int| 0 <= q2 < unshuffled.len() && unshuffled[q2] == roots@[q];
                    assert((unshuffled[q2] as int) < n);
                }
                assert forall|q: int| 0 <= q < roots@.len() implies #[trigger] h0.parents(roots@[q] as int).len() == 0 by {
                    assert(roots@.contains(roots@[q]));
                    assert(unshuffled.contains(roots@[q]));
                    let q2 = choose|q2: int| 0 <= q2 < unshuffled.len() && unshuffled[q2] == roots@[q];
                    assert(h0.parents(unshuffled[q2] as int).len() == 0);
                }
            }
            let mut visited: Vec<bool> = Vec::new();
            let mut k: usize = 0;
            while k < n
                invariant
                    k <= n,
                    visited@.len() == k,
                    forall|q: int| 0 <= q < k ==> !(#[trigger] visited@[q]),
                decreases n - k,
            {
                visited.push(false);
                k += 1;
            }
            let ghost mut fin = Seq::new(n as nat, |q: int| false);
            proof {
                assert(count_true(fin) == 0) by {
                    crate::grail::lemma_count_none(fin);
                }
            }
            let mut counter: u32 = 0;
            let ghost tt = t as int;
            let mut j: usize = 0;
            while j < roots.len()
                invariant
                    self.wf(),
                    h0.wf(),
                    self.direct_parents == h0.direct_parents,
                    self.direct_children == h0.direct_children,
                    self.is_tree == h0.is_tree,
                    self.num_traversals == h0.num_traversals,
                    self.intervals@.len() == h0.intervals@.len(),
                    n == self.n(),
                    t < self.num_traversals,
                    tt == t,
                    j <= roots@.len(),
                    forall|q: int| 0 <= q < roots@.len() ==> (#[trigger] roots@[q] as int) < n,
                    visited@.len() == n,
                    fin.len() == n,
                    forall|w: int| 0 <= w < n ==> #[trigger] visited@[w] == fin[w],
                    counter as nat == count_true(fin),
                    has_order ==> h0.parent_order(order),
                    has_order == (exists|o: Seq<u32>| #[trigger] h0.parent_order(o)),
                    has_order ==> self.sound(tt, fin),
                    has_order ==> self.ends_below(tt, fin, counter as int),
                    has_order && h0.tree() ==> self.ends_nested_reach(h0, tt, fin),
                    has_order && h0.tree() ==> self.parents_visited(visited@),
                    has_order && h0.tree() ==> forall|u: int| 0 <= u < t ==> #[trigger] self.ends_nested_reach(h0, u, all_done(n as int)),
                    forall|q: int| 0 <= q < roots@.len() ==> #[trigger] h0.parents(roots@[q] as int).len() == 0,
                    has_order ==> forall|q: int| 0 <= q < j ==> fin[#[trigger] roots@[q] as int],
                    has_order ==> forall|u: int| 0 <= u < t ==> #[trigger] self.sound(u, all_done(n as int)),
                decreases roots@.len() - j,
            {
                let r = roots[j];
                proof {
                    Self::lemma_wf_same_shape(&h0, self);
                    assert(covers(fin, visited@));
                    if self.parent_order(order) {
                        assert(h0.parent_order(order));
                        assert(has_order);
                    }
                }
                let ghost before_self = *self;
                proof {
                    assert(h0.parents(r as int).len() == 0);
                    assert forall|p: int| #[trigger] self.has_parent(r as int, p) implies visited@[p] by {
                        assert(self.parents(r as int) == h0.parents(r as int));
                    }
                }
                let g = self.dfs_build(r, &mut visited, &mut counter, t, Ghost(order), Ghost(fin), Ghost(h0));
                proof {
                    let fin_old = fin;
                    fin = g@;
                    assert forall|w: int| 0 <= w < n implies #[trigger] visited@[w] == fin[w] by {
                        if visited@[w] && !fin[w] {
                            assert(false);
                        }
                    }
                    if has_order {
                        assert forall|q: int| 0 <= q < j + 1 implies fin[#[trigger] roots@[q] as int] by {
                            if q < j {
                                assert(fin_old[roots@[q] as int]);
                            }
                        }
                        if h0.tree() {
                            assert forall|u: int| 0 <= u < t implies #[trigger] self.ends_nested_reach(h0, u, all_done(n as int)) by {
                                assert(before_self.ends_nested_reach(h0, u, all_done(n as int)));
                                assert(self.intervals@[u] == before_self.intervals@[u]);
                                assert forall|a: int| 0 <= a < n implies #[trigger] self.iv(u, a) == before_self.iv(u, a) by {}
                            }
                        }
                        assert forall|u: int| 0 <= u < t implies #[trigger] self.sound(u, all_done(n as int)) by {
                            assert(before_self.sound(u, all_done(n as int)));
                            assert(self.intervals@[u] == before_self.intervals@[u]);
                            assert forall|w: int| 0 <= w < n && #[trigger] all_done(n as int)[w]
                                implies self.sound_at(u, all_done(n as int), w) by {
                                assert(before_self.sound_at(u, all_done(n as int), w));
                                assert(self.children(w) == before_self.children(w));
                                assert(self.iv(u, w) == before_self.iv(u, w));
                                assert forall|kk: int| 0 <= kk < self.children(w).len() implies
                                    all_done(n as int)[#[trigger] self.children(w)[kk] as int]
                                    && self.iv(u, w).min <= self.iv(u, self.children(w)[kk] as int).min
                                    && self.iv(u, self.children(w)[kk] as int).max <= self.iv(u, w).max by {
                                    assert(self.iv(u, self.children(w)[kk] as int)
                                        == before_self.iv(u, before_self.children(w)[kk] as int));
                                }
                            }
                        }
                    }
                }
                j += 1;
            }
            proof {
                if has_order {
                    Self::lemma_wf_same_shape(&h0, self);
                    assert forall|w: int| 0 <= w < n && #[trigger] self.parents(w).len() == 0 implies fin[w] by {
                        assert(self.parents(w) == h0.parents(w));
                        assert(unshuffled.contains(w as u32));
                        assert(roots@.contains(w as u32));
                        let q = choose|q: int| 0 <= q < roots@.len() && roots@[q] == w as u32;
                        assert(fin[roots@[q] as int]);
                    }
                    assert forall|w: int| 0 <= w < n implies #[trigger] fin[w] by {
                        self.lemma_all_finished(tt, fin, order, w);
                    }
                    assert(fin =~= all_done(n as int));
                    if h0.tree() {
                        assert(self.ends_nested_reach(h0, tt, all_done(n as int)));
                    }
                }
            }
            t += 1;
        }
        proof {
            Self::lemma_wf_same_shape(&h0, self);
            assert forall|i: int, j: int| #[trigger] self.has_parent(i, j) == h0.has_parent(i, j) by {
                if 0 <= i < n {
                    assert(self.parents(i) == h0.parents(i));
                }
            }
            if has_order && h0.tree() {
                assert forall|u: int| 0 <= u < self.traversals()
                    implies #[trigger] self.ends_nested_reach(*self, u, all_done(self.n())) by {
                    assert(self.ends_nested_reach(h0, u, all_done(n as int)));
                    assert forall|a: int, b: int| 0 <= a < self.n() && 0 <= b < self.n()
                        && #[trigger] all_done(self.n())[a] && #[trigger] all_done(self.n())[b]
                        && self.iv(u, b).min <= self.iv(u, a).max && self.iv(u, a).max <= self.iv(u, b).max
                        implies a == b || self.reachable(a, b) by {
                        Self::lemma_reach_same(&h0, self, a, b);
                    }
                }
            }
        }
    }

    /// Two indexes over the same table of parents reach the same classes.
    proof fn lemma_reach_same(a: &Self, b: &Self, i: int, j: int)
        requires
            a.direct_parents == b.direct_parents,
        ensures
            a.reachable(i, j) == b.reachable(i, j),
    {
        if a.reachable(i, j) {
            let k = choose|k: nat| #[trigger] a.within(i, j, k);
            a.lemma_within_steps(i, j, k);
            b.lemma_within_steps(i, j, k);
        }
        if b.reachable(i, j) {
            let k = choose|k: nat| #[trigger] b.within(i, j, k);
            a.lemma_within_steps(i, j, k);
            b.lemma_within_steps(i, j, k);
        }
    }
}

/// No entry `true`, no count.
pub proof fn lemma_count_none(s: Seq<bool>)
    requires
        forall|i: int| 0 <= i < s.len() ==> !s[i],
    ensures
        count_true(s) == 0,
    decreases s.len(),
{
    if s.len() > 0 {
        lemma_count_none(s.drop_last());
    }
}


impl GrailIndex {
    /// Some traversal gives `from` and `to` disjoint intervals.
    pub open spec fn disjoint_somewhere(&self, from: int, to: int) -> bool {
        exists|t: int| 0 <= t < self.traversals() && separated(#[trigger] self.iv(t, from), self.iv(t, to))
    }

    /// Every traversal gives `to` an interval containing that of `from`.
    pub open spec fn contained_everywhere(&self, from: int, to: int) -> bool {
        forall|t: int| 0 <= t < self.traversals() ==> nested(#[trigger] self.iv(t, to), self.iv(t, from))
    }

    /// What the index answers for `from` reaching `to`: yes for the same
    /// class; no when some traversal separates them; yes for a tree whose
    /// every traversal nests them; otherwise what a breadth-first walk
    /// finds.
    pub open spec fn grail_answer(&self, from: int, to: int) -> bool {
        if from == to {
            true
        } else if self.disjoint_somewhere(from, to) {
            false
        } else if self.contained_everywhere(from, to) && self.tree() {
            true
        } else {
            self.reachable(from, to)
        }
    }

    /// The interval test for `from` reaching `to`: `(true, false)` when
    /// every traversal nests them, `(false, true)` when some traversal
    /// separates them, `(false, false)` otherwise.
    pub fn can_reach(&self, from: u32, to: u32) -> (r: (bool, bool))
        requires
            self.wf(),
            (from as int) < self.n(),
            (to as int) < self.n(),
        ensures
            self.disjoint_somewhere(from as int, to as int) ==> r == (false, true),
            !self.disjoint_somewhere(from as int, to as int) ==> r == (self.contained_everywhere(from as int, to as int), false),
    {
        let mut definitely_yes = true;
        let mut t: usize = 0;
        while t < self.num_traversals
            invariant
                self.wf(),
                (from as int) < self.n(),
                (to as int) < self.n(),
                t <= self.num_traversals,
                forall|u: int| 0 <= u < t ==> !separated(#[trigger] self.iv(u, from as int), self.iv(u, to as int)),
                definitely_yes == forall|u: int| 0 <= u < t ==> nested(#[trigger] self.iv(u, to as int), self.iv(u, from as int)),
            decreases self.num_traversals - t,
        {
            let from_interval = self.intervals[t][from as usize];
            let to_interval = self.intervals[t][to as usize];
            if from_interval.is_disjoint(&to_interval) {
                assert(separated(self.iv(t as int, from as int), self.iv(t as int, to as int)));
                return (false, true);
            }
            if !to_interval.contains(&from_interval) {
                definitely_yes = false;
                assert(!nested(self.iv(t as int, to as int), self.iv(t as int, from as int)));
            }
            t += 1;
        }
        (definitely_yes, false)
    }

    /// Whether `from` reaches `to` by parent steps (or is `to`): the
    /// interval test when it decides, a breadth-first walk otherwise.
    pub fn is_reachable(&self, from: u32, to: u32) -> (r: bool)
        requires
            self.wf(),
            (from as int) < self.n(),
            (to as int) < self.n(),
        ensures
            r == self.grail_answer(from as int, to as int),
    {
        if from == to {
            return true;
        }
        let (def_yes, def_no) = self.can_reach(from, to);
        if def_yes {
            if self.is_tree {
                return true;
            }
        }
        if def_no {
            return false;
        }
        self.bfs_reachable(from, to)
    }

    /// A breadth-first walk up the parents from `from`, looking for `to`.
    fn bfs_reachable(&self, from: u32, to: u32) -> (r: bool)
        requires
            self.wf(),
            (from as int) < self.n(),
            (to as int) < self.n(),
        ensures
            r == (from == to || self.reachable(from as int, to as int)),
    {
        let n = self.direct_parents.len();
        let mut visited: Vec<bool> = Vec::new();
        let mut i: usize = 0;
        while i < n
            invariant
                i <= n,
                visited@.len() == i,
                forall|q: int| 0 <= q < i ==> !(#[trigger] visited@[q]),
            decreases n - i,
        {
            visited.push(false);
            i += 1;
        }
        proof {
            lemma_count_none(visited@);
        }
        let ghost v0 = visited@;
        visited.set(from as usize, true);
        proof {
            lemma_count_true_set(v0, from as int);
        }
        let mut queue: VecDeque<u32> = VecDeque::new();
        queue.push_back(from);
        proof {
            assert(queue@[0] == from);
            assert forall|w: int| 0 <= w < n && #[trigger] visited@[w] implies w == from by {
                if w != from as int {
                    assert(!v0[w]);
                }
            }
            lemma_count_true_bound(visited@);
        }
        while queue.len() > 0
            invariant
                self.wf(),
                n == self.n(),
                (from as int) < n,
                (to as int) < n,
                visited@.len() == n,
                visited@[from as int],
                queue@.no_duplicates(),
                forall|q: int| 0 <= q < queue@.len() ==> (#[trigger] queue@[q] as int) < n && visited@[queue@[q] as int],
                forall|w: int| 0 <= w < n && #[trigger] visited@[w] ==> w == from || self.reachable(from as int, w),
                forall|w: int| 0 <= w < n && #[trigger] visited@[w] && !queue@.contains(w as u32) ==>
                    w != to && forall|p: int| #[trigger] self.has_parent(w, p) ==> visited@[p],
                count_true(visited@) <= n,
            decreases 2 * (n - count_true(visited@)) + queue@.len(),
        {
            let ghost m0 = 2 * (n - count_true(visited@)) + queue@.len();
            let ghost q0 = queue@;
            let current = queue.pop_front().unwrap();
            proof {
                assert(queue@ == q0.subrange(1, q0.len() as int));
                assert(current == q0[0]);
                assert(!queue@.contains(current)) by {
                    if queue@.contains(current) {
                        let q = choose|q: int| 0 <= q < queue@.len() && queue@[q] == current;
                        assert(q0[q + 1] == q0[0]);
                    }
                }
                assert forall|w: int| 0 <= w < n && #[trigger] visited@[w] && !queue@.contains(w as u32) && w != current
                    implies w != to && forall|p: int| #[trigger] self.has_parent(w, p) ==> visited@[p] by {
                    assert(!q0.contains(w as u32)) by {
                        if q0.contains(w as u32) {
                            let q = choose|q: int| 0 <= q < q0.len() && q0[q] == w as u32;
                            if q == 0 {
                            } else {
                                assert(queue@[q - 1] == w as u32);
                            }
                        }
                    }
                }
                assert(current == from || self.reachable(from as int, current as int));
            }
            if current == to {
                return true;
            }
            let parents = &self.direct_parents[current as usize];
            let mut k: usize = 0;
            while k < parents.len()
                invariant
                    self.wf(),
                    n == self.n(),
                    (from as int) < n,
                    (to as int) < n,
                    (current as int) < n,
                    current != to,
                    parents@ == self.parents(current as int),
                    k <= parents@.len(),
                    visited@.len() == n,
                    visited@[from as int],
                    visited@[current as int],
                    !queue@.contains(current),
                    queue@.no_duplicates(),
                    from == current || self.reachable(from as int, current as int),
                    forall|q: int| 0 <= q < queue@.len() ==> (#[trigger] queue@[q] as int) < n && visited@[queue@[q] as int],
                    forall|w: int| 0 <= w < n && #[trigger] visited@[w] ==> w == from || self.reachable(from as int, w),
                    forall|w: int| 0 <= w < n && #[trigger] visited@[w] && !queue@.contains(w as u32) && w != current ==>
                        w != to && forall|p: int| #[trigger] self.has_parent(w, p) ==> visited@[p],
                    forall|q: int| 0 <= q < k ==> visited@[#[trigger] parents@[q] as int],
                    count_true(visited@) <= n,
                    2 * (n - count_true(visited@)) + queue@.len() < m0,
                decreases parents@.len() - k,
            {
                let parent = parents[k];
                assert((parent as int) < n);
                if !visited[parent as usize] {
                    let ghost vb = visited@;
                    visited.set(parent as usize, true);
                    proof {
                        lemma_count_true_set(vb, parent as int);
                        assert(self.has_parent(current as int, parent as int)) by {
                            assert(self.parents(current as int)[k as int] == parent);
                        }
                        if from == current {
                            assert(self.within(from as int, parent as int, 1));
                        } else {
                            let kk = choose|kk: nat| #[trigger] self.within(from as int, current as int, kk);
                            self.lemma_within_append(from as int, current as int, parent as int, kk);
                        }
                        assert(!queue@.contains(parent)) by {
                            if queue@.contains(parent) {
                                let q = choose|q: int| 0 <= q < queue@.len() && queue@[q] == parent;
                                assert(vb[queue@[q] as int]);
                            }
                        }
                    }
                    let ghost qb = queue@;
                    queue.push_back(parent);
                    proof {
                        assert(queue@ == qb.push(parent));
                        assert(queue@[qb.len() as int] == parent);
                        assert forall|w: int| 0 <= w < n && #[trigger] visited@[w] && !queue@.contains(w as u32) && w != current
                            implies w != to && forall|p: int| #[trigger] self.has_parent(w, p) ==> visited@[p] by {
                            assert(w != parent as int);
                            assert(vb[w]);
                            assert(!qb.contains(w as u32)) by {
                                if qb.contains(w as u32) {
                                    let q = choose|q: int| 0 <= q < qb.len() && qb[q] == w as u32;
                                    assert(queue@[q] == w as u32);
                                }
                            }
                            assert forall|p: int| #[trigger] self.has_parent(w, p) implies visited@[p] by {
                                assert(vb[p]);
                            }
                        }
                        assert(queue@.no_duplicates());
                    }
                }
                k += 1;
            }
            proof {
                assert forall|p: int| #[trigger] self.has_parent(current as int, p) implies visited@[p] by {
                    let q = choose|q: int| 0 <= q < parents@.len() && parents@[q] == p as u32;
                    assert(visited@[parents@[q] as int]);
                }
            }
        }
        proof {
            assert forall|a: int| 0 <= a < n && #[trigger] visited@[a] implies
                forall|p: int| #[trigger] self.has_parent(a, p) ==> visited@[p] by {
                assert(!queue@.contains(a as u32));
            }
            assert(!queue@.contains(from));
            if self.reachable(from as int, to as int) {
                let kk = choose|kk: nat| #[trigger] self.within(from as int, to as int, kk);
                self.lemma_closed_visits(visited@, from as int, to as int, kk);
                assert(!queue@.contains(to));
            }
        }
        false
    }

    /// One step more at the end: from `i` to `j`, then to a parent of `j`.
    proof fn lemma_within_append(&self, i: int, j: int, p: int, k: nat)
        requires
            self.within(i, j, k),
            self.has_parent(j, p),
        ensures
            self.within(i, p, k + 1),
        decreases k,
    {
        if self.has_parent(i, j) {
            assert(self.within(j, p, 1));
            assert(self.within(i, p, 2));
            self.lemma_within_mono(i, p, 2, k + 1);
        } else {
            let m = choose|m: int| #[trigger] self.has_parent(i, m) && self.within(m, j, (k - 1) as nat);
            self.lemma_within_append(m, j, p, (k - 1) as nat);
            assert(self.within(i, p, k + 1));
        }
    }

    /// More steps allowed, still reached.
    proof fn lemma_within_mono(&self, i: int, j: int, k: nat, m: nat)
        requires
            self.within(i, j, k),
            k <= m,
        ensures
            self.within(i, j, m),
        decreases m,
    {
        if k < m {
            if self.has_parent(i, j) {
            } else {
                let p = choose|p: int| #[trigger] self.has_parent(i, p) && self.within(p, j, (k - 1) as nat);
                self.lemma_within_mono(p, j, (k - 1) as nat, (m - 1) as nat);
            }
        }
    }

    /// A set of classes closed under parent steps, holding `x`, holds every
    /// class reached from `x`.
    proof fn lemma_closed_visits(&self, vis: Seq<bool>, x: int, w: int, k: nat)
        requires
            vis.len() == self.n(),
            0 <= x < self.n(),
            vis[x],
            forall|a: int| 0 <= a < self.n() && #[trigger] vis[a] ==> forall|p: int| #[trigger] self.has_parent(a, p) ==> vis[p],
            self.within(x, w, k),
        ensures
            vis[w],
        decreases k,
    {
        if !self.has_parent(x, w) {
            let p = choose|p: int| #[trigger] self.has_parent(x, p) && self.within(p, w, (k - 1) as nat);
            assert(vis[p]);
            self.lemma_closed_visits(vis, p, w, (k - 1) as nat);
        }
    }
}


impl GrailIndex {
    /// In a labelled index, each traversal nests the interval of a class in
    /// that of every class it reaches.
    pub proof fn lemma_reachable_nested(&self, t: int, i: int, j: int, k: nat)
        requires
            self.wf(),
            self.labelled(),
            0 <= t < self.traversals(),
            self.within(i, j, k),
        ensures
            nested(self.iv(t, j), self.iv(t, i)),
            self.iv(t, i).min <= self.iv(t, i).max,
        decreases k,
    {
        let all = all_done(self.n());
        assert(self.sound(t, all));
        if self.has_parent(i, j) {
            assert(self.children(j).contains(i as u32));
            assert(all[j] && all[i]);
            assert(self.sound_at(t, all, j));
            assert(self.sound_at(t, all, i));
            let q = choose|q: int| 0 <= q < self.children(j).len() && self.children(j)[q] == i as u32;
            assert(self.children(j)[q] as int == i);
        } else {
            let p = choose|p: int| #[trigger] self.has_parent(i, p) && self.within(p, j, (k - 1) as nat);
            self.lemma_reachable_nested(t, p, j, (k - 1) as nat);
            assert(self.children(p).contains(i as u32));
            assert(all[p] && all[i]);
            assert(self.sound_at(t, all, p));
            assert(self.sound_at(t, all, i));
            let q = choose|q: int| 0 <= q < self.children(p).len() && self.children(p)[q] == i as u32;
            assert(self.children(p)[q] as int == i);
        }
    }

    /// A labelled index never answers no for a class reached, nor for a
    /// class and itself.
    pub proof fn lemma_no_false_negative(&self, from: int, to: int)
        requires
            self.wf(),
            self.labelled(),
            0 <= from < self.n(),
            0 <= to < self.n(),
            from == to || self.reachable(from, to),
        ensures
            self.grail_answer(from, to),
    {
        if from != to && self.disjoint_somewhere(from, to) {
            let t = choose|t: int| 0 <= t < self.traversals() && separated(#[trigger] self.iv(t, from), self.iv(t, to));
            let k = choose|k: nat| #[trigger] self.within(from, to, k);
            self.lemma_reachable_nested(t, from, to, k);
        }
    }

    /// A labelled index that is not a tree answers exactly whether `from`
    /// is `to` or reaches it by parent steps.
    pub proof fn lemma_answer_exact(&self, from: int, to: int)
        requires
            self.wf(),
            self.labelled(),
            !self.tree(),
            0 <= from < self.n(),
            0 <= to < self.n(),
        ensures
            self.grail_answer(from, to) == (from == to || self.reachable(from, to)),
    {
        if from == to || self.reachable(from, to) {
            self.lemma_no_false_negative(from, to);
        }
    }

    /// A labelled tree index with at least one traversal answers exactly
    /// whether `from` is `to` or reaches it by parent steps.
    pub proof fn lemma_tree_answer_exact(&self, from: int, to: int)
        requires
            self.wf(),
            self.labelled(),
            self.ends_exact(),
            self.tree(),
            self.traversals() >= 1,
            0 <= from < self.n(),
            0 <= to < self.n(),
        ensures
            self.grail_answer(from, to) == (from == to || self.reachable(from, to)),
    {
        if from == to || self.reachable(from, to) {
            self.lemma_no_false_negative(from, to);
        } else if !self.disjoint_somewhere(from, to) && self.contained_everywhere(from, to) {
            assert(nested(self.iv(0, to), self.iv(0, from)));
            assert(self.sound(0, all_done(self.n())));
            assert(all_done(self.n())[from]);
            assert(all_done(self.n())[to]);
            assert(self.sound_at(0, all_done(self.n()), from));
            assert(self.ends_nested_reach(*self, 0, all_done(self.n())));
        }
    }

    /// Walks of the index are the walks over its table of direct parents.
    proof fn lemma_within_steps(&self, i: int, j: int, k: nat)
        ensures
            self.within(i, j, k) == steps_within(self.direct_parents@, i, j, k),
        decreases k,
    {
        let g = self.direct_parents@;
        if k > 0 {
            assert forall|p: int| #[trigger] self.has_parent(i, p) == step(g, i, p) by {}
            if self.within(i, j, k) && !self.has_parent(i, j) {
                let p = choose|p: int| #[trigger] self.has_parent(i, p) && self.within(p, j, (k - 1) as nat);
                self.lemma_within_steps(p, j, (k - 1) as nat);
                assert(step(g, i, p));
            }
            if steps_within(g, i, j, k) && !step(g, i, j) {
                let p = choose|p: int| #[trigger] step(g, i, p) && steps_within(g, p, j, (k - 1) as nat);
                self.lemma_within_steps(p, j, (k - 1) as nat);
                assert(self.has_parent(i, p));
            }
        }
    }

    /// Every class reached from `node` by one or more parent steps, in
    /// increasing order.
    pub fn get_all_ancestors(&self, node: u32) -> (r: Vec<u32>)
        requires
            self.wf(),
            (node as int) < self.n(),
        ensures
            forall|a: int, b: int| 0 <= a < b < r@.len() ==> r@[a] < r@[b],
            forall|a: int| 0 <= a < r@.len() ==> (#[trigger] r@[a] as int) < self.n() && self.reachable(node as int, r@[a] as int),
            forall|w: int| 0 <= w < self.n() && self.reachable(node as int, w) ==> #[trigger] r@.contains(w as u32),
    {
        let g = &self.direct_parents;
        proof {
            assert(table_wf(g@)) by {
                assert forall|i: int, k: int| 0 <= i < g@.len() && 0 <= k < g@[i]@.len()
                    implies (#[trigger] g@[i]@[k] as int) < g@.len() by {
                    assert(self.parents(i)[k] == g@[i]@[k]);
                }
            }
        }
        let marks = reached_from(g, node);
        proof {
            assert forall|w: int| 0 <= w < self.n() implies (#[trigger] marks@[w] <==> self.reachable(node as int, w)) by {
                if self.reachable(node as int, w) {
                    let k = choose|k: nat| #[trigger] self.within(node as int, w, k);
                    self.lemma_within_steps(node as int, w, k);
                }
                if reaches(g@, node as int, w) {
                    let k = choose|k: nat| #[trigger] steps_within(g@, node as int, w, k);
                    self.lemma_within_steps(node as int, w, k);
                }
            }
        }
        let mut r: Vec<u32> = Vec::new();
        let mut i: usize = 0;
        while i < marks.len()
            invariant
                marks@.len() == self.n(),
                self.n() < u32::MAX,
                i <= marks@.len(),
                forall|w: int| 0 <= w < self.n() ==> (#[trigger] marks@[w] <==> self.reachable(node as int, w)),
                forall|a: int, b: int| 0 <= a < b < r@.len() ==> r@[a] < r@[b],
                forall|a: int| 0 <= a < r@.len() ==> (#[trigger] r@[a] as int) < i && self.reachable(node as int, r@[a] as int),
                forall|w: int| 0 <= w < i && self.reachable(node as int, w) ==> #[trigger] r@.contains(w as u32),
            decreases marks@.len() - i,
        {
            if marks[i] {
                let ghost r0 = r@;
                r.push(i as u32);
                proof {
                    assert(r@[r0.len() as int] == i as u32);
                    assert forall|w: int| 0 <= w < i + 1 && self.reachable(node as int, w) implies #[trigger] r@.contains(w as u32) by {
                        if w < i {
                            assert(r0.contains(w as u32));
                            let q = choose|q: int| 0 <= q < r0.len() && r0[q] == w as u32;
                            assert(r@[q] == w as u32);
                        }
                    }
                }
            }
            i += 1;
        }
        r
    }
}


/// The class hierarchy answered by a GRAIL index: `owl:Thing` at 0,
/// `owl:Nothing` at 1, then the classes of the ontology.
#[derive(Debug)]
pub struct HybridHierarchy {
    pool: IriPool,
    grail: GrailIndex,
    num_classes: usize,
    thing_idx: u32,
    nothing_idx: u32,
}

/// An edge recorded in the index of `h`, or given by a subclass axiom of
/// `o` between indexed named classes.
pub open spec fn hybrid_edge(h: HybridHierarchy, o: Ontology, i: int, j: int) -> bool {
    h.index().has_parent(i, j) || axiom_edge(h.iris(), o, i, j)
}

/// The direct parents building from `o` gives: the recorded edges and the
/// subclass axioms' edges, and `owl:Thing` for each class but `owl:Thing`
/// and `owl:Nothing` left without a parent.
pub open spec fn hybrid_built_parent(h: HybridHierarchy, o: Ontology, i: int, j: int) -> bool {
    ||| hybrid_edge(h, o, i, j)
    ||| (2 <= i < h.index().n() && j == 0 && forall|k: int| !#[trigger] hybrid_edge(h, o, i, k))
}

impl HybridHierarchy {
    /// The indexed class texts, by index.
    pub closed spec fn iris(&self) -> Seq<Seq<char>> {
        self.pool.texts()
    }

    /// The GRAIL index.
    pub closed spec fn index(&self) -> GrailIndex {
        self.grail
    }

    /// The pool and the index agree on the classes.
    pub closed spec fn wf(&self) -> bool {
        &&& self.pool.wf()
        &&& self.grail.wf()
        &&& self.grail.n() == self.pool.texts().len()
        &&& self.num_classes as int == self.grail.n()
        &&& self.grail.n() >= 2
        &&& self.thing_idx == 0
        &&& self.nothing_idx == 1
    }

    /// The index of a class text, or `owl:Thing`'s when it is not indexed.
    pub open spec fn index_or_thing(&self, t: Seq<char>) -> int {
        match self.iris().index_of_first(t) {
            Some(k) => k,
            None => 0,
        }
    }

    /// Indexes `owl:Thing`, `owl:Nothing` and the classes of `ontology`,
    /// with an index of three traversals and no edge.
    pub fn new(ontology: &Ontology) -> (r: OwlResult<Self>)
        requires
            ontology.classes_spec().len() + 2 < u32::MAX,
        ensures
            r matches Ok(h) && h.wf() && h.iris() == hierarchy_iris(*ontology) && h.index().traversals() == 3
                && h.index().tree() && forall|i: int, j: int| !h.index().has_parent(i, j),
    {
        proof {
            reveal_strlit("http://www.w3.org/2002/07/owl#Thing");
            reveal_strlit("http://www.w3.org/2002/07/owl#Nothing");
        }
        let thing = match IRI::new("http://www.w3.org/2002/07/owl#Thing") {
            Ok(i) => i,
            Err(e) => { return Err(e); },
        };
        let nothing = match IRI::new("http://www.w3.org/2002/07/owl#Nothing") {
            Ok(i) => i,
            Err(e) => { return Err(e); },
        };
        let mut pool = IriPool::new();
        proof {
            pool.texts().index_of_first_ensures(thing@);
        }
        let _ = pool.get_or_insert(thing);
        assert(thing_text() != nothing_text()) by {
            assert(thing_text()[31] != nothing_text()[31]);
        }
        proof {
            pool.texts().index_of_first_ensures(nothing@);
            assert(pool.texts() =~= seq![thing_text()]);
            assert(!pool.texts().contains(nothing_text())) by {
                if pool.texts().contains(nothing_text()) {
                    assert(pool.texts()[0] == nothing_text());
                }
            }
        }
        let _ = pool.get_or_insert(nothing);
        let ghost start = seq![thing_text(), nothing_text()];
        assert(pool.texts() =~= start);
        let classes = ontology.classes();
        let ghost cn = class_iris(classes@);
        let mut k: usize = 0;
        while k < classes.len()
            invariant
                k <= classes@.len(),
                classes@ == ontology.classes_spec(),
                ontology.classes_spec().len() + 2 < u32::MAX,
                cn == class_iris(classes@),
                pool.wf(),
                pool.texts() == add_names(start, cn.take(k as int)),
                2 <= pool.texts().len() <= k + 2,
            decreases classes@.len() - k,
        {
            let iri = (**classes[k].iri()).clone();
            let ghost before = pool.texts();
            proof {
                before.index_of_first_ensures(iri@);
            }
            let _ = pool.get_or_insert(iri);
            proof {
                assert(cn.take(k + 1).drop_last() == cn.take(k as int));
                assert(cn.take(k + 1).last() == cn[k as int]);
                assert(cn[k as int] == iri@);
            }
            k += 1;
        }
        assert(cn.take(classes@.len() as int) == cn);
        let num_classes = pool.len();
        let grail = GrailIndex::new(num_classes, 3);
        Ok(HybridHierarchy { pool, grail, num_classes, thing_idx: 0, nothing_idx: 1 })
    }

    /// Records the subclass axioms' edges, puts each other class left
    /// without a parent under `owl:Thing`, and builds the index. Without a
    /// cycle, the index comes out labelled, and for a tree its interval
    /// test is exact.
    pub fn build_from_ontology(&mut self, ontology: &Ontology) -> (r: OwlResult<()>)
        requires
            old(self).wf(),
        ensures
            r is Ok,
            final(self).wf(),
            final(self).iris() == old(self).iris(),
            final(self).index().traversals() == old(self).index().traversals(),
            forall|i: int, j: int| #[trigger] final(self).index().has_parent(i, j)
                == hybrid_built_parent(*old(self), *ontology, i, j),
            (exists|o: Seq<u32>| final(self).index().parent_order(o)) ==> final(self).index().labelled(),
            (exists|o: Seq<u32>| final(self).index().parent_order(o)) && final(self).index().tree()
                ==> final(self).index().ends_exact(),
    {
        let ghost h0 = *self;
        let axioms = ontology.subclass_axioms();
        let ghost subs = subclass_axioms_of(ontology.axioms_spec());
        let ghost iris = self.iris();
        let mut k: usize = 0;
        while k < axioms.len()
            invariant
                self.wf(),
                self.iris() == iris,
                iris == h0.iris(),
                self.grail.traversals() == h0.grail.traversals(),
                axioms@.len() == subs.len(),
                forall|m: int| 0 <= m < axioms@.len() ==> *axioms@[m] == #[trigger] subs[m],
                subs == subclass_axioms_of(ontology.axioms_spec()),
                k <= axioms@.len(),
                forall|i: int, j: int| #[trigger] self.grail.has_parent(i, j)
                    == (h0.grail.has_parent(i, j) || axiom_edge_within(iris, *ontology, k as int, i, j)),
            decreases axioms@.len() - k,
        {
            let ax = axioms[k];
            let mut found = false;
            match (ax.sub_class(), ax.super_class()) {
                (ClassExpression::Class(a), ClassExpression::Class(b)) => {
                    let ia = self.pool.index_of(&**a.iri());
                    let ib = self.pool.index_of(&**b.iri());
                    match (ia, ib) {
                        (Some(x), Some(y)) => {
                            proof {
                                iris.index_of_first_ensures(a.iri_spec()@);
                                iris.index_of_first_ensures(b.iri_spec()@);
                            }
                            self.grail.add_edge(x, y);
                            found = true;
                            proof {
                                assert(edge_of(iris, subs[k as int], x as int, y as int));
                                assert forall|i: int, j: int| #[trigger] self.grail.has_parent(i, j)
                                    == (h0.grail.has_parent(i, j) || axiom_edge_within(iris, *ontology, k + 1, i, j)) by {
                                    if axiom_edge_within(iris, *ontology, k + 1, i, j) && !(i == x && j == y) {
                                        let m = choose|m: int| 0 <= m < k + 1
                                            && #[trigger] edge_of(iris, subclass_axioms_of(ontology.axioms_spec())[m], i, j);
                                        if m == k {
                                            assert(edge_of(iris, subs[k as int], i, j));
                                        }
                                        assert(axiom_edge_within(iris, *ontology, k as int, i, j));
                                    }
                                    if axiom_edge_within(iris, *ontology, k as int, i, j) {
                                        let m = choose|m: int| 0 <= m < k
                                            && #[trigger] edge_of(iris, subclass_axioms_of(ontology.axioms_spec())[m], i, j);
                                        assert(edge_of(iris, subclass_axioms_of(ontology.axioms_spec())[m], i, j));
                                    }
                                }
                            }
                        },
                        _ => {
                            proof {
                                iris.index_of_first_ensures(a.iri_spec()@);
                                iris.index_of_first_ensures(b.iri_spec()@);
                            }
                        },
                    }
                },
                _ => {},
            }
            if !found {
                proof {
                    assert(forall|i: int, j: int| !edge_of(iris, subs[k as int], i, j));
                    assert forall|i: int, j: int|
                        axiom_edge_within(iris, *ontology, k + 1, i, j)
                        == axiom_edge_within(iris, *ontology, k as int, i, j) by {
                        if axiom_edge_within(iris, *ontology, k + 1, i, j) {
                            let m = choose|m: int| 0 <= m < k + 1
                                && #[trigger] edge_of(iris, subclass_axioms_of(ontology.axioms_spec())[m], i, j);
                            assert(m != k);
                        }
                        if axiom_edge_within(iris, *ontology, k as int, i, j) {
                            let m = choose|m: int| 0 <= m < k
                                && #[trigger] edge_of(iris, subclass_axioms_of(ontology.axioms_spec())[m], i, j);
                            assert(edge_of(iris, subclass_axioms_of(ontology.axioms_spec())[m], i, j));
                        }
                    }
                }
            }
            k += 1;
        }
        let ghost h1 = *self;
        let n = self.num_classes;
        let mut idx: usize = 0;
        while idx < n
            invariant
                self.wf(),
                self.iris() == iris,
                self.grail.traversals() == h0.grail.traversals(),
                n == self.grail.n(),
                idx <= n,
                h1.wf(),
                h1.grail.n() == n,
                forall|i: int, j: int| idx <= i ==> #[trigger] self.grail.has_parent(i, j) == h1.grail.has_parent(i, j),
                forall|i: int, j: int| i < idx ==> #[trigger] self.grail.has_parent(i, j)
                    == (h1.grail.has_parent(i, j) || (2 <= i < n && j == 0
                        && forall|k: int| !#[trigger] h1.grail.has_parent(i, k))),
            decreases n - idx,
        {
            let empty = self.grail.direct_parents[idx].len() == 0;
            if idx >= 2 && empty {
                proof {
                    assert forall|k: int| !#[trigger] h1.grail.has_parent(idx as int, k) by {
                        assert(self.grail.has_parent(idx as int, k) == h1.grail.has_parent(idx as int, k));
                        assert(self.grail.parents(idx as int).len() == 0);
                    }
                }
                self.grail.add_edge(idx as u32, 0);
            } else {
                proof {
                    if idx >= 2 {
                        assert(!empty);
                        let p = self.grail.parents(idx as int)[0];
                        assert(self.grail.has_parent(idx as int, p as int));
                        assert(h1.grail.has_parent(idx as int, p as int));
                    }
                }
            }
            idx += 1;
        }
        let ghost h2 = self.grail;
        self.grail.build();
        proof {
            if exists|o: Seq<u32>| self.index().parent_order(o) {
                let o = choose|o: Seq<u32>| self.index().parent_order(o);
                assert forall|a: int, b: int| 0 <= a < o.len() && 0 <= b < o.len()
                    && #[trigger] h2.has_parent(o[b] as int, o[a] as int) implies a < b by {
                    assert(self.grail.has_parent(o[b] as int, o[a] as int));
                }
                assert(h2.parent_order(o));
            }
            assert forall|i: int, j: int| #[trigger] self.index().has_parent(i, j) == hybrid_built_parent(h0, *ontology, i, j) by {
                let fa = forall|k: int| !#[trigger] hybrid_edge(h0, *ontology, i, k);
                let fb = forall|k: int| !#[trigger] h1.grail.has_parent(i, k);
                if fa {
                    assert forall|k: int| !#[trigger] h1.grail.has_parent(i, k) by {
                        assert(!hybrid_edge(h0, *ontology, i, k));
                    }
                }
                if fb {
                    assert forall|k: int| !#[trigger] hybrid_edge(h0, *ontology, i, k) by {
                        assert(!h1.grail.has_parent(i, k));
                    }
                }
                assert(fa == fb);
            }
        }
        Ok(())
    }

    /// Whether the class `sub` is a subclass of `sup`, as the index answers;
    /// an IRI that is not indexed stands for `owl:Thing`.
    pub fn is_subclass_of(&self, sub: &IRI, sup: &IRI) -> (r: bool)
        requires
            self.wf(),
        ensures
            r == self.index().grail_answer(self.index_or_thing(sub@), self.index_or_thing(sup@)),
    {
        let sub_idx = match self.pool.index_of(sub) {
            Some(k) => k,
            None => 0,
        };
        let sup_idx = match self.pool.index_of(sup) {
            Some(k) => k,
            None => 0,
        };
        proof {
            self.iris().index_of_first_ensures(sub@);
            self.iris().index_of_first_ensures(sup@);
        }
        self.grail.is_reachable(sub_idx, sup_idx)
    }

    /// The number of classes and of recorded parent edges.
    pub fn get_stats(&self) -> (r: (usize, usize))
        requires
            self.wf(),
            edge_total(self.index(), self.index().n()) <= usize::MAX,
        ensures
            r.0 == self.index().n(),
            r.1 as int == edge_total(self.index(), self.index().n()),
    {
        let mut total: usize = 0;
        let mut i: usize = 0;
        proof {
            lemma_edge_total_mono(self.grail, 0, self.grail.n());
        }
        while i < self.num_classes
            invariant
                self.wf(),
                i <= self.num_classes,
                total as int == edge_total(self.grail, i as int),
                edge_total(self.grail, i as int) <= edge_total(self.grail, self.grail.n()),
                edge_total(self.grail, self.grail.n()) <= usize::MAX,
            decreases self.num_classes - i,
        {
            proof {
                lemma_edge_total_mono(self.grail, i + 1, self.grail.n());
            }
            total = total + self.grail.direct_parents[i].len();
            i += 1;
        }
        (self.num_classes, total)
    }
}

/// The number of parent edges of the first `k` classes.
pub open spec fn edge_total(g: GrailIndex, k: int) -> int
    decreases k,
{
    if k <= 0 { 0 } else { edge_total(g, k - 1) + g.parents(k - 1).len() }
}

proof fn lemma_edge_total_mono(g: GrailIndex, a: int, b: int)
    requires
        0 <= a <= b,
    ensures
        edge_total(g, a) <= edge_total(g, b),
    decreases b - a,
{
    if a < b {
        lemma_edge_total_mono(g, a, b - 1);
    }
}

} // verus!
