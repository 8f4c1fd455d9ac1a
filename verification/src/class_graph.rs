//! The class graph used for cycle detection and ordering: Tarjan's
//! strongly connected components and Kahn's topological sort.

use vstd::prelude::*;

verus! {

broadcast use vstd::std_specs::vec::group_vec_axioms;

/// Index of a class in the graph.
pub type ClassIdx = u32;

/// The number of times `v` occurs in `s`.
pub open spec fn occ(s: Seq<u32>, v: u32) -> nat
    decreases s.len(),
{
    if s.len() == 0 {
        0
    } else {
        occ(s.drop_last(), v) + if s.last() == v { 1nat } else { 0nat }
    }
}

/// The edges into `v` from the nodes below `k` not marked in `done`.
pub open spec fn rem_in(adj: Seq<Seq<u32>>, v: u32, done: Seq<bool>, k: int) -> nat
    decreases k,
{
    if k <= 0 {
        0
    } else {
        rem_in(adj, v, done, k - 1) + if done[k - 1] { 0nat } else { occ(adj[k - 1], v) }
    }
}

/// No node marked.
pub open spec fn none_done(n: nat) -> Seq<bool> {
    Seq::new(n, |i: int| false)
}

/// There is an edge from `u` to `v`.
pub open spec fn has_edge(adj: Seq<Seq<u32>>, u: u32, v: u32) -> bool {
    (u as int) < adj.len() && adj[u as int].contains(v)
}

/// `order` lists each of the `n` nodes once, every edge pointing forward.
pub open spec fn is_topological_order(adj: Seq<Seq<u32>>, n: nat, order: Seq<u32>) -> bool {
    &&& order.len() == n
    &&& order.no_duplicates()
    &&& forall|i: int| 0 <= i < order.len() ==> (#[trigger] order[i] as int) < n
    &&& forall|v: u32| (v as int) < n ==> order.contains(v)
    &&& forall|i: int, j: int| 0 <= i < order.len() && 0 <= j < order.len()
        && has_edge(adj, order[i], order[j]) ==> i < j
}

proof fn lemma_occ_push(s: Seq<u32>, x: u32, v: u32)
    ensures
        occ(s.push(x), v) == occ(s, v) + if x == v { 1nat } else { 0nat },
{
    assert(s.push(x).drop_last() == s);
}

proof fn lemma_occ_take(s: Seq<u32>, j: int, v: u32)
    requires
        0 <= j < s.len(),
    ensures
        occ(s.take(j + 1), v) == occ(s.take(j), v) + if s[j] == v { 1nat } else { 0nat },
{
    assert(s.take(j + 1).drop_last() == s.take(j));
}

proof fn lemma_occ_contains(s: Seq<u32>, v: u32)
    ensures
        occ(s, v) > 0 <==> s.contains(v),
        occ(s, v) <= s.len(),
    decreases s.len(),
{
    if s.len() > 0 {
        lemma_occ_contains(s.drop_last(), v);
        if s.drop_last().contains(v) {
            let k = choose|k: int| 0 <= k < s.drop_last().len() && s.drop_last()[k] == v;
            assert(s[k] == v);
        }
        if s.contains(v) && s.last() != v {
            let k = choose|k: int| 0 <= k < s.len() && s[k] == v;
            assert(s.drop_last()[k] == v);
        }
    }
}

proof fn lemma_rem_in_update_adj(adj: Seq<Seq<u32>>, from: int, s: Seq<u32>, v: u32, done: Seq<bool>, k: int)
    requires
        0 <= from < adj.len(),
        0 <= k <= adj.len(),
    ensures
        rem_in(adj.update(from, s), v, done, k) + if from < k && !done[from] { occ(adj[from], v) } else { 0nat }
            == rem_in(adj, v, done, k) + if from < k && !done[from] { occ(s, v) } else { 0nat },
    decreases k,
{
    if k > 0 {
        lemma_rem_in_update_adj(adj, from, s, v, done, k - 1);
    }
}

proof fn lemma_rem_in_mark(adj: Seq<Seq<u32>>, v: u32, done: Seq<bool>, u: int, k: int)
    requires
        0 <= u < done.len(),
        0 <= k <= done.len(),
    ensures
        rem_in(adj, v, done.update(u, true), k) + if u < k && !done[u] { occ(adj[u], v) } else { 0nat }
            == rem_in(adj, v, done, k),
    decreases k,
{
    if k > 0 {
        lemma_rem_in_mark(adj, v, done, u, k - 1);
    }
}

proof fn lemma_rem_in_zero(adj: Seq<Seq<u32>>, v: u32, done: Seq<bool>, k: int)
    requires
        rem_in(adj, v, done, k) == 0,
    ensures
        forall|u: int| 0 <= u < k && !done[u] ==> occ(#[trigger] adj[u], v) == 0,
    decreases k,
{
    if k > 0 {
        lemma_rem_in_zero(adj, v, done, k - 1);
    }
}

proof fn lemma_rem_in_pos(adj: Seq<Seq<u32>>, v: u32, done: Seq<bool>, k: int)
    requires
        rem_in(adj, v, done, k) > 0,
    ensures
        exists|u: int| 0 <= u < k && !done[u] && occ(#[trigger] adj[u], v) > 0,
    decreases k,
{
    if k > 0 {
        if rem_in(adj, v, done, k - 1) > 0 {
            lemma_rem_in_pos(adj, v, done, k - 1);
            let u = choose|u: int| 0 <= u < k - 1 && !done[u] && occ(#[trigger] adj[u], v) > 0;
            assert(0 <= u < k && !done[u] && occ(adj[u], v) > 0);
        } else {
            assert(!done[k - 1] && occ(adj[k - 1], v) > 0);
        }
    }
}

/// Graph of classes: adjacency lists and their reverse.
pub struct ClassGraph {
    num_nodes: usize,
    adj: Vec<Vec<ClassIdx>>,
    rev_adj: Vec<Vec<ClassIdx>>,
}

impl ClassGraph {
    /// The number of nodes.
    pub closed spec fn nodes(&self) -> nat {
        self.num_nodes as nat
    }

    /// The successors of each node, in insertion order.
    pub closed spec fn edges(&self) -> Seq<Seq<u32>> {
        self.adj@.map_values(|v: Vec<ClassIdx>| v@)
    }

    /// The adjacency lists agree with each other and stay within the nodes.
    pub closed spec fn wf(&self) -> bool {
        &&& self.adj@.len() == self.num_nodes
        &&& self.rev_adj@.len() == self.num_nodes
        &&& self.num_nodes <= u32::MAX
        &&& forall|u: int, k: int| 0 <= u < self.num_nodes && 0 <= k < self.adj@[u]@.len()
            ==> (#[trigger] self.adj@[u]@[k] as int) < self.num_nodes
        &&& forall|v: int| 0 <= v < self.num_nodes ==> #[trigger] self.rev_adj@[v]@.len()
            == rem_in(self.edges(), v as u32, none_done(self.num_nodes as nat), self.num_nodes as int)
    }

    /// There is one adjacency list per node.
    pub proof fn lemma_edges_len(&self)
        requires
            self.wf(),
        ensures
            self.edges().len() == self.nodes(),
    {
    }

    /// Creates a graph with `num_nodes` nodes and no edges.
    pub fn new(num_nodes: usize) -> (r: Self)
        requires
            num_nodes <= u32::MAX,
        ensures
            r.wf(),
            r.nodes() == num_nodes,
            r.edges() == Seq::new(num_nodes as nat, |i: int| Seq::<u32>::empty()),
    {
        let mut adj: Vec<Vec<ClassIdx>> = Vec::new();
        let mut rev_adj: Vec<Vec<ClassIdx>> = Vec::new();
        let mut i: usize = 0;
        while i < num_nodes
            invariant
                i <= num_nodes,
                adj@.len() == i,
                rev_adj@.len() == i,
                forall|j: int| 0 <= j < i ==> (#[trigger] adj@[j])@.len() == 0,
                forall|j: int| 0 <= j < i ==> (#[trigger] rev_adj@[j])@.len() == 0,
            decreases num_nodes - i,
        {
            adj.push(Vec::new());
            rev_adj.push(Vec::new());
            i += 1;
        }
        let r = ClassGraph { num_nodes, adj, rev_adj };
        proof {
            assert forall|j: int| 0 <= j < num_nodes implies #[trigger] r.edges()[j] == Seq::<u32>::empty() by {
                assert(r.edges()[j] =~= Seq::<u32>::empty());
            }
            assert(r.edges() =~= Seq::new(num_nodes as nat, |i: int| Seq::<u32>::empty()));
            assert forall|v: int| 0 <= v < num_nodes implies #[trigger] r.rev_adj@[v]@.len()
                == rem_in(r.edges(), v as u32, none_done(num_nodes as nat), num_nodes as int) by {
                lemma_rem_in_empty(r.edges(), v as u32, none_done(num_nodes as nat), num_nodes as int);
            }
        }
        r
    }

    /// Adds the edge `from -> to`; an edge naming a node outside the graph
    /// is ignored.
    pub fn add_edge(&mut self, from: ClassIdx, to: ClassIdx)
        requires
            old(self).wf(),
        ensures
            final(self).wf(),
            final(self).nodes() == old(self).nodes(),
            (from as int) < old(self).nodes() && (to as int) < old(self).nodes() ==> final(self).edges()
                == old(self).edges().update(from as int, old(self).edges()[from as int].push(to)),
            !((from as int) < old(self).nodes() && (to as int) < old(self).nodes())
                ==> final(self).edges() == old(self).edges(),
    {
        let f = from as usize;
        let t = to as usize;
        if f < self.num_nodes && t < self.num_nodes {
            let ghost e0 = self.edges();
            let ghost n = self.num_nodes;
            self.adj[f].push(to);
            self.rev_adj[t].push(from);
            proof {
                assert(self.edges() =~= e0.update(f as int, e0[f as int].push(to)));
                assert forall|v: int| 0 <= v < n implies #[trigger] self.rev_adj@[v]@.len()
                    == rem_in(self.edges(), v as u32, none_done(n as nat), n as int) by {
                    lemma_rem_in_update_adj(e0, f as int, e0[f as int].push(to), v as u32, none_done(n as nat), n as int);
                    lemma_occ_push(e0[f as int], to, v as u32);
                }
                assert forall|u: int, k: int| 0 <= u < n && 0 <= k < self.adj@[u]@.len()
                    implies (#[trigger] self.adj@[u]@[k] as int) < n by {
                    if u == f as int && k == self.adj@[u]@.len() - 1 {
                    } else {
                        assert(self.adj@[u]@[k] == old(self).adj@[u]@[k]);
                    }
                }
            }
        }
    }
}

proof fn lemma_rem_in_empty(adj: Seq<Seq<u32>>, v: u32, done: Seq<bool>, k: int)
    requires
        forall|u: int| 0 <= u < k ==> (#[trigger] adj[u]).len() == 0,
    ensures
        rem_in(adj, v, done, k) == 0,
    decreases k,
{
    if k > 0 {
        lemma_rem_in_empty(adj, v, done, k - 1);
    }
}


/// The number of positions below `k` that hold a placed node.
pub open spec fn placed(pos: Seq<int>, k: int) -> nat
    decreases k,
{
    if k <= 0 {
        0
    } else {
        placed(pos, k - 1) + if pos[k - 1] >= 0 { 1nat } else { 0nat }
    }
}

proof fn lemma_placed_update(pos: Seq<int>, v: int, x: int, k: int)
    requires
        0 <= v < pos.len(),
        pos[v] < 0,
        x >= 0,
        0 <= k <= pos.len(),
    ensures
        placed(pos.update(v, x), k) == placed(pos, k) + if v < k { 1nat } else { 0nat },
    decreases k,
{
    if k > 0 {
        lemma_placed_update(pos, v, x, k - 1);
    }
}

proof fn lemma_placed_none(pos: Seq<int>, k: int)
    requires
        0 <= k <= pos.len(),
        forall|i: int| 0 <= i < pos.len() ==> pos[i] < 0,
    ensures
        placed(pos, k) == 0,
    decreases k,
{
    if k > 0 {
        lemma_placed_none(pos, k - 1);
    }
}

proof fn lemma_placed_all(pos: Seq<int>, k: int)
    requires
        0 <= k <= pos.len(),
    ensures
        placed(pos, k) <= k,
        placed(pos, k) == k <==> forall|i: int| 0 <= i < k ==> pos[i] >= 0,
    decreases k,
{
    if k > 0 {
        lemma_placed_all(pos, k - 1);
    }
}

proof fn lemma_rem_in_ge(adj: Seq<Seq<u32>>, v: u32, done: Seq<bool>, u: int, k: int)
    requires
        0 <= u < k,
        !done[u],
    ensures
        rem_in(adj, v, done, k) >= occ(adj[u], v),
    decreases k,
{
    if u < k - 1 {
        lemma_rem_in_ge(adj, v, done, u, k - 1);
    }
}

proof fn lemma_occ_take_le(s: Seq<u32>, j: int, v: u32)
    requires
        0 <= j <= s.len(),
    ensures
        occ(s.take(j), v) <= occ(s, v),
    decreases s.len() - j,
{
    if j < s.len() {
        lemma_occ_take_le(s, j + 1, v);
        lemma_occ_take(s, j, v);
    } else {
        assert(s.take(j) == s);
    }
}

impl ClassGraph {
    /// Kahn's topological sort: every node once, each edge's source before
    /// its target; empty when the graph has a cycle (no such order exists).
    #[verifier::rlimit(60)]
    pub fn kahn_toposort(&self) -> (r: Vec<ClassIdx>)
        requires
            self.wf(),
        ensures
            r@.len() == 0 || r@.len() == self.nodes(),
            r@.len() == self.nodes() ==> is_topological_order(self.edges(), self.nodes(), r@),
            (exists|o: Seq<u32>| is_topological_order(self.edges(), self.nodes(), o)) ==> r@.len() == self.nodes(),
    {
        let n = self.num_nodes;
        let ghost e = self.edges();
        let mut in_degree: Vec<usize> = Vec::new();
        let mut v: usize = 0;
        while v < n
            invariant
                self.wf(),
                n == self.num_nodes,
                e == self.edges(),
                v <= n,
                in_degree@.len() == v,
                forall|w: int| 0 <= w < v ==> #[trigger] in_degree@[w] == rem_in(e, w as u32, none_done(n as nat), n as int),
            decreases n - v,
        {
            in_degree.push(self.rev_adj[v].len());
            v += 1;
        }
        let mut result: Vec<ClassIdx> = Vec::new();
        let ghost mut pos: Seq<int> = Seq::new(n as nat, |i: int| -1int);
        let ghost done0 = none_done(n as nat);
        proof {
            lemma_placed_none(pos, n as int);
        }
        let mut v: usize = 0;
        while v < n
            invariant
                self.wf(),
                n == self.num_nodes,
                e == self.edges(),
                v <= n,
                done0 == none_done(n as nat),
                in_degree@.len() == n,
                pos.len() == n,
                result@.len() <= v,
                placed(pos, n as int) == result@.len(),
                forall|w: int| 0 <= w < n ==> #[trigger] in_degree@[w] == rem_in(e, w as u32, done0, n as int),
                forall|j: int| 0 <= j < result@.len() ==> (#[trigger] result@[j] as int) < n && pos[result@[j] as int] == j,
                forall|w: int| 0 <= w < n ==> (#[trigger] pos[w] >= 0 ==> pos[w] < result@.len() && result@[pos[w]] == w),
                forall|w: int| 0 <= w < n ==> (#[trigger] pos[w] >= 0 <==> (w < v && in_degree@[w] == 0)),
                forall|j: int, u: int| 0 <= j < result@.len() && 0 <= u < n && has_edge(e, u as u32, #[trigger] result@[j])
                    ==> 0 <= #[trigger] pos[u] < j,
            decreases n - v,
        {
            if in_degree[v] == 0 {
                proof {
                    lemma_rem_in_zero(e, v as u32, done0, n as int);
                    assert forall|u: int| 0 <= u < n && #[trigger] has_edge(e, u as u32, v as u32) implies false by {
                        assert((u as u32) as int == u);
                        assert(!done0[u]);
                        lemma_occ_contains(e[u], v as u32);
                    }
                    lemma_placed_update(pos, v as int, result@.len() as int, n as int);
                    pos = pos.update(v as int, result@.len() as int);
                }
                result.push(v as ClassIdx);
            }
            v += 1;
        }
        let mut head: usize = 0;
        let ghost mut done = done0;
        while head < result.len()
            invariant
                self.wf(),
                n == self.num_nodes,
                e == self.edges(),
                in_degree@.len() == n,
                pos.len() == n,
                done.len() == n,
                head <= result@.len() <= n,
                placed(pos, n as int) == result@.len(),
                forall|w: int| 0 <= w < n ==> #[trigger] in_degree@[w] == rem_in(e, w as u32, done, n as int),
                forall|w: int| 0 <= w < n ==> (#[trigger] done[w] <==> (pos[w] >= 0 && pos[w] < head)),
                forall|j: int| 0 <= j < result@.len() ==> (#[trigger] result@[j] as int) < n && pos[result@[j] as int] == j,
                forall|w: int| 0 <= w < n ==> (#[trigger] pos[w] >= 0 ==> pos[w] < result@.len() && result@[pos[w]] == w),
                forall|w: int| 0 <= w < n ==> (#[trigger] pos[w] >= 0 <==> in_degree@[w] == 0),
                forall|j: int, u: int| 0 <= j < result@.len() && 0 <= u < n && has_edge(e, u as u32, #[trigger] result@[j])
                    ==> 0 <= #[trigger] pos[u] < j,
            decreases n - head,
        {
            let node = result[head];
            let list = &self.adj[node as usize];
            let ghost ls = list@;
            assert(ls == e[node as int]);
            assert(!done[node as int]);
            let mut j: usize = 0;
            while j < list.len()
                invariant
                    self.wf(),
                    n == self.num_nodes,
                    e == self.edges(),
                    ls == list@,
                    ls == e[node as int],
                    (node as int) < n,
                    pos[node as int] == head,
                    !done[node as int],
                    in_degree@.len() == n,
                    pos.len() == n,
                    done.len() == n,
                    head < result@.len() <= n,
                    j <= ls.len(),
                    placed(pos, n as int) == result@.len(),
                    forall|w: int| 0 <= w < n ==> #[trigger] in_degree@[w] + occ(ls.take(j as int), w as u32)
                        == rem_in(e, w as u32, done, n as int),
                    forall|w: int| 0 <= w < n ==> (#[trigger] done[w] <==> (pos[w] >= 0 && pos[w] < head)),
                    forall|k: int| 0 <= k < result@.len() ==> (#[trigger] result@[k] as int) < n && pos[result@[k] as int] == k,
                    forall|w: int| 0 <= w < n ==> (#[trigger] pos[w] >= 0 ==> pos[w] < result@.len() && result@[pos[w]] == w),
                    forall|w: int| 0 <= w < n ==> (#[trigger] pos[w] >= 0 <==> in_degree@[w] == 0),
                    forall|k: int, u: int| 0 <= k < result@.len() && 0 <= u < n && has_edge(e, u as u32, #[trigger] result@[k])
                        ==> 0 <= #[trigger] pos[u] < k,
                decreases ls.len() - j,
            {
                let nb = list[j];
                let nbu = nb as usize;
                proof {
                    lemma_rem_in_ge(e, nb, done, node as int, n as int);
                    lemma_occ_take(ls, j as int, nb);
                    lemma_occ_take_le(ls, j + 1, nb);
                    assert forall|w: int| 0 <= w < n implies #[trigger] in_degree@[w] + occ(ls.take(j as int), w as u32)
                        == rem_in(e, w as u32, done, n as int) by {}
                }
                in_degree.set(nbu, in_degree[nbu] - 1);
                proof {
                    assert forall|w: int| 0 <= w < n implies #[trigger] in_degree@[w] + occ(ls.take(j + 1), w as u32)
                        == rem_in(e, w as u32, done, n as int) by {
                        lemma_occ_take(ls, j as int, w as u32);
                    }
                }
                if in_degree[nbu] == 0 {
                    proof {
                        // every other source of an edge into `nb` has been processed
                        lemma_occ_take_le(ls, j + 1, nb);
                        lemma_rem_in_ge(e, nb, done, node as int, n as int);
                        let done2 = done.update(node as int, true);
                        lemma_rem_in_mark(e, nb, done, node as int, n as int);
                        lemma_rem_in_zero(e, nb, done2, n as int);
                        assert forall|u: int| 0 <= u < n && #[trigger] has_edge(e, u as u32, nb) implies 0 <= pos[u] <= head by {
                            assert((u as u32) as int == u);
                            lemma_occ_contains(e[u], nb);
                            if u != node as int && !done[u] {
                                assert(!done2[u]);
                            }
                        }
                        assert(pos[nbu as int] < 0);
                        lemma_placed_update(pos, nbu as int, result@.len() as int, n as int);
                        lemma_placed_all(pos, n as int);
                        pos = pos.update(nbu as int, result@.len() as int);
                    }
                    result.push(nb);
                }
                j += 1;
            }
            proof {
                assert(ls.take(ls.len() as int) == ls);
                assert forall|w: int| 0 <= w < n implies #[trigger] in_degree@[w]
                    == rem_in(e, w as u32, done.update(node as int, true), n as int) by {
                    lemma_rem_in_mark(e, w as u32, done, node as int, n as int);
                }
                done = done.update(node as int, true);
            }
            head += 1;
        }
        proof {
            lemma_placed_all(pos, n as int);
            if exists|o: Seq<u32>| is_topological_order(e, n as nat, o) {
                let o = choose|o: Seq<u32>| is_topological_order(e, n as nat, o);
                lemma_kahn_complete(e, n as int, o, done, pos, in_degree@, o.len() as int);
                assert forall|i: int| 0 <= i < n implies pos[i] >= 0 by {
                    assert(o.contains(i as u32));
                    let k = choose|k: int| 0 <= k < o.len() && o[k] == i as u32;
                }
            }
        }
        if result.len() == n {
            proof {
                assert forall|w: u32| (w as int) < n implies result@.contains(w) by {
                    assert(pos[w as int] >= 0);
                    assert(result@[pos[w as int]] == w);
                }
                assert forall|i: int, j: int| 0 <= i < result@.len() && 0 <= j < result@.len() && i != j
                    implies result@[i] != result@[j] by {
                    if result@[i] == result@[j] {
                        assert(pos[result@[i] as int] == i);
                    }
                }
                assert forall|i: int, j: int| 0 <= i < result@.len() && 0 <= j < result@.len()
                    && has_edge(e, result@[i], result@[j]) implies i < j by {
                    assert(pos[result@[i] as int] == i);
                }
            }
            result
        } else {
            Vec::new()
        }
    }
}

/// At the end of Kahn's sort every node of a topological order has been
/// placed: its predecessors come earlier in the order and were placed, so
/// no edge into it remained.
proof fn lemma_kahn_complete(e: Seq<Seq<u32>>, n: int, o: Seq<u32>, done: Seq<bool>, pos: Seq<int>,
    indeg: Seq<usize>, k: int)
    requires
        0 <= n <= u32::MAX,
        is_topological_order(e, n as nat, o),
        e.len() == n,
        done.len() == n,
        pos.len() == n,
        indeg.len() == n,
        0 <= k <= o.len(),
        forall|w: int| 0 <= w < n ==> #[trigger] indeg[w] == rem_in(e, w as u32, done, n),
        forall|w: int| 0 <= w < n ==> (#[trigger] done[w] <==> pos[w] >= 0),
        forall|w: int| 0 <= w < n ==> (#[trigger] pos[w] >= 0 <==> indeg[w] == 0),
    ensures
        forall|i: int| 0 <= i < k ==> pos[#[trigger] o[i] as int] >= 0,
    decreases k,
{
    if k > 0 {
        lemma_kahn_complete(e, n, o, done, pos, indeg, k - 1);
        let w = o[k - 1];
        if pos[w as int] < 0 {
            assert(indeg[w as int] > 0);
            lemma_rem_in_pos(e, w, done, n);
            let u = choose|u: int| 0 <= u < n && !done[u] && occ(#[trigger] e[u], w) > 0;
            lemma_occ_contains(e[u], w);
            assert(o.contains(u as u32));
            let i = choose|i: int| 0 <= i < o.len() && o[i] == u as u32;
            assert((u as u32) as int == u);
            assert(has_edge(e, o[i], o[k - 1]));
            assert(i < k - 1);
            assert(pos[o[i] as int] >= 0);
        }
    }
}


/// The number of visited nodes below `k`.
pub open spec fn visited(ind: Seq<Option<u32>>, k: int) -> nat
    decreases k,
{
    if k <= 0 {
        0
    } else {
        visited(ind, k - 1) + if ind[k - 1] is Some { 1nat } else { 0nat }
    }
}

proof fn lemma_visited_update(ind: Seq<Option<u32>>, v: int, x: u32, k: int)
    requires
        0 <= v < ind.len(),
        ind[v] is None,
        0 <= k <= ind.len(),
    ensures
        visited(ind.update(v, Some(x)), k) == visited(ind, k) + if v < k { 1nat } else { 0nat },
    decreases k,
{
    if k > 0 {
        lemma_visited_update(ind, v, x, k - 1);
    }
}

proof fn lemma_visited_bound(ind: Seq<Option<u32>>, v: int, k: int)
    requires
        0 <= k <= ind.len(),
        0 <= v < k,
        ind[v] is None,
    ensures
        visited(ind, k) < k,
    decreases k,
{
    if v < k - 1 {
        lemma_visited_bound(ind, v, k - 1);
    }
    lemma_visited_le(ind, k - 1);
}

proof fn lemma_visited_le(ind: Seq<Option<u32>>, k: int)
    requires
        0 <= k <= ind.len(),
    ensures
        visited(ind, k) <= k,
    decreases k,
{
    if k > 0 {
        lemma_visited_le(ind, k - 1);
    }
}

proof fn lemma_visited_none(ind: Seq<Option<u32>>, k: int)
    requires
        0 <= k <= ind.len(),
        forall|i: int| 0 <= i < ind.len() ==> ind[i] is None,
    ensures
        visited(ind, k) == 0,
    decreases k,
{
    if k > 0 {
        lemma_visited_none(ind, k - 1);
    }
}

/// `x` is in one of the components.
pub open spec fn in_components(sccs: Seq<Vec<u32>>, x: u32) -> bool {
    exists|i: int, j: int| 0 <= i < sccs.len() && 0 <= j < sccs[i]@.len() && #[trigger] sccs[i]@[j] == x
}

/// The bookkeeping of Tarjan's algorithm: the stack holds distinct visited
/// nodes in increasing visit order, exactly those flagged on it; the
/// components hold distinct visited nodes off the stack; every visited
/// node is on the stack or in a component.
pub open spec fn tarjan_inv(n: nat, stack: Seq<u32>, on_stack: Seq<bool>, ind: Seq<Option<u32>>,
    low: Seq<u32>, sccs: Seq<Vec<u32>>, index: u32) -> bool
{
    &&& on_stack.len() == n && ind.len() == n && low.len() == n
    &&& index == visited(ind, n as int)
    &&& forall|k: int| 0 <= k < stack.len() ==> (#[trigger] stack[k] as int) < n && on_stack[stack[k] as int]
        && ind[stack[k] as int] is Some
    &&& forall|k1: int, k2: int| 0 <= k1 < k2 < stack.len()
        ==> ind[#[trigger] stack[k1] as int]->0 < ind[#[trigger] stack[k2] as int]->0
    &&& forall|x: int| 0 <= x < n && #[trigger] on_stack[x] ==> stack.contains(x as u32)
    &&& forall|i: int, j: int| 0 <= i < sccs.len() && 0 <= j < sccs[i]@.len() ==> (#[trigger] sccs[i]@[j] as int) < n
        && !on_stack[sccs[i]@[j] as int] && ind[sccs[i]@[j] as int] is Some
    &&& forall|i1: int, j1: int, i2: int, j2: int| 0 <= i1 < sccs.len() && 0 <= j1 < sccs[i1]@.len()
        && 0 <= i2 < sccs.len() && 0 <= j2 < sccs[i2]@.len() && (i1 != i2 || j1 != j2)
        ==> #[trigger] sccs[i1]@[j1] != #[trigger] sccs[i2]@[j2]
    &&& forall|i: int| 0 <= i < sccs.len() ==> (#[trigger] sccs[i]@).len() > 0
    &&& forall|x: int| 0 <= x < n && (#[trigger] ind[x]) is Some ==> on_stack[x] || in_components(sccs, x as u32)
    &&& forall|x: int| 0 <= x < n && (#[trigger] ind[x]) is Some ==> ind[x]->0 < index
}

/// The lowest visit number on the stack, or `dflt` for an empty stack.
pub open spec fn stack_floor(stack: Seq<u32>, ind: Seq<Option<u32>>, dflt: u32) -> u32 {
    if stack.len() > 0 { ind[stack[0] as int]->0 } else { dflt }
}

/// Node `b` is reached from node `a` along exactly `k` edges.
pub open spec fn walk(e: Seq<Seq<u32>>, a: u32, b: u32, k: nat) -> bool
    decreases k,
{
    if k == 0 {
        a == b
    } else {
        exists|c: u32| #[trigger] has_edge(e, a, c) && walk(e, c, b, (k - 1) as nat)
    }
}

/// Node `b` is reached from node `a` along zero or more edges.
pub open spec fn reaches(e: Seq<Seq<u32>>, a: u32, b: u32) -> bool {
    exists|k: nat| #[trigger] walk(e, a, b, k)
}

/// Every node reaches itself.
pub proof fn lemma_reaches_refl(e: Seq<Seq<u32>>, a: u32)
    ensures
        reaches(e, a, a),
{
    assert(walk(e, a, a, 0));
}

/// An edge followed by a walk is a walk.
pub proof fn lemma_reaches_edge(e: Seq<Seq<u32>>, a: u32, b: u32, c: u32)
    requires
        has_edge(e, a, b),
        reaches(e, b, c),
    ensures
        reaches(e, a, c),
{
    let k = choose|k: nat| #[trigger] walk(e, b, c, k);
    assert(walk(e, a, c, k + 1));
}

proof fn lemma_walk_trans(e: Seq<Seq<u32>>, a: u32, b: u32, c: u32, k: nat)
    requires
        walk(e, a, b, k),
        reaches(e, b, c),
    ensures
        reaches(e, a, c),
    decreases k,
{
    if k > 0 {
        let m = choose|m: u32| #[trigger] has_edge(e, a, m) && walk(e, m, b, (k - 1) as nat);
        lemma_walk_trans(e, m, b, c, (k - 1) as nat);
        lemma_reaches_edge(e, a, m, c);
    }
}

/// Reaching is transitive.
pub proof fn lemma_reaches_trans(e: Seq<Seq<u32>>, a: u32, b: u32, c: u32)
    requires
        reaches(e, a, b),
        reaches(e, b, c),
    ensures
        reaches(e, a, c),
{
    let k = choose|k: nat| #[trigger] walk(e, a, b, k);
    lemma_walk_trans(e, a, b, c, k);
}

/// The stack entry at `t2`, at or below `t`, has the visit number that is
/// the low link of the entry at `t`, and is reached from it.
pub open spec fn low_witness(e: Seq<Seq<u32>>, stack: Seq<u32>, ind: Seq<Option<u32>>, low: Seq<u32>, t: int, t2: int) -> bool {
    &&& 0 <= t2 <= t
    &&& ind[stack[t2] as int] == Some(low[stack[t] as int])
    &&& reaches(e, stack[t], stack[t2])
}

/// The stack entry at `t` reaches an entry at or below it whose visit
/// number is its low link.
pub open spec fn has_low_witness(e: Seq<Seq<u32>>, stack: Seq<u32>, ind: Seq<Option<u32>>, low: Seq<u32>, t: int) -> bool {
    exists|t2: int| #[trigger] low_witness(e, stack, ind, low, t, t2)
}

/// Every stack entry has a low witness.
#[verifier::opaque]
pub open spec fn witnessed(e: Seq<Seq<u32>>, stack: Seq<u32>, ind: Seq<Option<u32>>, low: Seq<u32>) -> bool {
    forall|t: int| 0 <= t < stack.len() ==> #[trigger] has_low_witness(e, stack, ind, low, t)
}

/// In every component, each node reaches each other.
#[verifier::opaque]
pub open spec fn sound_components(e: Seq<Seq<u32>>, sccs: Seq<Vec<u32>>) -> bool {
    forall|i: int, j1: int, j2: int| 0 <= i < sccs.len() && 0 <= j1 < sccs[i]@.len() && 0 <= j2 < sccs[i]@.len()
        ==> reaches(e, #[trigger] sccs[i]@[j1], #[trigger] sccs[i]@[j2])
}

/// Visit numbers grow along the stack.
pub open spec fn stack_increasing(stack: Seq<u32>, ind: Seq<Option<u32>>) -> bool {
    &&& forall|t: int| 0 <= t < stack.len() ==> (#[trigger] stack[t] as int) < ind.len()
    &&& forall|t: int| 0 <= t < stack.len() ==> (#[trigger] ind[stack[t] as int]) is Some
    &&& forall|k1: int, k2: int| 0 <= k1 < k2 < stack.len()
        ==> ind[#[trigger] stack[k1] as int]->0 < ind[#[trigger] stack[k2] as int]->0
}

/// A smaller visit number lies lower on the stack.
proof fn lemma_lower_on_stack(stack: Seq<u32>, ind: Seq<Option<u32>>, a: int, b: int)
    requires
        stack_increasing(stack, ind),
        0 <= a < stack.len(),
        0 <= b < stack.len(),
        ind[stack[a] as int]->0 < ind[stack[b] as int]->0,
    ensures
        a < b,
{
    if b < a {
        assert(ind[stack[b] as int]->0 < ind[stack[a] as int]->0);
    }
}

/// Above position `p`, where `v` stands, every entry has a low link below
/// its visit number; below `p`, every entry reaches `v`. Then every entry at
/// or above `p` reaches `v`.
proof fn lemma_chain(e: Seq<Seq<u32>>, stack: Seq<u32>, ind: Seq<Option<u32>>, low: Seq<u32>, p: int, t: int)
    requires
        0 <= p <= t < stack.len(),
        witnessed(e, stack, ind, low),
        stack_increasing(stack, ind),
        forall|q: int| p < q < stack.len() ==> #[trigger] low[stack[q] as int] < ind[stack[q] as int]->0,
        forall|q: int| 0 <= q < p ==> reaches(e, #[trigger] stack[q], stack[p]),
    ensures
        reaches(e, stack[t], stack[p]),
    decreases t,
{
    if t == p {
        lemma_reaches_refl(e, stack[p]);
    } else {
        reveal(witnessed);
        assert(has_low_witness(e, stack, ind, low, t));
        let t2 = choose|t2: int| #[trigger] low_witness(e, stack, ind, low, t, t2);
        assert(low[stack[t] as int] < ind[stack[t] as int]->0);
        if t2 == t {
            assert(ind[stack[t] as int]->0 == low[stack[t] as int]);
        }
        if t2 >= p {
            lemma_chain(e, stack, ind, low, p, t2);
        }
        lemma_reaches_trans(e, stack[t], stack[t2], stack[p]);
    }
}

/// Pushing a newly visited node, its low link its own visit number, keeps
/// every entry witnessed.
proof fn lemma_witness_push(e: Seq<Seq<u32>>, stack: Seq<u32>, ind: Seq<Option<u32>>, low: Seq<u32>, v: u32, i0: u32)
    requires
        witnessed(e, stack, ind, low),
        stack_increasing(stack, ind),
        (v as int) < ind.len(),
        low.len() == ind.len(),
        ind[v as int] is None,
    ensures
        witnessed(e, stack.push(v), ind.update(v as int, Some(i0)), low.update(v as int, i0)),
{
    reveal(witnessed);
    let s2 = stack.push(v);
    let ind2 = ind.update(v as int, Some(i0));
    let low2 = low.update(v as int, i0);
    assert forall|t: int| 0 <= t < s2.len() implies #[trigger] has_low_witness(e, s2, ind2, low2, t) by {
        if t < stack.len() {
            assert(has_low_witness(e, stack, ind, low, t));
            let t2 = choose|t2: int| #[trigger] low_witness(e, stack, ind, low, t, t2);
            assert(stack[t2] != v);
            assert(stack[t] != v);
            assert(s2[t2] == stack[t2] && s2[t] == stack[t]);
            assert(low_witness(e, s2, ind2, low2, t, t2));
        } else {
            assert(s2[t] == v);
            lemma_reaches_refl(e, v);
            assert(low_witness(e, s2, ind2, low2, t, t));
        }
    }
}

/// Lowering the low link of the entry at `p` to the visit number of an
/// entry at `t2 <= p` that it reaches keeps every entry witnessed.
proof fn lemma_witness_low(e: Seq<Seq<u32>>, stack: Seq<u32>, ind: Seq<Option<u32>>, low: Seq<u32>, p: int, t2: int, nl: u32)
    requires
        witnessed(e, stack, ind, low),
        stack_increasing(stack, ind),
        0 <= t2 <= p < stack.len(),
        low.len() == ind.len(),
        ind[stack[t2] as int] == Some(nl),
        reaches(e, stack[p], stack[t2]),
    ensures
        witnessed(e, stack, ind, low.update(stack[p] as int, nl)),
{
    reveal(witnessed);
    let low2 = low.update(stack[p] as int, nl);
    assert forall|t: int| 0 <= t < stack.len() implies #[trigger] has_low_witness(e, stack, ind, low2, t) by {
        if t == p {
            assert(low_witness(e, stack, ind, low2, t, t2));
        } else {
            assert(has_low_witness(e, stack, ind, low, t));
            let w = choose|w: int| #[trigger] low_witness(e, stack, ind, low, t, w);
            if stack[t] == stack[p] {
                if t < p {
                    assert(ind[stack[t] as int]->0 < ind[stack[p] as int]->0);
                } else {
                    assert(ind[stack[p] as int]->0 < ind[stack[t] as int]->0);
                }
            }
            assert(low_witness(e, stack, ind, low2, t, w));
        }
    }
}

/// The entries of a prefix of the stack keep their witnesses.
proof fn lemma_witness_prefix(e: Seq<Seq<u32>>, stack: Seq<u32>, ind: Seq<Option<u32>>, low: Seq<u32>, m: int)
    requires
        witnessed(e, stack, ind, low),
        0 <= m <= stack.len(),
    ensures
        witnessed(e, stack.subrange(0, m), ind, low),
{
    reveal(witnessed);
    let s2 = stack.subrange(0, m);
    assert forall|t: int| 0 <= t < s2.len() implies #[trigger] has_low_witness(e, s2, ind, low, t) by {
        assert(has_low_witness(e, stack, ind, low, t));
        let w = choose|w: int| #[trigger] low_witness(e, stack, ind, low, t, w);
        assert(s2[w] == stack[w] && s2[t] == stack[t]);
        assert(low_witness(e, s2, ind, low, t, w));
    }
}

/// A component whose nodes all reach each other keeps the components sound.
proof fn lemma_sound_push(e: Seq<Seq<u32>>, sccs: Seq<Vec<u32>>, c: Vec<u32>)
    requires
        sound_components(e, sccs),
        forall|j1: int, j2: int| 0 <= j1 < c@.len() && 0 <= j2 < c@.len() ==> reaches(e, #[trigger] c@[j1], #[trigger] c@[j2]),
    ensures
        sound_components(e, sccs.push(c)),
{
    reveal(sound_components);
    let s2 = sccs.push(c);
    assert forall|i: int, j1: int, j2: int| 0 <= i < s2.len() && 0 <= j1 < s2[i]@.len() && 0 <= j2 < s2[i]@.len()
        implies reaches(e, #[trigger] s2[i]@[j1], #[trigger] s2[i]@[j2]) by {
        if i < sccs.len() {
            assert(s2[i] == sccs[i]);
            assert(reaches(e, sccs[i]@[j1], sccs[i]@[j2]));
        } else {
            assert(s2[i] == c);
            assert(reaches(e, c@[j1], c@[j2]));
        }
    }
}

/// When the entry at `p` reaches every entry above it, the entries above it
/// have low links below their visit numbers, and the entries below it reach
/// it, then all entries from `p` up reach each other.
proof fn lemma_top_strongly_connected(e: Seq<Seq<u32>>, stack: Seq<u32>, ind: Seq<Option<u32>>, low: Seq<u32>, p: int)
    requires
        0 <= p < stack.len(),
        witnessed(e, stack, ind, low),
        stack_increasing(stack, ind),
        forall|q: int| p < q < stack.len() ==> #[trigger] low[stack[q] as int] < ind[stack[q] as int]->0,
        forall|q: int| 0 <= q < p ==> reaches(e, #[trigger] stack[q], stack[p]),
        forall|q: int| p <= q < stack.len() ==> reaches(e, stack[p], #[trigger] stack[q]),
    ensures
        forall|t1: int, t2: int| p <= t1 < stack.len() && p <= t2 < stack.len()
            ==> reaches(e, #[trigger] stack[t1], #[trigger] stack[t2]),
{
    assert forall|t1: int, t2: int| p <= t1 < stack.len() && p <= t2 < stack.len()
        implies reaches(e, #[trigger] stack[t1], #[trigger] stack[t2]) by {
        lemma_chain(e, stack, ind, low, p, t1);
        lemma_reaches_trans(e, stack[t1], stack[p], stack[t2]);
    }
}

/// Node `y` is in one of the first `m` components.
pub open spec fn in_first(sccs: Seq<Vec<u32>>, m: int, y: u32) -> bool {
    exists|i: int, j: int| 0 <= i < m && i < sccs.len() && 0 <= j < sccs[i]@.len() && #[trigger] sccs[i]@[j] == y
}

/// Every edge out of a component ends in that component or an earlier one.
#[verifier::opaque]
pub open spec fn closed_components(e: Seq<Seq<u32>>, sccs: Seq<Vec<u32>>) -> bool {
    forall|i: int, j: int, y: u32| 0 <= i < sccs.len() && 0 <= j < sccs[i]@.len() && #[trigger] has_edge(e, sccs[i]@[j], y)
        ==> in_first(sccs, i + 1, y)
}

/// Every successor of `x` is in a component, or on the stack with a visit
/// number no lower than the low link of `x`.
#[verifier::opaque]
pub open spec fn settled(e: Seq<Seq<u32>>, sccs: Seq<Vec<u32>>, on_stack: Seq<bool>, ind: Seq<Option<u32>>,
    low: Seq<u32>, x: u32) -> bool
{
    forall|y: u32| #[trigger] has_edge(e, x, y) ==> in_components(sccs, y)
        || ((y as int) < on_stack.len() && on_stack[y as int] && low[x as int] <= ind[y as int]->0)
}

/// What was in a component stays; what was on the stack stays there with
/// its visit number, or goes into a component.
pub open spec fn progressed(sccs: Seq<Vec<u32>>, on_stack: Seq<bool>, ind: Seq<Option<u32>>,
    sccs2: Seq<Vec<u32>>, on_stack2: Seq<bool>, ind2: Seq<Option<u32>>) -> bool
{
    &&& forall|y: u32| #[trigger] in_components(sccs, y) ==> in_components(sccs2, y)
    &&& forall|y: u32| (y as int) < on_stack.len() && on_stack[y as int] && !#[trigger] in_components(sccs2, y)
        ==> (y as int) < on_stack2.len() && on_stack2[y as int] && ind2[y as int] == ind[y as int]
}

/// A settled node stays settled while its low link does not grow.
proof fn lemma_settled_mono(e: Seq<Seq<u32>>, sccs: Seq<Vec<u32>>, on_stack: Seq<bool>, ind: Seq<Option<u32>>, low: Seq<u32>,
    sccs2: Seq<Vec<u32>>, on_stack2: Seq<bool>, ind2: Seq<Option<u32>>, low2: Seq<u32>, x: u32)
    requires
        settled(e, sccs, on_stack, ind, low, x),
        progressed(sccs, on_stack, ind, sccs2, on_stack2, ind2),
        low2[x as int] <= low[x as int],
    ensures
        settled(e, sccs2, on_stack2, ind2, low2, x),
{
    reveal(settled);
    assert forall|y: u32| #[trigger] has_edge(e, x, y) implies in_components(sccs2, y)
        || ((y as int) < on_stack2.len() && on_stack2[y as int] && low2[x as int] <= ind2[y as int]->0) by {
        if in_components(sccs, y) {
            assert(in_components(sccs2, y));
        }
    }
}

/// The first `k` successors in `succ` are settled for `x`.
#[verifier::opaque]
pub open spec fn settled_upto(succ: Seq<u32>, k: int, sccs: Seq<Vec<u32>>, on_stack: Seq<bool>, ind: Seq<Option<u32>>,
    low: Seq<u32>, x: u32) -> bool
{
    forall|q: int| 0 <= q < k ==> in_components(sccs, #[trigger] succ[q])
        || ((succ[q] as int) < on_stack.len() && on_stack[succ[q] as int] && low[x as int] <= ind[succ[q] as int]->0)
}

proof fn lemma_settled_upto_mono(succ: Seq<u32>, k: int, sccs: Seq<Vec<u32>>, on_stack: Seq<bool>, ind: Seq<Option<u32>>,
    low: Seq<u32>, sccs2: Seq<Vec<u32>>, on_stack2: Seq<bool>, ind2: Seq<Option<u32>>, low2: Seq<u32>, x: u32)
    requires
        settled_upto(succ, k, sccs, on_stack, ind, low, x),
        progressed(sccs, on_stack, ind, sccs2, on_stack2, ind2),
        low2[x as int] <= low[x as int],
    ensures
        settled_upto(succ, k, sccs2, on_stack2, ind2, low2, x),
{
    reveal(settled_upto);
    assert forall|q: int| 0 <= q < k implies in_components(sccs2, #[trigger] succ[q])
        || ((succ[q] as int) < on_stack2.len() && on_stack2[succ[q] as int] && low2[x as int] <= ind2[succ[q] as int]->0) by {
        if in_components(sccs, succ[q]) {
            assert(in_components(sccs2, succ[q]));
        }
    }
}

/// One more successor, settled, extends the settled prefix.
proof fn lemma_settled_upto_next(succ: Seq<u32>, k: int, sccs: Seq<Vec<u32>>, on_stack: Seq<bool>, ind: Seq<Option<u32>>,
    low: Seq<u32>, x: u32)
    requires
        settled_upto(succ, k, sccs, on_stack, ind, low, x),
        0 <= k < succ.len(),
        in_components(sccs, succ[k]) || ((succ[k] as int) < on_stack.len() && on_stack[succ[k] as int]
            && low[x as int] <= ind[succ[k] as int]->0),
    ensures
        settled_upto(succ, k + 1, sccs, on_stack, ind, low, x),
{
    reveal(settled_upto);
}

/// All successors settled: the node is settled.
proof fn lemma_settled_upto_all(e: Seq<Seq<u32>>, succ: Seq<u32>, sccs: Seq<Vec<u32>>, on_stack: Seq<bool>, ind: Seq<Option<u32>>,
    low: Seq<u32>, x: u32)
    requires
        settled_upto(succ, succ.len() as int, sccs, on_stack, ind, low, x),
        (x as int) < e.len(),
        e[x as int] == succ,
    ensures
        settled(e, sccs, on_stack, ind, low, x),
{
    reveal(settled_upto);
    reveal(settled);
    assert forall|y: u32| #[trigger] has_edge(e, x, y) implies in_components(sccs, y)
        || ((y as int) < on_stack.len() && on_stack[y as int] && low[x as int] <= ind[y as int]->0) by {
        let q = choose|q: int| 0 <= q < succ.len() && succ[q] == y;
        assert(in_components(sccs, succ[q]) || ((succ[q] as int) < on_stack.len() && on_stack[succ[q] as int]
            && low[x as int] <= ind[succ[q] as int]->0));
    }
}

/// A call of the search leaves the older stack entries on the stack with
/// their visit numbers and keeps the components: the state progressed.
proof fn lemma_progress(n: nat, st0: Seq<u32>, on0: Seq<bool>, ind0: Seq<Option<u32>>, low0: Seq<u32>, sc0: Seq<Vec<u32>>, i0: u32,
    st1: Seq<u32>, on1: Seq<bool>, ind1: Seq<Option<u32>>, low1: Seq<u32>, sc1: Seq<Vec<u32>>, i1: u32)
    requires
        tarjan_inv(n, st0, on0, ind0, low0, sc0, i0),
        tarjan_inv(n, st1, on1, ind1, low1, sc1, i1),
        st0.len() <= st1.len(),
        st1.subrange(0, st0.len() as int) == st0,
        forall|x: int| 0 <= x < n && (#[trigger] ind0[x]) is Some ==> ind1[x] == ind0[x],
        forall|y: u32| #[trigger] in_components(sc0, y) ==> in_components(sc1, y),
    ensures
        progressed(sc0, on0, ind0, sc1, on1, ind1),
{
    assert forall|y: u32| (y as int) < on0.len() && on0[y as int] && !#[trigger] in_components(sc1, y)
        implies (y as int) < on1.len() && on1[y as int] && ind1[y as int] == ind0[y as int] by {
        assert(st0.contains(y));
        let t = choose|t: int| 0 <= t < st0.len() && st0[t] == y;
        assert(st1[t] == st1.subrange(0, st0.len() as int)[t]);
        assert(st1[t] == y);
    }
}

/// Adding a component whose edges end in it or in earlier components keeps
/// the components closed.
proof fn lemma_closed_push(e: Seq<Seq<u32>>, sccs: Seq<Vec<u32>>, c: Vec<u32>)
    requires
        closed_components(e, sccs),
        forall|j: int, y: u32| 0 <= j < c@.len() && #[trigger] has_edge(e, c@[j], y)
            ==> in_components(sccs, y) || c@.contains(y),
    ensures
        closed_components(e, sccs.push(c)),
{
    reveal(closed_components);
    let s2 = sccs.push(c);
    assert forall|i: int, j: int, y: u32| 0 <= i < s2.len() && 0 <= j < s2[i]@.len() && #[trigger] has_edge(e, s2[i]@[j], y)
        implies in_first(s2, i + 1, y) by {
        if i < sccs.len() {
            assert(s2[i] == sccs[i]);
            assert(in_first(sccs, i + 1, y));
            let (a, b) = choose|a: int, b: int| 0 <= a < i + 1 && a < sccs.len() && 0 <= b < sccs[a]@.len() && #[trigger] sccs[a]@[b] == y;
            assert(s2[a] == sccs[a]);
            assert(s2[a]@[b] == y);
        } else {
            assert(s2[i] == c);
            if c@.contains(y) {
                let b = choose|b: int| 0 <= b < c@.len() && c@[b] == y;
                assert(s2[i]@[b] == y);
            } else {
                assert(in_components(sccs, y));
                let (a, b) = choose|a: int, b: int| 0 <= a < sccs.len() && 0 <= b < sccs[a]@.len() && #[trigger] sccs[a]@[b] == y;
                assert(s2[a] == sccs[a]);
                assert(s2[a]@[b] == y);
            }
        }
    }
}

/// What a node of a closed component reaches lies in that component or an
/// earlier one.
proof fn lemma_closed_reach(e: Seq<Seq<u32>>, sccs: Seq<Vec<u32>>, i: int, j: int, b: u32, k: nat)
    requires
        closed_components(e, sccs),
        0 <= i < sccs.len(),
        0 <= j < sccs[i]@.len(),
        walk(e, sccs[i]@[j], b, k),
    ensures
        in_first(sccs, i + 1, b),
    decreases k,
{
    if k == 0 {
        assert(sccs[i]@[j] == b);
    } else {
        reveal(closed_components);
        let c = choose|c: u32| #[trigger] has_edge(e, sccs[i]@[j], c) && walk(e, c, b, (k - 1) as nat);
        assert(in_first(sccs, i + 1, c));
        let (a, d) = choose|a: int, d: int| 0 <= a < i + 1 && a < sccs.len() && 0 <= d < sccs[a]@.len() && #[trigger] sccs[a]@[d] == c;
        lemma_closed_reach(e, sccs, a, d, b, (k - 1) as nat);
    }
}

/// At a root `v`, whose low link is its visit number and no higher than
/// those of the entries above it, the successors of the entries from `v`
/// up are in a component or among those entries.
proof fn lemma_pop_closed(e: Seq<Seq<u32>>, full: Seq<u32>, p: int, on_full: Seq<bool>, ind: Seq<Option<u32>>,
    low: Seq<u32>, sccs0: Seq<Vec<u32>>)
    requires
        stack_increasing(full, ind),
        0 <= p < full.len(),
        low[full[p] as int] == ind[full[p] as int]->0,
        forall|t: int| p <= t < full.len() ==> low[full[p] as int] <= low[#[trigger] full[t] as int],
        forall|t: int| p <= t < full.len() ==> settled(e, sccs0, on_full, ind, low, #[trigger] full[t]),
        forall|y: u32| (y as int) < on_full.len() && on_full[y as int] ==> #[trigger] full.contains(y),
    ensures
        forall|t: int, y: u32| p <= t < full.len() && #[trigger] has_edge(e, full[t], y)
            ==> in_components(sccs0, y) || exists|q: int| p <= q < full.len() && full[q] == y,
{
    reveal(settled);
    assert forall|t: int, y: u32| p <= t < full.len() && #[trigger] has_edge(e, full[t], y)
        implies in_components(sccs0, y) || exists|q: int| p <= q < full.len() && full[q] == y by {
        assert(settled(e, sccs0, on_full, ind, low, full[t]));
        if !in_components(sccs0, y) {
            assert((y as int) < on_full.len() && on_full[y as int] && low[full[t] as int] <= ind[y as int]->0);
            assert(full.contains(y));
            let q = choose|q: int| 0 <= q < full.len() && full[q] == y;
            if q < p {
                assert(ind[full[q] as int]->0 < ind[full[p] as int]->0);
                assert(low[full[p] as int] <= low[full[t] as int]);
            }
            assert(p <= q < full.len() && full[q] == y);
        }
    }
}

/// Lowering the low link of `v` keeps the entries above it settled and the
/// successors of `v` already handled settled.
proof fn lemma_lower_v(e: Seq<Seq<u32>>, stack: Seq<u32>, sccs: Seq<Vec<u32>>, on_stack: Seq<bool>, ind: Seq<Option<u32>>,
    low: Seq<u32>, p: int, v: u32, succ: Seq<u32>, k: int, nl: u32)
    requires
        0 <= p < stack.len(),
        stack[p] == v,
        stack_increasing(stack, ind),
        low.len() == ind.len(),
        (v as int) < low.len(),
        nl <= low[v as int],
        forall|t: int| p < t < stack.len() ==> settled(e, sccs, on_stack, ind, low, #[trigger] stack[t]),
        settled_upto(succ, k, sccs, on_stack, ind, low, v),
    ensures
        forall|t: int| p < t < stack.len() ==> settled(e, sccs, on_stack, ind, low.update(v as int, nl), #[trigger] stack[t]),
        settled_upto(succ, k, sccs, on_stack, ind, low.update(v as int, nl), v),
{
    let low2 = low.update(v as int, nl);
    assert(progressed(sccs, on_stack, ind, sccs, on_stack, ind));
    assert forall|t: int| p < t < stack.len() implies settled(e, sccs, on_stack, ind, low2, #[trigger] stack[t]) by {
        assert(ind[stack[p] as int]->0 < ind[stack[t] as int]->0);
        assert(stack[t] != v);
        lemma_settled_mono(e, sccs, on_stack, ind, low, sccs, on_stack, ind, low2, stack[t]);
    }
    lemma_settled_upto_mono(succ, k, sccs, on_stack, ind, low, sccs, on_stack, ind, low2, v);
}

impl ClassGraph {
    /// Tarjan's algorithm: the strongly connected components; every node
    /// lies in exactly one of them, two nodes share a component exactly when
    /// each reaches the other, and a component comes after every component
    /// reached from it.
    pub fn tarjan_scc(&self) -> (r: Vec<Vec<ClassIdx>>)
        requires
            self.wf(),
        ensures
            forall|i: int| 0 <= i < r@.len() ==> (#[trigger] r@[i]@).len() > 0,
            forall|i: int, j: int| 0 <= i < r@.len() && 0 <= j < r@[i]@.len() ==> (#[trigger] r@[i]@[j] as int) < self.nodes(),
            forall|i1: int, j1: int, i2: int, j2: int| 0 <= i1 < r@.len() && 0 <= j1 < r@[i1]@.len()
                && 0 <= i2 < r@.len() && 0 <= j2 < r@[i2]@.len() && (i1 != i2 || j1 != j2)
                ==> #[trigger] r@[i1]@[j1] != #[trigger] r@[i2]@[j2],
            forall|v: u32| (v as int) < self.nodes() ==> #[trigger] in_components(r@, v),
            forall|i: int, j1: int, j2: int| 0 <= i < r@.len() && 0 <= j1 < r@[i]@.len() && 0 <= j2 < r@[i]@.len()
                ==> reaches(self.edges(), #[trigger] r@[i]@[j1], #[trigger] r@[i]@[j2]),
            forall|i1: int, j1: int, i2: int, j2: int| 0 <= i1 < r@.len() && 0 <= j1 < r@[i1]@.len()
                && 0 <= i2 < r@.len() && 0 <= j2 < r@[i2]@.len()
                && reaches(self.edges(), #[trigger] r@[i1]@[j1], #[trigger] r@[i2]@[j2]) ==> i2 <= i1,
            forall|i1: int, j1: int, i2: int, j2: int| 0 <= i1 < r@.len() && 0 <= j1 < r@[i1]@.len()
                && 0 <= i2 < r@.len() && 0 <= j2 < r@[i2]@.len()
                && reaches(self.edges(), #[trigger] r@[i1]@[j1], #[trigger] r@[i2]@[j2])
                && reaches(self.edges(), r@[i2]@[j2], r@[i1]@[j1]) ==> i1 == i2,
    {
        let n = self.num_nodes;
        let mut index: u32 = 0;
        let mut stack: Vec<ClassIdx> = Vec::new();
        let mut on_stack: Vec<bool> = Vec::new();
        let mut indices: Vec<Option<u32>> = Vec::new();
        let mut lowlinks: Vec<u32> = Vec::new();
        let mut i: usize = 0;
        while i < n
            invariant
                i <= n,
                on_stack@.len() == i && indices@.len() == i && lowlinks@.len() == i,
                forall|k: int| 0 <= k < i ==> !#[trigger] on_stack@[k],
                forall|k: int| 0 <= k < i ==> (#[trigger] indices@[k]) is None,
            decreases n - i,
        {
            on_stack.push(false);
            indices.push(None);
            lowlinks.push(0);
            i += 1;
        }
        let mut sccs: Vec<Vec<ClassIdx>> = Vec::new();
        proof {
            assert forall|k: int| 0 <= k < indices@.len() implies indices@[k] is None by {}
            lemma_visited_none(indices@, n as int);
            assert forall|x: int| 0 <= x < n && #[trigger] on_stack@[x] implies stack@.contains(x as u32) by {
                assert(!on_stack@[x]);
            }
        }
        proof {
            assert(stack@.len() == 0);
            assert(witnessed(self.edges(), stack@, indices@, lowlinks@)) by {
                reveal(witnessed);
            }
            assert(sound_components(self.edges(), sccs@)) by {
                reveal(sound_components);
            }
            assert(closed_components(self.edges(), sccs@)) by {
                reveal(closed_components);
            }
        }
        let mut v: usize = 0;
        while v < n
            invariant
                self.wf(),
                n == self.num_nodes,
                v <= n,
                stack@.len() == 0,
                tarjan_inv(n as nat, stack@, on_stack@, indices@, lowlinks@, sccs@, index),
                witnessed(self.edges(), stack@, indices@, lowlinks@),
                sound_components(self.edges(), sccs@),
                closed_components(self.edges(), sccs@),
                forall|x: int| 0 <= x < v ==> (#[trigger] indices@[x]) is Some,
            decreases n - v,
        {
            let ghost before = indices@;
            if indices[v].is_none() {
                self.strongconnect(v as ClassIdx, &mut index, &mut stack, &mut on_stack, &mut indices,
                    &mut lowlinks, &mut sccs);
                proof {
                    if stack@.len() > 0 {
                        assert(stack@[0] == v as u32);
                        assert(lowlinks@[v as int] >= indices@[v as int]->0);
                    }
                }
            }
            proof {
                assert forall|x: int| 0 <= x < v + 1 implies (#[trigger] indices@[x]) is Some by {
                    if x < v {
                        assert(before[x] is Some);
                    }
                }
            }
            v += 1;
        }
        proof {
            assert forall|x: u32| (x as int) < n implies #[trigger] in_components(sccs@, x) by {
                assert(indices@[x as int] is Some);
                if on_stack@[x as int] {
                    assert(stack@.contains(x));
                }
            }
            reveal(sound_components);
            let e = self.edges();
            assert forall|i1: int, j1: int, i2: int, j2: int| 0 <= i1 < sccs@.len() && 0 <= j1 < sccs@[i1]@.len()
                && 0 <= i2 < sccs@.len() && 0 <= j2 < sccs@[i2]@.len()
                && reaches(e, #[trigger] sccs@[i1]@[j1], #[trigger] sccs@[i2]@[j2]) implies i2 <= i1 by {
                let kk = choose|kk: nat| #[trigger] walk(e, sccs@[i1]@[j1], sccs@[i2]@[j2], kk);
                lemma_closed_reach(e, sccs@, i1, j1, sccs@[i2]@[j2], kk);
                let (a, d) = choose|a: int, d: int| 0 <= a < i1 + 1 && a < sccs@.len() && 0 <= d < sccs@[a]@.len()
                    && #[trigger] sccs@[a]@[d] == sccs@[i2]@[j2];
                if a != i2 {
                    assert(sccs@[a]@[d] != sccs@[i2]@[j2]);
                }
            }
        }
        sccs
    }

    /// Visits `v` and the nodes reachable from it that are not yet visited,
    /// and closes the components whose root it finds.
    #[verifier::rlimit(100)]
    fn strongconnect(&self, v: ClassIdx, index: &mut u32, stack: &mut Vec<ClassIdx>, on_stack: &mut Vec<bool>,
        indices: &mut Vec<Option<u32>>, lowlinks: &mut Vec<u32>, sccs: &mut Vec<Vec<ClassIdx>>)
        requires
            self.wf(),
            (v as int) < self.nodes(),
            old(indices)@[v as int] is None,
            tarjan_inv(self.nodes(), old(stack)@, old(on_stack)@, old(indices)@, old(lowlinks)@, old(sccs)@, *old(index)),
            witnessed(self.edges(), old(stack)@, old(indices)@, old(lowlinks)@),
            sound_components(self.edges(), old(sccs)@),
            forall|t: int| 0 <= t < old(stack)@.len() ==> reaches(self.edges(), #[trigger] old(stack)@[t], v),
            closed_components(self.edges(), old(sccs)@),
        ensures
            closed_components(self.edges(), final(sccs)@),
            forall|y: u32| #[trigger] in_components(old(sccs)@, y) ==> in_components(final(sccs)@, y),
            forall|t: int| old(stack)@.len() <= t < final(stack)@.len()
                ==> settled(self.edges(), final(sccs)@, final(on_stack)@, final(indices)@, final(lowlinks)@, #[trigger] final(stack)@[t]),
            forall|t: int| old(stack)@.len() <= t < final(stack)@.len()
                ==> final(lowlinks)@[v as int] <= final(lowlinks)@[#[trigger] final(stack)@[t] as int],
            witnessed(self.edges(), final(stack)@, final(indices)@, final(lowlinks)@),
            sound_components(self.edges(), final(sccs)@),
            forall|t: int| old(stack)@.len() <= t < final(stack)@.len() ==> reaches(self.edges(), v, #[trigger] final(stack)@[t]),
            forall|t: int| old(stack)@.len() < t < final(stack)@.len()
                ==> #[trigger] final(lowlinks)@[final(stack)@[t] as int] < final(indices)@[final(stack)@[t] as int]->0,
            final(stack)@.len() == old(stack)@.len() ==> final(lowlinks)@[v as int] == final(indices)@[v as int]->0,
            tarjan_inv(self.nodes(), final(stack)@, final(on_stack)@, final(indices)@, final(lowlinks)@, final(sccs)@,
                *final(index)),
            final(indices)@[v as int] is Some,
            *old(index) <= *final(index),
            forall|x: int| 0 <= x < self.nodes() && (#[trigger] old(indices)@[x]) is Some
                ==> final(indices)@[x] == old(indices)@[x] && final(lowlinks)@[x] == old(lowlinks)@[x],
            forall|x: int| 0 <= x < self.nodes() && (#[trigger] final(indices)@[x]) is Some && old(indices)@[x] is None
                ==> final(indices)@[x]->0 >= *old(index),
            final(indices)@[v as int]->0 == *old(index),
            old(stack)@.len() <= final(stack)@.len(),
            final(stack)@.subrange(0, old(stack)@.len() as int) == old(stack)@,
            final(stack)@.len() > old(stack)@.len() ==> final(stack)@[old(stack)@.len() as int] == v
                && final(lowlinks)@[v as int] < final(indices)@[v as int]->0,
            final(lowlinks)@[v as int] >= stack_floor(old(stack)@, old(indices)@, *old(index)),
            final(lowlinks)@[v as int] <= final(indices)@[v as int]->0,
        decreases self.num_nodes as int - *old(index) as int,
    {
        let ghost n = self.num_nodes as nat;
        let ghost s0 = stack@;
        let ghost i0 = *index;
        let vu = v as usize;
        proof {
            lemma_visited_bound(indices@, vu as int, n as int);
            lemma_visited_update(indices@, vu as int, *index, n as int);
        }
        indices.set(vu, Some(*index));
        lowlinks.set(vu, *index);
        *index = *index + 1;
        stack.push(v);
        on_stack.set(vu, true);
        let ghost floor = stack_floor(s0, old(indices)@, i0);
        proof {
            lemma_witness_push(self.edges(), s0, old(indices)@, old(lowlinks)@, v, i0);
            assert(stack@ == s0.push(v));
            lemma_reaches_refl(self.edges(), v);
            assert(stack@.subrange(0, s0.len() as int) =~= s0);
            assert forall|x: int| 0 <= x < n && #[trigger] on_stack@[x] implies stack@.contains(x as u32) by {
                if x == vu as int {
                    assert(stack@[s0.len() as int] == v);
                } else {
                    assert(old(on_stack)@[x]);
                    assert(s0.contains(x as u32));
                    let k = choose|k: int| 0 <= k < s0.len() && s0[k] == x as u32;
                    assert(stack@[k] == x as u32);
                }
            }
            assert forall|x: int| 0 <= x < n && (#[trigger] indices@[x]) is Some implies on_stack@[x] || in_components(sccs@, x as u32) by {
                if x != vu as int {
                    assert(old(indices)@[x] is Some);
                    if old(on_stack)@[x] {
                    } else {
                        assert(in_components(old(sccs)@, x as u32));
                    }
                }
            }
            assert forall|k: int| 0 <= k < stack@.len() implies (#[trigger] stack@[k] as int) < n && on_stack@[stack@[k] as int]
                && indices@[stack@[k] as int] is Some by {
                if k < s0.len() {
                    assert(stack@[k] == s0[k]);
                    assert(stack@[k] != v);
                }
            }
            assert forall|i: int, j: int| 0 <= i < sccs@.len() && 0 <= j < sccs@[i]@.len()
                implies (#[trigger] sccs@[i]@[j] as int) < n && !on_stack@[sccs@[i]@[j] as int]
                    && indices@[sccs@[i]@[j] as int] is Some by {
                assert(sccs@[i]@[j] != v);
            }
        }
        let succ = &self.adj[vu];
        proof {
            assert(settled_upto(succ@, 0, sccs@, on_stack@, indices@, lowlinks@, v)) by {
                reveal(settled_upto);
            }
            assert(stack@[s0.len() as int] == v);
        }
        let mut k: usize = 0;
        while k < succ.len()
            invariant
                self.wf(),
                n == self.num_nodes as nat,
                (v as int) < n,
                vu == v as usize,
                succ@ == self.adj@[vu as int]@,
                k <= succ@.len(),
                tarjan_inv(n, stack@, on_stack@, indices@, lowlinks@, sccs@, *index),
                i0 == *old(index),
                i0 < *index,
                indices@[vu as int] == Some(i0),
                s0.len() < stack@.len(),
                stack@.subrange(0, s0.len() as int) == s0,
                stack@[s0.len() as int] == v,
                witnessed(self.edges(), stack@, indices@, lowlinks@),
                sound_components(self.edges(), sccs@),
                forall|t: int| 0 <= t < s0.len() ==> reaches(self.edges(), #[trigger] s0[t], v),
                forall|t: int| s0.len() <= t < stack@.len() ==> reaches(self.edges(), v, #[trigger] stack@[t]),
                forall|t: int| s0.len() < t < stack@.len()
                    ==> #[trigger] lowlinks@[stack@[t] as int] < indices@[stack@[t] as int]->0,
                closed_components(self.edges(), sccs@),
                forall|y: u32| #[trigger] in_components(old(sccs)@, y) ==> in_components(sccs@, y),
                forall|t: int| s0.len() < t < stack@.len()
                    ==> settled(self.edges(), sccs@, on_stack@, indices@, lowlinks@, #[trigger] stack@[t]),
                forall|t: int| s0.len() <= t < stack@.len() ==> lowlinks@[vu as int] <= lowlinks@[#[trigger] stack@[t] as int],
                settled_upto(succ@, k as int, sccs@, on_stack@, indices@, lowlinks@, v),
                floor == stack_floor(s0, old(indices)@, i0),
                s0.len() > 0 ==> floor == indices@[s0[0] as int]->0,
                s0.len() == 0 ==> floor == i0,
                floor <= lowlinks@[vu as int] <= i0,
                old(indices)@.len() == n,
                old(lowlinks)@.len() == n,
                forall|x: int| 0 <= x < n && (#[trigger] old(indices)@[x]) is Some ==> indices@[x] == old(indices)@[x]
                    && lowlinks@[x] == old(lowlinks)@[x],
                forall|x: int| 0 <= x < n && (#[trigger] indices@[x]) is Some && old(indices)@[x] is None
                    ==> indices@[x]->0 >= i0,
                forall|x: int| 0 <= x < n && (#[trigger] old(indices)@[x]) is Some ==> old(indices)@[x]->0 < i0,
            decreases succ@.len() - k,
        {
            let w = succ[k];
            let wu = w as usize;
            assert((w as int) < n);
            if indices[wu].is_none() {
                proof {
                    lemma_visited_le(indices@, n as int);
                }
                let ghost st_call = stack@;
                let ghost e = self.edges();
                let ghost p = s0.len() as int;
                proof {
                    assert(has_edge(e, v, w)) by {
                        assert(e[vu as int] == self.adj@[vu as int]@);
                        assert(succ@[k as int] == w);
                    }
                    assert(stack_increasing(stack@, indices@));
                    assert forall|q: int| 0 <= q < p implies reaches(e, #[trigger] stack@[q], stack@[p]) by {
                        assert(stack@[q] == stack@.subrange(0, p)[q]);
                        assert(reaches(e, s0[q], v));
                    }
                    assert forall|t: int| 0 <= t < stack@.len() implies reaches(e, #[trigger] stack@[t], w) by {
                        if t >= p {
                            lemma_chain(e, stack@, indices@, lowlinks@, p, t);
                        } else {
                            assert(stack@[t] == stack@.subrange(0, p)[t]);
                            assert(reaches(e, s0[t], v));
                        }
                        lemma_reaches_refl(e, w);
                        lemma_reaches_edge(e, v, w, w);
                        lemma_reaches_trans(e, stack@[t], v, w);
                    }
                }
                assert((self.num_nodes as int - *index as int) < (self.num_nodes as int - i0 as int));
                assert((self.num_nodes as int - *index as int) >= 0);
                let ghost low_before = lowlinks@;
                let ghost ind_before = indices@;
                let ghost sc_before = sccs@;
                let ghost on_before = on_stack@;
                let ghost idx_before = *index;
                self.strongconnect(w, index, stack, on_stack, indices, lowlinks, sccs);
                proof {
                    lemma_progress(n, st_call, on_before, ind_before, low_before, sc_before, idx_before,
                        stack@, on_stack@, indices@, lowlinks@, sccs@, *index);
                    assert forall|t: int| p < t < stack@.len()
                        implies settled(e, sccs@, on_stack@, indices@, lowlinks@, #[trigger] stack@[t]) by {
                        if t < st_call.len() {
                            assert(stack@[t] == stack@.subrange(0, st_call.len() as int)[t]);
                            assert(stack@[t] == st_call[t]);
                            assert(ind_before[st_call[t] as int] is Some);
                            lemma_settled_mono(e, sc_before, on_before, ind_before, low_before, sccs@, on_stack@,
                                indices@, lowlinks@, stack@[t]);
                        }
                    }
                    lemma_settled_upto_mono(succ@, k as int, sc_before, on_before, ind_before, low_before,
                        sccs@, on_stack@, indices@, lowlinks@, v);
                    assert forall|t: int| p <= t < st_call.len()
                        implies lowlinks@[vu as int] <= lowlinks@[#[trigger] stack@[t] as int] by {
                        assert(stack@[t] == stack@.subrange(0, st_call.len() as int)[t]);
                        assert(stack@[t] == st_call[t]);
                        assert(ind_before[st_call[t] as int] is Some);
                    }
                }
                proof {
                    assert forall|t: int| p <= t < stack@.len() implies reaches(e, v, #[trigger] stack@[t]) by {
                        if t < st_call.len() {
                            assert(stack@[t] == stack@.subrange(0, st_call.len() as int)[t]);
                            assert(reaches(e, v, st_call[t]));
                        } else {
                            assert(reaches(e, w, stack@[t]));
                            lemma_reaches_edge(e, v, w, stack@[t]);
                        }
                    }
                    assert forall|t: int| p < t < stack@.len()
                        implies #[trigger] lowlinks@[stack@[t] as int] < indices@[stack@[t] as int]->0 by {
                        if t < st_call.len() {
                            assert(stack@[t] == stack@.subrange(0, st_call.len() as int)[t]);
                            assert(stack@[t] == st_call[t]);
                            assert(ind_before[st_call[t] as int] is Some);
                            assert(low_before[st_call[t] as int] < ind_before[st_call[t] as int]->0);
                        } else if t == st_call.len() {
                        } else {
                        }
                    }
                }
                proof {
                    assert(st_call[0] == stack@[0]);
                    if s0.len() == 0 {
                        assert(st_call[0] == v);
                    } else {
                        assert(st_call[0] == s0[0]);
                    }
                    assert(stack@.subrange(0, s0.len() as int) =~= s0) by {
                        assert(st_call.subrange(0, s0.len() as int) == s0);
                        assert forall|t: int| 0 <= t < s0.len() implies stack@[t] == s0[t] by {
                            assert(stack@.subrange(0, st_call.len() as int)[t] == st_call[t]);
                            assert(st_call.subrange(0, s0.len() as int)[t] == st_call[t]);
                        }
                    }
                    assert(stack@[s0.len() as int] == v) by {
                        assert(stack@.subrange(0, st_call.len() as int)[s0.len() as int] == st_call[s0.len() as int]);
                    }
                }
                let lw = lowlinks[wu];
                let ghost low_mid = lowlinks@;
                if lw < lowlinks[vu] {
                    proof {
                        lemma_lower_v(e, stack@, sccs@, on_stack@, indices@, lowlinks@, p, v, succ@, k as int, lw);
                        assert(stack@.len() > st_call.len()) by {
                            if stack@.len() == st_call.len() {
                                assert(lowlinks@[wu as int] == indices@[wu as int]->0);
                            }
                        }
                        let pw = st_call.len() as int;
                        assert(stack@[pw] == w);
                        assert(stack_increasing(stack@, indices@));
                        reveal(witnessed);
                        assert(has_low_witness(e, stack@, indices@, lowlinks@, pw));
                        let t2 = choose|t2: int| #[trigger] low_witness(e, stack@, indices@, lowlinks@, pw, t2);
                        lemma_reaches_edge(e, v, w, stack@[t2]);
                        assert(stack@[p] == v);
                        lemma_lower_on_stack(stack@, indices@, t2, p);
                        lemma_witness_low(e, stack@, indices@, lowlinks@, p, t2, lw);
                    }
                    lowlinks.set(vu, lw);
                    proof {
                        assert forall|t: int| p < t < stack@.len()
                            implies #[trigger] lowlinks@[stack@[t] as int] < indices@[stack@[t] as int]->0 by {
                            assert(indices@[stack@[p] as int]->0 < indices@[stack@[t] as int]->0);
                            assert(stack@[t] != v);
                        }
                    }
                }
                proof {
                    assert(lowlinks@[vu as int] <= low_mid[vu as int]);
                    assert(stack_increasing(stack@, indices@));
                    assert forall|t: int| p <= t < stack@.len()
                        implies lowlinks@[vu as int] <= lowlinks@[#[trigger] stack@[t] as int] by {
                        if t > p {
                            assert(indices@[stack@[p] as int]->0 < indices@[stack@[t] as int]->0);
                            assert(stack@[t] != v);
                            assert(lowlinks@[stack@[t] as int] == low_mid[stack@[t] as int]);
                        }
                        if t >= st_call.len() {
                            assert(stack@[st_call.len() as int] == w);
                            assert(low_mid[wu as int] <= low_mid[stack@[t] as int]);
                            assert(lowlinks@[vu as int] <= low_mid[wu as int]);
                        }
                    }
                    if stack@.len() > st_call.len() {
                        assert(stack@[st_call.len() as int] == w);
                        assert(on_stack@[wu as int]);
                        assert(lowlinks@[vu as int] <= lowlinks@[wu as int]);
                    } else {
                        assert(indices@[wu as int] is Some);
                        if on_stack@[wu as int] {
                            assert(stack@.contains(w));
                            let q = choose|q: int| 0 <= q < stack@.len() && stack@[q] == w;
                            assert(stack@[q] == st_call[q]);
                            assert(ind_before[st_call[q] as int] is Some);
                        }
                        assert(in_components(sccs@, w));
                    }
                    assert(succ@[k as int] == w);
                    lemma_settled_upto_next(succ@, k as int, sccs@, on_stack@, indices@, lowlinks@, v);
                }
            } else if on_stack[wu] {
                let iw = match indices[wu] {
                    Some(x) => x,
                    None => 0,
                };
                proof {
                    assert(stack@.contains(w));
                    let kk = choose|kk: int| 0 <= kk < stack@.len() && stack@[kk] == w;
                    if kk > 0 {
                        assert(indices@[stack@[0] as int]->0 < indices@[stack@[kk] as int]->0);
                    }
                    if s0.len() == 0 {
                        if kk > 0 {
                            assert(indices@[stack@[0] as int]->0 == i0);
                        }
                    } else {
                        assert(stack@[0] == s0[0]);
                    }
                }
                if iw < lowlinks[vu] {
                    proof {
                        let e = self.edges();
                        let p = s0.len() as int;
                        let kk = choose|kk: int| 0 <= kk < stack@.len() && stack@[kk] == w;
                        assert(has_edge(e, v, w)) by {
                            assert(e[vu as int] == self.adj@[vu as int]@);
                            assert(succ@[k as int] == w);
                        }
                        lemma_reaches_refl(e, w);
                        lemma_reaches_edge(e, v, w, w);
                        assert(stack_increasing(stack@, indices@));
                        assert(stack@[p] == v);
                        lemma_lower_on_stack(stack@, indices@, kk, p);
                        lemma_witness_low(e, stack@, indices@, lowlinks@, p, kk, iw);
                        lemma_lower_v(e, stack@, sccs@, on_stack@, indices@, lowlinks@, p, v, succ@, k as int, iw);
                    }
                    let ghost low_b = lowlinks@;
                    lowlinks.set(vu, iw);
                    proof {
                        let p = s0.len() as int;
                        assert forall|t: int| p < t < stack@.len()
                            implies #[trigger] lowlinks@[stack@[t] as int] < indices@[stack@[t] as int]->0 by {
                            assert(indices@[stack@[p] as int]->0 < indices@[stack@[t] as int]->0);
                            assert(stack@[t] != v);
                        }
                        assert forall|t: int| p <= t < stack@.len()
                            implies lowlinks@[vu as int] <= lowlinks@[#[trigger] stack@[t] as int] by {
                            if t > p {
                                assert(indices@[stack@[p] as int]->0 < indices@[stack@[t] as int]->0);
                                assert(stack@[t] != v);
                                assert(lowlinks@[stack@[t] as int] == low_b[stack@[t] as int]);
                            }
                        }
                    }
                }
                proof {
                    assert(indices@[wu as int] == Some(iw));
                    assert(succ@[k as int] == w);
                    lemma_settled_upto_next(succ@, k as int, sccs@, on_stack@, indices@, lowlinks@, v);
                }
            } else {
                proof {
                    assert(indices@[wu as int] is Some);
                    assert(in_components(sccs@, w));
                    assert(succ@[k as int] == w);
                    lemma_settled_upto_next(succ@, k as int, sccs@, on_stack@, indices@, lowlinks@, v);
                }
            }
            k += 1;
        }
        proof {
            let e = self.edges();
            let p = s0.len() as int;
            assert(e[vu as int] == self.adj@[vu as int]@);
            lemma_settled_upto_all(e, succ@, sccs@, on_stack@, indices@, lowlinks@, v);
            assert(stack@[p] == v);
            assert forall|t: int| p <= t < stack@.len()
                implies settled(e, sccs@, on_stack@, indices@, lowlinks@, #[trigger] stack@[t]) by {
                if t == p {
                }
            }
        }
        let iv = match indices[vu] {
            Some(x) => x,
            None => 0,
        };
        if lowlinks[vu] == iv {
            let ghost full = stack@;
            let ghost os_full = on_stack@;
            let ghost sccs0 = sccs@;
            proof {
                let e = self.edges();
                let p = s0.len() as int;
                assert(stack_increasing(full, indices@));
                assert forall|q: int| 0 <= q < p implies reaches(e, #[trigger] full[q], full[p]) by {
                    assert(full[q] == full.subrange(0, p)[q]);
                    assert(reaches(e, s0[q], v));
                }
                lemma_top_strongly_connected(e, full, indices@, lowlinks@, p);
                assert forall|y: u32| (y as int) < os_full.len() && os_full[y as int] implies #[trigger] full.contains(y) by {}
                assert(full[p] == v);
                lemma_pop_closed(e, full, p, os_full, indices@, lowlinks@, sccs0);
            }
            proof {
                assert forall|t1: int, t2: int| 0 <= t1 < full.len() && 0 <= t2 < full.len() && t1 != t2
                    implies full[t1] != full[t2] by {
                    if t1 < t2 {
                        assert(indices@[full[t1] as int]->0 < indices@[full[t2] as int]->0);
                    } else {
                        assert(indices@[full[t2] as int]->0 < indices@[full[t1] as int]->0);
                    }
                }
            }
            let mut scc: Vec<ClassIdx> = Vec::new();
            loop
                invariant_except_break
                    !scc@.contains(v),
                    stack@.len() > s0.len(),
                invariant
                    n == self.num_nodes as nat,
                    n <= u32::MAX,
                    on_stack@.len() == n,
                    os_full.len() == n,
                    (v as int) < n,
                    full.len() > s0.len(),
                    full.subrange(0, s0.len() as int) == s0,
                    full[s0.len() as int] == v,
                    forall|t: int| 0 <= t < full.len() ==> (#[trigger] full[t] as int) < n,
                    forall|t1: int, t2: int| 0 <= t1 < full.len() && 0 <= t2 < full.len() && t1 != t2
                        ==> #[trigger] full[t1] != #[trigger] full[t2],
                    s0.len() <= stack@.len() <= full.len(),
                    stack@ == full.subrange(0, stack@.len() as int),
                    scc@.len() == full.len() - stack@.len(),
                    forall|t: int| 0 <= t < scc@.len() ==> #[trigger] scc@[t] == full[full.len() - 1 - t],
                    forall|x: int| 0 <= x < n ==> #[trigger] on_stack@[x] == (os_full[x] && !scc@.contains(x as u32)),
                ensures
                    stack@ == s0,
                    scc@.len() == full.len() - s0.len(),
                    scc@.contains(v),
                    forall|t: int| 0 <= t < scc@.len() ==> #[trigger] scc@[t] == full[full.len() - 1 - t],
                    forall|x: int| 0 <= x < n ==> #[trigger] on_stack@[x] == (os_full[x] && !scc@.contains(x as u32)),
                decreases stack@.len(),
            {
                let ghost before = stack@;
                let ghost scc_before = scc@;
                let w = match stack.pop() {
                    Some(x) => x,
                    None => {
                        assert(false);
                        break;
                    },
                };
                assert(w == full[before.len() - 1]);
                on_stack.set(w as usize, false);
                scc.push(w);
                proof {
                    assert(scc@ == scc_before.push(w));
                    assert(stack@ =~= full.subrange(0, stack@.len() as int));
                    assert forall|x: int| 0 <= x < n implies #[trigger] on_stack@[x] == (os_full[x] && !scc@.contains(x as u32)) by {
                        if x == w as int {
                            assert(scc@[scc@.len() - 1] == w);
                        } else {
                            if scc@.contains(x as u32) {
                                let t = choose|t: int| 0 <= t < scc@.len() && scc@[t] == x as u32;
                                assert(t < scc_before.len());
                                assert(scc_before[t] == x as u32);
                            }
                            if scc_before.contains(x as u32) {
                                let t = choose|t: int| 0 <= t < scc_before.len() && scc_before[t] == x as u32;
                                assert(scc@[t] == x as u32);
                            }
                        }
                    }
                }
                if w == v {
                    proof {
                        if before.len() - 1 != s0.len() {
                            assert(full[before.len() - 1] != full[s0.len() as int]);
                        }
                        assert(stack@ =~= s0);
                        assert(scc@[scc@.len() - 1] == v);
                    }
                    break;
                }
                proof {
                    if stack@.len() == s0.len() {
                        assert(w == full[s0.len() as int]);
                    }
                    if scc@.contains(v) {
                        let t = choose|t: int| 0 <= t < scc@.len() && scc@[t] == v;
                        if t < scc_before.len() {
                            assert(scc_before[t] == v);
                        }
                    }
                }
            }
            proof {
                let s1 = sccs0.push(scc);
                assert forall|x: int| 0 <= x < n && #[trigger] on_stack@[x] implies stack@.contains(x as u32) by {
                    assert(os_full[x]);
                    assert(full.contains(x as u32));
                    let t = choose|t: int| 0 <= t < full.len() && full[t] == x as u32;
                    if t >= s0.len() {
                        assert(scc@[full.len() - 1 - t] == x as u32);
                    } else {
                        assert(stack@[t] == full[t]);
                    }
                }
                assert forall|k: int| 0 <= k < stack@.len() implies (#[trigger] stack@[k] as int) < n && on_stack@[stack@[k] as int]
                    && indices@[stack@[k] as int] is Some by {
                    assert(stack@[k] == full[k]);
                    if scc@.contains(full[k]) {
                        let t = choose|t: int| 0 <= t < scc@.len() && scc@[t] == full[k];
                        assert(full[full.len() - 1 - t] == full[k]);
                    }
                }
                assert forall|k1: int, k2: int| 0 <= k1 < k2 < stack@.len()
                    implies indices@[#[trigger] stack@[k1] as int]->0 < indices@[#[trigger] stack@[k2] as int]->0 by {
                    assert(stack@[k1] == full[k1] && stack@[k2] == full[k2]);
                }
                assert forall|i: int, j: int| 0 <= i < s1.len() && 0 <= j < s1[i]@.len()
                    implies (#[trigger] s1[i]@[j] as int) < n && !on_stack@[s1[i]@[j] as int] && indices@[s1[i]@[j] as int] is Some by {
                    if i < sccs0.len() {
                        assert(s1[i] == sccs0[i]);
                        assert(!os_full[sccs0[i]@[j] as int]);
                    } else {
                        assert(s1[i]@[j] == scc@[j]);
                        assert(scc@.contains(scc@[j]));
                    }
                }
                assert forall|i1: int, j1: int, i2: int, j2: int| 0 <= i1 < s1.len() && 0 <= j1 < s1[i1]@.len()
                    && 0 <= i2 < s1.len() && 0 <= j2 < s1[i2]@.len() && (i1 != i2 || j1 != j2)
                    implies #[trigger] s1[i1]@[j1] != #[trigger] s1[i2]@[j2] by {
                    if i1 < sccs0.len() && i2 < sccs0.len() {
                        assert(s1[i1] == sccs0[i1] && s1[i2] == sccs0[i2]);
                    } else if i1 < sccs0.len() {
                        assert(!os_full[sccs0[i1]@[j1] as int]);
                        assert(s1[i2]@[j2] == full[full.len() - 1 - j2]);
                        assert(os_full[full[full.len() - 1 - j2] as int]);
                    } else if i2 < sccs0.len() {
                        assert(!os_full[sccs0[i2]@[j2] as int]);
                        assert(s1[i1]@[j1] == full[full.len() - 1 - j1]);
                        assert(os_full[full[full.len() - 1 - j1] as int]);
                    } else {
                        assert(s1[i1]@[j1] == full[full.len() - 1 - j1]);
                        assert(s1[i2]@[j2] == full[full.len() - 1 - j2]);
                    }
                }
                assert forall|i: int| 0 <= i < s1.len() implies (#[trigger] s1[i]@).len() > 0 by {
                    if i < sccs0.len() {
                        assert(s1[i] == sccs0[i]);
                    }
                }
                assert forall|x: int| 0 <= x < n && (#[trigger] indices@[x]) is Some
                    implies on_stack@[x] || in_components(s1, x as u32) by {
                    if os_full[x] {
                        if scc@.contains(x as u32) {
                            let t = choose|t: int| 0 <= t < scc@.len() && scc@[t] == x as u32;
                            assert(s1[sccs0.len() as int]@[t] == x as u32);
                        }
                    } else {
                        assert(in_components(sccs0, x as u32));
                        let (i, j) = choose|i: int, j: int| 0 <= i < sccs0.len() && 0 <= j < sccs0[i]@.len() && #[trigger] sccs0[i]@[j] == x as u32;
                        assert(s1[i]@[j] == x as u32);
                    }
                }
            }
            let ghost scc_v = scc;
            sccs.push(scc);
            proof {
                let e = self.edges();
                let p = s0.len() as int;
                assert forall|j1: int, j2: int| 0 <= j1 < scc_v@.len() && 0 <= j2 < scc_v@.len()
                    implies reaches(e, #[trigger] scc_v@[j1], #[trigger] scc_v@[j2]) by {
                    assert(scc_v@[j1] == full[full.len() - 1 - j1]);
                    assert(scc_v@[j2] == full[full.len() - 1 - j2]);
                    assert(reaches(e, full[full.len() - 1 - j1], full[full.len() - 1 - j2]));
                }
                lemma_sound_push(e, sccs0, scc_v);
                assert(sccs@ == sccs0.push(scc_v));
                assert forall|j: int, y: u32| 0 <= j < scc_v@.len() && #[trigger] has_edge(e, scc_v@[j], y)
                    implies in_components(sccs0, y) || scc_v@.contains(y) by {
                    let t = full.len() - 1 - j;
                    assert(scc_v@[j] == full[t]);
                    assert(has_edge(e, full[t], y));
                    if !in_components(sccs0, y) {
                        let q = choose|q: int| p <= q < full.len() && full[q] == y;
                        assert(scc_v@[full.len() - 1 - q] == full[q]);
                    }
                }
                lemma_closed_push(e, sccs0, scc_v);
                assert forall|y: u32| #[trigger] in_components(old(sccs)@, y) implies in_components(sccs@, y) by {
                    assert(in_components(sccs0, y));
                    let (i, j) = choose|i: int, j: int| 0 <= i < sccs0.len() && 0 <= j < sccs0[i]@.len() && #[trigger] sccs0[i]@[j] == y;
                    assert(sccs@[i] == sccs0[i]);
                    assert(sccs@[i]@[j] == y);
                }
                lemma_witness_prefix(e, full, indices@, lowlinks@, p);
            }
        }
    }
}

} // verus!
