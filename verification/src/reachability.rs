//! Reachability over a table of direct parents, and the memoising
//! reachability oracle that answers from a cache before walking the table.

use vstd::prelude::*;
use std::collections::VecDeque;
use crate::compact_hierarchy::{count_true, lemma_count_true_set, lemma_count_true_bound};
use crate::grail::lemma_count_none;

verus! {

broadcast use vstd::std_specs::vec::group_vec_axioms;

/// Class `j` is listed among the direct parents of class `i`.
pub open spec fn step(g: Seq<Vec<u32>>, i: int, j: int) -> bool {
    0 <= i < g.len() && 0 <= j < g.len() && g[i]@.contains(j as u32)
}

/// Class `j` is reached from class `i` in one to `k` parent steps.
pub open spec fn steps_within(g: Seq<Vec<u32>>, i: int, j: int, k: nat) -> bool
    decreases k,
{
    if k == 0 {
        false
    } else {
        step(g, i, j) || exists|p: int| #[trigger] step(g, i, p) && steps_within(g, p, j, (k - 1) as nat)
    }
}

/// Class `j` is reached from class `i` in one or more parent steps.
pub open spec fn reaches(g: Seq<Vec<u32>>, i: int, j: int) -> bool {
    exists|k: nat| #[trigger] steps_within(g, i, j, k)
}

/// Every listed parent names a class of the table, and the classes are
/// numbered by `u32`.
pub open spec fn table_wf(g: Seq<Vec<u32>>) -> bool {
    &&& g.len() < u32::MAX
    &&& forall|i: int, k: int| 0 <= i < g.len() && 0 <= k < g[i]@.len() ==> (#[trigger] g[i]@[k] as int) < g.len()
}

/// One step more at the end: from `i` to `j`, then to a parent of `j`.
pub proof fn lemma_steps_append(g: Seq<Vec<u32>>, i: int, j: int, p: int, k: nat)
    requires
        steps_within(g, i, j, k),
        step(g, j, p),
    ensures
        steps_within(g, i, p, k + 1),
    decreases k,
{
    if step(g, i, j) {
        assert(steps_within(g, j, p, 1));
        assert(steps_within(g, i, p, 2));
        lemma_steps_mono(g, i, p, 2, k + 1);
    } else {
        let m = choose|m: int| #[trigger] step(g, i, m) && steps_within(g, m, j, (k - 1) as nat);
        lemma_steps_append(g, m, j, p, (k - 1) as nat);
        assert(steps_within(g, i, p, k + 1));
    }
}

/// More steps allowed, still reached.
pub proof fn lemma_steps_mono(g: Seq<Vec<u32>>, i: int, j: int, k: nat, m: nat)
    requires
        steps_within(g, i, j, k),
        k <= m,
    ensures
        steps_within(g, i, j, m),
    decreases m,
{
    if k < m {
        if step(g, i, j) {
        } else {
            let p = choose|p: int| #[trigger] step(g, i, p) && steps_within(g, p, j, (k - 1) as nat);
            lemma_steps_mono(g, p, j, (k - 1) as nat, (m - 1) as nat);
        }
    }
}

/// A set of classes closed under parent steps, holding every parent of `x`,
/// holds every class reached from `x`.
pub proof fn lemma_closed_holds(g: Seq<Vec<u32>>, vis: Seq<bool>, x: int, w: int, k: nat)
    requires
        vis.len() == g.len(),
        forall|p: int| #[trigger] step(g, x, p) ==> vis[p],
        forall|a: int| 0 <= a < g.len() && #[trigger] vis[a] ==> forall|p: int| #[trigger] step(g, a, p) ==> vis[p],
        steps_within(g, x, w, k),
    ensures
        vis[w],
    decreases k,
{
    if !step(g, x, w) {
        let p = choose|p: int| #[trigger] step(g, x, p) && steps_within(g, p, w, (k - 1) as nat);
        assert(vis[p]);
        lemma_closed_holds(g, vis, p, w, (k - 1) as nat);
    }
}

/// The state of a walk up from `node`: marks and queue agree, every mark is
/// reached, and every queued class is marked once.
pub open spec fn walk_ok(g: Seq<Vec<u32>>, node: int, vis: Seq<bool>, queue: Seq<u32>) -> bool {
    &&& vis.len() == g.len()
    &&& queue.no_duplicates()
    &&& forall|q: int| 0 <= q < queue.len() ==> (#[trigger] queue[q] as int) < g.len() && vis[queue[q] as int]
    &&& forall|w: int| 0 <= w < g.len() && #[trigger] vis[w] ==> reaches(g, node, w)
    &&& count_true(vis) <= g.len()
}

/// Marks each unmarked direct parent of `current` and queues it.
fn mark_parents(g: &Vec<Vec<u32>>, current: u32, visited: &mut Vec<bool>, queue: &mut VecDeque<u32>, Ghost(node): Ghost<int>)
    requires
        table_wf(g@),
        (current as int) < g@.len(),
        0 <= node < g@.len(),
        current as int == node || reaches(g@, node, current as int),
        walk_ok(g@, node, old(visited)@, old(queue)@),
    ensures
        walk_ok(g@, node, final(visited)@, final(queue)@),
        forall|w: int| 0 <= w < g@.len() && old(visited)@[w] ==> #[trigger] final(visited)@[w],
        forall|p: int| #[trigger] step(g@, current as int, p) ==> final(visited)@[p],
        forall|w: int| 0 <= w < g@.len() && #[trigger] final(visited)@[w] && !old(visited)@[w] ==> final(queue)@.contains(w as u32),
        forall|x: u32| #[trigger] old(queue)@.contains(x) ==> final(queue)@.contains(x),
        forall|x: u32| #[trigger] final(queue)@.contains(x) ==> old(queue)@.contains(x) || !old(visited)@[x as int],
        2 * (g@.len() - count_true(final(visited)@)) + final(queue)@.len()
            <= 2 * (g@.len() - count_true(old(visited)@)) + old(queue)@.len(),
{
    let n = g.len();
    let parents = &g[current as usize];
    let ghost v0 = visited@;
    let ghost q0 = queue@;
    let mut k: usize = 0;
    while k < parents.len()
        invariant
            table_wf(g@),
            n == g@.len(),
            (current as int) < n,
            0 <= node < n,
            current as int == node || reaches(g@, node, current as int),
            parents@ == g@[current as int]@,
            k <= parents@.len(),
            walk_ok(g@, node, visited@, queue@),
            v0.len() == n,
            forall|w: int| 0 <= w < n && v0[w] ==> #[trigger] visited@[w],
            forall|q: int| 0 <= q < k ==> visited@[#[trigger] parents@[q] as int],
            forall|w: int| 0 <= w < n && #[trigger] visited@[w] && !v0[w] ==> queue@.contains(w as u32),
            forall|x: u32| #[trigger] q0.contains(x) ==> queue@.contains(x),
            forall|x: u32| #[trigger] queue@.contains(x) ==> q0.contains(x) || !v0[x as int],
            2 * (n - count_true(visited@)) + queue@.len() <= 2 * (n - count_true(v0)) + q0.len(),
        decreases parents@.len() - k,
    {
        let parent = parents[k];
        assert((parent as int) < n);
        if !visited[parent as usize] {
            let ghost vb = visited@;
            let ghost qb = queue@;
            visited.set(parent as usize, true);
            proof {
                lemma_count_true_set(vb, parent as int);
                lemma_count_true_bound(visited@);
                assert(step(g@, current as int, parent as int)) by {
                    assert(g@[current as int]@[k as int] == parent);
                }
                if current as int == node {
                    assert(steps_within(g@, node, parent as int, 1));
                } else {
                    let kk = choose|kk: nat| #[trigger] steps_within(g@, node, current as int, kk);
                    lemma_steps_append(g@, node, current as int, parent as int, kk);
                }
                assert(!qb.contains(parent)) by {
                    if qb.contains(parent) {
                        let q = choose|q: int| 0 <= q < qb.len() && qb[q] == parent;
                        assert(vb[qb[q] as int]);
                    }
                }
            }
            queue.push_back(parent);
            proof {
                assert(queue@ == qb.push(parent));
                assert(queue@[qb.len() as int] == parent);
                assert forall|x: u32| #[trigger] qb.contains(x) implies queue@.contains(x) by {
                    let q = choose|q: int| 0 <= q < qb.len() && qb[q] == x;
                    assert(queue@[q] == x);
                }
                assert forall|x: u32| #[trigger] queue@.contains(x) implies q0.contains(x) || !v0[x as int] by {
                    let q = choose|q: int| 0 <= q < queue@.len() && queue@[q] == x;
                    if q < qb.len() {
                        assert(qb.contains(x));
                    } else {
                        assert(x == parent);
                        if v0[parent as int] {
                            assert(vb[parent as int]);
                        }
                    }
                }
                assert forall|x: u32| #[trigger] q0.contains(x) implies queue@.contains(x) by {
                    assert(qb.contains(x));
                }
                assert forall|w: int| 0 <= w < n && #[trigger] visited@[w] && !v0[w] implies queue@.contains(w as u32) by {
                    if w != parent as int {
                        assert(vb[w]);
                        assert(qb.contains(w as u32));
                    }
                }
                assert(queue@.no_duplicates());
            }
        }
        k += 1;
    }
    proof {
        assert forall|p: int| #[trigger] step(g@, current as int, p) implies visited@[p] by {
            let q = choose|q: int| 0 <= q < parents@.len() && parents@[q] == p as u32;
            assert(visited@[parents@[q] as int]);
        }
    }
}

/// The classes reached from `node` in one or more parent steps, as marks
/// indexed by class.
pub fn reached_from(g: &Vec<Vec<u32>>, node: u32) -> (marks: Vec<bool>)
    requires
        table_wf(g@),
        (node as int) < g@.len(),
    ensures
        marks@.len() == g@.len(),
        forall|w: int| 0 <= w < g@.len() ==> (#[trigger] marks@[w] <==> reaches(g@, node as int, w)),
{
    let n = g.len();
    let mut visited: Vec<bool> = Vec::new();
    let mut i: usize = 0;
    while i < n
        invariant
            i <= n,
            visited@.len() == i,
            forall|q: int| 0 <= q < i ==> !(#[trigger] visited@[q]),
        decreases n - i,
    {
        visited.push(false);
        i += 1;
    }
    proof {
        lemma_count_none(visited@);
    }
    let mut queue: VecDeque<u32> = VecDeque::new();
    mark_parents(g, node, &mut visited, &mut queue, Ghost(node as int));
    proof {
        assert forall|w: int| 0 <= w < n && #[trigger] visited@[w] && !queue@.contains(w as u32)
            implies forall|p: int| #[trigger] step(g@, w, p) ==> visited@[p] by {
        }
    }
    while queue.len() > 0
        invariant
            table_wf(g@),
            n == g@.len(),
            (node as int) < n,
            walk_ok(g@, node as int, visited@, queue@),
            forall|p: int| #[trigger] step(g@, node as int, p) ==> visited@[p],
            forall|w: int| 0 <= w < n && #[trigger] visited@[w] && !queue@.contains(w as u32) ==>
                forall|p: int| #[trigger] step(g@, w, p) ==> visited@[p],
        decreases 2 * (n - count_true(visited@)) + queue@.len(),
    {
        let ghost q0 = queue@;
        let ghost v0 = visited@;
        let current = queue.pop_front().unwrap();
        proof {
            assert(queue@ == q0.subrange(1, q0.len() as int));
            assert(current == q0[0]);
            assert(!queue@.contains(current)) by {
                if queue@.contains(current) {
                    let q = choose|q: int| 0 <= q < queue@.len() && queue@[q] == current;
                    assert(q0[q + 1] == q0[0]);
                }
            }
            assert(walk_ok(g@, node as int, visited@, queue@)) by {
                assert forall|q: int| 0 <= q < queue@.len() implies (#[trigger] queue@[q] as int) < n && visited@[queue@[q] as int] by {
                    assert(queue@[q] == q0[q + 1]);
                }
            }
            assert(reaches(g@, node as int, current as int));
        }
        let ghost q1 = queue@;
        mark_parents(g, current, &mut visited, &mut queue, Ghost(node as int));
        proof {
            assert forall|w: int| 0 <= w < n && #[trigger] visited@[w] && !queue@.contains(w as u32)
                implies forall|p: int| #[trigger] step(g@, w, p) ==> visited@[p] by {
                if w != current as int {
                    assert(v0[w]);
                    assert(!q1.contains(w as u32));
                    assert(!q0.contains(w as u32)) by {
                        if q0.contains(w as u32) {
                            let q = choose|q: int| 0 <= q < q0.len() && q0[q] == w as u32;
                            if q == 0 {
                            } else {
                                assert(q1[q - 1] == w as u32);
                            }
                        }
                    }
                    assert forall|p: int| #[trigger] step(g@, w, p) implies visited@[p] by {
                        assert(v0[p]);
                    }
                }
            }
        }
    }
    proof {
        assert forall|w: int| 0 <= w < n implies (#[trigger] visited@[w] <==> reaches(g@, node as int, w)) by {
            if reaches(g@, node as int, w) {
                let kk = choose|kk: nat| #[trigger] steps_within(g@, node as int, w, kk);
                assert forall|a: int| 0 <= a < n && #[trigger] visited@[a] implies
                    forall|p: int| #[trigger] step(g@, a, p) ==> visited@[p] by {
                    assert(!queue@.contains(a as u32));
                }
                lemma_closed_holds(g@, visited@, node as int, w, kk);
            }
        }
    }
    visited
}

/// A walk of `k` steps only ever ends at a class of the table.
pub proof fn lemma_steps_in_range(g: Seq<Vec<u32>>, i: int, j: int, k: nat)
    requires
        steps_within(g, i, j, k),
    ensures
        0 <= j < g.len(),
    decreases k,
{
    if !step(g, i, j) {
        let p = choose|p: int| #[trigger] step(g, i, p) && steps_within(g, p, j, (k - 1) as nat);
        lemma_steps_in_range(g, p, j, (k - 1) as nat);
    }
}

/// Every parent listed in `g` is listed in `h` too, over the same classes.
pub open spec fn table_extends(g: Seq<Vec<u32>>, h: Seq<Vec<u32>>) -> bool {
    &&& h.len() == g.len()
    &&& forall|i: int, j: u32| 0 <= i < g.len() && #[trigger] g[i]@.contains(j) ==> h[i]@.contains(j)
}

/// Adding parents keeps every walk.
pub proof fn lemma_steps_extend(g: Seq<Vec<u32>>, h: Seq<Vec<u32>>, i: int, j: int, k: nat)
    requires
        table_extends(g, h),
        steps_within(g, i, j, k),
    ensures
        steps_within(h, i, j, k),
    decreases k,
{
    if step(g, i, j) {
        assert(g[i]@.contains(j as u32));
    } else {
        let p = choose|p: int| #[trigger] step(g, i, p) && steps_within(g, p, j, (k - 1) as nat);
        assert(g[i]@.contains(p as u32));
        lemma_steps_extend(g, h, p, j, (k - 1) as nat);
        assert(step(h, i, p));
    }
}

/// Law: a class reached over a table is still reached after parents are
/// added to it.
pub proof fn lemma_reaches_extend(g: Seq<Vec<u32>>, h: Seq<Vec<u32>>, i: int, j: int)
    requires
        table_extends(g, h),
        reaches(g, i, j),
    ensures
        reaches(h, i, j),
{
    let k = choose|k: nat| #[trigger] steps_within(g, i, j, k);
    lemma_steps_extend(g, h, i, j, k);
}

/// Whether `(from, to)` is an entry of `cache`.
fn cache_has(cache: &Vec<(u32, u32)>, from: u32, to: u32) -> (r: bool)
    ensures
        r == cache@.contains((from, to)),
{
    let mut i: usize = 0;
    while i < cache.len()
        invariant
            i <= cache@.len(),
            forall|q: int| 0 <= q < i ==> cache@[q] != (from, to),
        decreases cache@.len() - i,
    {
        let (a, b) = cache[i];
        if a == from && b == to {
            assert(cache@[i as int] == (from, to));
            return true;
        }
        i += 1;
    }
    false
}

/// Reachability answered by a walk up the direct parents, remembering each
/// answer: a remembered pair is answered from memory.
pub struct OnDemandReachability {
    direct_parents: Vec<Vec<u32>>,
    positive_cache: Vec<(u32, u32)>,
    negative_cache: Vec<(u32, u32)>,
}

impl OnDemandReachability {
    /// The direct parents of each class.
    pub closed spec fn table(&self) -> Seq<Vec<u32>> {
        self.direct_parents@
    }

    /// The pairs remembered as reachable, in the order they were answered.
    pub closed spec fn positives(&self) -> Seq<(u32, u32)> {
        self.positive_cache@
    }

    /// The pairs remembered as unreachable, in the order they were answered.
    pub closed spec fn negatives(&self) -> Seq<(u32, u32)> {
        self.negative_cache@
    }

    /// The answer a walk gives for `(from, to)`.
    pub open spec fn walk_answer(&self, from: u32, to: u32) -> bool {
        from == to || reaches(self.table(), from as int, to as int)
    }

    /// Every remembered reachable pair is reachable.
    pub open spec fn positives_sound(&self) -> bool {
        forall|q: int| 0 <= q < self.positives().len() ==> self.walk_answer(#[trigger] self.positives()[q].0, self.positives()[q].1)
    }

    /// Every remembered answer is the answer of a walk.
    pub open spec fn cache_sound(&self) -> bool {
        &&& self.positives_sound()
        &&& forall|q: int| 0 <= q < self.negatives().len() ==> !self.walk_answer(#[trigger] self.negatives()[q].0, self.negatives()[q].1)
    }

    /// What `is_reachable` answers: from memory where the pair is
    /// remembered, else by a walk.
    pub open spec fn answer(&self, from: u32, to: u32) -> bool {
        if self.positives().contains((from, to)) {
            true
        } else if self.negatives().contains((from, to)) {
            false
        } else {
            self.walk_answer(from, to)
        }
    }

    /// No class has a parent yet and nothing is remembered.
    pub fn new(num_classes: usize) -> (r: Self)
        ensures
            r.table().len() == num_classes,
            forall|i: int| 0 <= i < num_classes ==> (#[trigger] r.table()[i])@.len() == 0,
            r.positives().len() == 0,
            r.negatives().len() == 0,
            r.cache_sound(),
    {
        let mut direct_parents: Vec<Vec<u32>> = Vec::new();
        let mut i: usize = 0;
        while i < num_classes
            invariant
                i <= num_classes,
                direct_parents@.len() == i,
                forall|j: int| 0 <= j < i ==> (#[trigger] direct_parents@[j])@.len() == 0,
            decreases num_classes - i,
        {
            direct_parents.push(Vec::new());
            i += 1;
        }
        OnDemandReachability { direct_parents, positive_cache: Vec::new(), negative_cache: Vec::new() }
    }

    /// Appends `to` to the direct parents of `from`; nothing remembered is
    /// forgotten.
    pub fn add_edge(&mut self, from: u32, to: u32)
        requires
            (from as int) < old(self).table().len(),
        ensures
            final(self).table().len() == old(self).table().len(),
            final(self).table()[from as int]@ == old(self).table()[from as int]@.push(to),
            forall|i: int| 0 <= i < old(self).table().len() && i != from ==> #[trigger] final(self).table()[i] == old(self).table()[i],
            final(self).positives() == old(self).positives(),
            final(self).negatives() == old(self).negatives(),
            old(self).positives_sound() ==> final(self).positives_sound(),
    {
        let ghost g0 = self.direct_parents@;
        let mut row = Vec::new();
        std::mem::swap(&mut row, &mut self.direct_parents[from as usize]);
        assert(row@ == g0[from as int]@);
        row.push(to);
        self.direct_parents.set(from as usize, row);
        proof {
            let h = self.direct_parents@;
            assert(table_extends(g0, h)) by {
                assert forall|i: int, j: u32| 0 <= i < g0.len() && #[trigger] g0[i]@.contains(j) implies h[i]@.contains(j) by {
                    if i == from as int {
                        let q = choose|q: int| 0 <= q < g0[i]@.len() && g0[i]@[q] == j;
                        assert(h[i]@[q] == j);
                    }
                }
            }
            if old(self).positives_sound() {
                assert(self.positives() == old(self).positives());
                assert forall|q: int| 0 <= q < self.positives().len()
                    implies self.walk_answer(#[trigger] self.positives()[q].0, self.positives()[q].1) by {
                    let a = old(self).positives()[q].0;
                    let b = old(self).positives()[q].1;
                    assert(old(self).walk_answer(a, b));
                    if a != b {
                        lemma_reaches_extend(g0, h, a as int, b as int);
                    }
                }
            }
        }
    }

    /// Whether `to` is reached from `from` (a class reaches itself): the
    /// remembered answer where there is one, else a walk, whose answer is
    /// then remembered.
    pub fn is_reachable(&mut self, from: u32, to: u32) -> (r: bool)
        requires
            old(self).positives().contains((from, to)) || old(self).negatives().contains((from, to)) || from == to
                || ((from as int) < old(self).table().len() && table_wf(old(self).table())),
        ensures
            r == old(self).answer(from, to),
            final(self).table() == old(self).table(),
            final(self).positives() == if !old(self).positives().contains((from, to))
                && !old(self).negatives().contains((from, to)) && r {
                old(self).positives().push((from, to))
            } else {
                old(self).positives()
            },
            final(self).negatives() == if !old(self).positives().contains((from, to))
                && !old(self).negatives().contains((from, to)) && !r {
                old(self).negatives().push((from, to))
            } else {
                old(self).negatives()
            },
            old(self).cache_sound() ==> final(self).cache_sound() && r == old(self).walk_answer(from, to),
    {
        if cache_has(&self.positive_cache, from, to) {
            proof {
                if old(self).cache_sound() {
                    let q = choose|q: int| 0 <= q < self.positives().len() && self.positives()[q] == (from, to);
                    assert(self.walk_answer(self.positives()[q].0, self.positives()[q].1));
                }
            }
            return true;
        }
        if cache_has(&self.negative_cache, from, to) {
            proof {
                if old(self).cache_sound() {
                    let q = choose|q: int| 0 <= q < self.negatives().len() && self.negatives()[q] == (from, to);
                    assert(!self.walk_answer(self.negatives()[q].0, self.negatives()[q].1));
                }
            }
            return false;
        }
        let result = self.bfs_reachable(from, to);
        if result {
            self.positive_cache.push((from, to));
        } else {
            self.negative_cache.push((from, to));
        }
        proof {
            if old(self).cache_sound() {
                assert forall|q: int| 0 <= q < self.positives().len()
                    implies self.walk_answer(#[trigger] self.positives()[q].0, self.positives()[q].1) by {
                    if q < old(self).positives().len() {
                        assert(self.positives()[q] == old(self).positives()[q]);
                    }
                }
                assert forall|q: int| 0 <= q < self.negatives().len()
                    implies !self.walk_answer(#[trigger] self.negatives()[q].0, self.negatives()[q].1) by {
                    if q < old(self).negatives().len() {
                        assert(self.negatives()[q] == old(self).negatives()[q]);
                    }
                }
            }
        }
        result
    }

    /// A walk up the direct parents from `from`, looking for `to`.
    fn bfs_reachable(&self, from: u32, to: u32) -> (r: bool)
        requires
            from == to || ((from as int) < self.table().len() && table_wf(self.table())),
        ensures
            r == self.walk_answer(from, to),
    {
        if from == to {
            return true;
        }
        let marks = reached_from(&self.direct_parents, from);
        if (to as usize) < marks.len() {
            marks[to as usize]
        } else {
            proof {
                if reaches(self.table(), from as int, to as int) {
                    let k = choose|k: nat| #[trigger] steps_within(self.table(), from as int, to as int, k);
                    lemma_steps_in_range(self.table(), from as int, to as int, k);
                }
            }
            false
        }
    }
}

} // verus!
