//! The linear-time class hierarchy: classes interned by index, direct
//! parents as index lists, and all ancestors computed in one pass over a
//! topological order of the hierarchy.

use vstd::prelude::*;
use crate::iri::IRI;
use crate::error::{OwlError, OwlResult};
use crate::class_graph::{ClassGraph, has_edge, is_topological_order};
use crate::class_expression::ClassExpression;
use crate::ontology::{Ontology, class_iris, subclass_axioms_of};
use crate::binary_format::add_names;
use crate::compact_hierarchy::{
    iri_texts, position_of, thing_text, nothing_text, hierarchy_iris, edge_of, axiom_edge, axiom_edge_within,
};

verus! {

broadcast use vstd::std_specs::vec::group_vec_axioms;

/// Interns IRIs: each text gets the next index the first time it is seen.
#[derive(Debug)]
pub struct IriPool {
    idx_to_iri: Vec<IRI>,
    next_idx: u32,
}

impl IriPool {
    /// The interned texts, by index.
    pub closed spec fn texts(&self) -> Seq<Seq<char>> {
        iri_texts(self.idx_to_iri@)
    }

    /// The next index is the number of interned IRIs.
    pub closed spec fn wf(&self) -> bool {
        self.next_idx as int == self.idx_to_iri@.len()
    }

    /// An empty pool.
    pub fn new() -> (r: Self)
        ensures
            r.wf(),
            r.texts() == Seq::<Seq<char>>::empty(),
    {
        let r = IriPool { idx_to_iri: Vec::new(), next_idx: 0 };
        assert(r.texts() =~= Seq::<Seq<char>>::empty());
        r
    }

    /// The index of `iri`: the one it already has, or the next one.
    pub fn get_or_insert(&mut self, iri: IRI) -> (r: u32)
        requires
            old(self).wf(),
            old(self).texts().len() < u32::MAX,
        ensures
            final(self).wf(),
            match old(self).texts().index_of_first(iri@) {
                Some(k) => r == k && final(self).texts() == old(self).texts(),
                None => r == old(self).texts().len() && final(self).texts() == old(self).texts().push(iri@),
            },
    {
        match position_of(&self.idx_to_iri, &iri) {
            Some(k) => {
                proof {
                    self.texts().index_of_first_ensures(iri@);
                }
                k as u32
            },
            None => {
                let idx = self.next_idx;
                let ghost before = self.idx_to_iri@;
                self.next_idx = self.next_idx + 1;
                self.idx_to_iri.push(iri);
                assert(iri_texts(self.idx_to_iri@) =~= iri_texts(before).push(iri@));
                idx
            },
        }
    }

    /// The IRI with index `idx`, if any.
    pub fn get_iri(&self, idx: u32) -> (r: Option<&IRI>)
        ensures
            (idx as int) < self.texts().len() ==> (r matches Some(i) && i@ == self.texts()[idx as int]),
            (idx as int) >= self.texts().len() ==> r is None,
    {
        if (idx as usize) < self.idx_to_iri.len() {
            Some(&self.idx_to_iri[idx as usize])
        } else {
            None
        }
    }

    /// The number of interned IRIs.
    pub fn len(&self) -> (r: usize)
        ensures
            r == self.texts().len(),
    {
        self.idx_to_iri.len()
    }

    /// Whether no IRI is interned.
    pub fn is_empty(&self) -> (r: bool)
        ensures
            r == (self.texts().len() == 0),
    {
        self.idx_to_iri.len() == 0
    }

    /// The index of `iri`, if it is interned.
    pub fn index_of(&self, iri: &IRI) -> (r: Option<u32>)
        requires
            self.wf(),
        ensures
            r == (match self.texts().index_of_first(iri@) {
                Some(k) => Some(k as u32),
                None => None::<u32>,
            }),
    {
        match position_of(&self.idx_to_iri, iri) {
            Some(k) => {
                proof {
                    self.texts().index_of_first_ensures(iri@);
                }
                Some(k as u32)
            },
            None => None,
        }
    }
}

/// Strictly increasing: sorted without repeats.
pub open spec fn increasing(s: Seq<u32>) -> bool {
    forall|i: int, j: int| 0 <= i < j < s.len() ==> s[i] < s[j]
}

/// A set of class indexes, kept as a strictly increasing list.
#[derive(Debug)]
pub struct AncestorSet {
    items: Vec<u32>,
}

impl View for AncestorSet {
    type V = Set<u32>;

    closed spec fn view(&self) -> Set<u32> {
        self.items@.to_set()
    }
}

impl AncestorSet {
    /// The members in increasing order.
    pub closed spec fn elements(&self) -> Seq<u32> {
        self.items@
    }

    /// The list is strictly increasing.
    pub closed spec fn wf(&self) -> bool {
        increasing(self.items@)
    }

    /// The members are the listed ones.
    pub proof fn lemma_members(&self)
        ensures
            forall|x: u32| #[trigger] self@.contains(x) <==> self.elements().contains(x),
    {
    }

    /// An empty set.
    pub fn new() -> (r: Self)
        ensures
            r.wf(),
            r@ == Set::<u32>::empty(),
            r.elements().len() == 0,
    {
        let r = AncestorSet { items: Vec::new() };
        assert(r@ =~= Set::<u32>::empty());
        r
    }

    /// Where `x` is or belongs in the list.
    fn search(&self, x: u32) -> (r: (bool, usize))
        requires
            self.wf(),
        ensures
            r.1 <= self.items@.len(),
            forall|i: int| 0 <= i < r.1 ==> self.items@[i] < x,
            forall|i: int| r.1 <= i < self.items@.len() ==> self.items@[i] >= x,
            r.0 == (r.1 < self.items@.len() && self.items@[r.1 as int] == x),
            r.0 == self.items@.contains(x),
    {
        let mut lo: usize = 0;
        let mut hi: usize = self.items.len();
        while lo < hi
            invariant
                lo <= hi <= self.items@.len(),
                self.wf(),
                forall|i: int| 0 <= i < lo ==> self.items@[i] < x,
                forall|i: int| hi <= i < self.items@.len() ==> self.items@[i] >= x,
            decreases hi - lo,
        {
            let mid = lo + (hi - lo) / 2;
            if self.items[mid] < x {
                lo = mid + 1;
            } else {
                hi = mid;
            }
        }
        let found = lo < self.items.len() && self.items[lo] == x;
        proof {
            if !found && self.items@.contains(x) {
                let k = choose|k: int| 0 <= k < self.items@.len() && self.items@[k] == x;
                if k < lo {
                } else if k > lo {
                    assert(self.items@[lo as int] < self.items@[k]);
                }
            }
        }
        (found, lo)
    }

    /// Whether `x` is a member.
    pub fn contains(&self, x: u32) -> (r: bool)
        requires
            self.wf(),
        ensures
            r == self@.contains(x),
    {
        self.search(x).0
    }

    /// Adds `x`.
    pub fn insert(&mut self, x: u32)
        requires
            old(self).wf(),
        ensures
            final(self).wf(),
            final(self)@ == old(self)@.insert(x),
            old(self)@.contains(x) ==> final(self).elements() == old(self).elements(),
            !old(self)@.contains(x) ==> final(self).elements().len() == old(self).elements().len() + 1,
    {
        let (found, pos) = self.search(x);
        if !found {
            let ghost before = self.items@;
            self.items.insert(pos, x);
            proof {
                assert(self.items@ =~= before.insert(pos as int, x));
                assert forall|i: int, j: int| 0 <= i < j < self.items@.len() implies self.items@[i] < self.items@[j] by {
                    if j < pos {
                    } else if j == pos {
                    } else if i < pos {
                    } else if i == pos {
                        assert(before[j - 1] >= x);
                        assert(before[j - 1] != x);
                    } else {
                        assert(before[i - 1] < before[j - 1]);
                    }
                }
                assert forall|y: u32| #[trigger] self.items@.contains(y) <==> before.contains(y) || y == x by {
                    if self.items@.contains(y) {
                        let k = choose|k: int| 0 <= k < self.items@.len() && self.items@[k] == y;
                        if k < pos {
                            assert(before[k] == y);
                        } else if k > pos {
                            assert(before[k - 1] == y);
                        }
                    }
                    if before.contains(y) {
                        let k = choose|k: int| 0 <= k < before.len() && before[k] == y;
                        if k < pos {
                            assert(self.items@[k] == y);
                        } else {
                            assert(self.items@[k + 1] == y);
                        }
                    }
                    if y == x {
                        assert(self.items@[pos as int] == x);
                    }
                }
                assert(self@ =~= old(self)@.insert(x));
            }
        } else {
            proof {
                assert(old(self)@.contains(x));
                assert(self@ =~= old(self)@.insert(x));
            }
        }
    }

    /// Adds every member of `other`.
    pub fn extend(&mut self, other: &AncestorSet)
        requires
            old(self).wf(),
            other.wf(),
        ensures
            final(self).wf(),
            final(self)@ == old(self)@.union(other@),
    {
        let mut k: usize = 0;
        while k < other.items.len()
            invariant
                self.wf(),
                other.wf(),
                k <= other.items@.len(),
                forall|y: u32| #[trigger] self@.contains(y) <==> (old(self)@.contains(y)
                    || exists|m: int| 0 <= m < k && other.items@[m] == y),
            decreases other.items@.len() - k,
        {
            let x = other.items[k];
            let ghost before = self@;
            self.insert(x);
            proof {
                assert forall|y: u32| #[trigger] self@.contains(y) <==> (old(self)@.contains(y)
                    || exists|m: int| 0 <= m < k + 1 && other.items@[m] == y) by {
                    if y == x {
                        assert(other.items@[k as int] == y);
                    }
                    if exists|m: int| 0 <= m < k + 1 && other.items@[m] == y {
                        let m = choose|m: int| 0 <= m < k + 1 && other.items@[m] == y;
                        if m < k {
                            assert(before.contains(y));
                        }
                    }
                }
            }
            k += 1;
        }
        proof {
            assert forall|y: u32| #[trigger] self@.contains(y) <==> old(self)@.union(other@).contains(y) by {
                if other.items@.contains(y) {
                    let m = choose|m: int| 0 <= m < other.items@.len() && other.items@[m] == y;
                    assert(exists|m: int| 0 <= m < k && other.items@[m] == y);
                }
            }
            assert(self@ =~= old(self)@.union(other@));
        }
    }

    /// The number of members.
    pub fn len(&self) -> (r: usize)
        ensures
            r == self.elements().len(),
    {
        self.items.len()
    }

    /// Whether there is no member.
    pub fn is_empty(&self) -> (r: bool)
        ensures
            r == (self.elements().len() == 0),
            r == (self@ == Set::<u32>::empty()),
    {
        proof {
            if self.items@.len() > 0 {
                assert(self@.contains(self.items@[0]));
            } else {
                assert(self@ =~= Set::<u32>::empty());
            }
        }
        self.items.len() == 0
    }

    /// The members in increasing order.
    pub fn to_set(&self) -> (r: Vec<u32>)
        ensures
            r@ == self.elements(),
    {
        let mut r: Vec<u32> = Vec::new();
        let mut k: usize = 0;
        while k < self.items.len()
            invariant
                k <= self.items@.len(),
                r@ == self.items@.take(k as int),
            decreases self.items@.len() - k,
        {
            r.push(self.items[k]);
            assert(self.items@.take(k + 1) =~= self.items@.take(k as int).push(self.items@[k as int]));
            k += 1;
        }
        assert(self.items@.take(k as int) =~= self.items@);
        r
    }

    /// A copy of the set.
    pub fn duplicate(&self) -> (r: Self)
        requires
            self.wf(),
        ensures
            r.wf(),
            r.elements() == self.elements(),
            r@ == self@,
    {
        AncestorSet { items: self.to_set() }
    }
}

impl Default for AncestorSet {
    fn default() -> (r: Self)
        ensures
            r.wf(),
            r@ == Set::<u32>::empty(),
    {
        AncestorSet::new()
    }
}


/// The class hierarchy by index: `owl:Thing` at 0, `owl:Nothing` at 1,
/// then the classes of the ontology; direct parents as index lists and all
/// ancestors as sets.
#[derive(Debug)]
pub struct OptimizedHierarchy {
    pool: IriPool,
    direct_parents: Vec<Vec<u32>>,
    ancestors: Vec<AncestorSet>,
    thing_idx: u32,
    nothing_idx: u32,
}

impl OptimizedHierarchy {
    /// The indexed class texts, by index.
    pub closed spec fn iris(&self) -> Seq<Seq<char>> {
        self.pool.texts()
    }

    /// The number of indexed classes.
    pub open spec fn count(&self) -> int {
        self.iris().len() as int
    }

    /// The direct parents recorded for class `i`, in order.
    pub closed spec fn parents(&self, i: int) -> Seq<u32> {
        self.direct_parents@[i]@
    }

    /// The ancestors recorded for class `i`.
    pub closed spec fn ancestor_set(&self, i: int) -> Set<u32> {
        self.ancestors@[i]@
    }

    /// Class `j` is a direct parent of class `i`.
    pub open spec fn has_parent(&self, i: int, j: int) -> bool {
        0 <= i < self.count() && 0 <= j < self.count() && self.parents(i).contains(j as u32)
    }

    /// Class `j` is a recorded ancestor of class `i`.
    pub open spec fn has_ancestor(&self, i: int, j: int) -> bool {
        0 <= i < self.count() && 0 <= j < self.count() && self.ancestor_set(i).contains(j as u32)
    }

    /// The tables cover the indexed classes and name only them.
    pub closed spec fn wf(&self) -> bool {
        &&& self.pool.wf()
        &&& 2 <= self.count() <= u32::MAX
        &&& self.direct_parents@.len() == self.count()
        &&& self.ancestors@.len() == self.count()
        &&& self.thing_idx == 0
        &&& self.nothing_idx == 1
        &&& forall|i: int, k: int| 0 <= i < self.count() && 0 <= k < self.parents(i).len()
            ==> (#[trigger] self.parents(i)[k] as int) < self.count()
        &&& forall|i: int| 0 <= i < self.count() ==> (#[trigger] self.ancestors@[i]).wf()
        &&& forall|i: int, x: u32| 0 <= i < self.count() && #[trigger] self.ancestor_set(i).contains(x)
            ==> (x as int) < self.count()
    }

    /// Indexes `owl:Thing`, `owl:Nothing` and the classes of `ontology`,
    /// with no relationship recorded yet.
    pub fn new(ontology: &Ontology) -> (r: OwlResult<Self>)
        requires
            ontology.classes_spec().len() + 2 <= u32::MAX,
        ensures
            r matches Ok(h) && h.wf() && h.iris() == hierarchy_iris(*ontology)
                && forall|i: int, j: int| !h.has_parent(i, j) && !h.has_ancestor(i, j),
    {
        proof {
            reveal_strlit("http://www.w3.org/2002/07/owl#Thing");
            reveal_strlit("http://www.w3.org/2002/07/owl#Nothing");
        }
        let thing = match IRI::new("http://www.w3.org/2002/07/owl#Thing") {
            Ok(i) => i,
            Err(e) => { return Err(e); },
        };
        let nothing = match IRI::new("http://www.w3.org/2002/07/owl#Nothing") {
            Ok(i) => i,
            Err(e) => { return Err(e); },
        };
        let mut pool = IriPool::new();
        proof {
            pool.texts().index_of_first_ensures(thing@);
        }
        let thing_idx = pool.get_or_insert(thing);
        assert(thing_text() != nothing_text()) by {
            assert(thing_text()[31] != nothing_text()[31]);
        }
        proof {
            pool.texts().index_of_first_ensures(nothing@);
            assert(pool.texts() =~= seq![thing_text()]);
            assert(!pool.texts().contains(nothing_text())) by {
                if pool.texts().contains(nothing_text()) {
                    assert(pool.texts()[0] == nothing_text());
                }
            }
        }
        let nothing_idx = pool.get_or_insert(nothing);
        let ghost start = seq![thing_text(), nothing_text()];
        assert(pool.texts() =~= start);
        let classes = ontology.classes();
        let ghost cn = class_iris(classes@);
        let mut k: usize = 0;
        while k < classes.len()
            invariant
                k <= classes@.len(),
                classes@ == ontology.classes_spec(),
                ontology.classes_spec().len() + 2 <= u32::MAX,
                cn == class_iris(classes@),
                pool.wf(),
                pool.texts() == add_names(start, cn.take(k as int)),
                2 <= pool.texts().len() <= k + 2,
            decreases classes@.len() - k,
        {
            let iri = (**classes[k].iri()).clone();
            let ghost before = pool.texts();
            proof {
                before.index_of_first_ensures(iri@);
            }
            let _ = pool.get_or_insert(iri);
            proof {
                assert(cn.take(k + 1).drop_last() == cn.take(k as int));
                assert(cn.take(k + 1).last() == cn[k as int]);
                assert(cn[k as int] == iri@);
            }
            k += 1;
        }
        assert(cn.take(classes@.len() as int) == cn);
        let n = pool.len();
        let mut direct_parents: Vec<Vec<u32>> = Vec::new();
        let mut ancestors: Vec<AncestorSet> = Vec::new();
        let mut i: usize = 0;
        while i < n
            invariant
                i <= n,
                direct_parents@.len() == i,
                ancestors@.len() == i,
                forall|j: int| 0 <= j < i ==> (#[trigger] direct_parents@[j])@.len() == 0,
                forall|j: int| 0 <= j < i ==> (#[trigger] ancestors@[j]).wf() && ancestors@[j]@ == Set::<u32>::empty(),
            decreases n - i,
        {
            direct_parents.push(Vec::new());
            ancestors.push(AncestorSet::new());
            i += 1;
        }
        let h = OptimizedHierarchy { pool, direct_parents, ancestors, thing_idx, nothing_idx };
        proof {
            assert forall|i: int, j: int| !h.has_parent(i, j) && !h.has_ancestor(i, j) by {
                if 0 <= i < h.count() {
                    assert(h.parents(i).len() == 0);
                    assert(h.ancestor_set(i) == Set::<u32>::empty());
                }
            }
        }
        Ok(h)
    }

    /// Records `parent` as a direct parent of `child`.
    fn add_parent(&mut self, child: u32, parent: u32)
        requires
            old(self).wf(),
            (child as int) < old(self).count(),
            (parent as int) < old(self).count(),
        ensures
            final(self).wf(),
            final(self).iris() == old(self).iris(),
            final(self).parents(child as int) == old(self).parents(child as int).push(parent),
            forall|i: int| i != child && 0 <= i < old(self).count() ==> #[trigger] final(self).parents(i) == old(self).parents(i),
            forall|i: int, j: int| #[trigger] final(self).has_parent(i, j)
                == (old(self).has_parent(i, j) || (i == child && j == parent)),
            forall|i: int| 0 <= i < old(self).count() ==> #[trigger] final(self).ancestors@[i] == old(self).ancestors@[i],
    {
        let mut row = Vec::new();
        std::mem::swap(&mut row, &mut self.direct_parents[child as usize]);
        let ghost before = row@;
        assert(before == old(self).parents(child as int));
        row.push(parent);
        self.direct_parents.set(child as usize, row);
        proof {
            assert(self.direct_parents@.len() == old(self).direct_parents@.len());
            assert(self.pool == old(self).pool);
            assert(self.ancestors == old(self).ancestors);
            assert(self.thing_idx == 0 && self.nothing_idx == 1);
            assert forall|i: int| i != child && 0 <= i < old(self).count() implies #[trigger] self.parents(i) == old(self).parents(i) by {
                assert(self.direct_parents@[i] == old(self).direct_parents@[i]);
            }
            assert(self.parents(child as int) == before.push(parent));
            assert forall|i: int, j: int| #[trigger] self.has_parent(i, j)
                == (old(self).has_parent(i, j) || (i == child && j == parent)) by {
                if i == child as int && 0 <= j < self.count() {
                    assert(before.push(parent)[before.len() as int] == parent);
                    if before.contains(j as u32) {
                        let k = choose|k: int| 0 <= k < before.len() && before[k] == j as u32;
                        assert(before.push(parent)[k] == j as u32);
                    }
                    if before.push(parent).contains(j as u32) && j != parent {
                        let k = choose|k: int| 0 <= k < before.len() + 1 && before.push(parent)[k] == j as u32;
                        assert(before[k] == j as u32);
                    }
                }
            }
            assert forall|i: int, k: int| 0 <= i < self.count() && 0 <= k < self.parents(i).len()
                implies (#[trigger] self.parents(i)[k] as int) < self.count() by {
                if i == child as int && k < before.len() {
                    assert(old(self).parents(i)[k] == self.parents(i)[k]);
                } else if i != child as int {
                    assert(old(self).parents(i)[k] == self.parents(i)[k]);
                }
            }
            assert(self.pool.wf());
            assert(2 <= self.count() <= u32::MAX);
            assert(self.direct_parents@.len() == self.count());
            assert(self.ancestors@.len() == self.count());
            assert(forall|i: int| 0 <= i < self.count() ==> (#[trigger] self.ancestors@[i]).wf());
            assert forall|i: int, x: u32| 0 <= i < self.count() && #[trigger] self.ancestor_set(i).contains(x)
                implies (x as int) < self.count() by {
                assert(self.ancestor_set(i) == old(self).ancestor_set(i));
            }
        }
    }
}


/// A parent recorded in `h`, or given by a subclass axiom of `o` between
/// indexed named classes.
pub open spec fn opt_parent_with_axioms(h: OptimizedHierarchy, o: Ontology, i: int, j: int) -> bool {
    h.has_parent(i, j) || axiom_edge(h.iris(), o, i, j)
}

/// The direct parents that building from `o` gives: the recorded ones and
/// the subclass axioms' edges; `owl:Thing` for each other class left
/// without a parent (but `owl:Nothing`); every class but itself for
/// `owl:Nothing`.
pub open spec fn opt_built_parent(h: OptimizedHierarchy, o: Ontology, i: int, j: int) -> bool {
    ||| opt_parent_with_axioms(h, o, i, j)
    ||| (2 <= i < h.count() && j == 0 && forall|k: int| !#[trigger] opt_parent_with_axioms(h, o, i, k))
    ||| (i == 1 && 0 <= j < h.count() && j != 1)
}

impl OptimizedHierarchy {
    /// Records the edges of the subclass axioms between indexed named classes.
    fn add_axiom_edges(&mut self, ontology: &Ontology)
        requires
            old(self).wf(),
        ensures
            final(self).wf(),
            final(self).iris() == old(self).iris(),
            forall|i: int, j: int| #[trigger] final(self).has_parent(i, j)
                == opt_parent_with_axioms(*old(self), *ontology, i, j),
            forall|i: int| 0 <= i < old(self).count() ==> #[trigger] final(self).ancestors@[i] == old(self).ancestors@[i],
    {
        let axioms = ontology.subclass_axioms();
        let ghost subs = subclass_axioms_of(ontology.axioms_spec());
        let ghost iris = self.iris();
        let mut k: usize = 0;
        while k < axioms.len()
            invariant
                self.wf(),
                self.iris() == iris,
                iris == old(self).iris(),
                axioms@.len() == subs.len(),
                forall|m: int| 0 <= m < axioms@.len() ==> *axioms@[m] == #[trigger] subs[m],
                subs == subclass_axioms_of(ontology.axioms_spec()),
                k <= axioms@.len(),
                forall|i: int, j: int| #[trigger] self.has_parent(i, j)
                    == (old(self).has_parent(i, j) || axiom_edge_within(iris, *ontology, k as int, i, j)),
                forall|i: int| 0 <= i < old(self).count() ==> #[trigger] self.ancestors@[i] == old(self).ancestors@[i],
            decreases axioms@.len() - k,
        {
            let ax = axioms[k];
            let mut found = false;
            match (ax.sub_class(), ax.super_class()) {
                (ClassExpression::Class(a), ClassExpression::Class(b)) => {
                    let ia = self.pool.index_of(&**a.iri());
                    let ib = self.pool.index_of(&**b.iri());
                    match (ia, ib) {
                        (Some(x), Some(y)) => {
                            proof {
                                iris.index_of_first_ensures(a.iri_spec()@);
                                iris.index_of_first_ensures(b.iri_spec()@);
                            }
                            self.add_parent(x, y);
                            found = true;
                            proof {
                                assert(edge_of(iris, subs[k as int], x as int, y as int));
                                assert forall|i: int, j: int| #[trigger] self.has_parent(i, j)
                                    == (old(self).has_parent(i, j) || axiom_edge_within(iris, *ontology, k + 1, i, j)) by {
                                    if axiom_edge_within(iris, *ontology, k + 1, i, j) && !(i == x && j == y) {
                                        let m = choose|m: int| 0 <= m < k + 1
                                            && #[trigger] edge_of(iris, subclass_axioms_of(ontology.axioms_spec())[m], i, j);
                                        if m == k {
                                            assert(edge_of(iris, subs[k as int], i, j));
                                        }
                                        assert(axiom_edge_within(iris, *ontology, k as int, i, j));
                                    }
                                    if axiom_edge_within(iris, *ontology, k as int, i, j) {
                                        let m = choose|m: int| 0 <= m < k
                                            && #[trigger] edge_of(iris, subclass_axioms_of(ontology.axioms_spec())[m], i, j);
                                        assert(edge_of(iris, subclass_axioms_of(ontology.axioms_spec())[m], i, j));
                                    }
                                }
                            }
                        },
                        _ => {
                            proof {
                                iris.index_of_first_ensures(a.iri_spec()@);
                                iris.index_of_first_ensures(b.iri_spec()@);
                            }
                        },
                    }
                },
                _ => {},
            }
            if !found {
                proof {
                    assert(forall|i: int, j: int| !edge_of(iris, subs[k as int], i, j));
                    assert forall|i: int, j: int|
                        axiom_edge_within(iris, *ontology, k + 1, i, j)
                        == axiom_edge_within(iris, *ontology, k as int, i, j) by {
                        if axiom_edge_within(iris, *ontology, k + 1, i, j) {
                            let m = choose|m: int| 0 <= m < k + 1
                                && #[trigger] edge_of(iris, subclass_axioms_of(ontology.axioms_spec())[m], i, j);
                            assert(m != k);
                        }
                        if axiom_edge_within(iris, *ontology, k as int, i, j) {
                            let m = choose|m: int| 0 <= m < k
                                && #[trigger] edge_of(iris, subclass_axioms_of(ontology.axioms_spec())[m], i, j);
                            assert(edge_of(iris, subclass_axioms_of(ontology.axioms_spec())[m], i, j));
                        }
                    }
                }
            }
            k += 1;
        }
    }

    /// Gives `owl:Thing` as parent to each class other than `owl:Thing` and
    /// `owl:Nothing` that has no parent.
    fn attach_orphans_to_thing(&mut self)
        requires
            old(self).wf(),
        ensures
            final(self).wf(),
            final(self).iris() == old(self).iris(),
            forall|i: int, j: int| #[trigger] final(self).has_parent(i, j)
                == (old(self).has_parent(i, j) || (2 <= i < old(self).count() && j == 0
                    && forall|k: int| !#[trigger] old(self).has_parent(i, k))),
            forall|i: int| 0 <= i < old(self).count() ==> #[trigger] final(self).ancestors@[i] == old(self).ancestors@[i],
    {
        let n = self.pool.len();
        let mut idx: usize = 0;
        while idx < n
            invariant
                self.wf(),
                self.iris() == old(self).iris(),
                n == self.count(),
                idx <= n,
                forall|i: int, j: int| idx <= i ==> #[trigger] self.has_parent(i, j) == old(self).has_parent(i, j),
                forall|i: int, j: int| i < idx ==> #[trigger] self.has_parent(i, j)
                    == (old(self).has_parent(i, j) || (2 <= i < n && j == 0
                        && forall|k: int| !#[trigger] old(self).has_parent(i, k))),
                forall|i: int| 0 <= i < old(self).count() ==> #[trigger] self.ancestors@[i] == old(self).ancestors@[i],
            decreases n - idx,
        {
            let empty = self.direct_parents[idx].len() == 0;
            if idx >= 2 && empty {
                proof {
                    assert forall|k: int| !#[trigger] old(self).has_parent(idx as int, k) by {
                        assert(self.has_parent(idx as int, k) == old(self).has_parent(idx as int, k));
                        assert(self.parents(idx as int).len() == 0);
                    }
                }
                self.add_parent(idx as u32, 0);
            } else {
                proof {
                    if idx >= 2 {
                        assert(!empty);
                        let p = self.parents(idx as int)[0];
                        assert(self.has_parent(idx as int, p as int));
                        assert(old(self).has_parent(idx as int, p as int));
                    }
                }
            }
            idx += 1;
        }
    }

    /// Makes `owl:Nothing` a child of every other class.
    fn put_nothing_under_all(&mut self)
        requires
            old(self).wf(),
        ensures
            final(self).wf(),
            final(self).iris() == old(self).iris(),
            forall|i: int, j: int| #[trigger] final(self).has_parent(i, j)
                == (old(self).has_parent(i, j) || (i == 1 && 0 <= j < old(self).count() && j != 1)),
            forall|i: int| 0 <= i < old(self).count() ==> #[trigger] final(self).ancestors@[i] == old(self).ancestors@[i],
    {
        let n = self.pool.len();
        let mut idx: usize = 0;
        while idx < n
            invariant
                self.wf(),
                self.iris() == old(self).iris(),
                n == self.count(),
                idx <= n,
                forall|i: int, j: int| #[trigger] self.has_parent(i, j)
                    == (old(self).has_parent(i, j) || (i == 1 && 0 <= j < idx && j != 1)),
                forall|i: int| 0 <= i < old(self).count() ==> #[trigger] self.ancestors@[i] == old(self).ancestors@[i],
            decreases n - idx,
        {
            if idx != 1 {
                self.add_parent(1, idx as u32);
            }
            idx += 1;
        }
    }

    /// Builds the direct relationships from the subclass axioms of
    /// `ontology`, then places parentless classes under `owl:Thing` and
    /// `owl:Nothing` under every class.
    pub fn build_from_ontology(&mut self, ontology: &Ontology) -> (r: OwlResult<()>)
        requires
            old(self).wf(),
        ensures
            r is Ok,
            final(self).wf(),
            final(self).iris() == old(self).iris(),
            forall|i: int, j: int| #[trigger] final(self).has_parent(i, j) == opt_built_parent(*old(self), *ontology, i, j),
            forall|i: int, j: int| #[trigger] final(self).has_ancestor(i, j) == old(self).has_ancestor(i, j),
    {
        let ghost h0 = *self;
        self.add_axiom_edges(ontology);
        let ghost h1 = *self;
        self.attach_orphans_to_thing();
        self.put_nothing_under_all();
        proof {
            assert forall|i: int, j: int| #[trigger] self.has_parent(i, j) == opt_built_parent(h0, *ontology, i, j) by {
                let fa = forall|k: int| !#[trigger] opt_parent_with_axioms(h0, *ontology, i, k);
                let fb = forall|k: int| !#[trigger] h1.has_parent(i, k);
                if fa {
                    assert forall|k: int| !#[trigger] h1.has_parent(i, k) by {
                        assert(!opt_parent_with_axioms(h0, *ontology, i, k));
                    }
                }
                if fb {
                    assert forall|k: int| !#[trigger] opt_parent_with_axioms(h0, *ontology, i, k) by {
                        assert(!h1.has_parent(i, k));
                    }
                }
                assert(fa == fb);
            }
            assert forall|i: int, j: int| #[trigger] self.has_ancestor(i, j) == h0.has_ancestor(i, j) by {
                if 0 <= i < h0.count() {
                    assert(self.ancestors@[i] == h0.ancestors@[i]);
                }
            }
        }
        Ok(())
    }
}


impl OptimizedHierarchy {
    /// Class `j` is reached from class `i` in one to `k` parent steps.
    pub open spec fn within(&self, i: int, j: int, k: nat) -> bool
        decreases k,
    {
        if k == 0 {
            false
        } else {
            self.has_parent(i, j) || exists|p: int| #[trigger] self.has_parent(i, p) && self.within(p, j, (k - 1) as nat)
        }
    }

    /// Class `j` is reached from class `i` in one or more parent steps.
    pub open spec fn reachable(&self, i: int, j: int) -> bool {
        exists|k: nat| #[trigger] self.within(i, j, k)
    }

    /// The ancestors of `i` once the recorded ancestors are closed under
    /// the parent steps: those recorded, those reached, and those recorded
    /// for a class reached.
    pub open spec fn closed_ancestor(&self, i: int, j: int) -> bool {
        ||| self.has_ancestor(i, j)
        ||| self.reachable(i, j)
        ||| exists|m: int| #[trigger] self.reachable(i, m) && self.has_ancestor(m, j)
    }

    /// `o` lists every class once, each after all of its direct parents.
    pub open spec fn parent_order(&self, o: Seq<u32>) -> bool {
        &&& o.len() == self.count()
        &&& o.no_duplicates()
        &&& forall|a: int| 0 <= a < o.len() ==> (#[trigger] o[a] as int) < self.count()
        &&& forall|v: u32| (v as int) < self.count() ==> o.contains(v)
        &&& forall|a: int, b: int| 0 <= a < o.len() && 0 <= b < o.len()
            && #[trigger] self.has_parent(o[b] as int, o[a] as int) ==> a < b
    }

    /// What is reached is a class.
    pub proof fn lemma_within_range(&self, i: int, j: int, k: nat)
        requires
            self.within(i, j, k),
        ensures
            0 <= j < self.count(),
        decreases k,
    {
        if !self.has_parent(i, j) {
            let p = choose|p: int| #[trigger] self.has_parent(i, p) && self.within(p, j, (k - 1) as nat);
            self.lemma_within_range(p, j, (k - 1) as nat);
        }
    }

    /// A closed ancestor is a class.
    pub proof fn lemma_closed_range(&self, i: int, j: int)
        requires
            self.closed_ancestor(i, j),
        ensures
            0 <= j < self.count(),
    {
        if self.reachable(i, j) {
            let k = choose|k: nat| #[trigger] self.within(i, j, k);
            self.lemma_within_range(i, j, k);
        }
    }

    /// One step more: reaching `j` from a parent reaches it from the child.
    pub proof fn lemma_within_step(&self, i: int, p: int, j: int, k: nat)
        requires
            self.has_parent(i, p),
            self.within(p, j, k),
        ensures
            self.within(i, j, k + 1),
    {
        assert(self.within(i, j, k + 1));
    }

    /// The closed ancestors of a class are its recorded ones, its direct
    /// parents, and the closed ancestors of those.
    pub proof fn lemma_closed_unfold(&self, c: int, x: int)
        ensures
            self.closed_ancestor(c, x) <==> (self.has_ancestor(c, x)
                || exists|p: int| #[trigger] self.has_parent(c, p) && (x == p || self.closed_ancestor(p, x))),
    {
        if self.reachable(c, x) {
            let k = choose|k: nat| #[trigger] self.within(c, x, k);
            if self.has_parent(c, x) {
                assert(self.has_parent(c, x) && x == x);
            } else {
                let p = choose|p: int| #[trigger] self.has_parent(c, p) && self.within(p, x, (k - 1) as nat);
                assert(self.reachable(p, x));
                assert(self.closed_ancestor(p, x));
            }
        }
        if exists|m: int| #[trigger] self.reachable(c, m) && self.has_ancestor(m, x) {
            let m = choose|m: int| #[trigger] self.reachable(c, m) && self.has_ancestor(m, x);
            let k = choose|k: nat| #[trigger] self.within(c, m, k);
            if self.has_parent(c, m) {
                assert(self.closed_ancestor(m, x));
            } else {
                let p = choose|p: int| #[trigger] self.has_parent(c, p) && self.within(p, m, (k - 1) as nat);
                assert(self.reachable(p, m));
                assert(self.closed_ancestor(p, x));
            }
        }
        if exists|p: int| #[trigger] self.has_parent(c, p) && (x == p || self.closed_ancestor(p, x)) {
            let p = choose|p: int| #[trigger] self.has_parent(c, p) && (x == p || self.closed_ancestor(p, x));
            if x == p {
                assert(self.within(c, x, 1));
            } else if self.has_ancestor(p, x) {
                assert(self.within(c, p, 1));
                assert(self.reachable(c, p) && self.has_ancestor(p, x));
            } else if self.reachable(p, x) {
                let k = choose|k: nat| #[trigger] self.within(p, x, k);
                self.lemma_within_step(c, p, x, k);
                assert(self.reachable(c, x));
            } else {
                let m = choose|m: int| #[trigger] self.reachable(p, m) && self.has_ancestor(m, x);
                let k = choose|k: nat| #[trigger] self.within(p, m, k);
                self.lemma_within_step(c, p, m, k);
                assert(self.reachable(c, m) && self.has_ancestor(m, x));
            }
        }
    }

    /// The class graph with an edge from each direct parent to its child.
    fn parent_graph(&self) -> (g: ClassGraph)
        requires
            self.wf(),
        ensures
            g.wf(),
            g.nodes() == self.count(),
            forall|p: u32, v: u32| (p as int) < self.count() && (v as int) < self.count() ==>
                (#[trigger] has_edge(g.edges(), p, v) <==> self.has_parent(v as int, p as int)),
    {
        let n = self.pool.len();
        let mut graph = ClassGraph::new(n);
        let mut c: usize = 0;
        proof {
            graph.lemma_edges_len();
            assert forall|p: u32, v: u32| (p as int) < n && (v as int) < n implies
                !#[trigger] has_edge(graph.edges(), p, v) by {
                assert(graph.edges()[p as int] == Seq::<u32>::empty());
            }
        }
        while c < n
            invariant
                self.wf(),
                n == self.count(),
                graph.wf(),
                graph.nodes() == n,
                c <= n,
                forall|p: u32, v: u32| (p as int) < n && (v as int) < n ==>
                    (#[trigger] has_edge(graph.edges(), p, v) <==> ((v as int) < c && self.has_parent(v as int, p as int))),
            decreases n - c,
        {
            let len = self.direct_parents[c].len();
            let mut k: usize = 0;
            while k < len
                invariant
                    self.wf(),
                    n == self.count(),
                    graph.wf(),
                    graph.nodes() == n,
                    c < n,
                    len == self.parents(c as int).len(),
                    k <= len,
                    forall|p: u32, v: u32| (p as int) < n && (v as int) < n ==>
                        (#[trigger] has_edge(graph.edges(), p, v) <==> (((v as int) < c && self.has_parent(v as int, p as int))
                            || (v as int == c && exists|q: int| 0 <= q < k && self.parents(c as int)[q] == p))),
                decreases len - k,
            {
                let p = self.direct_parents[c][k];
                assert((p as int) < n);
                proof {
                    graph.lemma_edges_len();
                }
                let ghost e0 = graph.edges();
                assert((c as u32) as int == c);
                graph.add_edge(p, c as u32);
                proof {
                    graph.lemma_edges_len();
                    assert(graph.edges() == e0.update(p as int, e0[p as int].push(c as u32)));
                    assert forall|u: u32, v: u32| (u as int) < n && (v as int) < n implies
                        (#[trigger] has_edge(graph.edges(), u, v) <==> (((v as int) < c && self.has_parent(v as int, u as int))
                            || (v as int == c && exists|q: int| 0 <= q < k + 1 && self.parents(c as int)[q] == u))) by {
                        let before = has_edge(e0, u, v);
                        assert(before <==> (((v as int) < c && self.has_parent(v as int, u as int))
                            || (v as int == c && exists|q: int| 0 <= q < k && self.parents(c as int)[q] == u)));
                        if u == p {
                            let old_row = e0[u as int];
                            let new_row = old_row.push(c as u32);
                            assert(graph.edges()[u as int] == new_row);
                            if new_row.contains(v) && v != c as u32 {
                                let m = choose|m: int| 0 <= m < new_row.len() && #[trigger] new_row[m] == v;
                                assert(old_row[m] == v);
                            }
                            if old_row.contains(v) {
                                let m = choose|m: int| 0 <= m < old_row.len() && #[trigger] old_row[m] == v;
                                assert(new_row[m] == v);
                            }
                            assert(new_row[old_row.len() as int] == c as u32);
                            assert(self.parents(c as int)[k as int] == u);
                            if v as int == c {
                                assert(has_edge(graph.edges(), u, v));
                                assert(0 <= k < k + 1 && self.parents(c as int)[k as int] == u);
                            } else {
                                assert(has_edge(graph.edges(), u, v) == before);
                            }
                        } else {
                            assert(graph.edges()[u as int] == e0[u as int]);
                            assert(has_edge(graph.edges(), u, v) == before);
                            if exists|q: int| 0 <= q < k + 1 && self.parents(c as int)[q] == u {
                                let q = choose|q: int| 0 <= q < k + 1 && self.parents(c as int)[q] == u;
                                assert(q != k);
                                assert(exists|q: int| 0 <= q < k && self.parents(c as int)[q] == u);
                            }
                        }
                    }
                }
                k += 1;
            }
            proof {
                assert forall|p: u32, v: u32| (p as int) < n && (v as int) < n implies
                    (#[trigger] has_edge(graph.edges(), p, v) <==> ((v as int) < c + 1 && self.has_parent(v as int, p as int))) by {
                    if v as int == c {
                        if self.has_parent(v as int, p as int) {
                            let q = choose|q: int| 0 <= q < len && self.parents(c as int)[q] == p;
                        }
                    }
                }
            }
            c += 1;
        }
        graph
    }

    /// Topological orders of the parent graph are the parent orders.
    proof fn lemma_orders(&self, g: ClassGraph, o: Seq<u32>)
        requires
            self.wf(),
            g.nodes() == self.count(),
            forall|p: u32, v: u32| (p as int) < self.count() && (v as int) < self.count() ==>
                (#[trigger] has_edge(g.edges(), p, v) <==> self.has_parent(v as int, p as int)),
        ensures
            is_topological_order(g.edges(), g.nodes(), o) <==> self.parent_order(o),
    {
        if is_topological_order(g.edges(), g.nodes(), o) {
            assert forall|a: int, b: int| 0 <= a < o.len() && 0 <= b < o.len()
                && #[trigger] self.has_parent(o[b] as int, o[a] as int) implies a < b by {
                assert(has_edge(g.edges(), o[a], o[b]));
            }
        }
        if self.parent_order(o) {
            assert forall|a: int, b: int| 0 <= a < o.len() && 0 <= b < o.len()
                && has_edge(g.edges(), o[a], o[b]) implies a < b by {
                assert(self.has_parent(o[b] as int, o[a] as int));
            }
        }
    }
}


impl OptimizedHierarchy {
    /// The ancestors of class `c` from those recorded and those of its
    /// direct parents.
    fn parents_closure_row(&self, c: usize, h0: Ghost<OptimizedHierarchy>) -> (row: AncestorSet)
        requires
            self.wf(),
            c < self.count(),
            self.ancestors@[c as int] == h0@.ancestors@[c as int],
        ensures
            row.wf(),
            forall|x: u32| #[trigger] row@.contains(x) ==> (x as int) < self.count(),
            forall|x: u32| #[trigger] row@.contains(x) <==> (h0@.ancestor_set(c as int).contains(x)
                || exists|p: int| #[trigger] self.has_parent(c as int, p)
                    && (x as int == p || self.ancestor_set(p).contains(x))),
    {
        let n = self.pool.len();
        let mut row = self.ancestors[c].duplicate();
        proof {
            assert forall|x: u32| #[trigger] row@.contains(x) implies (x as int) < n by {
                assert(self.ancestor_set(c as int).contains(x));
            }
        }
        let len = self.direct_parents[c].len();
        let mut k: usize = 0;
        while k < len
            invariant
                self.wf(),
                n == self.count(),
                c < n,
                len == self.parents(c as int).len(),
                self.ancestors@[c as int] == h0@.ancestors@[c as int],
                k <= len,
                row.wf(),
                forall|x: u32| #[trigger] row@.contains(x) ==> (x as int) < n,
                forall|x: u32| #[trigger] row@.contains(x) <==> (h0@.ancestor_set(c as int).contains(x)
                    || exists|q: int| 0 <= q < k && (#[trigger] self.parents(c as int)[q] == x
                        || self.ancestor_set(self.parents(c as int)[q] as int).contains(x))),
            decreases len - k,
        {
            let p = self.direct_parents[c][k];
            assert((p as int) < n);
            let ghost before = row@;
            row.insert(p);
            row.extend(&self.ancestors[p as usize]);
            proof {
                assert forall|x: u32| #[trigger] row@.contains(x) <==> (h0@.ancestor_set(c as int).contains(x)
                    || exists|q: int| 0 <= q < k + 1 && (#[trigger] self.parents(c as int)[q] == x
                        || self.ancestor_set(self.parents(c as int)[q] as int).contains(x))) by {
                    assert(self.parents(c as int)[k as int] == p);
                    if self.ancestor_set(p as int).contains(x) {
                        assert((x as int) < n);
                    }
                    if exists|q: int| 0 <= q < k + 1 && (#[trigger] self.parents(c as int)[q] == x
                        || self.ancestor_set(self.parents(c as int)[q] as int).contains(x)) {
                        let q = choose|q: int| 0 <= q < k + 1 && (#[trigger] self.parents(c as int)[q] == x
                            || self.ancestor_set(self.parents(c as int)[q] as int).contains(x));
                        if q < k {
                            assert(before.contains(x));
                        }
                    }
                }
                assert forall|x: u32| #[trigger] row@.contains(x) implies (x as int) < n by {
                    if !before.contains(x) && x != p {
                        assert(self.ancestor_set(p as int).contains(x));
                    }
                }
            }
            k += 1;
        }
        proof {
            assert forall|x: u32| #[trigger] row@.contains(x) <==> (h0@.ancestor_set(c as int).contains(x)
                || exists|p: int| #[trigger] self.has_parent(c as int, p)
                    && (x as int == p || self.ancestor_set(p).contains(x))) by {
                if exists|q: int| 0 <= q < len && (#[trigger] self.parents(c as int)[q] == x
                    || self.ancestor_set(self.parents(c as int)[q] as int).contains(x)) {
                    let q = choose|q: int| 0 <= q < len && (#[trigger] self.parents(c as int)[q] == x
                        || self.ancestor_set(self.parents(c as int)[q] as int).contains(x));
                    let p = self.parents(c as int)[q] as int;
                    assert(self.parents(c as int).contains(p as u32));
                    assert(self.has_parent(c as int, p));
                }
                if exists|p: int| #[trigger] self.has_parent(c as int, p)
                    && (x as int == p || self.ancestor_set(p).contains(x)) {
                    let p = choose|p: int| #[trigger] self.has_parent(c as int, p)
                        && (x as int == p || self.ancestor_set(p).contains(x));
                    let q = choose|q: int| 0 <= q < len && self.parents(c as int)[q] == p as u32;
                    assert(self.parents(c as int)[q] as int == p);
                }
            }
        }
        row
    }

    /// Computes all ancestors in one pass over a topological order of the
    /// hierarchy: each class, after all of its direct parents, receives
    /// them and their ancestors. A hierarchy with a cycle has no such order
    /// and is reported as an error.
    pub fn compute_ancestors_linear(&mut self) -> (r: OwlResult<()>)
        requires
            old(self).wf(),
        ensures
            final(self).wf(),
            final(self).iris() == old(self).iris(),
            forall|i: int, j: int| #[trigger] final(self).has_parent(i, j) == old(self).has_parent(i, j),
            (r is Ok) == (exists|o: Seq<u32>| old(self).parent_order(o)),
            r is Ok ==> forall|i: int, j: int| #[trigger] final(self).has_ancestor(i, j) == old(self).closed_ancestor(i, j),
            r is Err ==> (r matches Err(OwlError::ParseError(m)) && m@ == "Cycle detected in class hierarchy"@)
                && forall|i: int, j: int| #[trigger] final(self).has_ancestor(i, j) == old(self).has_ancestor(i, j),
    {
        let n = self.pool.len();
        let graph = self.parent_graph();
        let order = graph.kahn_toposort();
        proof {
            assert forall|o: Seq<u32>| is_topological_order(graph.edges(), graph.nodes(), o)
                <==> #[trigger] self.parent_order(o) by {
                self.lemma_orders(graph, o);
            }
        }
        if order.len() == 0 {
            proof {
                if exists|o: Seq<u32>| self.parent_order(o) {
                    let o = choose|o: Seq<u32>| self.parent_order(o);
                    assert(is_topological_order(graph.edges(), graph.nodes(), o));
                }
            }
            let msg = String::from_str("Cycle detected in class hierarchy");
            return Err(OwlError::ParseError(msg));
        }
        assert(self.parent_order(order@));
        let ghost h0 = *self;
        let mut t: usize = 0;
        while t < n
            invariant
                self.wf(),
                n == self.count(),
                h0.wf(),
                h0.count() == n,
                self.iris() == h0.iris(),
                self.direct_parents == h0.direct_parents,
                forall|i: int, j: int| #[trigger] self.has_parent(i, j) == h0.has_parent(i, j),
                h0.parent_order(order@),
                t <= n,
                forall|a: int, x: u32| 0 <= a < t ==> (#[trigger] self.ancestor_set(order@[a] as int).contains(x)
                    <==> h0.closed_ancestor(order@[a] as int, x as int)),
                forall|v: int| 0 <= v < n && !order@.take(t as int).contains(v as u32)
                    ==> #[trigger] self.ancestors@[v] == h0.ancestors@[v],
            decreases n - t,
        {
            let c = order[t] as usize;
            proof {
                assert(!order@.take(t as int).contains(c as u32)) by {
                    if order@.take(t as int).contains(c as u32) {
                        let a = choose|a: int| 0 <= a < t && order@.take(t as int)[a] == c as u32;
                        assert(order@[a] == order@[t as int]);
                    }
                }
            }
            let row = self.parents_closure_row(c, Ghost(h0));
            let ghost before = *self;
            self.ancestors.set(c, row);
            proof {
                assert forall|x: u32| #[trigger] self.ancestor_set(c as int).contains(x)
                    <==> h0.closed_ancestor(c as int, x as int) by {
                    h0.lemma_closed_unfold(c as int, x as int);
                    if exists|p: int| #[trigger] before.has_parent(c as int, p)
                        && (x as int == p || before.ancestor_set(p).contains(x)) {
                        let p = choose|p: int| #[trigger] before.has_parent(c as int, p)
                            && (x as int == p || before.ancestor_set(p).contains(x));
                        assert(h0.has_parent(c as int, p));
                        assert(order@.contains(p as u32));
                        let a = choose|a: int| 0 <= a < order@.len() && order@[a] == p as u32;
                        let b = t as int;
                        assert(h0.has_parent(order@[b] as int, order@[a] as int));
                        if x as int != p {
                            assert(before.ancestor_set(order@[a] as int).contains(x));
                        }
                        assert(h0.closed_ancestor(p, x as int) || x as int == p);
                    }
                    if exists|p: int| #[trigger] h0.has_parent(c as int, p) && (x as int == p || h0.closed_ancestor(p, x as int)) {
                        let p = choose|p: int| #[trigger] h0.has_parent(c as int, p) && (x as int == p || h0.closed_ancestor(p, x as int));
                        assert(before.has_parent(c as int, p));
                        assert(order@.contains(p as u32));
                        let a = choose|a: int| 0 <= a < order@.len() && order@[a] == p as u32;
                        let b = t as int;
                        assert(h0.has_parent(order@[b] as int, order@[a] as int));
                        if x as int != p {
                            h0.lemma_closed_range(p, x as int);
                            assert(before.ancestor_set(order@[a] as int).contains(x));
                        }
                    }
                }
            }
            proof {
                assert forall|a: int, x: u32| 0 <= a < t + 1 implies (#[trigger] self.ancestor_set(order@[a] as int).contains(x)
                    <==> h0.closed_ancestor(order@[a] as int, x as int)) by {
                    if a < t {
                        assert(order@[a] != order@[t as int]);
                        assert(self.ancestors@[order@[a] as int] == before.ancestors@[order@[a] as int]);
                        assert(self.ancestor_set(order@[a] as int) == before.ancestor_set(order@[a] as int));
                        assert(before.ancestor_set(order@[a] as int).contains(x)
                            <==> h0.closed_ancestor(order@[a] as int, x as int));
                    } else {
                        assert(order@[a] as int == c as int);
                        assert(self.ancestor_set(c as int).contains(x) <==> h0.closed_ancestor(c as int, x as int));
                    }
                }
                assert(self.pool.wf());
                assert(self.direct_parents@.len() == n);
                assert(self.ancestors@.len() == n);
                assert forall|i: int, k: int| 0 <= i < self.count() && 0 <= k < self.parents(i).len()
                    implies (#[trigger] self.parents(i)[k] as int) < self.count() by {
                    assert(self.parents(i) == before.parents(i));
                    assert(before.parents(i)[k] == self.parents(i)[k]);
                }
                assert forall|i: int| 0 <= i < n implies (#[trigger] self.ancestors@[i]).wf() by {
                    if i != c {
                        assert(self.ancestors@[i] == before.ancestors@[i]);
                    }
                }
                assert forall|i: int, x: u32| 0 <= i < n && #[trigger] self.ancestor_set(i).contains(x)
                    implies (x as int) < n by {
                    if i != c {
                        assert(self.ancestors@[i] == before.ancestors@[i]);
                        assert(before.ancestor_set(i).contains(x));
                    }
                }
                assert forall|v: int| 0 <= v < n && !order@.take(t + 1).contains(v as u32)
                    implies #[trigger] self.ancestors@[v] == h0.ancestors@[v] by {
                    assert(!order@.take(t as int).contains(v as u32)) by {
                        if order@.take(t as int).contains(v as u32) {
                            let a = choose|a: int| 0 <= a < t && order@.take(t as int)[a] == v as u32;
                            assert(order@.take(t + 1)[a] == v as u32);
                        }
                    }
                    assert(v != c) by {
                        if v == c {
                            assert(order@.take(t + 1)[t as int] == v as u32);
                        }
                    }
                }
            }
            t += 1;
        }
        proof {
            assert forall|i: int, j: int| #[trigger] self.has_ancestor(i, j) == h0.closed_ancestor(i, j) by {
                if 0 <= i < n {
                    assert(order@.contains(i as u32));
                    let a = choose|a: int| 0 <= a < order@.len() && order@[a] == i as u32;
                    if 0 <= j < n {
                        assert(self.ancestor_set(order@[a] as int).contains(j as u32)
                            <==> h0.closed_ancestor(order@[a] as int, (j as u32) as int));
                    } else if h0.closed_ancestor(i, j) {
                        h0.lemma_closed_range(i, j);
                    }
                } else {
                    if h0.reachable(i, j) {
                        let k = choose|k: nat| #[trigger] h0.within(i, j, k);
                        if !h0.has_parent(i, j) {
                            let p = choose|p: int| #[trigger] h0.has_parent(i, p) && h0.within(p, j, (k - 1) as nat);
                        }
                    }
                    if exists|m: int| #[trigger] h0.reachable(i, m) && h0.has_ancestor(m, j) {
                        let m = choose|m: int| #[trigger] h0.reachable(i, m) && h0.has_ancestor(m, j);
                        let k = choose|k: nat| #[trigger] h0.within(i, m, k);
                        if !h0.has_parent(i, m) {
                            let p = choose|p: int| #[trigger] h0.has_parent(i, p) && h0.within(p, m, (k - 1) as nat);
                        }
                    }
                }
            }
        }
        Ok(())
    }
}


impl OptimizedHierarchy {
    /// Whether `ancestor` is a recorded ancestor of `class`.
    pub fn is_ancestor(&self, class: u32, ancestor: u32) -> (r: bool)
        requires
            self.wf(),
        ensures
            r == self.has_ancestor(class as int, ancestor as int),
    {
        if (class as usize) < self.ancestors.len() && (ancestor as usize) < self.pool.len() {
            self.ancestors[class as usize].contains(ancestor)
        } else {
            false
        }
    }

    /// The index of the class with the text of `iri`, if it is indexed.
    pub fn class_index(&self, iri: &IRI) -> (r: Option<u32>)
        requires
            self.wf(),
        ensures
            r == (match self.iris().index_of_first(iri@) {
                Some(k) => Some(k as u32),
                None => None::<u32>,
            }),
    {
        self.pool.index_of(iri)
    }

    /// The number of indexed classes.
    pub fn len(&self) -> (r: usize)
        ensures
            r == self.count(),
    {
        self.pool.len()
    }
}

/// Starting from no recorded ancestor, the closed ancestors of a class are
/// exactly the classes reached from it by parent steps.
pub proof fn lemma_closed_from_nothing(h: OptimizedHierarchy, i: int, j: int)
    requires
        forall|a: int, b: int| !#[trigger] h.has_ancestor(a, b),
    ensures
        h.closed_ancestor(i, j) == h.reachable(i, j),
{
    if h.closed_ancestor(i, j) && !h.reachable(i, j) {
        let m = choose|m: int| #[trigger] h.reachable(i, m) && h.has_ancestor(m, j);
        assert(!h.has_ancestor(m, j));
    }
}

} // verus!
