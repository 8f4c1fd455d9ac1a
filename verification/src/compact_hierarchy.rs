//! Compact bitsets over class indices, 64 classes per `u64` chunk, and the
//! compact class hierarchy built on them.

use vstd::prelude::*;
use crate::iri::IRI;
use crate::ontology::{Ontology, class_iris, subclass_axioms_of};
use crate::axioms::SubClassOfAxiom;
use crate::class_expression::{ClassExpression, ExprView};
use crate::binary_format::add_names;
use crate::error::OwlResult;

verus! {

/// Bit `j` of `x`.
pub open spec fn bit_of(x: u64, j: int) -> bool {
    (x >> (j as u64)) & 1u64 == 1u64
}

proof fn lemma_set_bit(x: u64, b: u64, j: u64)
    requires
        b < 64,
        j < 64,
    ensures
        ((x | (1u64 << b)) >> j) & 1u64 == 1u64 <==> (j == b || (x >> j) & 1u64 == 1u64),
{
    assert(((x | (1u64 << b)) >> j) & 1u64 == 1u64 <==> (j == b || (x >> j) & 1u64 == 1u64))
        by (bit_vector)
        requires
            b < 64,
            j < 64,
    ;
}

proof fn lemma_or_bit(x: u64, y: u64, j: u64)
    requires
        j < 64,
    ensures
        ((x | y) >> j) & 1u64 == 1u64 <==> ((x >> j) & 1u64 == 1u64 || (y >> j) & 1u64 == 1u64),
{
    assert(((x | y) >> j) & 1u64 == 1u64 <==> ((x >> j) & 1u64 == 1u64 || (y >> j) & 1u64 == 1u64))
        by (bit_vector);
}

proof fn lemma_zero_bit(j: u64)
    ensures
        (0u64 >> j) & 1u64 == 0u64,
{
    assert((0u64 >> j) & 1u64 == 0u64) by (bit_vector);
}

proof fn lemma_bit_values(x: u64, j: u64)
    ensures
        (x >> j) & 1u64 == 0u64 || (x >> j) & 1u64 == 1u64,
{
    assert((x >> j) & 1u64 == 0u64 || (x >> j) & 1u64 == 1u64) by (bit_vector);
}

/// Fixed-size bitset for compact class sets.
#[derive(Clone, Debug)]
pub struct CompactBitSet {
    chunks: Vec<u64>,
    size: usize,
}

impl CompactBitSet {
    /// The number of classes the set was made for.
    pub closed spec fn size_spec(&self) -> nat {
        self.size as nat
    }

    /// The number of bit positions held: 64 per chunk.
    pub closed spec fn capacity_spec(&self) -> int {
        self.chunks@.len() as int * 64
    }

    /// Whether bit `i` is set.
    pub closed spec fn has_bit(&self, i: int) -> bool {
        0 <= i < self.chunks@.len() * 64 && bit_of(self.chunks@[i / 64], i % 64)
    }

    /// The chunk count matches the size and positions are addressable.
    pub closed spec fn wf(&self) -> bool {
        &&& self.chunks@.len() == (self.size as int + 63) / 64
        &&& self.chunks@.len() * 64 <= usize::MAX
    }

    /// The positions below `n` whose bit is set, ascending.
    pub open spec fn positions_below(&self, n: int) -> Seq<int>
        decreases n,
    {
        if n <= 0 {
            Seq::empty()
        } else if self.has_bit(n - 1) {
            self.positions_below(n - 1).push(n - 1)
        } else {
            self.positions_below(n - 1)
        }
    }

    /// All set positions, ascending.
    pub open spec fn positions(&self) -> Seq<int> {
        self.positions_below(self.capacity_spec())
    }

    /// Create a new bitset for `size` classes, with no bit set.
    pub fn new(size: usize) -> (r: Self)
        requires
            size <= usize::MAX - 64,
        ensures
            r.wf(),
            r.size_spec() == size,
            forall|i: int| !r.has_bit(i),
    {
        let num_chunks = size / 64 + if size % 64 != 0 { 1 } else { 0 };
        let chunks = vec![0u64; num_chunks];
        let r = CompactBitSet { chunks, size };
        proof {
            assert forall|i: int| !r.has_bit(i) by {
                if 0 <= i < r.chunks@.len() * 64 {
                    assert(r.chunks@[i / 64] == 0u64);
                    lemma_zero_bit((i % 64) as u64);
                }
            }
        }
        r
    }

    /// Set bit at `index`.
    pub fn set(&mut self, index: usize)
        requires
            old(self).wf(),
            index < old(self).size_spec(),
        ensures
            final(self).wf(),
            final(self).size_spec() == old(self).size_spec(),
            final(self).capacity_spec() == old(self).capacity_spec(),
            forall|i: int| final(self).has_bit(i) == (i == index || old(self).has_bit(i)),
    {
        let chunk = index / 64;
        let bit = index % 64;
        let ghost old_chunks = self.chunks@;
        let v = self.chunks[chunk] | (1u64 << (bit as u64));
        self.chunks.set(chunk, v);
        proof {
            assert forall|i: int| self.has_bit(i) == (i == index || old(self).has_bit(i)) by {
                if 0 <= i < self.chunks@.len() * 64 {
                    if i / 64 == chunk as int {
                        lemma_set_bit(old_chunks[chunk as int], bit as u64, (i % 64) as u64);
                    }
                }
            }
        }
    }

    /// Check if bit is set.
    pub fn contains(&self, index: usize) -> (r: bool)
        requires
            self.wf(),
        ensures
            r == (index < self.size_spec() && self.has_bit(index as int)),
    {
        if index >= self.size {
            return false;
        }
        let chunk = index / 64;
        let bit = index % 64;
        proof {
            lemma_bit_values(self.chunks@[chunk as int], bit as u64);
        }
        (self.chunks[chunk] >> (bit as u64)) & 1 != 0
    }

    /// Union in-place: self |= other, over the chunks both sets have (the
    /// bits of `other` beyond this set's capacity are left out).
    pub fn union_with(&mut self, other: &CompactBitSet)
        requires
            old(self).wf(),
        ensures
            final(self).wf(),
            final(self).size_spec() == old(self).size_spec(),
            final(self).capacity_spec() == old(self).capacity_spec(),
            forall|i: int| #![trigger final(self).has_bit(i)] #![trigger old(self).has_bit(i)]
                final(self).has_bit(i) == (old(self).has_bit(i) || (other.has_bit(i) && i < old(self).capacity_spec())),
    {
        let n = if self.chunks.len() < other.chunks.len() { self.chunks.len() } else { other.chunks.len() };
        let mut k: usize = 0;
        while k < n
            invariant
                n <= self.chunks@.len(),
                n <= other.chunks@.len(),
                self.chunks@.len() == old(self).chunks@.len(),
                n == self.chunks@.len() || n == other.chunks@.len(),
                self.size == old(self).size,
                k <= n,
                forall|c: int| 0 <= c < k ==> #[trigger] self.chunks@[c] == (old(self).chunks@[c] | other.chunks@[c]),
                forall|c: int| k <= c < self.chunks@.len() ==> #[trigger] self.chunks@[c] == old(self).chunks@[c],
            decreases n - k,
        {
            let v = self.chunks[k] | other.chunks[k];
            self.chunks.set(k, v);
            k += 1;
        }
        proof {
            assert forall|i: int| #[trigger] self.has_bit(i)
                == (old(self).has_bit(i) || (other.has_bit(i) && i < old(self).capacity_spec())) by {
                if 0 <= i < self.chunks@.len() * 64 {
                    let c = i / 64;
                    if c < n {
                        assert(self.chunks@[c] == (old(self).chunks@[c] | other.chunks@[c]));
                        lemma_or_bit(old(self).chunks@[c], other.chunks@[c], (i % 64) as u64);
                    } else {
                        assert(self.chunks@[c] == old(self).chunks@[c]);
                        assert(!other.has_bit(i));
                    }
                }
            }
        }
    }

    /// Get all set indices, ascending.
    pub fn to_vec(&self) -> (r: Vec<usize>)
        requires
            self.wf(),
        ensures
            r@.len() == self.positions().len(),
            forall|k: int| 0 <= k < r@.len() ==> r@[k] as int == #[trigger] self.positions()[k],
    {
        let mut result: Vec<usize> = Vec::new();
        let n = self.chunks.len();
        let mut c: usize = 0;
        while c < n
            invariant
                self.wf(),
                n == self.chunks@.len(),
                c <= n,
                result@.len() == self.positions_below(c * 64).len(),
                forall|k: int| 0 <= k < result@.len() ==> result@[k] as int == #[trigger] self.positions_below(c * 64)[k],
            decreases n - c,
        {
            let chunk = self.chunks[c];
            let mut j: u64 = 0;
            while j < 64
                invariant
                    self.wf(),
                    n == self.chunks@.len(),
                    c < n,
                    chunk == self.chunks@[c as int],
                    j <= 64,
                    result@.len() == self.positions_below(c * 64 + j).len(),
                    forall|k: int| 0 <= k < result@.len() ==> result@[k] as int == #[trigger] self.positions_below(c * 64 + j)[k],
                decreases 64 - j,
            {
                let pos: usize = c * 64 + (j as usize);
                proof {
                    lemma_bit_values(chunk, j);
                    assert(pos as int / 64 == c as int);
                    assert(pos as int % 64 == j as int);
                    assert(self.has_bit(pos as int) == ((chunk >> j) & 1u64 == 1u64));
                }
                if (chunk >> j) & 1 == 1 {
                    result.push(pos);
                }
                j += 1;
            }
            c += 1;
        }
        result
    }

    /// Count set bits.
    pub fn count(&self) -> (r: usize)
        requires
            self.wf(),
        ensures
            r == self.positions().len(),
    {
        let v = self.to_vec();
        v.len()
    }

    /// Clear all bits.
    pub fn clear(&mut self)
        requires
            old(self).wf(),
        ensures
            final(self).wf(),
            final(self).size_spec() == old(self).size_spec(),
            final(self).capacity_spec() == old(self).capacity_spec(),
            forall|i: int| !final(self).has_bit(i),
    {
        let n = self.chunks.len();
        let mut k: usize = 0;
        while k < n
            invariant
                n == self.chunks@.len(),
                n == old(self).chunks@.len(),
                self.size == old(self).size,
                k <= n,
                forall|c: int| 0 <= c < k ==> #[trigger] self.chunks@[c] == 0u64,
            decreases n - k,
        {
            self.chunks.set(k, 0);
            k += 1;
        }
        proof {
            assert forall|i: int| !self.has_bit(i) by {
                if 0 <= i < self.chunks@.len() * 64 {
                    lemma_zero_bit((i % 64) as u64);
                }
            }
        }
    }

    /// A copy with the same bits.
    pub fn duplicate(&self) -> (r: Self)
        ensures
            r.wf() == self.wf(),
            r.size_spec() == self.size_spec(),
            r.capacity_spec() == self.capacity_spec(),
            forall|i: int| #![trigger r.has_bit(i)] #![trigger self.has_bit(i)] r.has_bit(i) == self.has_bit(i),
    {
        let chunks = self.chunks.clone();
        assert(chunks@ =~= self.chunks@);
        CompactBitSet { chunks, size: self.size }
    }

    /// The capacity of a well-formed set follows from its size.
    pub proof fn lemma_capacity(&self)
        requires
            self.wf(),
        ensures
            self.capacity_spec() == (self.size_spec() + 63) / 64 * 64,
    {
    }

    /// Every set bit is among the positions, and every position is set.
    pub proof fn lemma_positions_below(&self, m: int)
        ensures
            forall|p: int| 0 <= p < m && #[trigger] self.has_bit(p) ==> self.positions_below(m).contains(p),
            forall|k: int| 0 <= k < self.positions_below(m).len() ==> #[trigger] self.has_bit(self.positions_below(m)[k])
                && 0 <= self.positions_below(m)[k] < m,
        decreases m,
    {
        if m > 0 {
            self.lemma_positions_below(m - 1);
            let prev = self.positions_below(m - 1);
            if self.has_bit(m - 1) {
                let cur = prev.push(m - 1);
                assert(cur[prev.len() as int] == m - 1);
                assert forall|p: int| 0 <= p < m && #[trigger] self.has_bit(p) implies cur.contains(p) by {
                    if p < m - 1 {
                        let k = choose|k: int| 0 <= k < prev.len() && prev[k] == p;
                        assert(cur[k] == p);
                    }
                }
                assert forall|k: int| 0 <= k < cur.len() implies #[trigger] self.has_bit(cur[k]) && 0 <= cur[k] < m by {
                    if k < prev.len() {
                        assert(cur[k] == prev[k]);
                    }
                }
            }
        }
    }

    /// The positions below `m` are strictly increasing.
    pub proof fn lemma_positions_increasing(&self, m: int)
        ensures
            forall|a: int, b: int| 0 <= a < b < self.positions_below(m).len()
                ==> self.positions_below(m)[a] < self.positions_below(m)[b],
        decreases m,
    {
        if m > 0 {
            self.lemma_positions_increasing(m - 1);
            self.lemma_positions_below(m - 1);
            let prev = self.positions_below(m - 1);
            if self.has_bit(m - 1) {
                let cur = prev.push(m - 1);
                assert forall|a: int, b: int| 0 <= a < b < cur.len() implies cur[a] < cur[b] by {
                    if b == prev.len() {
                        assert(cur[a] == prev[a]);
                        assert(self.has_bit(prev[a]) && 0 <= prev[a] < m - 1);
                    } else {
                        assert(cur[a] == prev[a] && cur[b] == prev[b]);
                    }
                }
            }
        }
    }

    /// Law: the listing of a set (what `to_vec` returns) is strictly
    /// increasing and holds exactly its set bits; its length is the count
    /// (what `count` returns), and it is empty exactly when no bit is set
    /// (what `is_empty` answers).
    pub proof fn lemma_listing_agrees(&self)
        requires
            self.wf(),
        ensures
            forall|a: int, b: int| 0 <= a < b < self.positions().len() ==> self.positions()[a] < self.positions()[b],
            forall|i: int| #[trigger] self.positions().contains(i) <==> self.has_bit(i),
            (forall|i: int| !self.has_bit(i)) <==> self.positions().len() == 0,
    {
        let m = self.capacity_spec();
        self.lemma_positions_increasing(m);
        self.lemma_positions_below(m);
        assert forall|i: int| #[trigger] self.positions().contains(i) <==> self.has_bit(i) by {
            if self.positions().contains(i) {
                let k = choose|k: int| 0 <= k < self.positions().len() && self.positions()[k] == i;
                assert(self.has_bit(self.positions_below(m)[k]));
            }
        }
        if self.positions().len() > 0 {
            assert(self.has_bit(self.positions_below(m)[0]));
        }
    }

    /// A subset has no more positions, and as many only when it holds the
    /// same bits.
    pub proof fn lemma_subset_positions(a: &Self, b: &Self, m: int)
        requires
            forall|i: int| #[trigger] a.has_bit(i) ==> b.has_bit(i),
        ensures
            a.positions_below(m).len() <= b.positions_below(m).len(),
            a.positions_below(m).len() == b.positions_below(m).len() ==> forall|i: int| 0 <= i < m ==> #[trigger] a.has_bit(i) == b.has_bit(i),
        decreases m,
    {
        if m > 0 {
            Self::lemma_subset_positions(a, b, m - 1);
        }
    }

    /// Is empty?
    pub fn is_empty(&self) -> (r: bool)
        requires
            self.wf(),
        ensures
            r == (forall|i: int| !self.has_bit(i)),
    {
        let n = self.chunks.len();
        let mut k: usize = 0;
        while k < n
            invariant
                n == self.chunks@.len(),
                k <= n,
                forall|c: int| 0 <= c < k ==> #[trigger] self.chunks@[c] == 0u64,
            decreases n - k,
        {
            if self.chunks[k] != 0 {
                proof {
                    let x = self.chunks@[k as int];
                    vstd::std_specs::bits::axiom_u64_trailing_zeros(x);
                    let t = vstd::std_specs::bits::u64_trailing_zeros(x);
                    assert(self.has_bit(k * 64 + t as int));
                }
                return false;
            }
            k += 1;
        }
        proof {
            assert forall|i: int| !self.has_bit(i) by {
                if 0 <= i < self.chunks@.len() * 64 {
                    lemma_zero_bit((i % 64) as u64);
                }
            }
        }
        true
    }
}


/// The IRI texts of a sequence of IRIs.
pub open spec fn iri_texts(v: Seq<IRI>) -> Seq<Seq<char>> {
    v.map_values(|i: IRI| i@)
}

/// The position of the first IRI of `v` with the text of `iri`.
pub fn position_of(v: &Vec<IRI>, iri: &IRI) -> (r: Option<usize>)
    ensures
        r == (match iri_texts(v@).index_of_first(iri@) {
            Some(k) => Some(k as usize),
            None => None::<usize>,
        }),
{
    let ghost t = iri_texts(v@);
    let n = v.len();
    let mut k: usize = 0;
    while k < n
        invariant
            n == v@.len(),
            t == iri_texts(v@),
            k <= n,
            forall|j: int| 0 <= j < k ==> t[j] != iri@,
        decreases n - k,
    {
        if v[k] == *iri {
            proof {
                t.index_of_first_ensures(iri@);
                match t.index_of_first(iri@) {
                    Some(f) => {
                        if f < k {
                            assert(t[f] == iri@);
                        } else if f > k {
                            assert(t[k as int] == iri@);
                        }
                    },
                    None => {
                        assert(t[k as int] == iri@);
                        assert(t.contains(iri@));
                    },
                }
            }
            return Some(k);
        }
        assert(t[k as int] != iri@);
        k += 1;
    }
    proof {
        t.index_of_first_ensures(iri@);
        match t.index_of_first(iri@) {
            Some(f) => { assert(t[f] == iri@); },
            None => {},
        }
    }
    None
}

/// The text of `owl:Thing`.
pub open spec fn thing_text() -> Seq<char> {
    "http://www.w3.org/2002/07/owl#Thing"@
}

/// The text of `owl:Nothing`.
pub open spec fn nothing_text() -> Seq<char> {
    "http://www.w3.org/2002/07/owl#Nothing"@
}

/// The classes a compact hierarchy of `o` indexes, by position: `owl:Thing`,
/// `owl:Nothing`, then each class IRI of `o` not seen before.
pub open spec fn hierarchy_iris(o: Ontology) -> Seq<Seq<char>> {
    add_names(seq![thing_text(), nothing_text()], class_iris(o.classes_spec()))
}

/// Compact class hierarchy: classes by index (`owl:Thing` at 0, `owl:Nothing`
/// at 1), with direct parents, direct children and ancestors as bitsets.
#[derive(Debug)]
pub struct CompactHierarchy {
    pub idx_to_iri: Vec<IRI>,
    pub direct_parents: Vec<CompactBitSet>,
    pub ancestors: Vec<CompactBitSet>,
    pub direct_children: Vec<CompactBitSet>,
    pub num_classes: usize,
    pub thing_idx: u32,
    pub nothing_idx: u32,
}

impl CompactHierarchy {
    /// The indexed class texts, by index.
    pub open spec fn iris(&self) -> Seq<Seq<char>> {
        iri_texts(self.idx_to_iri@)
    }

    /// Class `j` is a direct parent of class `i`.
    pub open spec fn has_parent(&self, i: int, j: int) -> bool {
        self.direct_parents@[i].has_bit(j)
    }

    /// Class `j` is a direct child of class `i`.
    pub open spec fn has_child(&self, i: int, j: int) -> bool {
        self.direct_children@[i].has_bit(j)
    }

    /// Class `j` is recorded as an ancestor of class `i`.
    pub open spec fn has_ancestor(&self, i: int, j: int) -> bool {
        self.ancestors@[i].has_bit(j)
    }

    /// One bitset per class in each table, each over all classes; indexes
    /// fit `ClassIdx`; the children table mirrors the parents table; no bit
    /// names a class outside the hierarchy.
    pub open spec fn wf(&self) -> bool {
        let n = self.num_classes as int;
        &&& n == self.idx_to_iri@.len()
        &&& n == self.direct_parents@.len()
        &&& n == self.direct_children@.len()
        &&& n == self.ancestors@.len()
        &&& 2 <= n <= u32::MAX
        &&& n <= usize::MAX - 64
        &&& self.thing_idx == 0
        &&& self.nothing_idx == 1
        &&& forall|i: int| 0 <= i < n ==> (#[trigger] self.direct_parents@[i]).wf()
            && self.direct_parents@[i].size_spec() == n
        &&& forall|i: int| 0 <= i < n ==> (#[trigger] self.direct_children@[i]).wf()
            && self.direct_children@[i].size_spec() == n
        &&& forall|i: int| 0 <= i < n ==> (#[trigger] self.ancestors@[i]).wf()
            && self.ancestors@[i].size_spec() == n
        &&& forall|i: int, j: int| 0 <= i < n && 0 <= j < n ==> #[trigger] self.has_child(j, i) == #[trigger] self.has_parent(i, j)
        &&& forall|i: int, j: int| 0 <= i < n && #[trigger] self.has_parent(i, j) ==> 0 <= j < n
        &&& forall|i: int, j: int| 0 <= i < n && #[trigger] self.has_child(i, j) ==> 0 <= j < n
        &&& forall|i: int, j: int| 0 <= i < n && #[trigger] self.has_ancestor(i, j) ==> 0 <= j < n
    }
}


/// `n` bitsets over `n` classes, none with a bit set.
fn empty_table(n: usize) -> (r: Vec<CompactBitSet>)
    requires
        n <= usize::MAX - 64,
    ensures
        r@.len() == n,
        forall|i: int| 0 <= i < n ==> (#[trigger] r@[i]).wf() && r@[i].size_spec() == n,
        forall|i: int, j: int| 0 <= i < n ==> !(#[trigger] r@[i].has_bit(j)),
{
    let mut r: Vec<CompactBitSet> = Vec::new();
    let mut k: usize = 0;
    while k < n
        invariant
            k <= n,
            n <= usize::MAX - 64,
            r@.len() == k,
            forall|i: int| 0 <= i < k ==> (#[trigger] r@[i]).wf() && r@[i].size_spec() == n,
            forall|i: int, j: int| 0 <= i < k ==> !(#[trigger] r@[i].has_bit(j)),
        decreases n - k,
    {
        r.push(CompactBitSet::new(n));
        k += 1;
    }
    r
}

impl CompactHierarchy {
    /// Indexes `owl:Thing`, `owl:Nothing` and the classes of `ontology`, with
    /// no relationship recorded yet.
    pub fn new(ontology: &Ontology) -> (r: OwlResult<Self>)
        requires
            ontology.classes_spec().len() + 2 <= u32::MAX,
            ontology.classes_spec().len() + 2 <= usize::MAX - 64,
        ensures
            r matches Ok(h) && h.wf() && h.iris() == hierarchy_iris(*ontology)
                && forall|i: int, j: int| 0 <= i < h.num_classes ==> !h.has_parent(i, j) && !h.has_child(i, j)
                    && !h.has_ancestor(i, j),
    {
        proof {
            reveal_strlit("http://www.w3.org/2002/07/owl#Thing");
            reveal_strlit("http://www.w3.org/2002/07/owl#Nothing");
        }
        let thing = match IRI::new("http://www.w3.org/2002/07/owl#Thing") {
            Ok(i) => i,
            Err(e) => { return Err(e); },
        };
        let nothing = match IRI::new("http://www.w3.org/2002/07/owl#Nothing") {
            Ok(i) => i,
            Err(e) => { return Err(e); },
        };
        let mut idx_to_iri: Vec<IRI> = Vec::new();
        idx_to_iri.push(thing);
        idx_to_iri.push(nothing);
        let ghost start = seq![thing_text(), nothing_text()];
        assert(iri_texts(idx_to_iri@) =~= start);
        let classes = ontology.classes();
        let ghost cn = class_iris(classes@);
        let mut k: usize = 0;
        while k < classes.len()
            invariant
                k <= classes@.len(),
                classes@ == ontology.classes_spec(),
                cn == class_iris(classes@),
                iri_texts(idx_to_iri@) == add_names(start, cn.take(k as int)),
                2 <= idx_to_iri@.len() <= k + 2,
            decreases classes@.len() - k,
        {
            let iri = &**classes[k].iri();
            let ghost before = idx_to_iri@;
            if position_of(&idx_to_iri, iri).is_none() {
                proof {
                    iri_texts(before).index_of_first_ensures(iri@);
                }
                idx_to_iri.push(iri.clone());
                assert(iri_texts(idx_to_iri@) =~= iri_texts(before).push(iri@));
            } else {
                proof {
                    iri_texts(before).index_of_first_ensures(iri@);
                }
            }
            proof {
                assert(cn.take(k + 1).drop_last() == cn.take(k as int));
                assert(cn.take(k + 1).last() == cn[k as int]);
                assert(cn[k as int] == iri@);
            }
            k += 1;
        }
        assert(cn.take(classes@.len() as int) == cn);
        let n = idx_to_iri.len();
        let direct_parents = empty_table(n);
        let direct_children = empty_table(n);
        let ancestors = empty_table(n);
        Ok(CompactHierarchy {
            idx_to_iri,
            direct_parents,
            ancestors,
            direct_children,
            num_classes: n,
            thing_idx: 0,
            nothing_idx: 1,
        })
    }

    /// Records `parent` as a direct parent of `child`, and `child` as a
    /// direct child of `parent`.
    pub fn add_parent(&mut self, child: u32, parent: u32)
        requires
            old(self).wf(),
            child < old(self).num_classes,
            parent < old(self).num_classes,
        ensures
            final(self).wf(),
            final(self).iris() == old(self).iris(),
            final(self).num_classes == old(self).num_classes,
            forall|i: int, j: int| 0 <= i < old(self).num_classes ==> #[trigger] final(self).has_parent(i, j)
                == (old(self).has_parent(i, j) || (i == child && j == parent)),
            forall|i: int, j: int| 0 <= i < old(self).num_classes ==>
                #[trigger] final(self).has_ancestor(i, j) == old(self).has_ancestor(i, j),
    {
        let ghost n = self.num_classes as int;
        let ghost old_p = self.direct_parents@;
        let ghost old_c = self.direct_children@;
        let c = child as usize;
        let p = parent as usize;
        self.direct_parents[c].set(p);
        self.direct_children[p].set(c);
        proof {
            assert forall|i: int, j: int| 0 <= i < n implies #[trigger] self.has_parent(i, j)
                == (old(self).has_parent(i, j) || (i == child && j == parent)) by {
                if i != c {
                    assert(self.direct_parents@[i] == old_p[i]);
                }
            }
            assert forall|i: int, j: int| 0 <= i < n implies #[trigger] self.has_child(i, j)
                == (old(self).has_child(i, j) || (i == parent && j == child)) by {
                if i != p {
                    assert(self.direct_children@[i] == old_c[i]);
                }
            }
            assert(n == self.direct_parents@.len());
            assert(n == self.direct_children@.len());
            assert(n == self.ancestors@.len());
            assert(n == self.idx_to_iri@.len());
            assert forall|i: int, j: int| 0 <= i < n && #[trigger] self.has_ancestor(i, j) implies 0 <= j < n by {
                assert(old(self).has_ancestor(i, j));
            }
            assert forall|i: int| 0 <= i < n implies (#[trigger] self.ancestors@[i]).wf()
                && self.ancestors@[i].size_spec() == n by {
                assert(self.ancestors@[i] == old(self).ancestors@[i]);
            }
            assert forall|i: int, j: int| 0 <= i < n && 0 <= j < n implies #[trigger] self.has_child(j, i)
                == #[trigger] self.has_parent(i, j) by {
                assert(old(self).has_child(j, i) == old(self).has_parent(i, j));
            }
            assert forall|i: int, j: int| 0 <= i < n && #[trigger] self.has_parent(i, j) implies 0 <= j < n by {
                if !(i == child && j == parent) {
                    assert(old(self).has_parent(i, j));
                }
            }
            assert forall|i: int, j: int| 0 <= i < n && #[trigger] self.has_child(i, j) implies 0 <= j < n by {
                if !(i == parent && j == child) {
                    assert(old(self).has_child(i, j));
                }
            }
            assert forall|i: int| 0 <= i < n implies (#[trigger] self.direct_parents@[i]).wf()
                && self.direct_parents@[i].size_spec() == n by {
                if i != c {
                    assert(self.direct_parents@[i] == old_p[i]);
                }
            }
            assert forall|i: int| 0 <= i < n implies (#[trigger] self.direct_children@[i]).wf()
                && self.direct_children@[i].size_spec() == n by {
                if i != p {
                    assert(self.direct_children@[i] == old_c[i]);
                }
            }
        }
    }
}


/// A subclass axiom between named classes that `iris` indexes at `i` and `j`.
pub open spec fn edge_of(iris: Seq<Seq<char>>, ax: SubClassOfAxiom, i: int, j: int) -> bool {
    match (ax.sub_class_spec(), ax.super_class_spec()) {
        (ClassExpression::Class(a), ClassExpression::Class(b)) =>
            iris.index_of_first(a.iri_spec()@) == Some(i) && iris.index_of_first(b.iri_spec()@) == Some(j),
        _ => false,
    }
}

/// Some subclass axiom among the first `k` of `o` gives the edge from `i` to `j`.
pub open spec fn axiom_edge_within(iris: Seq<Seq<char>>, o: Ontology, k: int, i: int, j: int) -> bool {
    exists|m: int| 0 <= m < k && #[trigger] edge_of(iris, subclass_axioms_of(o.axioms_spec())[m], i, j)
}

/// Some subclass axiom of `o` between indexed named classes gives the edge
/// from `i` (the subclass) to `j` (the superclass).
pub open spec fn axiom_edge(iris: Seq<Seq<char>>, o: Ontology, i: int, j: int) -> bool {
    axiom_edge_within(iris, o, subclass_axioms_of(o.axioms_spec()).len() as int, i, j)
}

/// The direct parents that building from `o` gives, from the parents
/// recorded before: the subclass axioms' edges; `owl:Thing` for each class
/// other than `owl:Thing` and `owl:Nothing` left without a parent; every
/// class but itself for `owl:Nothing`.
pub open spec fn built_parent(h: CompactHierarchy, o: Ontology, i: int, j: int) -> bool {
    ||| parent_with_axioms(h, o, i, j)
    ||| (i != 0 && i != 1 && j == 0 && forall|k: int| !#[trigger] parent_with_axioms(h, o, i, k))
    ||| (i == 1 && 0 <= j < h.num_classes && j != 1)
}

/// A parent recorded before, or given by a subclass axiom of `o`.
pub open spec fn parent_with_axioms(h: CompactHierarchy, o: Ontology, i: int, j: int) -> bool {
    h.has_parent(i, j) || axiom_edge(h.iris(), o, i, j)
}

impl CompactHierarchy {
    /// Records the edges of the subclass axioms between indexed named classes.
    fn add_axiom_edges(&mut self, ontology: &Ontology)
        requires
            old(self).wf(),
        ensures
            final(self).wf(),
            final(self).iris() == old(self).iris(),
            final(self).num_classes == old(self).num_classes,
            forall|i: int, j: int| 0 <= i < old(self).num_classes ==> #[trigger] final(self).has_parent(i, j)
                == (old(self).has_parent(i, j) || axiom_edge(old(self).iris(), *ontology, i, j)),
            forall|i: int, j: int| 0 <= i < old(self).num_classes ==>
                #[trigger] final(self).has_ancestor(i, j) == old(self).has_ancestor(i, j),
    {
        let axioms = ontology.subclass_axioms();
        let ghost subs = subclass_axioms_of(ontology.axioms_spec());
        let ghost iris = self.iris();
        let ghost n = self.num_classes as int;
        let mut k: usize = 0;
        while k < axioms.len()
            invariant
                self.wf(),
                self.iris() == iris,
                self.num_classes == n,
                iris == old(self).iris(),
                n == old(self).num_classes,
                axioms@.len() == subs.len(),
                forall|m: int| 0 <= m < axioms@.len() ==> *axioms@[m] == #[trigger] subs[m],
                subs == subclass_axioms_of(ontology.axioms_spec()),
                k <= axioms@.len(),
                forall|i: int, j: int| 0 <= i < n ==> #[trigger] self.has_parent(i, j)
                    == (old(self).has_parent(i, j) || axiom_edge_within(iris, *ontology, k as int, i, j)),
                forall|i: int, j: int| 0 <= i < n ==>
                    #[trigger] self.has_ancestor(i, j) == old(self).has_ancestor(i, j),
            decreases axioms@.len() - k,
        {
            let ax = axioms[k];
            let ghost before = *self;
            match (ax.sub_class(), ax.super_class()) {
                (ClassExpression::Class(a), ClassExpression::Class(b)) => {
                    let ia = position_of(&self.idx_to_iri, &**a.iri());
                    let ib = position_of(&self.idx_to_iri, &**b.iri());
                    match (ia, ib) {
                        (Some(x), Some(y)) => {
                            proof {
                                iris.index_of_first_ensures(a.iri_spec()@);
                                iris.index_of_first_ensures(b.iri_spec()@);
                            }
                            self.add_parent(x as u32, y as u32);
                            proof {
                                assert(edge_of(iris, subs[k as int], x as int, y as int));
                                assert forall|i: int, j: int| 0 <= i < n implies #[trigger] self.has_parent(i, j)
                                    == (old(self).has_parent(i, j) || axiom_edge_within(iris, *ontology, k + 1, i, j)) by {
                                    if axiom_edge_within(iris, *ontology, k + 1, i, j) && !(i == x && j == y) {
                                        let m = choose|m: int| 0 <= m < k + 1
                                            && #[trigger] edge_of(iris, subclass_axioms_of(ontology.axioms_spec())[m], i, j);
                                        if m == k {
                                            assert(edge_of(iris, subs[k as int], i, j));
                                        }
                                        assert(axiom_edge_within(iris, *ontology, k as int, i, j));
                                    }
                                    if axiom_edge_within(iris, *ontology, k as int, i, j) {
                                        let m = choose|m: int| 0 <= m < k
                                            && #[trigger] edge_of(iris, subclass_axioms_of(ontology.axioms_spec())[m], i, j);
                                        assert(edge_of(iris, subclass_axioms_of(ontology.axioms_spec())[m], i, j));
                                    }
                                }
                            }
                        },
                        _ => {
                            proof {
                                assert(forall|i: int, j: int| !edge_of(iris, subs[k as int], i, j));
                                assert forall|i: int, j: int| 0 <= i < n implies
                                    axiom_edge_within(iris, *ontology, k + 1, i, j)
                                    == axiom_edge_within(iris, *ontology, k as int, i, j) by {
                                    if axiom_edge_within(iris, *ontology, k + 1, i, j) {
                                        let m = choose|m: int| 0 <= m < k + 1
                                            && #[trigger] edge_of(iris, subclass_axioms_of(ontology.axioms_spec())[m], i, j);
                                        assert(m != k);
                                    }
                                    if axiom_edge_within(iris, *ontology, k as int, i, j) {
                                        let m = choose|m: int| 0 <= m < k
                                            && #[trigger] edge_of(iris, subclass_axioms_of(ontology.axioms_spec())[m], i, j);
                                        assert(edge_of(iris, subclass_axioms_of(ontology.axioms_spec())[m], i, j));
                                    }
                                }
                            }
                        },
                    }
                },
                _ => {
                    proof {
                        assert(forall|i: int, j: int| !edge_of(iris, subs[k as int], i, j));
                        assert forall|i: int, j: int| 0 <= i < n implies
                            axiom_edge_within(iris, *ontology, k + 1, i, j)
                            == axiom_edge_within(iris, *ontology, k as int, i, j) by {
                            if axiom_edge_within(iris, *ontology, k + 1, i, j) {
                                let m = choose|m: int| 0 <= m < k + 1
                                    && #[trigger] edge_of(iris, subclass_axioms_of(ontology.axioms_spec())[m], i, j);
                                assert(m != k);
                            }
                            if axiom_edge_within(iris, *ontology, k as int, i, j) {
                                let m = choose|m: int| 0 <= m < k
                                    && #[trigger] edge_of(iris, subclass_axioms_of(ontology.axioms_spec())[m], i, j);
                                assert(edge_of(iris, subclass_axioms_of(ontology.axioms_spec())[m], i, j));
                            }
                        }
                    }
                },
            }
            k += 1;
        }
    }
}


impl CompactHierarchy {
    /// Gives `owl:Thing` as parent to each class other than `owl:Thing` and
    /// `owl:Nothing` that has no parent.
    fn attach_orphans_to_thing(&mut self)
        requires
            old(self).wf(),
        ensures
            final(self).wf(),
            final(self).iris() == old(self).iris(),
            final(self).num_classes == old(self).num_classes,
            forall|i: int, j: int| 0 <= i < old(self).num_classes ==> #[trigger] final(self).has_parent(i, j)
                == (old(self).has_parent(i, j) || (i != 0 && i != 1 && j == 0
                    && forall|k: int| !#[trigger] old(self).has_parent(i, k))),
            forall|i: int, j: int| 0 <= i < old(self).num_classes ==>
                #[trigger] final(self).has_ancestor(i, j) == old(self).has_ancestor(i, j),
    {
        let n = self.num_classes;
        let mut idx: usize = 0;
        while idx < n
            invariant
                self.wf(),
                n == self.num_classes,
                self.iris() == old(self).iris(),
                n == old(self).num_classes,
                idx <= n,
                forall|i: int, j: int| idx <= i < n ==> #[trigger] self.has_parent(i, j) == old(self).has_parent(i, j),
                forall|i: int, j: int| 0 <= i < idx ==> #[trigger] self.has_parent(i, j)
                    == (old(self).has_parent(i, j) || (i != 0 && i != 1 && j == 0
                        && forall|k: int| !#[trigger] old(self).has_parent(i, k))),
                forall|i: int, j: int| 0 <= i < n ==>
                    #[trigger] self.has_ancestor(i, j) == old(self).has_ancestor(i, j),
            decreases n - idx,
        {
            let empty = self.direct_parents[idx].is_empty();
            if idx != 0 && idx != 1 && empty {
                proof {
                    assert forall|k: int| !#[trigger] old(self).has_parent(idx as int, k) by {
                        assert(self.has_parent(idx as int, k) == old(self).has_parent(idx as int, k));
                    }
                }
                self.add_parent(idx as u32, 0);
            } else {
                proof {
                    if idx != 0 && idx != 1 {
                        assert(!empty);
                        let k = choose|k: int| self.direct_parents@[idx as int].has_bit(k);
                        assert(self.has_parent(idx as int, k));
                        assert(old(self).has_parent(idx as int, k));
                    }
                }
            }
            idx += 1;
        }
    }

    /// Makes `owl:Nothing` a child of every other class.
    fn put_nothing_under_all(&mut self)
        requires
            old(self).wf(),
        ensures
            final(self).wf(),
            final(self).iris() == old(self).iris(),
            final(self).num_classes == old(self).num_classes,
            forall|i: int, j: int| 0 <= i < old(self).num_classes ==> #[trigger] final(self).has_parent(i, j)
                == (old(self).has_parent(i, j) || (i == 1 && 0 <= j < old(self).num_classes && j != 1)),
            forall|i: int, j: int| 0 <= i < old(self).num_classes ==>
                #[trigger] final(self).has_ancestor(i, j) == old(self).has_ancestor(i, j),
    {
        let n = self.num_classes;
        let mut idx: usize = 0;
        while idx < n
            invariant
                self.wf(),
                n == self.num_classes,
                self.iris() == old(self).iris(),
                n == old(self).num_classes,
                idx <= n,
                forall|i: int, j: int| 0 <= i < n ==> #[trigger] self.has_parent(i, j)
                    == (old(self).has_parent(i, j) || (i == 1 && 0 <= j < idx && j != 1)),
                forall|i: int, j: int| 0 <= i < n ==>
                    #[trigger] self.has_ancestor(i, j) == old(self).has_ancestor(i, j),
            decreases n - idx,
        {
            if idx != 1 {
                self.add_parent(1, idx as u32);
            }
            idx += 1;
        }
    }

    /// Builds the direct relationships from the subclass axioms of
    /// `ontology`, then places parentless classes under `owl:Thing` and
    /// `owl:Nothing` under every class.
    pub fn build_from_ontology(&mut self, ontology: &Ontology) -> (r: OwlResult<()>)
        requires
            old(self).wf(),
        ensures
            r is Ok,
            final(self).wf(),
            final(self).iris() == old(self).iris(),
            final(self).num_classes == old(self).num_classes,
            forall|i: int, j: int| 0 <= i < old(self).num_classes ==> #[trigger] final(self).has_parent(i, j)
                == built_parent(*old(self), *ontology, i, j),
            forall|i: int, j: int| 0 <= i < old(self).num_classes ==>
                #[trigger] final(self).has_ancestor(i, j) == old(self).has_ancestor(i, j),
    {
        let ghost h0 = *self;
        self.add_axiom_edges(ontology);
        let ghost h1 = *self;
        self.attach_orphans_to_thing();
        let ghost h2 = *self;
        self.put_nothing_under_all();
        proof {
            let n = h0.num_classes as int;
            assert forall|i: int, j: int| 0 <= i < n implies #[trigger] self.has_parent(i, j)
                == built_parent(h0, *ontology, i, j) by {
                let fa = forall|k: int| !#[trigger] parent_with_axioms(h0, *ontology, i, k);
                let fb = forall|k: int| !#[trigger] h1.has_parent(i, k);
                if fa {
                    assert forall|k: int| !#[trigger] h1.has_parent(i, k) by {
                        assert(!parent_with_axioms(h0, *ontology, i, k));
                    }
                }
                if fb {
                    assert forall|k: int| !#[trigger] parent_with_axioms(h0, *ontology, i, k) by {
                        assert(!h1.has_parent(i, k));
                    }
                }
                assert(fa == fb);
                assert(h1.has_parent(i, j) == parent_with_axioms(h0, *ontology, i, j));
            }
        }
        Ok(())
    }
}


impl CompactHierarchy {
    /// Class `j` is reached from class `i` in one to `k` parent steps.
    pub open spec fn within(&self, i: int, j: int, k: nat) -> bool
        decreases k,
    {
        if k == 0 {
            false
        } else {
            self.has_parent(i, j) || exists|p: int| 0 <= p < self.num_classes
                && #[trigger] self.has_parent(i, p) && self.within(p, j, (k - 1) as nat)
        }
    }

    /// Class `j` is reached from class `i` in one or more parent steps.
    pub open spec fn reachable(&self, i: int, j: int) -> bool {
        exists|k: nat| #[trigger] self.within(i, j, k)
    }

    /// Reaching a parent's ancestor is one step more.
    pub proof fn lemma_within_step(&self, i: int, p: int, j: int, k: nat)
        requires
            0 <= p < self.num_classes,
            self.has_parent(i, p),
            self.within(p, j, k),
        ensures
            self.within(i, j, k + 1),
    {
        assert(self.within(p, j, ((k + 1) - 1) as nat));
    }

    /// Reaching within `k` steps is reaching within `k + 1`.
    pub proof fn lemma_within_grow(&self, i: int, j: int, k: nat)
        requires
            self.within(i, j, k),
        ensures
            self.within(i, j, k + 1),
        decreases k,
    {
        if !self.has_parent(i, j) {
            let p = choose|p: int| 0 <= p < self.num_classes
                && #[trigger] self.has_parent(i, p) && self.within(p, j, (k - 1) as nat);
            self.lemma_within_grow(p, j, (k - 1) as nat);
            self.lemma_within_step(i, p, j, k);
        }
    }

    /// Ancestor rows that hold the direct parents and are closed under
    /// parent steps hold everything reached.
    pub proof fn lemma_closed_rows(&self, rows: Seq<CompactBitSet>, i: int, j: int, k: nat)
        requires
            0 <= i < self.num_classes,
            forall|a: int, b: int| 0 <= a < self.num_classes && #[trigger] self.has_parent(a, b) ==> rows[a].has_bit(b),
            forall|a: int, p: int, b: int| 0 <= a < self.num_classes && 0 <= p < self.num_classes
                && #[trigger] self.has_parent(a, p) && #[trigger] rows[p].has_bit(b) ==> rows[a].has_bit(b),
            self.within(i, j, k),
        ensures
            rows[i].has_bit(j),
        decreases k,
    {
        if !self.has_parent(i, j) {
            let p = choose|p: int| 0 <= p < self.num_classes
                && #[trigger] self.has_parent(i, p) && self.within(p, j, (k - 1) as nat);
            self.lemma_closed_rows(rows, p, j, (k - 1) as nat);
        }
    }
}

impl CompactHierarchy {
    /// The classes reached from `i` in one to `k` parent steps.
    pub open spec fn layer(&self, i: int, k: nat) -> Set<int> {
        Set::new(|j: int| 0 <= j < self.num_classes && self.within(i, j, k))
    }

    /// A class reached from a class of the hierarchy is one of its classes.
    pub proof fn lemma_within_in_range(&self, i: int, j: int, k: nat)
        requires
            self.wf(),
            0 <= i < self.num_classes,
            self.within(i, j, k),
        ensures
            0 <= j < self.num_classes,
        decreases k,
    {
        if !self.has_parent(i, j) {
            let p = choose|p: int| 0 <= p < self.num_classes
                && #[trigger] self.has_parent(i, p) && self.within(p, j, (k - 1) as nat);
            self.lemma_within_in_range(p, j, (k - 1) as nat);
        }
    }

    /// Reaching within `k` steps is reaching within any `m >= k`.
    pub proof fn lemma_within_mono(&self, i: int, j: int, k: nat, m: nat)
        requires
            self.within(i, j, k),
            k <= m,
        ensures
            self.within(i, j, m),
        decreases m - k,
    {
        if k < m {
            self.lemma_within_grow(i, j, k);
            self.lemma_within_mono(i, j, k + 1, m);
        }
    }

    /// One step more at the end: from `i` to `m`, then to a parent of `m`.
    pub proof fn lemma_within_append(&self, i: int, m: int, j: int, k: nat)
        requires
            0 <= m < self.num_classes,
            self.within(i, m, k),
            self.has_parent(m, j),
        ensures
            self.within(i, j, k + 1),
        decreases k,
    {
        if self.has_parent(i, m) {
            assert(self.within(m, j, 1));
            self.lemma_within_step(i, m, j, 1);
            self.lemma_within_mono(i, j, 2, k + 1);
        } else {
            let p = choose|p: int| 0 <= p < self.num_classes
                && #[trigger] self.has_parent(i, p) && self.within(p, m, (k - 1) as nat);
            self.lemma_within_append(p, m, j, (k - 1) as nat);
            self.lemma_within_step(i, p, j, k);
        }
    }

    /// A walk of `k + 1` steps is a direct parent, or a walk of `k` steps
    /// and one step more.
    pub proof fn lemma_within_unappend(&self, i: int, j: int, k: nat)
        requires
            self.wf(),
            0 <= i < self.num_classes,
            self.within(i, j, k + 1),
        ensures
            self.has_parent(i, j) || exists|m: int| 0 <= m < self.num_classes && #[trigger] self.within(i, m, k)
                && self.has_parent(m, j),
        decreases k,
    {
        if !self.has_parent(i, j) {
            let p = choose|p: int| 0 <= p < self.num_classes
                && #[trigger] self.has_parent(i, p) && self.within(p, j, k);
            assert(k > 0);
            if self.has_parent(p, j) {
                assert(self.within(i, p, 1));
                self.lemma_within_mono(i, p, 1, k);
            } else {
                assert(self.within(p, j, ((k - 1) + 1) as nat));
                self.lemma_within_unappend(p, j, (k - 1) as nat);
                let m = choose|m: int| 0 <= m < self.num_classes && #[trigger] self.within(p, m, (k - 1) as nat)
                    && self.has_parent(m, j);
                self.lemma_within_step(i, p, m, (k - 1) as nat);
            }
        }
    }

    /// A layer is a set of classes: finite, and no larger than the hierarchy.
    pub proof fn lemma_layer_bounded(&self, i: int, k: nat)
        requires
            self.wf(),
        ensures
            self.layer(i, k).finite(),
            self.layer(i, k).len() <= self.num_classes,
    {
        let all = vstd::set_lib::set_int_range(0, self.num_classes as int);
        vstd::set_lib::lemma_int_range(0, self.num_classes as int);
        assert(self.layer(i, k).subset_of(all));
        vstd::set_lib::lemma_len_subset(self.layer(i, k), all);
    }

    /// Layers grow with the number of steps.
    pub proof fn lemma_layer_grows(&self, i: int, k: nat)
        ensures
            self.layer(i, k).subset_of(self.layer(i, k + 1)),
    {
        assert forall|j: int| #[trigger] self.layer(i, k).contains(j) implies self.layer(i, k + 1).contains(j) by {
            self.lemma_within_grow(i, j, k);
        }
    }

    /// A layer that does not grow in one step does not grow in the next.
    pub proof fn lemma_layer_next(&self, i: int, k: nat)
        requires
            self.wf(),
            0 <= i < self.num_classes,
            self.layer(i, k) == self.layer(i, k + 1),
        ensures
            self.layer(i, k + 1) == self.layer(i, k + 2),
    {
        self.lemma_layer_grows(i, k + 1);
        assert forall|j: int| #[trigger] self.layer(i, k + 2).contains(j) implies self.layer(i, k + 1).contains(j) by {
            self.lemma_within_unappend(i, j, k + 1);
            if !self.has_parent(i, j) {
                let m = choose|m: int| 0 <= m < self.num_classes && #[trigger] self.within(i, m, k + 1)
                    && self.has_parent(m, j);
                assert(self.layer(i, k + 1).contains(m));
                assert(self.layer(i, k).contains(m));
                self.lemma_within_append(i, m, j, k);
            } else {
                assert(self.within(i, j, 1));
                self.lemma_within_mono(i, j, 1, k + 1);
            }
        }
        assert(self.layer(i, k + 1) =~= self.layer(i, k + 2));
    }

    /// Once a layer stops growing, it stays.
    pub proof fn lemma_layer_flat(&self, i: int, k: nat, m: nat)
        requires
            self.wf(),
            0 <= i < self.num_classes,
            self.layer(i, k) == self.layer(i, k + 1),
            k <= m,
        ensures
            self.layer(i, m) == self.layer(i, m + 1),
            self.layer(i, m) == self.layer(i, k),
        decreases m - k,
    {
        if k < m {
            self.lemma_layer_flat(i, k, (m - 1) as nat);
            self.lemma_layer_next(i, (m - 1) as nat);
        }
    }

    /// Layers that grow at every step up to `k` hold at least `k` classes.
    pub proof fn lemma_layer_count(&self, i: int, k: nat)
        requires
            self.wf(),
            forall|t: nat| t < k ==> #[trigger] self.layer(i, t) != self.layer(i, t + 1),
        ensures
            self.layer(i, k).len() >= k,
        decreases k,
    {
        self.lemma_layer_bounded(i, k);
        if k == 0 {
        } else {
            let prev = self.layer(i, (k - 1) as nat);
            let cur = self.layer(i, k);
            self.lemma_layer_count(i, (k - 1) as nat);
            self.lemma_layer_grows(i, (k - 1) as nat);
            assert(prev != cur);
            let x = choose|x: int| cur.contains(x) && !prev.contains(x);
            assert(exists|x: int| cur.contains(x) && !prev.contains(x)) by {
                if !exists|x: int| cur.contains(x) && !prev.contains(x) {
                    assert(prev =~= cur);
                }
            }
            assert(prev.subset_of(cur.remove(x)));
            vstd::set_lib::lemma_len_subset(prev, cur.remove(x));
        }
    }

    /// Pigeonhole: a class reached at all is reached within as many steps
    /// as there are classes.
    pub proof fn lemma_reachable_within_count(&self, i: int, j: int)
        requires
            self.wf(),
            0 <= i < self.num_classes,
            self.reachable(i, j),
        ensures
            self.within(i, j, self.num_classes as nat),
    {
        let n = self.num_classes as nat;
        let kk = choose|kk: nat| #[trigger] self.within(i, j, kk);
        if kk <= n {
            self.lemma_within_mono(i, j, kk, n);
        } else {
            if forall|t: nat| t < n + 1 ==> #[trigger] self.layer(i, t) != self.layer(i, t + 1) {
                self.lemma_layer_count(i, n + 1);
                self.lemma_layer_bounded(i, n + 1);
            }
            let k = choose|t: nat| t < n + 1 && #[trigger] self.layer(i, t) == self.layer(i, t + 1);
            self.lemma_within_in_range(i, j, kk);
            self.lemma_layer_flat(i, k, kk);
            assert(self.layer(i, kk).contains(j));
            assert(self.layer(i, k).contains(j));
            self.lemma_within_mono(i, j, k, n);
        }
    }
}



/// Some direct parent of `i` in `g` has `j` in its row of `rows`.
pub open spec fn parent_row_has(g: CompactHierarchy, rows: Seq<CompactBitSet>, i: int, j: int) -> bool {
    exists|p: int| 0 <= p < g.num_classes && #[trigger] g.has_parent(i, p) && rows[p].has_bit(j)
}

impl CompactHierarchy {
    /// The rows of the hierarchy other than the ancestors are those of `g`.
    pub open spec fn same_frame(&self, g: CompactHierarchy) -> bool {
        &&& self.direct_parents@ == g.direct_parents@
        &&& self.direct_children@ == g.direct_children@
        &&& self.idx_to_iri@ == g.idx_to_iri@
        &&& self.num_classes == g.num_classes
    }

    /// Adds the ancestors of every direct parent of `idx` to the ancestors of
    /// `idx`; tells whether the row grew.
    fn propagate_row(&mut self, idx: usize, Ghost(g): Ghost<CompactHierarchy>) -> (grew: bool)
        requires
            old(self).wf(),
            old(self).same_frame(g),
            idx < old(self).num_classes,
        ensures
            final(self).wf(),
            final(self).same_frame(g),
            forall|i: int, j: int| 0 <= i < g.num_classes && i != idx ==>
                #[trigger] final(self).has_ancestor(i, j) == old(self).has_ancestor(i, j),
            forall|j: int| #[trigger] final(self).has_ancestor(idx as int, j)
                == (old(self).has_ancestor(idx as int, j) || parent_row_has(g, old(self).ancestors@, idx as int, j)),
            grew == exists|j: int| #[trigger] final(self).has_ancestor(idx as int, j) && !old(self).has_ancestor(idx as int, j),
    {
        let ghost n = self.num_classes as int;
        let ghost a0 = self.ancestors@;
        let ghost i0 = idx as int;
        let parents = self.direct_parents[idx].to_vec();
        proof {
            let row = self.direct_parents@[i0];
            row.lemma_positions_below(row.capacity_spec());
        }
        let mut grew = false;
        let mut m: usize = 0;
        while m < parents.len()
            invariant
                self.wf(),
                self.same_frame(g),
                n == g.num_classes,
                0 <= i0 < n,
                i0 == idx,
                a0 == old(self).ancestors@,
                parents@.len() == g.direct_parents@[i0].positions().len(),
                forall|t: int| 0 <= t < parents@.len() ==> parents@[t] as int == #[trigger] g.direct_parents@[i0].positions()[t],
                forall|t: int| 0 <= t < parents@.len() ==> g.has_parent(i0, #[trigger] g.direct_parents@[i0].positions()[t])
                    && 0 <= g.direct_parents@[i0].positions()[t] < g.direct_parents@[i0].capacity_spec(),
                m <= parents@.len(),
                forall|i: int, j: int| 0 <= i < n && i != i0 ==> #[trigger] self.has_ancestor(i, j) == a0[i].has_bit(j),
                forall|j: int| #[trigger] self.has_ancestor(i0, j) == (a0[i0].has_bit(j)
                    || exists|t: int| 0 <= t < m && #[trigger] a0[parents@[t] as int].has_bit(j)),
                grew == exists|j: int| #[trigger] self.has_ancestor(i0, j) && !a0[i0].has_bit(j),
            decreases parents@.len() - m,
        {
            let p = parents[m];
            proof {
                assert(g.has_parent(i0, g.direct_parents@[i0].positions()[m as int]));
                assert(self.has_parent(i0, p as int));
                assert(0 <= p < n);
            }
            let ghost rb = self.ancestors@;
            let ghost s0 = *self;
            let pa = self.ancestors[p].duplicate();
            proof {
                assert forall|j: int| #[trigger] pa.has_bit(j) == rb[p as int].has_bit(j) by {}
                if p as int != i0 {
                    assert forall|j: int| #[trigger] rb[p as int].has_bit(j) == a0[p as int].has_bit(j) by {
                        assert(s0.has_ancestor(p as int, j) == a0[p as int].has_bit(j));
                    }
                }
            }
            let ghost before = self.ancestors@[i0];
            let old_count = self.ancestors[idx].count();
            proof {
                self.ancestors@[i0].lemma_capacity();
                pa.lemma_capacity();
            }
            let mut row = self.ancestors[idx].duplicate();
            row.union_with(&pa);
            self.ancestors.set(idx, row);
            let new_count = self.ancestors[idx].count();
            proof {
                let after = self.ancestors@[i0];
                assert(after == row);
                assert forall|j: int| #[trigger] after.has_bit(j) == (before.has_bit(j) || pa.has_bit(j)) by {}
                assert forall|j: int| #[trigger] before.has_bit(j) implies after.has_bit(j) by {}
                // the rows stay well formed
                assert forall|i: int| 0 <= i < n implies (#[trigger] self.ancestors@[i]).wf()
                    && self.ancestors@[i].size_spec() == n by {
                    if i != i0 {
                        assert(self.ancestors@[i] == rb[i]);
                    }
                }
                assert forall|i: int, j: int| 0 <= i < n && #[trigger] self.has_ancestor(i, j) implies 0 <= j < n by {
                    if i != i0 {
                        assert(self.ancestors@[i] == rb[i]);
                        assert(s0.has_ancestor(i, j));
                    } else {
                        if before.has_bit(j) {
                            assert(s0.has_ancestor(i0, j));
                        } else {
                            assert(s0.has_ancestor(p as int, j));
                        }
                    }
                }
                assert forall|i: int, j: int| 0 <= i < n && i != i0 implies #[trigger] self.has_ancestor(i, j)
                    == a0[i].has_bit(j) by {
                    assert(self.ancestors@[i] == rb[i]);
                    assert(s0.has_ancestor(i, j) == a0[i].has_bit(j));
                }
                CompactBitSet::lemma_subset_positions(&before, &after, after.capacity_spec());
                if new_count <= old_count {
                    assert forall|j: int| #[trigger] after.has_bit(j) == before.has_bit(j) by {
                        if 0 <= j < after.capacity_spec() {
                        } else {
                            assert(!after.has_bit(j));
                            assert(!before.has_bit(j));
                        }
                    }
                }
                assert forall|j: int| #[trigger] self.has_ancestor(i0, j) == (a0[i0].has_bit(j)
                    || exists|t: int| 0 <= t < m + 1 && #[trigger] a0[parents@[t] as int].has_bit(j)) by {
                    let em = exists|t: int| 0 <= t < m && #[trigger] a0[parents@[t] as int].has_bit(j);
                    let em1 = exists|t: int| 0 <= t < m + 1 && #[trigger] a0[parents@[t] as int].has_bit(j);
                    assert(s0.has_ancestor(i0, j) == (a0[i0].has_bit(j) || em));
                    if em1 {
                        let t = choose|t: int| 0 <= t < m + 1 && #[trigger] a0[parents@[t] as int].has_bit(j);
                        if t < m {
                            assert(em);
                        } else {
                            assert(a0[p as int].has_bit(j));
                        }
                    }
                    if em {
                        let t = choose|t: int| 0 <= t < m && #[trigger] a0[parents@[t] as int].has_bit(j);
                        assert(0 <= t < m + 1 && a0[parents@[t] as int].has_bit(j));
                    }
                    if a0[p as int].has_bit(j) {
                        assert(a0[parents@[m as int] as int].has_bit(j));
                    }
                    if p as int == i0 {
                        assert(pa.has_bit(j) == rb[i0].has_bit(j));
                    } else {
                        assert(pa.has_bit(j) == a0[p as int].has_bit(j));
                    }
                }
                if new_count > old_count {
                    if !(exists|j: int| #[trigger] after.has_bit(j) && !before.has_bit(j)) {
                        assert forall|j: int| #[trigger] after.has_bit(j) implies before.has_bit(j) by {}
                        CompactBitSet::lemma_subset_positions(&after, &before, after.capacity_spec());
                    }
                    let j = choose|j: int| #[trigger] after.has_bit(j) && !before.has_bit(j);
                    assert(!s0.has_ancestor(i0, j));
                    assert(!a0[i0].has_bit(j));
                    assert(self.has_ancestor(i0, j) && !a0[i0].has_bit(j));
                }
                if grew {
                    let j = choose|j: int| #[trigger] s0.has_ancestor(i0, j) && !a0[i0].has_bit(j);
                    assert(self.has_ancestor(i0, j) && !a0[i0].has_bit(j));
                }
                if new_count <= old_count {
                    if exists|j: int| #[trigger] self.has_ancestor(i0, j) && !a0[i0].has_bit(j) {
                        let j = choose|j: int| #[trigger] self.has_ancestor(i0, j) && !a0[i0].has_bit(j);
                        assert(s0.has_ancestor(i0, j));
                    }
                }
                assert forall|i: int| 0 <= i < n implies (#[trigger] self.direct_parents@[i]).wf()
                    && self.direct_parents@[i].size_spec() == n by {
                    assert(s0.direct_parents@[i].wf());
                }
                assert forall|i: int| 0 <= i < n implies (#[trigger] self.direct_children@[i]).wf()
                    && self.direct_children@[i].size_spec() == n by {
                    assert(s0.direct_children@[i].wf());
                }
                assert forall|i: int, j: int| 0 <= i < n && 0 <= j < n implies #[trigger] self.has_child(j, i)
                    == #[trigger] self.has_parent(i, j) by {
                    assert(s0.has_child(j, i) == s0.has_parent(i, j));
                }
                assert forall|i: int, j: int| 0 <= i < n && #[trigger] self.has_parent(i, j) implies 0 <= j < n by {
                    assert(s0.has_parent(i, j));
                }
                assert forall|i: int, j: int| 0 <= i < n && #[trigger] self.has_child(i, j) implies 0 <= j < n by {
                    assert(s0.has_child(i, j));
                }
            }
            if new_count > old_count {
                grew = true;
            }
            m += 1;
        }
        proof {
            assert forall|j: int| #[trigger] self.has_ancestor(i0, j)
                == (a0[i0].has_bit(j) || parent_row_has(g, a0, i0, j)) by {
                if parent_row_has(g, a0, i0, j) {
                    let q = choose|q: int| 0 <= q < g.num_classes && #[trigger] g.has_parent(i0, q) && a0[q].has_bit(j);
                    let row = g.direct_parents@[i0];
                    assert(row.has_bit(q));
                    row.lemma_positions_below(row.capacity_spec());
                    assert(0 <= q < row.capacity_spec());
                    let t = choose|t: int| 0 <= t < row.positions().len() && row.positions()[t] == q;
                    assert(parents@[t] as int == q);
                    assert(a0[parents@[t] as int].has_bit(j));
                }
                if exists|t: int| 0 <= t < parents@.len() && #[trigger] a0[parents@[t] as int].has_bit(j) {
                    let t = choose|t: int| 0 <= t < parents@.len() && #[trigger] a0[parents@[t] as int].has_bit(j);
                    let q = g.direct_parents@[i0].positions()[t];
                    assert(g.has_parent(i0, q));
                    assert(self.has_parent(i0, q));
                    assert(0 <= q < n);
                }
            }
        }
        grew
    }
}


impl CompactHierarchy {
    /// One pass over all classes in index order, each taking in the
    /// ancestors of its direct parents; tells whether any row grew.
    fn closure_pass(&mut self, Ghost(g): Ghost<CompactHierarchy>) -> (changed: bool)
        requires
            old(self).wf(),
            old(self).same_frame(g),
            forall|i: int, j: int| 0 <= i < g.num_classes && #[trigger] old(self).has_ancestor(i, j) ==> g.reachable(i, j),
        ensures
            final(self).wf(),
            final(self).same_frame(g),
            forall|i: int, j: int| 0 <= i < g.num_classes && #[trigger] final(self).has_ancestor(i, j) ==> g.reachable(i, j),
            forall|i: int, j: int| 0 <= i < g.num_classes && #[trigger] old(self).has_ancestor(i, j)
                ==> final(self).has_ancestor(i, j),
            forall|i: int, p: int, j: int| 0 <= i < g.num_classes && 0 <= p < g.num_classes
                && #[trigger] g.has_parent(i, p) && #[trigger] old(self).has_ancestor(p, j) ==> final(self).has_ancestor(i, j),
            !changed ==> forall|i: int, j: int| 0 <= i < g.num_classes ==>
                #[trigger] final(self).has_ancestor(i, j) == old(self).has_ancestor(i, j),
    {
        let n = self.num_classes;
        let ghost a0 = *old(self);
        let mut changed = false;
        let mut idx: usize = 0;
        while idx < n
            invariant
                self.wf(),
                self.same_frame(g),
                n == g.num_classes,
                a0 == *old(self),
                idx <= n,
                forall|i: int, j: int| 0 <= i < n && #[trigger] self.has_ancestor(i, j) ==> g.reachable(i, j),
                forall|i: int, j: int| 0 <= i < n && #[trigger] a0.has_ancestor(i, j) ==> self.has_ancestor(i, j),
                forall|i: int, p: int, j: int| 0 <= i < idx && 0 <= p < n
                    && #[trigger] g.has_parent(i, p) && #[trigger] a0.has_ancestor(p, j) ==> self.has_ancestor(i, j),
                !changed ==> forall|i: int, j: int| 0 <= i < n ==> #[trigger] self.has_ancestor(i, j) == a0.has_ancestor(i, j),
            decreases n - idx,
        {
            let ghost s0 = *self;
            let grew = self.propagate_row(idx, Ghost(g));
            proof {
                let i0 = idx as int;
                assert forall|j: int| #[trigger] self.has_ancestor(i0, j) implies g.reachable(i0, j) by {
                    if !s0.has_ancestor(i0, j) {
                        assert(parent_row_has(g, s0.ancestors@, i0, j));
                        let q = choose|q: int| 0 <= q < g.num_classes && #[trigger] g.has_parent(i0, q)
                            && s0.ancestors@[q].has_bit(j);
                        assert(s0.has_ancestor(q, j));
                        assert(g.reachable(q, j));
                        let k = choose|k: nat| #[trigger] g.within(q, j, k);
                        g.lemma_within_step(i0, q, j, k);
                    }
                }
                assert forall|i: int, j: int| 0 <= i < n && #[trigger] self.has_ancestor(i, j) implies g.reachable(i, j) by {
                    if i != i0 {
                        assert(s0.has_ancestor(i, j));
                    }
                }
                assert forall|i: int, j: int| 0 <= i < n && #[trigger] a0.has_ancestor(i, j) implies self.has_ancestor(i, j) by {
                    assert(s0.has_ancestor(i, j));
                }
                assert forall|i: int, p: int, j: int| 0 <= i < idx + 1 && 0 <= p < n
                    && #[trigger] g.has_parent(i, p) && #[trigger] a0.has_ancestor(p, j) implies self.has_ancestor(i, j) by {
                    assert(s0.has_ancestor(p, j));
                    if i == i0 {
                        assert(parent_row_has(g, s0.ancestors@, i0, j));
                    } else {
                        assert(s0.has_ancestor(i, j));
                    }
                }
                if !grew && !changed {
                    assert forall|i: int, j: int| 0 <= i < n implies #[trigger] self.has_ancestor(i, j) == a0.has_ancestor(i, j) by {
                        assert(s0.has_ancestor(i, j) == a0.has_ancestor(i, j));
                        if i == i0 && self.has_ancestor(i, j) && !s0.has_ancestor(i, j) {
                            assert(exists|j: int| #[trigger] self.has_ancestor(i0, j) && !s0.has_ancestor(i0, j));
                        }
                    }
                }
            }
            if grew {
                changed = true;
            }
            idx += 1;
        }
        changed
    }

    /// Computes the ancestors of every class from the direct parents by
    /// repeated passes until nothing changes or `num_classes` passes are
    /// done. The recorded ancestors of a class are exactly the classes it
    /// reaches by one or more parent steps.
    pub fn compute_transitive_closure(&mut self)
        requires
            old(self).wf(),
        ensures
            final(self).wf(),
            final(self).same_frame(*old(self)),
            forall|i: int, j: int| 0 <= i < old(self).num_classes
                ==> (#[trigger] final(self).has_ancestor(i, j) <==> old(self).reachable(i, j)),
    {
        let ghost g = *old(self);
        let n = self.num_classes;
        self.reset_ancestors_to_parents();
        proof {
            assert forall|i: int, j: int| 0 <= i < n && #[trigger] self.has_ancestor(i, j) implies g.reachable(i, j) by {
                assert(g.within(i, j, 1));
            }
            assert forall|i: int, j: int| 0 <= i < n && #[trigger] g.within(i, j, 1) implies self.has_ancestor(i, j) by {
                if !g.has_parent(i, j) {
                    let p = choose|p: int| 0 <= p < g.num_classes
                        && #[trigger] g.has_parent(i, p) && g.within(p, j, 0);
                    assert(!g.within(p, j, 0));
                }
            }
        }
        let mut changed = true;
        let mut iterations: usize = 0;
        let max_iterations = n;
        while changed && iterations < max_iterations
            invariant
                self.wf(),
                self.same_frame(g),
                n == g.num_classes,
                max_iterations == n,
                iterations <= n,
                forall|i: int, j: int| 0 <= i < n && #[trigger] self.has_ancestor(i, j) ==> g.reachable(i, j),
                forall|i: int, j: int| 0 <= i < n && #[trigger] g.has_parent(i, j) ==> self.has_ancestor(i, j),
                forall|i: int, j: int| 0 <= i < n && #[trigger] g.within(i, j, (iterations + 1) as nat)
                    ==> self.has_ancestor(i, j),
                !changed ==> forall|i: int, p: int, j: int| 0 <= i < n && 0 <= p < n
                    && #[trigger] g.has_parent(i, p) && #[trigger] self.has_ancestor(p, j) ==> self.has_ancestor(i, j),
            decreases n - iterations,
        {
            let ghost s0 = *self;
            changed = self.closure_pass(Ghost(g));
            iterations += 1;
            proof {
                assert forall|i: int, j: int| 0 <= i < n && #[trigger] g.within(i, j, (iterations + 1) as nat)
                    implies self.has_ancestor(i, j) by {
                    if g.has_parent(i, j) {
                        assert(s0.has_ancestor(i, j));
                    } else {
                        let p = choose|p: int| 0 <= p < g.num_classes
                            && #[trigger] g.has_parent(i, p) && g.within(p, j, iterations as nat);
                        assert(g.within(p, j, ((iterations - 1) + 1) as nat));
                        assert(s0.has_ancestor(p, j));
                    }
                }
                assert forall|i: int, j: int| 0 <= i < n && #[trigger] g.has_parent(i, j) implies self.has_ancestor(i, j) by {
                    assert(s0.has_ancestor(i, j));
                }
                if !changed {
                    assert forall|i: int, p: int, j: int| 0 <= i < n && 0 <= p < n
                        && #[trigger] g.has_parent(i, p) && #[trigger] self.has_ancestor(p, j) implies self.has_ancestor(i, j) by {
                        assert(s0.has_ancestor(p, j));
                    }
                }
            }
        }
        proof {
            assert forall|i: int, j: int| 0 <= i < n && #[trigger] g.within(i, j, (n + 1) as nat)
                implies self.has_ancestor(i, j) by {
                if changed {
                    assert(iterations == n);
                } else {
                    let rows = self.ancestors@;
                    assert forall|a: int, b: int| 0 <= a < g.num_classes && #[trigger] g.has_parent(a, b)
                        implies rows[a].has_bit(b) by {
                        assert(self.has_ancestor(a, b));
                    }
                    assert forall|a: int, p: int, b: int| 0 <= a < g.num_classes && 0 <= p < g.num_classes
                        && #[trigger] g.has_parent(a, p) && #[trigger] rows[p].has_bit(b) implies rows[a].has_bit(b) by {
                        assert(self.has_ancestor(p, b));
                    }
                    g.lemma_closed_rows(rows, i, j, (n + 1) as nat);
                }
            }
            assert forall|i: int, j: int| 0 <= i < n && #[trigger] g.reachable(i, j) implies self.has_ancestor(i, j) by {
                g.lemma_reachable_within_count(i, j);
                g.lemma_within_grow(i, j, n as nat);
            }
        }
    }
}


impl CompactHierarchy {
    /// Sets the ancestors of every class to its direct parents.
    fn reset_ancestors_to_parents(&mut self)
        requires
            old(self).wf(),
        ensures
            final(self).wf(),
            final(self).same_frame(*old(self)),
            forall|i: int, j: int| 0 <= i < old(self).num_classes ==>
                #[trigger] final(self).has_ancestor(i, j) == old(self).has_parent(i, j),
    {
        let ghost g = *old(self);
        let n = self.num_classes;
        let mut idx: usize = 0;
        while idx < n
            invariant
                self.wf(),
                self.same_frame(g),
                n == g.num_classes,
                idx <= n,
                forall|i: int, j: int| 0 <= i < idx ==> #[trigger] self.has_ancestor(i, j) == g.has_parent(i, j),
            decreases n - idx,
        {
            let ghost s0 = *self;
            let row = self.direct_parents[idx].duplicate();
            self.ancestors.set(idx, row);
            proof {
                assert forall|i: int| 0 <= i < n implies (#[trigger] self.ancestors@[i]).wf()
                    && self.ancestors@[i].size_spec() == n by {
                    if i != idx {
                        assert(self.ancestors@[i] == s0.ancestors@[i]);
                    }
                }
                assert forall|i: int, j: int| 0 <= i < n && #[trigger] self.has_ancestor(i, j) implies 0 <= j < n by {
                    if i != idx {
                        assert(self.ancestors@[i] == s0.ancestors@[i]);
                        assert(s0.has_ancestor(i, j));
                    } else {
                        assert(s0.has_parent(i, j));
                    }
                }
                assert forall|i: int, j: int| 0 <= i < idx + 1 implies #[trigger] self.has_ancestor(i, j) == g.has_parent(i, j) by {
                    if i != idx {
                        assert(self.ancestors@[i] == s0.ancestors@[i]);
                        assert(s0.has_ancestor(i, j) == g.has_parent(i, j));
                    }
                }
                assert forall|i: int| 0 <= i < n implies (#[trigger] self.direct_parents@[i]).wf()
                    && self.direct_parents@[i].size_spec() == n by {
                    assert(s0.direct_parents@[i].wf());
                }
                assert forall|i: int| 0 <= i < n implies (#[trigger] self.direct_children@[i]).wf()
                    && self.direct_children@[i].size_spec() == n by {
                    assert(s0.direct_children@[i].wf());
                }
                assert forall|i: int, j: int| 0 <= i < n && 0 <= j < n implies #[trigger] self.has_child(j, i)
                    == #[trigger] self.has_parent(i, j) by {
                    assert(s0.has_child(j, i) == s0.has_parent(i, j));
                }
                assert forall|i: int, j: int| 0 <= i < n && #[trigger] self.has_parent(i, j) implies 0 <= j < n by {
                    assert(s0.has_parent(i, j));
                }
                assert forall|i: int, j: int| 0 <= i < n && #[trigger] self.has_child(i, j) implies 0 <= j < n by {
                    assert(s0.has_child(i, j));
                }
            }
            idx += 1;
        }
    }
}


/// The number of `true` entries.
pub open spec fn count_true(s: Seq<bool>) -> nat
    decreases s.len(),
{
    if s.len() == 0 {
        0
    } else {
        count_true(s.drop_last()) + if s.last() { 1nat } else { 0nat }
    }
}

/// Setting a `false` entry to `true` adds one, and the count is at most
/// the length.
pub proof fn lemma_count_true_set(s: Seq<bool>, i: int)
    requires
        0 <= i < s.len(),
        !s[i],
    ensures
        count_true(s.update(i, true)) == count_true(s) + 1,
        count_true(s) <= s.len(),
        count_true(s.update(i, true)) <= s.len(),
    decreases s.len(),
{
    let u = s.update(i, true);
    if i == s.len() - 1 {
        assert(u.drop_last() =~= s.drop_last());
        lemma_count_true_bound(s.drop_last());
    } else {
        assert(u.drop_last() =~= s.drop_last().update(i, true));
        lemma_count_true_set(s.drop_last(), i);
    }
}

/// A prefix of all-`false` entries counts zero.
proof fn lemma_count_true_prefix_false(s: Seq<bool>, k: int)
    requires
        0 <= k <= s.len(),
        forall|i: int| 0 <= i < s.len() ==> !s[i],
    ensures
        count_true(s.take(k)) == 0,
    decreases k,
{
    if k > 0 {
        lemma_count_true_prefix_false(s, k - 1);
        assert(s.take(k).drop_last() =~= s.take(k - 1));
    }
}

/// The count is at most the length.
pub proof fn lemma_count_true_bound(s: Seq<bool>)
    ensures
        count_true(s) <= s.len(),
    decreases s.len(),
{
    if s.len() > 0 {
        lemma_count_true_bound(s.drop_last());
    }
}

impl CompactHierarchy {
    /// Adds the ancestors of `src` to those of `dst`.
    fn merge_row(&mut self, dst: usize, src: usize, Ghost(g): Ghost<CompactHierarchy>)
        requires
            old(self).wf(),
            old(self).same_frame(g),
            dst < old(self).num_classes,
            src < old(self).num_classes,
        ensures
            final(self).wf(),
            final(self).same_frame(g),
            forall|i: int, j: int| 0 <= i < g.num_classes && i != dst ==>
                #[trigger] final(self).has_ancestor(i, j) == old(self).has_ancestor(i, j),
            forall|j: int| #[trigger] final(self).has_ancestor(dst as int, j)
                == (old(self).has_ancestor(dst as int, j) || old(self).has_ancestor(src as int, j)),
    {
        let ghost n = self.num_classes as int;
        let ghost s0 = *self;
        let pa = self.ancestors[src].duplicate();
        proof {
            self.ancestors@[dst as int].lemma_capacity();
            pa.lemma_capacity();
        }
        let mut row = self.ancestors[dst].duplicate();
        row.union_with(&pa);
        self.ancestors.set(dst, row);
        proof {
            assert forall|j: int| #[trigger] self.has_ancestor(dst as int, j)
                == (s0.has_ancestor(dst as int, j) || s0.has_ancestor(src as int, j)) by {
                assert(self.ancestors@[dst as int] == row);
            }
            assert forall|i: int| 0 <= i < n implies (#[trigger] self.ancestors@[i]).wf()
                && self.ancestors@[i].size_spec() == n by {
                if i != dst {
                    assert(self.ancestors@[i] == s0.ancestors@[i]);
                }
            }
            assert forall|i: int, j: int| 0 <= i < n && #[trigger] self.has_ancestor(i, j) implies 0 <= j < n by {
                if i != dst {
                    assert(self.ancestors@[i] == s0.ancestors@[i]);
                    assert(s0.has_ancestor(i, j));
                } else if s0.has_ancestor(dst as int, j) {
                } else {
                    assert(s0.has_ancestor(src as int, j));
                }
            }
            assert forall|i: int, j: int| 0 <= i < n && i != dst implies #[trigger] self.has_ancestor(i, j)
                == s0.has_ancestor(i, j) by {
                assert(self.ancestors@[i] == s0.ancestors@[i]);
            }
            assert forall|i: int| 0 <= i < n implies (#[trigger] self.direct_parents@[i]).wf()
                && self.direct_parents@[i].size_spec() == n by {
                assert(s0.direct_parents@[i].wf());
            }
            assert forall|i: int| 0 <= i < n implies (#[trigger] self.direct_children@[i]).wf()
                && self.direct_children@[i].size_spec() == n by {
                assert(s0.direct_children@[i].wf());
            }
            assert forall|i: int, j: int| 0 <= i < n && 0 <= j < n implies #[trigger] self.has_child(j, i)
                == #[trigger] self.has_parent(i, j) by {
                assert(s0.has_child(j, i) == s0.has_parent(i, j));
            }
            assert forall|i: int, j: int| 0 <= i < n && #[trigger] self.has_parent(i, j) implies 0 <= j < n by {
                assert(s0.has_parent(i, j));
            }
            assert forall|i: int, j: int| 0 <= i < n && #[trigger] self.has_child(i, j) implies 0 <= j < n by {
                assert(s0.has_child(i, j));
            }
        }
    }

    /// Computes ancestors by a breadth-first walk from the roots (classes
    /// without a parent, or whose only parent is `owl:Thing`): each class
    /// taken from the queue for the first time passes its ancestors to its
    /// direct children, and queues those not yet taken. The recorded
    /// ancestors hold the direct parents and are reached by parent steps.
    pub fn compute_transitive_closure_topological(&mut self)
        requires
            old(self).wf(),
        ensures
            final(self).wf(),
            final(self).same_frame(*old(self)),
            forall|i: int, j: int| 0 <= i < old(self).num_classes && #[trigger] final(self).has_ancestor(i, j)
                ==> old(self).reachable(i, j),
            forall|i: int, j: int| 0 <= i < old(self).num_classes && #[trigger] old(self).has_parent(i, j)
                ==> final(self).has_ancestor(i, j),
    {
        let ghost g = *old(self);
        let n = self.num_classes;
        self.reset_ancestors_to_parents();
        proof {
            assert forall|i: int, j: int| 0 <= i < n && #[trigger] self.has_ancestor(i, j) implies g.reachable(i, j) by {
                assert(g.within(i, j, 1));
            }
        }
        let mut queue: Vec<u32> = Vec::new();
        let mut idx: usize = 0;
        while idx < n
            invariant
                self.wf(),
                self.same_frame(g),
                n == g.num_classes,
                idx <= n,
                forall|t: int| 0 <= t < queue@.len() ==> #[trigger] queue@[t] < n,
            decreases n - idx,
        {
            let only_thing = self.direct_parents[idx].count() == 1 && self.direct_parents[idx].contains(0);
            if self.direct_parents[idx].is_empty() || only_thing {
                queue.push(idx as u32);
            }
            idx += 1;
        }
        let mut processed: Vec<bool> = vec![false; n];
        proof {
            assert(count_true(processed@) == 0) by {
                assert forall|k: int| 0 <= k <= n implies count_true(#[trigger] processed@.take(k)) == 0 by {
                    lemma_count_true_prefix_false(processed@, k);
                }
                assert(processed@.take(n as int) =~= processed@);
            }
        }
        let mut head: usize = 0;
        while head < queue.len()
            invariant
                self.wf(),
                self.same_frame(g),
                n == g.num_classes,
                processed@.len() == n,
                head <= queue@.len(),
                forall|t: int| 0 <= t < queue@.len() ==> #[trigger] queue@[t] < n,
                count_true(processed@) <= n,
                forall|i: int, j: int| 0 <= i < n && #[trigger] self.has_ancestor(i, j) ==> g.reachable(i, j),
                forall|i: int, j: int| 0 <= i < n && #[trigger] g.has_parent(i, j) ==> self.has_ancestor(i, j),
            decreases n - count_true(processed@), queue@.len() - head,
        {
            let current = queue[head] as usize;
            head += 1;
            if processed[current] {
                continue;
            }
            let ghost before_flags = processed@;
            processed.set(current, true);
            proof {
                lemma_count_true_set(before_flags, current as int);
                let row = self.direct_children@[current as int];
                row.lemma_positions_below(row.capacity_spec());
            }
            let ghost progress = count_true(processed@);
            let children = self.direct_children[current].to_vec();
            let mut m: usize = 0;
            while m < children.len()
                invariant
                    self.wf(),
                    self.same_frame(g),
                    n == g.num_classes,
                    processed@.len() == n,
                    count_true(processed@) == progress,
                    progress <= n,
                    current < n,
                    head <= queue@.len(),
                    children@.len() == g.direct_children@[current as int].positions().len(),
                    forall|t: int| 0 <= t < children@.len() ==> children@[t] as int
                        == #[trigger] g.direct_children@[current as int].positions()[t],
                    forall|t: int| 0 <= t < children@.len() ==> g.has_child(current as int,
                        #[trigger] g.direct_children@[current as int].positions()[t]),
                    forall|t: int| 0 <= t < queue@.len() ==> #[trigger] queue@[t] < n,
                    forall|i: int, j: int| 0 <= i < n && #[trigger] self.has_ancestor(i, j) ==> g.reachable(i, j),
                    forall|i: int, j: int| 0 <= i < n && #[trigger] g.has_parent(i, j) ==> self.has_ancestor(i, j),
                decreases children@.len() - m,
            {
                let child = children[m];
                let ghost s0 = *self;
                proof {
                    let c = g.direct_children@[current as int].positions()[m as int];
                    assert(g.has_child(current as int, c));
                    assert(self.has_child(current as int, c));
                    assert(0 <= child < n);
                    assert(self.has_parent(child as int, current as int));
                }
                self.merge_row(child, current, Ghost(g));
                proof {
                    assert forall|i: int, j: int| 0 <= i < n && #[trigger] self.has_ancestor(i, j) implies g.reachable(i, j) by {
                        if i == child && !s0.has_ancestor(i, j) {
                            assert(s0.has_ancestor(current as int, j));
                            assert(g.reachable(current as int, j));
                            let k = choose|k: nat| #[trigger] g.within(current as int, j, k);
                            g.lemma_within_step(i, current as int, j, k);
                        } else {
                            assert(s0.has_ancestor(i, j));
                        }
                    }
                    assert forall|i: int, j: int| 0 <= i < n && #[trigger] g.has_parent(i, j) implies self.has_ancestor(i, j) by {
                        assert(s0.has_ancestor(i, j));
                    }
                }
                if !processed[child] {
                    queue.push(child as u32);
                }
                m += 1;
            }
        }
    }

    /// An estimate of the bytes the bitsets and IRI tables take: three
    /// bitset tables of `num_classes` rows of 8-byte chunks, and 32 bytes
    /// per IRI in each of the two IRI tables.
    pub fn memory_usage(&self) -> (r: usize)
        requires
            self.wf(),
            3 * (self.num_classes * ((self.num_classes + 63) / 64) * 8) + 64 * self.num_classes <= usize::MAX,
        ensures
            r == 3 * (self.num_classes * ((self.num_classes + 63) / 64) * 8) + 64 * self.num_classes,
    {
        let n = self.num_classes;
        let chunks = (n + 63) / 64;
        proof {
            assert(n * chunks * 8 <= usize::MAX) by (nonlinear_arith)
                requires
                    3 * (n * chunks * 8) + 64 * n <= usize::MAX;
        }
        let bitset_size = n * chunks * 8;
        let iri_map_size = n * 32;
        let iri_vec_size = self.idx_to_iri.len() * 32;
        bitset_size * 3 + iri_map_size + iri_vec_size
    }
}

} // verus!
