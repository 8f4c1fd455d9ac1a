//! The decision logic of the speculative tableaux reasoner: branch
//! identifiers, learned conflicts (nogoods) and their stores, the
//! configuration, the expression features and costs that gate parallel
//! exploration, and the ordering of a disjunction's operands.

use vstd::prelude::*;
use vstd::multiset::Multiset;
use crate::class_expression::{ClassExpression, ExprView, expr_view, operand_views, lemma_operand_views,
    same_expression, copy_expression};
use crate::axioms::Axiom;
use crate::ontology::Ontology;
use crate::analysis::depth;

verus! {

broadcast use vstd::std_specs::vec::group_vec_axioms;

/// `num_cpus::get`: the number of logical CPUs available to this process.
/// What it returns depends on the machine, so nothing is stated of it.
#[verifier::external_body]
fn cpu_count() -> (r: usize) {
    num_cpus::get()
}

/// The identifier of a speculative branch.
#[derive(Debug, Clone, Copy, PartialEq, Eq, Structural, Hash)]
pub struct BranchId(pub u64);

impl BranchId {
    /// The branch with number `id`.
    pub fn new(id: u64) -> (r: Self)
        ensures
            r.0 == id,
    {
        BranchId(id)
    }

    /// The branch numbered one higher.
    pub fn next(&self) -> (r: Self)
        requires
            self.0 < u64::MAX,
        ensures
            r.0 == self.0 + 1,
    {
        BranchId(self.0 + 1)
    }
}

/// The views of a sequence of expressions.
pub open spec fn views_of(s: Seq<ClassExpression>) -> Seq<ExprView> {
    s.map_values(|e: ClassExpression| e@)
}

/// Every view of `a` occurs among the views of `b`.
pub open spec fn views_subset(a: Seq<ClassExpression>, b: Seq<ClassExpression>) -> bool {
    forall|i: int| 0 <= i < a.len() ==> views_of(b).contains(#[trigger] a[i]@)
}

/// No two expressions of `s` have the same view.
pub open spec fn views_distinct(s: Seq<ClassExpression>) -> bool {
    forall|i: int, j: int| 0 <= i < j < s.len() ==> (#[trigger] s[i])@ != (#[trigger] s[j])@
}

/// Whether some expression of `s` has the view of `e`.
pub fn contains_expression(s: &Vec<ClassExpression>, e: &ClassExpression) -> (r: bool)
    ensures
        r == views_of(s@).contains(e@),
{
    let mut i: usize = 0;
    while i < s.len()
        invariant
            i <= s@.len(),
            forall|k: int| 0 <= k < i ==> s@[k]@ != e@,
        decreases s@.len() - i,
    {
        if same_expression(&s[i], e) {
            assert(views_of(s@)[i as int] == e@);
            return true;
        }
        i += 1;
    }
    proof {
        if views_of(s@).contains(e@) {
            let k = choose|k: int| 0 <= k < views_of(s@).len() && views_of(s@)[k] == e@;
            assert(s@[k]@ == e@);
        }
    }
    false
}

/// A learned conflict: a set of class expressions that cannot hold
/// together.
#[derive(Debug)]
pub struct Nogood {
    /// The expressions, each view once.
    pub assertions: Vec<ClassExpression>,
    /// The number of expressions.
    pub size: usize,
    /// How often the nogood pruned a branch.
    pub hit_count: usize,
}

impl Nogood {
    /// The nogood of the distinct expressions of `assertions` (by view,
    /// first occurrence kept).
    pub fn new(assertions: Vec<ClassExpression>) -> (r: Self)
        ensures
            views_distinct(r.assertions@),
            views_subset(r.assertions@, assertions@),
            views_subset(assertions@, r.assertions@),
            r.size == r.assertions@.len(),
            r.hit_count == 0,
    {
        let mut set: Vec<ClassExpression> = Vec::new();
        let mut i: usize = 0;
        while i < assertions.len()
            invariant
                i <= assertions@.len(),
                views_distinct(set@),
                views_subset(set@, assertions@),
                forall|k: int| 0 <= k < i ==> views_of(set@).contains(#[trigger] assertions@[k]@),
            decreases assertions@.len() - i,
        {
            let ghost before = set@;
            if !contains_expression(&set, &assertions[i]) {
                set.push(copy_expression(&assertions[i]));
                proof {
                    assert(views_of(set@) =~= views_of(before).push(assertions@[i as int]@));
                    assert forall|k: int| 0 <= k < i implies views_of(set@).contains(#[trigger] assertions@[k]@) by {
                        let j = choose|j: int| 0 <= j < views_of(before).len() && views_of(before)[j] == assertions@[k]@;
                        assert(views_of(set@)[j] == assertions@[k]@);
                    }
                    assert(views_of(set@)[before.len() as int] == assertions@[i as int]@);
                    assert forall|a: int, b: int| 0 <= a < b < set@.len() implies (#[trigger] set@[a])@ != (#[trigger] set@[b])@ by {
                        if b == before.len() {
                            assert(views_of(before)[a] == set@[a]@);
                        }
                    }
                    assert forall|k: int| 0 <= k < set@.len() implies views_of(assertions@).contains(#[trigger] set@[k]@) by {
                        if k == before.len() {
                            assert(views_of(assertions@)[i as int] == set@[k]@);
                        } else {
                            assert(set@[k] == before[k]);
                        }
                    }
                }
            }
            i += 1;
        }
        let size = set.len();
        Nogood { assertions: set, size, hit_count: 0 }
    }

    /// Whether every expression of the nogood is among `assertions`.
    pub fn subsumes(&self, assertions: &Vec<ClassExpression>) -> (r: bool)
        ensures
            r == views_subset(self.assertions@, assertions@),
    {
        let mut i: usize = 0;
        while i < self.assertions.len()
            invariant
                i <= self.assertions@.len(),
                forall|k: int| 0 <= k < i ==> views_of(assertions@).contains(#[trigger] self.assertions@[k]@),
            decreases self.assertions@.len() - i,
        {
            if !contains_expression(assertions, &self.assertions[i]) {
                return false;
            }
            i += 1;
        }
        true
    }

    /// Counts one more pruning.
    pub fn record_hit(&mut self)
        requires
            old(self).hit_count < usize::MAX,
        ensures
            final(self).hit_count == old(self).hit_count + 1,
            final(self).assertions == old(self).assertions,
            final(self).size == old(self).size,
    {
        self.hit_count = self.hit_count + 1;
    }

    /// A copy of the nogood.
    pub fn duplicate(&self) -> (r: Self)
        ensures
            views_of(r.assertions@) == views_of(self.assertions@),
            r.size == self.size,
            r.hit_count == self.hit_count,
    {
        let mut v: Vec<ClassExpression> = Vec::new();
        let mut i: usize = 0;
        while i < self.assertions.len()
            invariant
                i <= self.assertions@.len(),
                views_of(v@) == views_of(self.assertions@.take(i as int)),
            decreases self.assertions@.len() - i,
        {
            let ghost before = v@;
            v.push(copy_expression(&self.assertions[i]));
            proof {
                assert(views_of(v@) =~= views_of(before).push(self.assertions@[i as int]@));
                assert(self.assertions@.take(i + 1) =~= self.assertions@.take(i as int).push(self.assertions@[i as int]));
                assert(views_of(self.assertions@.take(i + 1)) =~= views_of(self.assertions@.take(i as int)).push(self.assertions@[i as int]@));
            }
            i += 1;
        }
        assert(self.assertions@.take(self.assertions@.len() as int) == self.assertions@);
        Nogood { assertions: v, size: self.size, hit_count: self.hit_count }
    }
}

/// How speculative branches are scheduled.
#[derive(Debug, Clone, Copy, PartialEq, Eq, Structural)]
pub enum SchedulingMode {
    Adaptive,
    Sequential,
    AlwaysParallel,
}

impl SchedulingMode {
    /// The mode's name.
    pub fn as_str(&self) -> (r: &'static str)
        ensures
            *self == SchedulingMode::Adaptive ==> r@ == "adaptive"@,
            *self == SchedulingMode::Sequential ==> r@ == "sequential"@,
            *self == SchedulingMode::AlwaysParallel ==> r@ == "always_parallel"@,
    {
        match self {
            SchedulingMode::Adaptive => "adaptive",
            SchedulingMode::Sequential => "sequential",
            SchedulingMode::AlwaysParallel => "always_parallel",
        }
    }
}

/// How a disjunction's operands are ordered.
#[derive(Debug, Clone, Copy, PartialEq, Eq, Structural)]
pub enum BranchPolicyMode {
    /// The ontology's operand order.
    Baseline,
    /// A structural score, highest first.
    Heuristic,
    /// A learned linear model, falling back to the structural score.
    HybridRrn,
}

impl BranchPolicyMode {
    /// The mode's name.
    pub fn as_str(&self) -> (r: &'static str)
        ensures
            *self == BranchPolicyMode::Baseline ==> r@ == "baseline"@,
            *self == BranchPolicyMode::Heuristic ==> r@ == "heuristic"@,
            *self == BranchPolicyMode::HybridRrn ==> r@ == "hybrid_rrn"@,
    {
        match self {
            BranchPolicyMode::Baseline => "baseline",
            BranchPolicyMode::Heuristic => "heuristic",
            BranchPolicyMode::HybridRrn => "hybrid_rrn",
        }
    }
}

/// The configuration of speculative parallelism.
#[derive(Debug)]
pub struct SpeculativeConfig {
    pub num_workers: usize,
    pub scheduling_mode: SchedulingMode,
    pub branch_policy: BranchPolicyMode,
    pub rrn_model_path: Option<String>,
    pub branch_snapshot_path: Option<String>,
    pub max_speculative_depth: usize,
    pub parallel_threshold: usize,
    pub enable_learning: bool,
    pub max_nogoods: usize,
    pub speculative_timeout_ms: u64,
    pub adaptive_tuning: bool,
    pub cost_threshold_us: usize,
    pub cost_per_operand_us: usize,
    pub cost_per_nesting_us: usize,
}

impl Default for SpeculativeConfig {
    /// One worker per available CPU, adaptive scheduling, operands in
    /// ontology order, depth 10, a branch threshold of 2000, learning with up
    /// to 10000 nogoods, a 30 s timeout, adaptive tuning, and costs of 500 µs
    /// (gate), 50 µs per operand and 15 µs per nesting.
    fn default() -> (r: Self)
        ensures
            r.scheduling_mode == SchedulingMode::Adaptive,
            r.branch_policy == BranchPolicyMode::Baseline,
            r.rrn_model_path is None,
            r.branch_snapshot_path is None,
            r.max_speculative_depth == 10,
            r.parallel_threshold == 2000,
            r.enable_learning,
            r.max_nogoods == 10000,
            r.speculative_timeout_ms == 30000,
            r.adaptive_tuning,
            r.cost_threshold_us == 500,
            r.cost_per_operand_us == 50,
            r.cost_per_nesting_us == 15,
    {
        SpeculativeConfig {
            num_workers: cpu_count(),
            scheduling_mode: SchedulingMode::Adaptive,
            branch_policy: BranchPolicyMode::Baseline,
            rrn_model_path: None,
            branch_snapshot_path: None,
            max_speculative_depth: 10,
            parallel_threshold: 2000,
            enable_learning: true,
            max_nogoods: 10000,
            speculative_timeout_ms: 30000,
            adaptive_tuning: true,
            cost_threshold_us: 500,
            cost_per_operand_us: 50,
            cost_per_nesting_us: 15,
        }
    }
}


/// `a` scores at least as high as `b`, the score being hits per
/// expression (compared without division).
pub open spec fn score_ge(a: Nogood, b: Nogood) -> bool {
    (a.hit_count as int) * (b.size as int) >= (b.hit_count as int) * (a.size as int)
}

/// A nogood whose score is a number: it has expressions or hits.
pub open spec fn has_score(n: Nogood) -> bool {
    n.size > 0 || n.hit_count > 0
}

/// Scores never increase along `s`.
pub open spec fn by_score(s: Seq<Nogood>) -> bool {
    forall|i: int, j: int| 0 <= i < j < s.len() ==> score_ge(#[trigger] s[i], #[trigger] s[j])
}

fn score_at_least(a: &Nogood, b: &Nogood) -> (r: bool)
    ensures
        r == score_ge(*a, *b),
{
    let x = a.hit_count as u128;
    let y = b.size as u128;
    let z = b.hit_count as u128;
    let w = a.size as u128;
    assert(x * y <= 0xffff_ffff_ffff_ffff * 0xffff_ffff_ffff_ffff) by (nonlinear_arith)
        requires x <= 0xffff_ffff_ffff_ffff, y <= 0xffff_ffff_ffff_ffff;
    assert(z * w <= 0xffff_ffff_ffff_ffff * 0xffff_ffff_ffff_ffff) by (nonlinear_arith)
        requires z <= 0xffff_ffff_ffff_ffff, w <= 0xffff_ffff_ffff_ffff;
    x * y >= z * w
}

/// Comparing scores chains, for nogoods that have a score.
proof fn lemma_score_ge_trans(a: Nogood, b: Nogood, c: Nogood)
    requires
        has_score(a),
        has_score(b),
        has_score(c),
        score_ge(a, b),
        score_ge(b, c),
    ensures
        score_ge(a, c),
{
    let (ah, as_, bh, bs, ch, cs) = (a.hit_count as int, a.size as int, b.hit_count as int, b.size as int,
        c.hit_count as int, c.size as int);
    if bs > 0 {
        assert(bs * (ah * cs) >= bs * (ch * as_)) by (nonlinear_arith)
            requires ah * bs >= bh * as_, bh * cs >= ch * bs, ah >= 0, as_ >= 0, bh >= 0, bs > 0, ch >= 0, cs >= 0;
        assert(ah * cs >= ch * as_) by (nonlinear_arith)
            requires bs * (ah * cs) >= bs * (ch * as_), bs > 0;
    } else {
        assert(bh > 0);
        assert(bh * as_ <= 0) by (nonlinear_arith) requires ah * bs >= bh * as_, bs == 0;
        assert(as_ == 0) by (nonlinear_arith) requires bh * as_ <= 0, bh > 0, as_ >= 0;
        assert(ah * cs >= ch * as_) by (nonlinear_arith) requires as_ == 0, ah >= 0, cs >= 0;
    }
}

/// The two nogoods have the same score.
pub open spec fn same_score(a: Nogood, b: Nogood) -> bool {
    score_ge(a, b) && score_ge(b, a)
}

/// The nogoods of `s` with the score of `y`, in their order in `s`.
pub open spec fn ties(s: Seq<Nogood>, y: Nogood) -> Seq<Nogood>
    decreases s.len(),
{
    if s.len() == 0 {
        Seq::empty()
    } else {
        let t = ties(s.drop_last(), y);
        if same_score(s.last(), y) { t.push(s.last()) } else { t }
    }
}

proof fn lemma_ties_add(a: Seq<Nogood>, b: Seq<Nogood>, y: Nogood)
    ensures
        ties(a + b, y) == ties(a, y) + ties(b, y),
    decreases b.len(),
{
    if b.len() == 0 {
        assert(a + b =~= a);
        assert(ties(a, y) + ties(b, y) =~= ties(a, y));
    } else {
        assert((a + b).drop_last() =~= a + b.drop_last());
        assert((a + b).last() == b.last());
        lemma_ties_add(a, b.drop_last(), y);
        if same_score(b.last(), y) {
            assert(ties(a, y) + ties(b.drop_last(), y).push(b.last()) =~= (ties(a, y) + ties(b.drop_last(), y)).push(b.last()));
        }
    }
}

proof fn lemma_ties_none(s: Seq<Nogood>, y: Nogood)
    requires
        forall|k: int| 0 <= k < s.len() ==> !same_score(#[trigger] s[k], y),
    ensures
        ties(s, y) == Seq::<Nogood>::empty(),
    decreases s.len(),
{
    if s.len() > 0 {
        assert forall|k: int| 0 <= k < s.drop_last().len() implies !same_score(#[trigger] s.drop_last()[k], y) by {
            assert(s.drop_last()[k] == s[k]);
        }
        lemma_ties_none(s.drop_last(), y);
        assert(!same_score(s[s.len() - 1], y));
    }
}

proof fn lemma_ties_one(x: Nogood, y: Nogood)
    ensures
        ties(seq![x], y) == if same_score(x, y) { seq![x] } else { Seq::<Nogood>::empty() },
{
    assert(seq![x].drop_last() =~= Seq::<Nogood>::empty());
    assert(seq![x].last() == x);
    assert(ties(Seq::<Nogood>::empty(), y) =~= Seq::<Nogood>::empty());
    assert(ties(seq![x].drop_last(), y) =~= Seq::<Nogood>::empty());
    if same_score(x, y) {
        assert(Seq::<Nogood>::empty().push(x) =~= seq![x]);
    }
}

/// `s` with `x` placed after the leading nogoods that score at least as
/// high.
pub open spec fn insert_by_score(s: Seq<Nogood>, x: Nogood) -> Seq<Nogood>
    decreases s.len(),
{
    if s.len() == 0 {
        seq![x]
    } else if score_ge(s[0], x) {
        seq![s[0]] + insert_by_score(s.drop_first(), x)
    } else {
        seq![x] + s
    }
}

/// `s` sorted by score, highest first, equal scores in their order in `s`.
pub open spec fn stable_sorted(s: Seq<Nogood>) -> Seq<Nogood>
    decreases s.len(),
{
    if s.len() == 0 { Seq::empty() } else { insert_by_score(stable_sorted(s.drop_last()), s.last()) }
}

/// What a store holding up to `max_size` nogoods keeps of `s`: all of it
/// within the limit, else the nine tenths of the limit with the best scores.
pub open spec fn pruned(s: Seq<Nogood>, max_size: usize) -> Seq<Nogood> {
    if s.len() <= max_size {
        s
    } else {
        let t = stable_sorted(s);
        t.take(if t.len() <= (max_size as int) * 9 / 10 { t.len() as int } else { (max_size as int) * 9 / 10 })
    }
}

/// The store after `more` are added one by one to `s`.
pub open spec fn added_all(s: Seq<Nogood>, more: Seq<Nogood>, max_size: usize) -> Seq<Nogood>
    decreases more.len(),
{
    if more.len() == 0 { s } else { pruned(added_all(s, more.drop_last(), max_size).push(more.last()), max_size) }
}

proof fn lemma_insert_at(s: Seq<Nogood>, x: Nogood, p: int)
    requires
        0 <= p <= s.len(),
        forall|k: int| 0 <= k < p ==> score_ge(#[trigger] s[k], x),
        p < s.len() ==> !score_ge(s[p], x),
    ensures
        insert_by_score(s, x) == s.insert(p, x),
    decreases p,
{
    if s.len() == 0 {
        assert(s.insert(p, x) =~= seq![x]);
    } else if p == 0 {
        assert(s.insert(0, x) =~= seq![x] + s);
    } else {
        assert(score_ge(s[0], x));
        assert forall|k: int| 0 <= k < p - 1 implies score_ge(#[trigger] s.drop_first()[k], x) by {
            assert(s.drop_first()[k] == s[k + 1]);
        }
        if p - 1 < s.drop_first().len() {
            assert(s.drop_first()[p - 1] == s[p]);
        }
        lemma_insert_at(s.drop_first(), x, p - 1);
        assert(seq![s[0]] + s.drop_first().insert(p - 1, x) =~= s.insert(p, x));
    }
}

/// Sorts by score, highest first, keeping the order of equal scores.
fn sort_by_score(items: Vec<Nogood>) -> (r: Vec<Nogood>)
    requires
        forall|k: int| 0 <= k < items@.len() ==> has_score(#[trigger] items@[k]),
    ensures
        r@.to_multiset() == items@.to_multiset(),
        by_score(r@),
        forall|y: Nogood| has_score(y) ==> #[trigger] ties(r@, y) == ties(items@, y),
        r@ == stable_sorted(items@),
{
    broadcast use vstd::seq_lib::group_to_multiset_ensures;
    let ghost all = items@;
    let mut rest = items;
    let mut sorted: Vec<Nogood> = Vec::new();
    let ghost mut done: int = 0;
    proof {
        assert(all.take(0) =~= Seq::<Nogood>::empty());
        assert(rest@ =~= all.skip(0));
    }
    proof {
        assert forall|y: Nogood| has_score(y) implies #[trigger] ties(items@, y) == ties(sorted@, y) + ties(rest@, y) by {
            assert(ties(sorted@, y) + ties(rest@, y) =~= ties(rest@, y));
        }
    }
    while rest.len() > 0
        invariant
            forall|y: Nogood| has_score(y) ==> #[trigger] ties(items@, y) == ties(sorted@, y) + ties(rest@, y),
            all == items@,
            0 <= done <= all.len(),
            rest@ == all.skip(done),
            sorted@ == stable_sorted(all.take(done)),
            sorted@.to_multiset().add(rest@.to_multiset()) == items@.to_multiset(),
            by_score(sorted@),
            forall|k: int| 0 <= k < sorted@.len() ==> has_score(#[trigger] sorted@[k]),
            forall|k: int| 0 <= k < rest@.len() ==> has_score(#[trigger] rest@[k]),
        decreases rest@.len(),
    {
        let ghost rest0 = rest@;
        let x = rest.remove(0);
        proof {
            vstd::seq_lib::to_multiset_remove(rest0, 0);
            assert(has_score(x));
            assert forall|k: int| 0 <= k < rest@.len() implies has_score(#[trigger] rest@[k]) by {
                assert(rest@[k] == rest0[k + 1]);
            }
        }
        let mut p: usize = 0;
        while p < sorted.len() && score_at_least(&sorted[p], &x)
            invariant
                p <= sorted@.len(),
                forall|k: int| 0 <= k < p ==> score_ge(#[trigger] sorted@[k], x),
            decreases sorted@.len() - p,
        {
            p += 1;
        }
        let ghost s0 = sorted@;
        sorted.insert(p, x);
        proof {
            assert(x == all[done]);
            assert(rest@ =~= all.skip(done + 1));
            lemma_insert_at(s0, x, p as int);
            assert(all.take(done + 1).drop_last() =~= all.take(done));
            assert(all.take(done + 1).last() == x);
            done = done + 1;
            vstd::seq_lib::to_multiset_insert(s0, p as int, x);
            assert(sorted@ == s0.insert(p as int, x));
            assert forall|i: int, j: int| 0 <= i < j < sorted@.len() implies score_ge(#[trigger] sorted@[i], #[trigger] sorted@[j]) by {
                if j < p {
                    assert(sorted@[i] == s0[i] && sorted@[j] == s0[j]);
                } else if j == p {
                    assert(sorted@[i] == s0[i]);
                } else if i == p {
                    assert(sorted@[j] == s0[j - 1]);
                    assert(!score_ge(s0[p as int], x));
                    if j - 1 > p {
                        assert(score_ge(s0[p as int], s0[j - 1]));
                        lemma_score_ge_trans(x, s0[p as int], s0[j - 1]);
                    }
                } else if i < p {
                    assert(sorted@[i] == s0[i] && sorted@[j] == s0[j - 1]);
                } else {
                    assert(sorted@[i] == s0[i - 1] && sorted@[j] == s0[j - 1]);
                }
            }
            assert forall|k: int| 0 <= k < sorted@.len() implies has_score(#[trigger] sorted@[k]) by {
                if k < p { assert(sorted@[k] == s0[k]); } else if k > p { assert(sorted@[k] == s0[k - 1]); }
            }
            assert(rest0[0] == x);
            assert(rest0.to_multiset().count(x) > 0) by {
                vstd::seq_lib::to_multiset_contains(rest0, x);
                assert(rest0.contains(x));
            }
            assert(sorted@.to_multiset().add(rest@.to_multiset()) =~= items@.to_multiset());
            assert(rest0 =~= seq![x] + rest@);
            assert(sorted@ =~= s0.take(p as int) + seq![x] + s0.skip(p as int));
            assert(s0 =~= s0.take(p as int) + s0.skip(p as int));
            assert forall|y: Nogood| has_score(y) implies #[trigger] ties(items@, y) == ties(sorted@, y) + ties(rest@, y) by {
                let a = s0.take(p as int);
                let b = s0.skip(p as int);
                lemma_ties_add(seq![x], rest@, y);
                lemma_ties_add(a, b, y);
                lemma_ties_add(a + seq![x], b, y);
                lemma_ties_add(a, seq![x], y);
                lemma_ties_one(x, y);
                if same_score(x, y) {
                    assert forall|k: int| 0 <= k < b.len() implies !same_score(#[trigger] b[k], y) by {
                        assert(b[k] == s0[p + k]);
                        assert(has_score(s0[p + k]));
                        if same_score(b[k], y) {
                            lemma_score_ge_trans(b[k], y, x);
                            if k > 0 {
                                assert(score_ge(s0[p as int], s0[p + k]));
                                assert(has_score(s0[p as int]));
                                lemma_score_ge_trans(s0[p as int], b[k], x);
                            }
                        }
                    }
                    lemma_ties_none(b, y);
                    assert(ties(b, y) + ties(seq![x], y) =~= ties(seq![x], y) + ties(b, y));
                } else {
                    assert(ties(b, y) + ties(seq![x], y) =~= ties(seq![x], y) + ties(b, y));
                }
                assert(ties(items@, y) == ties(s0, y) + ties(rest0, y));
                assert(ties(s0, y) + (ties(seq![x], y) + ties(rest@, y))
                    =~= (ties(a, y) + ties(seq![x], y) + ties(b, y)) + ties(rest@, y));
            }
        }
    }
    proof {
        assert(all.take(done) =~= all);
        assert forall|y: Nogood| has_score(y) implies #[trigger] ties(sorted@, y) == ties(items@, y) by {
            assert(ties(items@, y) == ties(sorted@, y) + ties(rest@, y));
            assert(rest@ =~= Seq::<Nogood>::empty());
            assert(ties(sorted@, y) + ties(rest@, y) =~= ties(sorted@, y));
        }
        assert(rest@.to_multiset() =~= Multiset::empty());
        assert(sorted@.to_multiset().add(rest@.to_multiset()) =~= sorted@.to_multiset());
    }
    sorted
}

/// The nogoods shared by all workers, at most `max_size` of them after
/// pruning.
#[derive(Debug)]
pub struct NogoodDatabase {
    pub nogoods: Vec<Nogood>,
    pub max_size: usize,
}

impl NogoodDatabase {
    /// An empty database holding up to `max_size` nogoods.
    pub fn new(max_size: usize) -> (r: Self)
        ensures
            r.nogoods@.len() == 0,
            r.max_size == max_size,
    {
        NogoodDatabase { nogoods: Vec::new(), max_size }
    }

    /// The first nogood that subsumes `assertions`, if any.
    pub fn check_conflict(&self, assertions: &Vec<ClassExpression>) -> (r: Option<Nogood>)
        ensures
            r is None <==> forall|k: int| 0 <= k < self.nogoods@.len()
                ==> !views_subset(#[trigger] self.nogoods@[k].assertions@, assertions@),
            r matches Some(n) ==> exists|k: int| 0 <= k < self.nogoods@.len()
                && views_subset(self.nogoods@[k].assertions@, assertions@)
                && views_of(n.assertions@) == views_of(self.nogoods@[k].assertions@)
                && n.size == self.nogoods@[k].size && n.hit_count == self.nogoods@[k].hit_count
                && forall|j: int| 0 <= j < k ==> !views_subset(#[trigger] self.nogoods@[j].assertions@, assertions@),
    {
        let mut i: usize = 0;
        while i < self.nogoods.len()
            invariant
                i <= self.nogoods@.len(),
                forall|j: int| 0 <= j < i ==> !views_subset(#[trigger] self.nogoods@[j].assertions@, assertions@),
            decreases self.nogoods@.len() - i,
        {
            if self.nogoods[i].subsumes(assertions) {
                return Some(self.nogoods[i].duplicate());
            }
            i += 1;
        }
        None
    }

    /// Adds `nogood`; past `max_size` nogoods, keeps the nine tenths of
    /// `max_size` with the best scores (hits per expression), equal scores
    /// in the order they were added.
    pub fn add_nogood(&mut self, nogood: Nogood)
        requires
            old(self).nogoods@.len() + 1 > old(self).max_size ==> has_score(nogood)
                && forall|k: int| 0 <= k < old(self).nogoods@.len() ==> has_score(#[trigger] old(self).nogoods@[k]),
        ensures
            final(self).max_size == old(self).max_size,
            old(self).nogoods@.len() + 1 <= old(self).max_size ==> final(self).nogoods@ == old(self).nogoods@.push(nogood),
            old(self).nogoods@.len() + 1 > old(self).max_size ==> exists|sorted: Seq<Nogood>|
                sorted.to_multiset() == old(self).nogoods@.push(nogood).to_multiset() && by_score(sorted)
                && (forall|y: Nogood| has_score(y) ==> #[trigger] ties(sorted, y) == ties(old(self).nogoods@.push(nogood), y))
                && #[trigger] final(self).nogoods@ == sorted.take(
                    if sorted.len() <= (old(self).max_size as int) * 9 / 10 { sorted.len() as int }
                    else { (old(self).max_size as int) * 9 / 10 }),
            final(self).nogoods@ == pruned(old(self).nogoods@.push(nogood), old(self).max_size),
            forall|k: int| 0 <= k < final(self).nogoods@.len()
                ==> old(self).nogoods@.push(nogood).contains(#[trigger] final(self).nogoods@[k]),
    {
        self.nogoods.push(nogood);
        if self.nogoods.len() > self.max_size {
            let mut items: Vec<Nogood> = Vec::new();
            std::mem::swap(&mut items, &mut self.nogoods);
            let ghost items_all = items@;
            let mut sorted = sort_by_score(items);
            let keep = ((self.max_size as u128) * 9 / 10) as usize;
            let ghost full = sorted@;
            sorted.truncate(keep);
            proof {
                assert(sorted@ == full.take(if full.len() <= keep { full.len() as int } else { keep as int }));
                assert forall|k: int| 0 <= k < sorted@.len() implies items_all.contains(#[trigger] sorted@[k]) by {
                    assert(full[k] == sorted@[k]);
                    assert(full.contains(full[k]));
                    vstd::seq_lib::to_multiset_contains(full, full[k]);
                    assert(full.to_multiset().count(full[k]) > 0);
                    vstd::seq_lib::to_multiset_contains(items_all, full[k]);
                }
            }
            self.nogoods = sorted;
        }
    }

    /// The number of nogoods and the sum of their hits (capped at `usize::MAX`).
    pub fn stats(&self) -> (r: (usize, usize))
        ensures
            r.0 == self.nogoods@.len(),
            r.1 == crate::analysis::cap(total_hits(self.nogoods@)),
    {
        let mut total: usize = 0;
        let mut i: usize = 0;
        while i < self.nogoods.len()
            invariant
                i <= self.nogoods@.len(),
                total == crate::analysis::cap(total_hits(self.nogoods@.take(i as int))),
            decreases self.nogoods@.len() - i,
        {
            proof {
                assert(self.nogoods@.take(i + 1).drop_last() == self.nogoods@.take(i as int));
            }
            total = total.saturating_add(self.nogoods[i].hit_count);
            i += 1;
        }
        assert(self.nogoods@.take(self.nogoods@.len() as int) == self.nogoods@);
        (self.nogoods.len(), total)
    }

    /// The stored nogoods.
    pub fn get_nogoods(&self) -> (r: Option<&Vec<Nogood>>)
        ensures
            r == Some(&self.nogoods),
    {
        Some(&self.nogoods)
    }
}

/// The hits of all nogoods.
pub open spec fn total_hits(s: Seq<Nogood>) -> nat
    decreases s.len(),
{
    if s.len() == 0 { 0 } else { total_hits(s.drop_last()) + (s.last().hit_count as nat) }
}

/// A worker's own nogoods and its copy of the shared ones.
#[derive(Debug)]
pub struct ThreadLocalNogoodCache {
    pub local_nogoods: Vec<Nogood>,
    pub cached_nogoods: Vec<Nogood>,
    pub checks_since_sync: usize,
    pub sync_interval: usize,
    pub local_hits: usize,
}

/// The copies of `s` agree with `s` in views, sizes and hits.
pub open spec fn same_nogoods(a: Seq<Nogood>, b: Seq<Nogood>) -> bool {
    &&& a.len() == b.len()
    &&& forall|k: int| 0 <= k < a.len() ==> views_of((#[trigger] a[k]).assertions@) == views_of(b[k].assertions@)
        && a[k].size == b[k].size && a[k].hit_count == b[k].hit_count
}

/// The first nogood of `s` that subsumes `assertions`, by position.
pub open spec fn first_subsuming(s: Seq<Nogood>, assertions: Seq<ClassExpression>, k: int) -> bool {
    &&& 0 <= k < s.len()
    &&& views_subset(s[k].assertions@, assertions)
    &&& forall|j: int| 0 <= j < k ==> !views_subset(#[trigger] s[j].assertions@, assertions)
}

/// No nogood of `s` subsumes `assertions`.
pub open spec fn none_subsumes(s: Seq<Nogood>, assertions: Seq<ClassExpression>) -> bool {
    forall|j: int| 0 <= j < s.len() ==> !views_subset(#[trigger] s[j].assertions@, assertions)
}

/// The first nogood of `s` that subsumes `assertions`, as a copy.
fn first_match(s: &Vec<Nogood>, assertions: &Vec<ClassExpression>) -> (r: Option<Nogood>)
    ensures
        r is None <==> none_subsumes(s@, assertions@),
        r matches Some(n) ==> exists|k: int| first_subsuming(s@, assertions@, k)
            && views_of(n.assertions@) == views_of(s@[k].assertions@) && n.size == s@[k].size
            && n.hit_count == s@[k].hit_count,
{
    let mut i: usize = 0;
    while i < s.len()
        invariant
            i <= s@.len(),
            forall|j: int| 0 <= j < i ==> !views_subset(#[trigger] s@[j].assertions@, assertions@),
        decreases s@.len() - i,
    {
        if s[i].subsumes(assertions) {
            let n = s[i].duplicate();
            assert(first_subsuming(s@, assertions@, i as int));
            return Some(n);
        }
        i += 1;
    }
    None
}

/// Copies of all nogoods of `s`.
fn copy_all(s: &Vec<Nogood>) -> (r: Vec<Nogood>)
    ensures
        same_nogoods(r@, s@),
{
    let mut out: Vec<Nogood> = Vec::new();
    let mut i: usize = 0;
    while i < s.len()
        invariant
            i <= s@.len(),
            out@.len() == i,
            forall|k: int| 0 <= k < i ==> views_of((#[trigger] out@[k]).assertions@) == views_of(s@[k].assertions@)
                && out@[k].size == s@[k].size && out@[k].hit_count == s@[k].hit_count,
        decreases s@.len() - i,
    {
        out.push(s[i].duplicate());
        i += 1;
    }
    out
}

impl ThreadLocalNogoodCache {
    /// An empty cache that syncs every `sync_interval` checks.
    pub fn new(sync_interval: usize) -> (r: Self)
        ensures
            r.local_nogoods@.len() == 0,
            r.cached_nogoods@.len() == 0,
            r.checks_since_sync == 0,
            r.sync_interval == sync_interval,
            r.local_hits == 0,
    {
        ThreadLocalNogoodCache {
            local_nogoods: Vec::new(),
            cached_nogoods: Vec::new(),
            checks_since_sync: 0,
            sync_interval,
            local_hits: 0,
        }
    }

    /// Looks for a nogood subsuming `assertions`: first among the worker's
    /// own, then among the cached shared ones; when a sync is due, syncs
    /// with `global` and looks among the cached ones again.
    pub fn check_conflict(&mut self, global: &NogoodDatabase, assertions: &Vec<ClassExpression>) -> (r: Option<Nogood>)
        requires
            old(self).checks_since_sync < usize::MAX,
            old(self).local_hits < usize::MAX,
        ensures
            final(self).sync_interval == old(self).sync_interval,
            final(self).local_nogoods == old(self).local_nogoods,
            r is Some ==> !none_subsumes(old(self).local_nogoods@, assertions@)
                || !none_subsumes(final(self).cached_nogoods@, assertions@),
            r is None ==> none_subsumes(old(self).local_nogoods@, assertions@)
                && none_subsumes(final(self).cached_nogoods@, assertions@),
            !none_subsumes(old(self).local_nogoods@, assertions@) ==> final(self).local_hits == old(self).local_hits + 1,
            none_subsumes(old(self).local_nogoods@, assertions@) ==> final(self).local_hits == old(self).local_hits,
            none_subsumes(old(self).local_nogoods@, assertions@) && none_subsumes(old(self).cached_nogoods@, assertions@)
                && old(self).checks_since_sync + 1 >= old(self).sync_interval ==> final(self).checks_since_sync == 0,
    {
        self.checks_since_sync = self.checks_since_sync + 1;
        let local = first_match(&self.local_nogoods, assertions);
        if local.is_some() {
            self.local_hits = self.local_hits + 1;
            return local;
        }
        let cached = first_match(&self.cached_nogoods, assertions);
        if cached.is_some() {
            return cached;
        }
        if self.checks_since_sync >= self.sync_interval {
            self.sync_with_global(global);
            self.checks_since_sync = 0;
            return first_match(&self.cached_nogoods, assertions);
        }
        None
    }

    /// Adds a nogood to the worker's own.
    pub fn add_nogood(&mut self, nogood: Nogood)
        ensures
            final(self).local_nogoods@ == old(self).local_nogoods@.push(nogood),
            final(self).cached_nogoods == old(self).cached_nogoods,
            final(self).checks_since_sync == old(self).checks_since_sync,
            final(self).sync_interval == old(self).sync_interval,
            final(self).local_hits == old(self).local_hits,
    {
        self.local_nogoods.push(nogood);
    }

    /// Refreshes the cached copy when the shared store's size changed.
    pub fn sync_with_global(&mut self, global: &NogoodDatabase)
        ensures
            global.nogoods@.len() != old(self).cached_nogoods@.len() ==> same_nogoods(final(self).cached_nogoods@, global.nogoods@),
            global.nogoods@.len() == old(self).cached_nogoods@.len() ==> final(self).cached_nogoods == old(self).cached_nogoods,
            final(self).local_nogoods == old(self).local_nogoods,
            final(self).checks_since_sync == old(self).checks_since_sync,
            final(self).sync_interval == old(self).sync_interval,
            final(self).local_hits == old(self).local_hits,
    {
        if global.nogoods.len() != self.cached_nogoods.len() {
            self.cached_nogoods = copy_all(&global.nogoods);
        }
    }

    /// Moves the worker's own nogoods into the shared store, in order, each
    /// added as `add_nogood` adds it (pruning when the store is full).
    pub fn flush_to_global(&mut self, global: &mut NogoodDatabase)
        requires
            old(global).max_size > old(global).nogoods@.len() + old(self).local_nogoods@.len()
                || ((forall|j: int| 0 <= j < old(global).nogoods@.len() ==> has_score(#[trigger] old(global).nogoods@[j]))
                    && forall|j: int| 0 <= j < old(self).local_nogoods@.len() ==> has_score(#[trigger] old(self).local_nogoods@[j])),
        ensures
            final(global).nogoods@ == added_all(old(global).nogoods@, old(self).local_nogoods@, old(global).max_size),
            old(global).max_size > old(global).nogoods@.len() + old(self).local_nogoods@.len()
                ==> final(global).nogoods@ == old(global).nogoods@ + old(self).local_nogoods@,
            final(global).max_size == old(global).max_size,
            final(self).local_nogoods@.len() == 0,
            final(self).cached_nogoods == old(self).cached_nogoods,
            final(self).sync_interval == old(self).sync_interval,
    {
        let mut rest: Vec<Nogood> = Vec::new();
        std::mem::swap(&mut rest, &mut self.local_nogoods);
        let ghost all = rest@;
        let ghost g0 = global.nogoods@;
        let ghost fits = global.max_size > g0.len() + all.len();
        let mut k: usize = 0;
        proof {
            assert(all.take(0) =~= Seq::<Nogood>::empty());
            vstd::std_specs::vec::axiom_spec_len(&rest);
        }
        while rest.len() > 0
            invariant
                all.len() <= usize::MAX,
                global.max_size == old(global).max_size,
                g0 == old(global).nogoods@,
                fits == (global.max_size > g0.len() + all.len()),
                !fits ==> forall|j: int| 0 <= j < all.len() ==> has_score(#[trigger] all[j]),
                !fits ==> forall|j: int| 0 <= j < global.nogoods@.len() ==> has_score(#[trigger] global.nogoods@[j]),
                k + rest@.len() == all.len(),
                rest@ == all.subrange(k as int, all.len() as int),
                global.nogoods@ == added_all(g0, all.take(k as int), global.max_size),
                fits ==> global.nogoods@ == g0 + all.take(k as int),
            decreases rest@.len(),
        {
            let ghost before = global.nogoods@;
            let n = rest.remove(0);
            proof {
                assert(n == all[k as int]);
                if fits {
                    assert(before.len() + 1 <= global.max_size);
                }
            }
            global.add_nogood(n);
            proof {
                assert(all.take(k + 1) =~= all.take(k as int).push(all[k as int]));
                assert(all.take(k + 1).drop_last() =~= all.take(k as int));
                assert(rest@ =~= all.subrange(k + 1, all.len() as int));
                if fits {
                    assert(global.nogoods@ =~= g0 + all.take(k + 1));
                }
                if !fits {
                    assert forall|j: int| 0 <= j < global.nogoods@.len() implies has_score(#[trigger] global.nogoods@[j]) by {
                        assert(before.push(n).contains(global.nogoods@[j]));
                        let q = choose|q: int| 0 <= q < before.push(n).len() && before.push(n)[q] == global.nogoods@[j];
                        if q < before.len() {
                            assert(before.push(n)[q] == before[q]);
                        }
                    }
                }
            }
            k += 1;
        }
        assert(all.take(k as int) =~= all);
    }
}


/// A kind of expression node.
#[derive(Clone, Copy, PartialEq, Eq, Structural)]
pub enum NodeKind {
    Union,
    Intersection,
    Complement,
    SomeValues,
    AllValues,
    Atom,
    Any,
}

/// Whether the root of `v` is of kind `k` (every root is of kind `Any`;
/// atoms are the other leaves).
pub open spec fn root_is(k: NodeKind, v: ExprView) -> bool {
    match k {
        NodeKind::Union => v is Or,
        NodeKind::Intersection => v is And,
        NodeKind::Complement => v is Not,
        NodeKind::SomeValues => v is Exists,
        NodeKind::AllValues => v is Forall,
        NodeKind::Atom => !(v is Or || v is And || v is Not || v is Exists || v is Forall),
        NodeKind::Any => true,
    }
}

/// The number of nodes of kind `k` in `v`.
pub open spec fn nodes(k: NodeKind, v: ExprView) -> nat
    decreases v,
{
    (if root_is(k, v) { 1nat } else { 0nat }) + match v {
        ExprView::Or(ops) => ops_nodes(k, ops),
        ExprView::And(ops) => ops_nodes(k, ops),
        ExprView::Not(b) => nodes(k, *b),
        ExprView::Exists(_, b) => nodes(k, *b),
        ExprView::Forall(_, b) => nodes(k, *b),
        _ => 0,
    }
}

/// The nodes of kind `k` in a sequence of operands.
pub open spec fn ops_nodes(k: NodeKind, ops: Seq<ExprView>) -> nat
    decreases ops,
{
    if ops.len() == 0 { 0 } else { ops_nodes(k, ops.drop_last()) + nodes(k, ops.last()) }
}

/// Node counts by kind and the greatest depth of an expression.
#[derive(Debug, Clone, Default)]
pub struct ExprFeatureVector {
    pub union_nodes: usize,
    pub intersection_nodes: usize,
    pub complement_nodes: usize,
    pub some_values_nodes: usize,
    pub all_values_nodes: usize,
    pub atom_nodes: usize,
    pub total_nodes: usize,
    pub max_depth: usize,
}

/// The features of `v` when its root stands at depth `d`.
pub open spec fn features_of(f: ExprFeatureVector, v: ExprView, d: int) -> bool {
    &&& f.union_nodes == nodes(NodeKind::Union, v)
    &&& f.intersection_nodes == nodes(NodeKind::Intersection, v)
    &&& f.complement_nodes == nodes(NodeKind::Complement, v)
    &&& f.some_values_nodes == nodes(NodeKind::SomeValues, v)
    &&& f.all_values_nodes == nodes(NodeKind::AllValues, v)
    &&& f.atom_nodes == nodes(NodeKind::Atom, v)
    &&& f.total_nodes == nodes(NodeKind::Any, v)
    &&& f.max_depth == d + depth(v) - 1
}

proof fn lemma_nodes_le_any(k: NodeKind, v: ExprView)
    ensures
        nodes(k, v) <= nodes(NodeKind::Any, v),
        nodes(NodeKind::Any, v) >= 1,
        depth(v) >= 1,
    decreases v,
{
    match v {
        ExprView::Or(ops) => { lemma_ops_nodes_le_any(k, ops); },
        ExprView::And(ops) => { lemma_ops_nodes_le_any(k, ops); },
        ExprView::Not(b) => { lemma_nodes_le_any(k, *b); },
        ExprView::Exists(_, b) => { lemma_nodes_le_any(k, *b); },
        ExprView::Forall(_, b) => { lemma_nodes_le_any(k, *b); },
        _ => {},
    }
}

proof fn lemma_ops_nodes_le_any(k: NodeKind, ops: Seq<ExprView>)
    ensures
        ops_nodes(k, ops) <= ops_nodes(NodeKind::Any, ops),
    decreases ops,
{
    if ops.len() > 0 {
        lemma_ops_nodes_le_any(k, ops.drop_last());
        lemma_nodes_le_any(k, ops.last());
    }
}

impl ExprFeatureVector {
    /// Adds the counts of `other` and keeps the greater depth.
    pub fn combine_with(&mut self, other: &ExprFeatureVector)
        requires
            old(self).union_nodes + other.union_nodes <= usize::MAX,
            old(self).intersection_nodes + other.intersection_nodes <= usize::MAX,
            old(self).complement_nodes + other.complement_nodes <= usize::MAX,
            old(self).some_values_nodes + other.some_values_nodes <= usize::MAX,
            old(self).all_values_nodes + other.all_values_nodes <= usize::MAX,
            old(self).atom_nodes + other.atom_nodes <= usize::MAX,
            old(self).total_nodes + other.total_nodes <= usize::MAX,
        ensures
            final(self).union_nodes == old(self).union_nodes + other.union_nodes,
            final(self).intersection_nodes == old(self).intersection_nodes + other.intersection_nodes,
            final(self).complement_nodes == old(self).complement_nodes + other.complement_nodes,
            final(self).some_values_nodes == old(self).some_values_nodes + other.some_values_nodes,
            final(self).all_values_nodes == old(self).all_values_nodes + other.all_values_nodes,
            final(self).atom_nodes == old(self).atom_nodes + other.atom_nodes,
            final(self).total_nodes == old(self).total_nodes + other.total_nodes,
            final(self).max_depth == if old(self).max_depth >= other.max_depth { old(self).max_depth } else { other.max_depth },
    {
        self.union_nodes = self.union_nodes + other.union_nodes;
        self.intersection_nodes = self.intersection_nodes + other.intersection_nodes;
        self.complement_nodes = self.complement_nodes + other.complement_nodes;
        self.some_values_nodes = self.some_values_nodes + other.some_values_nodes;
        self.all_values_nodes = self.all_values_nodes + other.all_values_nodes;
        self.atom_nodes = self.atom_nodes + other.atom_nodes;
        self.total_nodes = self.total_nodes + other.total_nodes;
        if other.max_depth > self.max_depth {
            self.max_depth = other.max_depth;
        }
    }

    /// The features of `expr` with its root at depth `depth`.
    pub fn from_expression(expr: &ClassExpression, depth: usize) -> (r: Self)
        requires
            nodes(NodeKind::Any, expr@) <= usize::MAX,
            depth + crate::analysis::depth(expr@) <= usize::MAX,
        ensures
            features_of(r, expr@, depth as int),
        decreases expr,
    {
        proof {
            lemma_nodes_le_any(NodeKind::Any, expr@);
        }
        let mut out = ExprFeatureVector {
            union_nodes: 0,
            intersection_nodes: 0,
            complement_nodes: 0,
            some_values_nodes: 0,
            all_values_nodes: 0,
            atom_nodes: 0,
            total_nodes: 1,
            max_depth: depth,
        };
        match expr {
            ClassExpression::ObjectUnionOf(operands) | ClassExpression::ObjectIntersectionOf(operands) => {
                let is_union = match expr {
                    ClassExpression::ObjectUnionOf(_) => true,
                    _ => false,
                };
                if is_union {
                    out.union_nodes = 1;
                } else {
                    out.intersection_nodes = 1;
                }
                let ghost views = operand_views(operands@);
                let ghost v = expr@;
                proof {
                    lemma_operand_views(operands@);
                    assert(decreases_to!(*expr => *operands));
                    assert(decreases_to!(*operands => operands@));
                }
                let n = operands.len();
                let mut k: usize = 0;
                while k < n
                    invariant
                        n == operands@.len(),
                        views == operand_views(operands@),
                        views.len() == n,
                        forall|i: int| 0 <= i < n ==> #[trigger] views[i] == expr_view(*operands@[i]),
                        k <= n,
                        decreases_to!(*expr => operands@),
                        v == expr@,
                        v == (if is_union { ExprView::Or(views) } else { ExprView::And(views) }),
                        nodes(NodeKind::Any, v) <= usize::MAX,
                        depth + crate::analysis::depth(v) <= usize::MAX,
                        out.union_nodes == (if is_union { 1nat } else { 0nat }) + ops_nodes(NodeKind::Union, views.take(k as int)),
                        out.intersection_nodes == (if is_union { 0nat } else { 1nat }) + ops_nodes(NodeKind::Intersection, views.take(k as int)),
                        out.complement_nodes == ops_nodes(NodeKind::Complement, views.take(k as int)),
                        out.some_values_nodes == ops_nodes(NodeKind::SomeValues, views.take(k as int)),
                        out.all_values_nodes == ops_nodes(NodeKind::AllValues, views.take(k as int)),
                        out.atom_nodes == ops_nodes(NodeKind::Atom, views.take(k as int)),
                        out.total_nodes == 1 + ops_nodes(NodeKind::Any, views.take(k as int)),
                        out.max_depth == depth + crate::analysis::ops_depth(views.take(k as int)),
                    decreases n - k,
                {
                    proof {
                        assert(decreases_to!(operands@ => operands@[k as int]));
                        assert(views.take(k + 1).drop_last() == views.take(k as int));
                        assert(views.take(k + 1).last() == views[k as int]);
                        lemma_ops_prefix_le(views, k + 1);
                        lemma_ops_depth_prefix_le(views, k + 1);
                        lemma_nodes_le_any(NodeKind::Union, views[k as int]);
                        lemma_nodes_le_any(NodeKind::Intersection, views[k as int]);
                        lemma_nodes_le_any(NodeKind::Complement, views[k as int]);
                        lemma_nodes_le_any(NodeKind::SomeValues, views[k as int]);
                        lemma_nodes_le_any(NodeKind::AllValues, views[k as int]);
                        lemma_nodes_le_any(NodeKind::Atom, views[k as int]);
                        lemma_ops_nodes_le_any(NodeKind::Union, views.take(k + 1));
                        lemma_ops_nodes_le_any(NodeKind::Intersection, views.take(k + 1));
                        lemma_ops_nodes_le_any(NodeKind::Complement, views.take(k + 1));
                        lemma_ops_nodes_le_any(NodeKind::SomeValues, views.take(k + 1));
                        lemma_ops_nodes_le_any(NodeKind::AllValues, views.take(k + 1));
                        lemma_ops_nodes_le_any(NodeKind::Atom, views.take(k + 1));
                    }
                    let child = Self::from_expression(&operands[k], depth + 1);
                    out.combine_with(&child);
                    k += 1;
                }
                assert(views.take(n as int) == views);
            },
            ClassExpression::ObjectComplementOf(inner) => {
                out.complement_nodes = 1;
                let child = Self::from_expression(inner, depth + 1);
                proof {
                    lemma_nodes_le_any(NodeKind::Complement, inner@);
                    lemma_nodes_le_any(NodeKind::Union, inner@);
                    lemma_nodes_le_any(NodeKind::Intersection, inner@);
                    lemma_nodes_le_any(NodeKind::SomeValues, inner@);
                    lemma_nodes_le_any(NodeKind::AllValues, inner@);
                    lemma_nodes_le_any(NodeKind::Atom, inner@);
                }
                out.combine_with(&child);
            },
            ClassExpression::ObjectSomeValuesFrom(_, inner) => {
                out.some_values_nodes = 1;
                let child = Self::from_expression(inner, depth + 1);
                proof {
                    lemma_nodes_le_any(NodeKind::Complement, inner@);
                    lemma_nodes_le_any(NodeKind::Union, inner@);
                    lemma_nodes_le_any(NodeKind::Intersection, inner@);
                    lemma_nodes_le_any(NodeKind::SomeValues, inner@);
                    lemma_nodes_le_any(NodeKind::AllValues, inner@);
                    lemma_nodes_le_any(NodeKind::Atom, inner@);
                }
                out.combine_with(&child);
            },
            ClassExpression::ObjectAllValuesFrom(_, inner) => {
                out.all_values_nodes = 1;
                let child = Self::from_expression(inner, depth + 1);
                proof {
                    lemma_nodes_le_any(NodeKind::Complement, inner@);
                    lemma_nodes_le_any(NodeKind::Union, inner@);
                    lemma_nodes_le_any(NodeKind::Intersection, inner@);
                    lemma_nodes_le_any(NodeKind::SomeValues, inner@);
                    lemma_nodes_le_any(NodeKind::AllValues, inner@);
                    lemma_nodes_le_any(NodeKind::Atom, inner@);
                }
                out.combine_with(&child);
            },
            _ => {
                out.atom_nodes = 1;
            },
        }
        out
    }
}

proof fn lemma_ops_prefix_le(ops: Seq<ExprView>, k: int)
    requires
        0 <= k <= ops.len(),
    ensures
        ops_nodes(NodeKind::Any, ops.take(k)) <= ops_nodes(NodeKind::Any, ops),
    decreases ops.len(),
{
    if k < ops.len() {
        lemma_ops_prefix_le(ops.drop_last(), k);
        assert(ops.drop_last().take(k) == ops.take(k));
    } else {
        assert(ops.take(k) == ops);
    }
}

proof fn lemma_ops_depth_prefix_le(ops: Seq<ExprView>, k: int)
    requires
        0 <= k <= ops.len(),
    ensures
        crate::analysis::ops_depth(ops.take(k)) <= crate::analysis::ops_depth(ops),
    decreases ops.len(),
{
    if k < ops.len() {
        lemma_ops_depth_prefix_le(ops.drop_last(), k);
        assert(ops.drop_last().take(k) == ops.take(k));
    } else {
        assert(ops.take(k) == ops);
    }
}


/// The estimated cost of processing `v`, in microseconds: a union costs
/// `per_operand` per operand, an intersection half that, a complement
/// `per_nesting`, a restriction twice that, each besides its parts; a leaf
/// costs 10.
pub open spec fn cost(v: ExprView, per_operand: nat, per_nesting: nat) -> nat
    decreases v,
{
    match v {
        ExprView::Or(ops) => per_operand * ops.len() + ops_cost(ops, per_operand, per_nesting),
        ExprView::And(ops) => (per_operand * ops.len()) / 2 + ops_cost(ops, per_operand, per_nesting),
        ExprView::Not(b) => per_nesting + cost(*b, per_operand, per_nesting),
        ExprView::Exists(_, b) => per_nesting * 2 + cost(*b, per_operand, per_nesting),
        ExprView::Forall(_, b) => per_nesting * 2 + cost(*b, per_operand, per_nesting),
        _ => 10,
    }
}

/// The costs of a sequence of operands.
pub open spec fn ops_cost(ops: Seq<ExprView>, per_operand: nat, per_nesting: nat) -> nat
    decreases ops,
{
    if ops.len() == 0 { 0 } else { ops_cost(ops.drop_last(), per_operand, per_nesting) + cost(ops.last(), per_operand, per_nesting) }
}

/// A bound on every intermediate value of the cost computation (the
/// intersection's product before halving).
pub open spec fn cost_bound(v: ExprView, per_operand: nat, per_nesting: nat) -> nat
    decreases v,
{
    match v {
        ExprView::Or(ops) => per_operand * ops.len() + ops_cost_bound(ops, per_operand, per_nesting),
        ExprView::And(ops) => per_operand * ops.len() + ops_cost_bound(ops, per_operand, per_nesting),
        ExprView::Not(b) => per_nesting + cost_bound(*b, per_operand, per_nesting),
        ExprView::Exists(_, b) => per_nesting * 2 + cost_bound(*b, per_operand, per_nesting),
        ExprView::Forall(_, b) => per_nesting * 2 + cost_bound(*b, per_operand, per_nesting),
        _ => 10,
    }
}

/// The bounds of a sequence of operands.
pub open spec fn ops_cost_bound(ops: Seq<ExprView>, per_operand: nat, per_nesting: nat) -> nat
    decreases ops,
{
    if ops.len() == 0 { 0 } else { ops_cost_bound(ops.drop_last(), per_operand, per_nesting) + cost_bound(ops.last(), per_operand, per_nesting) }
}

proof fn lemma_cost_le_bound(v: ExprView, a: nat, b: nat)
    ensures
        cost(v, a, b) <= cost_bound(v, a, b),
    decreases v,
{
    match v {
        ExprView::Or(ops) => { lemma_ops_cost_le_bound(ops, a, b); },
        ExprView::And(ops) => { lemma_ops_cost_le_bound(ops, a, b); },
        ExprView::Not(x) => { lemma_cost_le_bound(*x, a, b); },
        ExprView::Exists(_, x) => { lemma_cost_le_bound(*x, a, b); },
        ExprView::Forall(_, x) => { lemma_cost_le_bound(*x, a, b); },
        _ => {},
    }
}

proof fn lemma_ops_cost_le_bound(ops: Seq<ExprView>, a: nat, b: nat)
    ensures
        ops_cost(ops, a, b) <= ops_cost_bound(ops, a, b),
    decreases ops,
{
    if ops.len() > 0 {
        lemma_ops_cost_le_bound(ops.drop_last(), a, b);
        lemma_cost_le_bound(ops.last(), a, b);
    }
}

proof fn lemma_ops_bound_prefix(ops: Seq<ExprView>, k: int, a: nat, b: nat)
    requires
        0 <= k <= ops.len(),
    ensures
        ops_cost_bound(ops.take(k), a, b) <= ops_cost_bound(ops, a, b),
    decreases ops.len(),
{
    if k < ops.len() {
        lemma_ops_bound_prefix(ops.drop_last(), k, a, b);
        assert(ops.drop_last().take(k) == ops.take(k));
    } else {
        assert(ops.take(k) == ops);
    }
}

/// The estimated cost of processing `expr` under `config`'s unit costs.
pub fn estimate_expression_cost(config: &SpeculativeConfig, expr: &ClassExpression) -> (r: usize)
    requires
        cost_bound(expr@, config.cost_per_operand_us as nat, config.cost_per_nesting_us as nat) <= usize::MAX,
    ensures
        r == cost(expr@, config.cost_per_operand_us as nat, config.cost_per_nesting_us as nat),
    decreases expr,
{
    let ghost a = config.cost_per_operand_us as nat;
    let ghost b = config.cost_per_nesting_us as nat;
    match expr {
        ClassExpression::ObjectUnionOf(operands) | ClassExpression::ObjectIntersectionOf(operands) => {
            let is_union = match expr {
                ClassExpression::ObjectUnionOf(_) => true,
                _ => false,
            };
            let ghost views = operand_views(operands@);
            proof {
                lemma_operand_views(operands@);
                assert(decreases_to!(*expr => *operands));
                assert(decreases_to!(*operands => operands@));
                lemma_ops_cost_le_bound(views, a, b);
            }
            let product = config.cost_per_operand_us * operands.len();
            let base_cost = if is_union { product } else { product / 2 };
            let mut nested: usize = 0;
            let n = operands.len();
            let mut k: usize = 0;
            while k < n
                invariant
                    n == operands@.len(),
                    views == operand_views(operands@),
                    views.len() == n,
                    forall|i: int| 0 <= i < n ==> #[trigger] views[i] == expr_view(*operands@[i]),
                    k <= n,
                    decreases_to!(*expr => operands@),
                    a == config.cost_per_operand_us as nat,
                    b == config.cost_per_nesting_us as nat,
                    ops_cost_bound(views, a, b) + product <= usize::MAX,
                    nested == ops_cost(views.take(k as int), a, b),
                    nested <= ops_cost_bound(views.take(k as int), a, b),
                decreases n - k,
            {
                proof {
                    assert(decreases_to!(operands@ => operands@[k as int]));
                    assert(views.take(k + 1).drop_last() == views.take(k as int));
                    assert(views.take(k + 1).last() == views[k as int]);
                    lemma_ops_bound_prefix(views, k + 1, a, b);
                    lemma_cost_le_bound(views[k as int], a, b);
                }
                let c = estimate_expression_cost(config, &operands[k]);
                nested = nested + c;
                k += 1;
            }
            assert(views.take(n as int) == views);
            base_cost + nested
        },
        ClassExpression::ObjectComplementOf(inner) => {
            proof { lemma_cost_le_bound(inner@, a, b); }
            config.cost_per_nesting_us + estimate_expression_cost(config, inner)
        },
        ClassExpression::ObjectSomeValuesFrom(_, inner) | ClassExpression::ObjectAllValuesFrom(_, inner) => {
            proof { lemma_cost_le_bound(inner@, a, b); }
            config.cost_per_nesting_us * 2 + estimate_expression_cost(config, inner)
        },
        _ => 10,
    }
}

/// The costs of all expressions of `s`.
pub open spec fn total_cost(s: Seq<ClassExpression>, a: nat, b: nat) -> nat
    decreases s.len(),
{
    if s.len() == 0 { 0 } else { total_cost(s.drop_last(), a, b) + cost(s.last()@, a, b) }
}

/// A bound on every intermediate value of the total.
pub open spec fn total_cost_bound(s: Seq<ClassExpression>, a: nat, b: nat) -> nat
    decreases s.len(),
{
    if s.len() == 0 { 0 } else { total_cost_bound(s.drop_last(), a, b) + cost_bound(s.last()@, a, b) }
}

proof fn lemma_total_bound_prefix(s: Seq<ClassExpression>, k: int, a: nat, b: nat)
    requires
        0 <= k <= s.len(),
    ensures
        total_cost_bound(s.take(k), a, b) <= total_cost_bound(s, a, b),
        total_cost(s.take(k), a, b) <= total_cost_bound(s.take(k), a, b),
    decreases s.len(),
{
    if k < s.len() {
        lemma_total_bound_prefix(s.drop_last(), k, a, b);
        assert(s.drop_last().take(k) == s.take(k));
    } else {
        assert(s.take(k) == s);
        if s.len() > 0 {
            lemma_total_bound_prefix(s.drop_last(), s.len() - 1, a, b);
            assert(s.drop_last().take(s.len() - 1) == s.drop_last());
            lemma_cost_le_bound(s.last()@, a, b);
        }
    }
}

/// The total estimated cost of `disjunctions`.
pub fn estimate_total_cost(config: &SpeculativeConfig, disjunctions: &Vec<ClassExpression>) -> (r: usize)
    requires
        total_cost_bound(disjunctions@, config.cost_per_operand_us as nat, config.cost_per_nesting_us as nat) <= usize::MAX,
    ensures
        r == total_cost(disjunctions@, config.cost_per_operand_us as nat, config.cost_per_nesting_us as nat),
{
    let ghost a = config.cost_per_operand_us as nat;
    let ghost b = config.cost_per_nesting_us as nat;
    let mut total: usize = 0;
    let mut i: usize = 0;
    while i < disjunctions.len()
        invariant
            i <= disjunctions@.len(),
            a == config.cost_per_operand_us as nat,
            b == config.cost_per_nesting_us as nat,
            total_cost_bound(disjunctions@, a, b) <= usize::MAX,
            total == total_cost(disjunctions@.take(i as int), a, b),
        decreases disjunctions@.len() - i,
    {
        proof {
            assert(disjunctions@.take(i + 1).drop_last() == disjunctions@.take(i as int));
            assert(disjunctions@.take(i + 1).last() == disjunctions@[i as int]);
            lemma_total_bound_prefix(disjunctions@, i + 1, a, b);
        }
        let c = estimate_expression_cost(config, &disjunctions[i]);
        total = total + c;
        i += 1;
    }
    assert(disjunctions@.take(disjunctions@.len() as int) == disjunctions@);
    total
}

/// The disjoint-classes axioms among `axs`.
pub open spec fn disjoint_count(axs: Seq<Axiom>) -> nat
    decreases axs.len(),
{
    if axs.len() == 0 { 0 } else { disjoint_count(axs.drop_last()) + if axs.last() is DisjointClasses { 1nat } else { 0nat } }
}

proof fn lemma_disjoint_count_le(axs: Seq<Axiom>)
    ensures
        disjoint_count(axs) <= axs.len(),
    decreases axs.len(),
{
    if axs.len() > 0 {
        lemma_disjoint_count_le(axs.drop_last());
    }
}

/// The estimated number of branches: the disjunctions, twice the
/// disjoint-classes axioms and a tenth of the classes, at least one.
pub open spec fn branch_estimate(o: Ontology, disjunctions: nat) -> nat {
    let x = disjunctions + 2 * disjoint_count(o.axioms_spec()) + o.classes_spec().len() / 10;
    if x >= 1 { x } else { 1 }
}

/// The estimated number of branches for `ontology` (see `branch_estimate`).
pub fn estimate_branch_count(ontology: &Ontology, disjunctions_detected: usize) -> (r: usize)
    requires
        disjunctions_detected + 2 * disjoint_count(ontology.axioms_spec()) + ontology.classes_spec().len() / 10 <= usize::MAX,
    ensures
        r == branch_estimate(*ontology, disjunctions_detected as nat),
{
    let axioms = ontology.axioms();
    let mut disjoint_axioms: usize = 0;
    let mut i: usize = 0;
    while i < axioms.len()
        invariant
            i <= axioms@.len(),
            axioms@ == ontology.axioms_spec(),
            disjoint_axioms == disjoint_count(axioms@.take(i as int)),
            disjoint_axioms <= i,
        decreases axioms@.len() - i,
    {
        proof {
            assert(axioms@.take(i + 1).drop_last() == axioms@.take(i as int));
            assert(axioms@.take(i + 1).last() == axioms@[i as int]);
        }
        match &axioms[i] {
            Axiom::DisjointClasses(_) => { disjoint_axioms += 1; },
            _ => {},
        }
        i += 1;
    }
    assert(axioms@.take(axioms@.len() as int) == axioms@);
    let x = disjunctions_detected + 2 * disjoint_axioms + ontology.classes().len() / 10;
    if x >= 1 { x } else { 1 }
}

/// The gating decision for parallel exploration.
#[derive(Debug, Clone, Copy)]
pub struct ParallelDecision {
    pub disjunctions_detected: usize,
    pub estimated_branch_count: usize,
    pub estimated_cost_us: usize,
    pub branch_threshold: usize,
    pub cost_gate_threshold_us: usize,
    pub branch_gate_passed: bool,
    pub cost_gate_passed: bool,
    pub use_parallel: bool,
}

/// Decides whether to explore `disjunctions` in parallel: with none, never;
/// otherwise the adaptive mode requires both the estimated branch count to
/// reach the threshold and (under adaptive tuning) the estimated cost to
/// reach the cost gate (cost threshold times workers); the sequential mode
/// never goes parallel and the always-parallel mode always does.
pub fn evaluate_parallel_decision(config: &SpeculativeConfig, ontology: &Ontology, disjunctions: &Vec<ClassExpression>)
    -> (r: ParallelDecision)
    requires
        disjunctions@.len() + 2 * disjoint_count(ontology.axioms_spec()) + ontology.classes_spec().len() / 10 <= usize::MAX,
        total_cost_bound(disjunctions@, config.cost_per_operand_us as nat, config.cost_per_nesting_us as nat) <= usize::MAX,
        config.cost_threshold_us * config.num_workers <= usize::MAX,
    ensures
        r.disjunctions_detected == disjunctions@.len(),
        r.estimated_branch_count == branch_estimate(*ontology, disjunctions@.len()),
        r.branch_threshold == config.parallel_threshold,
        r.cost_gate_threshold_us == config.cost_threshold_us * config.num_workers,
        r.estimated_cost_us == total_cost(disjunctions@, config.cost_per_operand_us as nat, config.cost_per_nesting_us as nat),
        disjunctions@.len() == 0 ==> !r.branch_gate_passed && !r.cost_gate_passed && !r.use_parallel,
        disjunctions@.len() > 0 ==> r.branch_gate_passed == (r.estimated_branch_count >= r.branch_threshold)
            && r.cost_gate_passed == (!config.adaptive_tuning || r.estimated_cost_us >= r.cost_gate_threshold_us)
            && r.use_parallel == match config.scheduling_mode {
                SchedulingMode::Adaptive => r.branch_gate_passed && r.cost_gate_passed,
                SchedulingMode::Sequential => false,
                SchedulingMode::AlwaysParallel => true,
            },
{
    let disjunctions_detected = disjunctions.len();
    let estimated_branch_count = estimate_branch_count(ontology, disjunctions_detected);
    let branch_threshold = config.parallel_threshold;
    let estimated_cost_us = if disjunctions.len() == 0 { 0 } else { estimate_total_cost(config, disjunctions) };
    let cost_gate_threshold_us = config.cost_threshold_us * config.num_workers;
    if disjunctions.len() == 0 {
        return ParallelDecision {
            disjunctions_detected,
            estimated_branch_count,
            estimated_cost_us,
            branch_threshold,
            cost_gate_threshold_us,
            branch_gate_passed: false,
            cost_gate_passed: false,
            use_parallel: false,
        };
    }
    let branch_gate_passed = estimated_branch_count >= branch_threshold;
    let cost_gate_passed = if config.adaptive_tuning { estimated_cost_us >= cost_gate_threshold_us } else { true };
    let adaptive_parallel = branch_gate_passed && cost_gate_passed;
    let use_parallel = match config.scheduling_mode {
        SchedulingMode::Adaptive => adaptive_parallel,
        SchedulingMode::Sequential => false,
        SchedulingMode::AlwaysParallel => disjunctions.len() > 0,
    };
    ParallelDecision {
        disjunctions_detected,
        estimated_branch_count,
        estimated_cost_us,
        branch_threshold,
        cost_gate_threshold_us,
        branch_gate_passed,
        cost_gate_passed,
        use_parallel,
    }
}


/// The unions with at least two operands in `v`, outermost first, found
/// through intersections and complements (not inside restrictions).
pub open spec fn unions_in(v: ExprView) -> Seq<ExprView>
    decreases v,
{
    match v {
        ExprView::Or(ops) => if ops.len() >= 2 { seq![v] + ops_unions(ops) } else { Seq::empty() },
        ExprView::And(ops) => ops_unions(ops),
        ExprView::Not(b) => unions_in(*b),
        _ => Seq::empty(),
    }
}

/// The unions found in a sequence of operands, in order.
pub open spec fn ops_unions(ops: Seq<ExprView>) -> Seq<ExprView>
    decreases ops,
{
    if ops.len() == 0 { Seq::empty() } else { ops_unions(ops.drop_last()) + unions_in(ops.last()) }
}

/// Appends the unions of `expr` with at least two operands (see `unions_in`).
pub fn find_disjunctions_in_expression(expr: &ClassExpression, disjunctions: &mut Vec<ClassExpression>)
    ensures
        views_of(final(disjunctions)@) == views_of(old(disjunctions)@) + unions_in(expr@),
    decreases expr,
{
    match expr {
        ClassExpression::ObjectUnionOf(operands) | ClassExpression::ObjectIntersectionOf(operands) => {
            let is_union = match expr {
                ClassExpression::ObjectUnionOf(_) => true,
                _ => false,
            };
            if is_union && operands.len() < 2 {
                proof {
                    lemma_operand_views(operands@);
                }
                assert(views_of(disjunctions@) =~= views_of(old(disjunctions)@) + unions_in(expr@));
                return;
            }
            if is_union {
                disjunctions.push(copy_expression(expr));
            }
            let ghost start = views_of(disjunctions@);
            let ghost views = operand_views(operands@);
            proof {
                lemma_operand_views(operands@);
                assert(decreases_to!(*expr => *operands));
                assert(decreases_to!(*operands => operands@));
                assert(views_of(disjunctions@) =~= views_of(old(disjunctions)@) + (if is_union { seq![expr@] } else { Seq::empty() }));
            }
            let n = operands.len();
            let mut k: usize = 0;
            while k < n
                invariant
                    n == operands@.len(),
                    views == operand_views(operands@),
                    views.len() == n,
                    forall|i: int| 0 <= i < n ==> #[trigger] views[i] == expr_view(*operands@[i]),
                    k <= n,
                    decreases_to!(*expr => operands@),
                    views_of(disjunctions@) == start + ops_unions(views.take(k as int)),
                decreases n - k,
            {
                proof {
                    assert(decreases_to!(operands@ => operands@[k as int]));
                    assert(views.take(k + 1).drop_last() == views.take(k as int));
                    assert(views.take(k + 1).last() == views[k as int]);
                }
                find_disjunctions_in_expression(&operands[k], disjunctions);
                proof {
                    assert(views_of(disjunctions@) =~= start + ops_unions(views.take(k + 1)));
                }
                k += 1;
            }
            assert(views.take(n as int) == views);
            assert(views_of(disjunctions@) =~= views_of(old(disjunctions)@) + unions_in(expr@));
        },
        ClassExpression::ObjectComplementOf(inner) => {
            find_disjunctions_in_expression(inner, disjunctions);
        },
        _ => {
            assert(views_of(disjunctions@) =~= views_of(old(disjunctions)@) + unions_in(expr@));
        },
    }
}

/// The structural priority of an operand: a union scores 20, plus 4 per
/// operand, plus its operands' scores; an intersection 10, plus 2 per
/// operand, plus its operands'; a complement 3 and a restriction 5 over
/// what they hold; any other expression 1.
pub open spec fn heuristic(v: ExprView) -> nat
    decreases v,
{
    match v {
        ExprView::Or(ops) => 20 + 4 * ops.len() + ops_heuristic(ops),
        ExprView::And(ops) => 10 + 2 * ops.len() + ops_heuristic(ops),
        ExprView::Not(b) => 3 + heuristic(*b),
        ExprView::Exists(_, b) => 5 + heuristic(*b),
        ExprView::Forall(_, b) => 5 + heuristic(*b),
        _ => 1,
    }
}

/// The priorities of a sequence of operands, summed.
pub open spec fn ops_heuristic(ops: Seq<ExprView>) -> nat
    decreases ops,
{
    if ops.len() == 0 { 0 } else { ops_heuristic(ops.drop_last()) + heuristic(ops.last()) }
}

/// `x`, or `u64::MAX` when it does not fit.
pub open spec fn cap64(x: nat) -> u64 {
    if x > u64::MAX { u64::MAX } else { x as u64 }
}

proof fn lemma_cap64_add(x: nat, y: nat)
    ensures
        (if cap64(x) + cap64(y) > u64::MAX { u64::MAX } else { (cap64(x) + cap64(y)) as u64 }) == cap64(x + y),
{
}

/// The structural priority of `expr` (see `heuristic`; capped at `u64::MAX`).
pub fn heuristic_score(expr: &ClassExpression) -> (r: u64)
    ensures
        r == cap64(heuristic(expr@)),
    decreases expr,
{
    match expr {
        ClassExpression::ObjectUnionOf(operands) | ClassExpression::ObjectIntersectionOf(operands) => {
            let is_union = match expr {
                ClassExpression::ObjectUnionOf(_) => true,
                _ => false,
            };
            let ghost views = operand_views(operands@);
            proof {
                lemma_operand_views(operands@);
                assert(decreases_to!(*expr => *operands));
                assert(decreases_to!(*operands => operands@));
            }
            let mut acc: u64 = 0;
            let n = operands.len();
            let mut k: usize = 0;
            while k < n
                invariant
                    n == operands@.len(),
                    views == operand_views(operands@),
                    views.len() == n,
                    forall|i: int| 0 <= i < n ==> #[trigger] views[i] == expr_view(*operands@[i]),
                    k <= n,
                    decreases_to!(*expr => operands@),
                    acc == cap64(ops_heuristic(views.take(k as int))),
                decreases n - k,
            {
                proof {
                    assert(decreases_to!(operands@ => operands@[k as int]));
                    assert(views.take(k + 1).drop_last() == views.take(k as int));
                    assert(views.take(k + 1).last() == views[k as int]);
                }
                let x = heuristic_score(&operands[k]);
                proof {
                    lemma_cap64_add(ops_heuristic(views.take(k as int)), heuristic(views[k as int]));
                }
                acc = acc.saturating_add(x);
                k += 1;
            }
            assert(views.take(n as int) == views);
            let len = n as u64;
            let base: u64 = if is_union { 20 } else { 10 };
            let scaled: u64 = if is_union {
                if len > u64::MAX / 4 { u64::MAX } else { 4 * len }
            } else {
                if len > u64::MAX / 2 { u64::MAX } else { 2 * len }
            };
            let ghost per: nat = if is_union { 4 } else { 2 };
            proof {
                assert(scaled == cap64(per * (n as nat)));
                lemma_cap64_add(base as nat, per * (n as nat));
                lemma_cap64_add(base as nat + per * (n as nat), ops_heuristic(views));
                assert(cap64(base as nat) == base);
            }
            base.saturating_add(scaled).saturating_add(acc)
        },
        ClassExpression::ObjectComplementOf(inner) => {
            proof { lemma_cap64_add(heuristic(inner@), 3); }
            heuristic_score(inner).saturating_add(3)
        },
        ClassExpression::ObjectSomeValuesFrom(_, inner) | ClassExpression::ObjectAllValuesFrom(_, inner) => {
            proof { lemma_cap64_add(heuristic(inner@), 5); }
            heuristic_score(inner).saturating_add(5)
        },
        _ => 1,
    }
}

/// `a` goes before `b` in a ranking by score, highest first, ties in
/// operand order.
pub open spec fn ranks_before(scores: Seq<u64>, a: usize, b: usize) -> bool {
    scores[a as int] > scores[b as int] || (scores[a as int] == scores[b as int] && a < b)
}

/// The order in which to explore `operands`: their order for the baseline
/// policy; otherwise by structural priority, highest first, ties in operand
/// order.
pub fn rank_indices(mode: BranchPolicyMode, operands: &Vec<ClassExpression>) -> (r: Vec<usize>)
    ensures
        r@.len() == operands@.len(),
        r@.no_duplicates(),
        forall|i: int| 0 <= i < r@.len() ==> (#[trigger] r@[i] as int) < operands@.len(),
        mode == BranchPolicyMode::Baseline ==> forall|i: int| 0 <= i < r@.len() ==> #[trigger] r@[i] == i,
        mode != BranchPolicyMode::Baseline ==> forall|i: int, j: int| 0 <= i < j < r@.len()
            ==> ranks_before(Seq::new(operands@.len(), |k: int| cap64(heuristic(operands@[k]@))), #[trigger] r@[i], #[trigger] r@[j]),
{
    let n = operands.len();
    let mut scores: Vec<u64> = Vec::new();
    let mut i: usize = 0;
    while i < n
        invariant
            n == operands@.len(),
            i <= n,
            scores@.len() == i,
            forall|k: int| 0 <= k < i ==> #[trigger] scores@[k] == cap64(heuristic(operands@[k]@)),
        decreases n - i,
    {
        scores.push(heuristic_score(&operands[i]));
        i += 1;
    }
    let ghost sc = Seq::new(operands@.len(), |k: int| cap64(heuristic(operands@[k]@)));
    assert(scores@ =~= sc);
    let mut order: Vec<usize> = Vec::new();
    let mut i: usize = 0;
    while i < n
        invariant
            n == operands@.len(),
            scores@ == sc,
            scores@.len() == n,
            i <= n,
            order@.len() == i,
            forall|k: int| 0 <= k < order@.len() ==> (#[trigger] order@[k] as int) < i,
            order@.no_duplicates(),
            mode == BranchPolicyMode::Baseline ==> forall|k: int| 0 <= k < order@.len() ==> #[trigger] order@[k] == k,
            mode != BranchPolicyMode::Baseline ==> forall|a: int, b: int| 0 <= a < b < order@.len()
                ==> ranks_before(sc, #[trigger] order@[a], #[trigger] order@[b]),
        decreases n - i,
    {
        let ghost before = order@;
        if mode == BranchPolicyMode::Baseline {
            order.push(i);
            proof {
                assert forall|a: int, b: int| 0 <= a < b < order@.len() implies order@[a] != order@[b] by {
                    if b == before.len() { assert(order@[a] < i); }
                }
            }
        } else {
            let mut p: usize = 0;
            while p < order.len() && scores[order[p]] >= scores[i]
                invariant
                    p <= order@.len(),
                    scores@.len() == n,
                    i < n,
                    forall|k: int| 0 <= k < order@.len() ==> (#[trigger] order@[k] as int) < i,
                    forall|k: int| 0 <= k < p ==> scores@[#[trigger] order@[k] as int] >= scores@[i as int],
                decreases order@.len() - p,
            {
                p += 1;
            }
            order.insert(p, i);
            proof {
                assert(order@ == before.insert(p as int, i));
                assert forall|a: int, b: int| 0 <= a < b < order@.len() implies ranks_before(sc, #[trigger] order@[a], #[trigger] order@[b]) by {
                    if b < p {
                        assert(order@[a] == before[a] && order@[b] == before[b]);
                    } else if b == p {
                        assert(order@[a] == before[a]);
                        assert(before[a] < i);
                    } else if a == p {
                        assert(order@[b] == before[b - 1]);
                        assert(scores@[before[p as int] as int] < scores@[i as int]);
                        if b - 1 > p {
                            assert(ranks_before(sc, before[p as int], before[b - 1]));
                        }
                    } else if a < p {
                        assert(order@[a] == before[a] && order@[b] == before[b - 1]);
                    } else {
                        assert(order@[a] == before[a - 1] && order@[b] == before[b - 1]);
                    }
                }
                assert forall|a: int, b: int| 0 <= a < b < order@.len() implies order@[a] != order@[b] by {
                    if a == p { assert(order@[b] == before[b - 1]); assert(before[b - 1] < i); }
                    else if b == p { assert(order@[a] == before[a]); assert(before[a] < i); }
                    else if a < p && b > p { assert(order@[a] == before[a] && order@[b] == before[b - 1]); }
                    else if b < p { assert(order@[a] == before[a] && order@[b] == before[b]); }
                    else { assert(order@[a] == before[a - 1] && order@[b] == before[b - 1]); }
                }
                assert forall|k: int| 0 <= k < order@.len() implies (#[trigger] order@[k] as int) < i + 1 by {
                    if k < p { assert(order@[k] == before[k]); } else if k > p { assert(order@[k] == before[k - 1]); }
                }
            }
        }
        i += 1;
    }
    order
}

} // verus!
