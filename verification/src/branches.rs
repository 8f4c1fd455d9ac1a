//! Branches of the speculative tableau: work items, their expansion on the
//! next disjunction, the branch ontology a branch is tested in, the search
//! for a small conflicting core, and the decisions of the result collector.

use vstd::prelude::*;
use std::sync::Arc;
use crate::iri::{IRI, share_arc};
use crate::class_expression::{ClassExpression, ExprView, copy_expression};
use crate::speculative::{BranchId, BranchPolicyMode, views_of, contains_expression, rank_indices, ranks_before,
    heuristic, cap64};
use crate::ontology::{Ontology, class_iris};
use crate::entities::NamedIndividual;
use crate::axioms::{Axiom, ClassAssertionAxiom};
use crate::binary_format::{add_name, individual_names, object_property_names, data_property_names,
    AxiomKey, axiom_key};
use crate::text::{decimal, push_decimal_u64, push_str, string_from_chars};

verus! {

broadcast use vstd::std_specs::vec::group_vec_axioms;

/// `v` with `e` appended unless it is there already.
pub open spec fn add_distinct(v: Seq<ExprView>, e: ExprView) -> Seq<ExprView> {
    if v.contains(e) {
        v
    } else {
        v.push(e)
    }
}

/// `v` with each of `es` added in turn.
pub open spec fn add_all_distinct(v: Seq<ExprView>, es: Seq<ExprView>) -> Seq<ExprView>
    decreases es.len(),
{
    if es.len() == 0 {
        v
    } else {
        add_distinct(add_all_distinct(v, es.drop_last()), es.last())
    }
}

/// Copies of the expressions, in order.
pub fn copy_expressions(v: &Vec<ClassExpression>) -> (r: Vec<ClassExpression>)
    ensures
        views_of(r@) == views_of(v@),
{
    let mut out: Vec<ClassExpression> = Vec::new();
    let mut i: usize = 0;
    while i < v.len()
        invariant
            i <= v@.len(),
            views_of(out@) == views_of(v@.take(i as int)),
        decreases v@.len() - i,
    {
        let ghost before = out@;
        out.push(copy_expression(&v[i]));
        proof {
            assert(views_of(out@) =~= views_of(before).push(v@[i as int]@));
            assert(views_of(v@.take(i + 1)) =~= views_of(v@.take(i as int)).push(v@[i as int]@));
        }
        i += 1;
    }
    assert(v@.take(v@.len() as int) == v@);
    out
}

/// Adds `e` unless an expression with its view is present.
pub fn insert_distinct(v: &mut Vec<ClassExpression>, e: &ClassExpression)
    ensures
        views_of(final(v)@) == add_distinct(views_of(old(v)@), e@),
{
    if !contains_expression(v, e) {
        let ghost before = v@;
        v.push(copy_expression(e));
        assert(views_of(v@) =~= views_of(before).push(e@));
    }
}

/// A branch of the search: the choices made so far (constraints), the
/// expressions checked against learned conflicts, its depth, and the
/// disjunctions still to split, from `next_disjunction_idx` on.
#[derive(Debug)]
pub struct WorkItem {
    pub branch_id: BranchId,
    pub constraints: Vec<ClassExpression>,
    pub test_expressions: Vec<ClassExpression>,
    pub depth: usize,
    pub disjunctions: Arc<Vec<ClassExpression>>,
    pub next_disjunction_idx: usize,
}

/// The expressions a branch is checked with: its test expressions, then
/// its constraints, each view once.
pub fn branch_assertions(item: &WorkItem) -> (r: Vec<ClassExpression>)
    ensures
        views_of(r@) == add_all_distinct(views_of(item.test_expressions@), views_of(item.constraints@)),
{
    let mut out = copy_expressions(&item.test_expressions);
    let ghost cs = views_of(item.constraints@);
    let mut i: usize = 0;
    while i < item.constraints.len()
        invariant
            i <= item.constraints@.len(),
            cs == views_of(item.constraints@),
            views_of(out@) == add_all_distinct(views_of(item.test_expressions@), cs.take(i as int)),
        decreases item.constraints@.len() - i,
    {
        insert_distinct(&mut out, &item.constraints[i]);
        proof {
            assert(cs.take(i + 1).drop_last() =~= cs.take(i as int));
            assert(cs.take(i + 1).last() == item.constraints@[i as int]@);
        }
        i += 1;
    }
    assert(cs.take(item.constraints@.len() as int) == cs);
    out
}

/// The first work item: branch 0, no constraints, depth 0, the first
/// disjunction next.
pub fn create_branch_work_items(disjunctions: Arc<Vec<ClassExpression>>, test_expressions: &Vec<ClassExpression>)
    -> (r: Vec<WorkItem>)
    ensures
        r@.len() == 1,
        r@[0].branch_id == BranchId(0),
        r@[0].constraints@.len() == 0,
        views_of(r@[0].test_expressions@) == views_of(test_expressions@),
        r@[0].depth == 0,
        r@[0].disjunctions == disjunctions,
        r@[0].next_disjunction_idx == 0,
{
    let mut v: Vec<WorkItem> = Vec::new();
    v.push(WorkItem {
        branch_id: BranchId::new(0),
        constraints: Vec::new(),
        test_expressions: copy_expressions(test_expressions),
        depth: 0,
        disjunctions,
        next_disjunction_idx: 0,
    });
    v
}


/// `c` is the child that splitting `item` on `operand` gives, with branch
/// id `id`.
pub open spec fn child_of(item: WorkItem, operand: ExprView, id: u64, c: WorkItem) -> bool {
    &&& c.branch_id == BranchId(id)
    &&& views_of(c.constraints@) == views_of(item.constraints@).push(operand)
    &&& views_of(c.test_expressions@) == add_distinct(views_of(item.test_expressions@), operand)
    &&& c.depth == item.depth + 1
    &&& c.disjunctions == item.disjunctions
    &&& c.next_disjunction_idx == item.next_disjunction_idx + 1
}

/// `c` is `item` moved past its next disjunction without a split.
pub open spec fn skipped(item: WorkItem, c: WorkItem) -> bool {
    &&& c.branch_id == item.branch_id
    &&& views_of(c.constraints@) == views_of(item.constraints@)
    &&& views_of(c.test_expressions@) == views_of(item.test_expressions@)
    &&& c.depth == item.depth + 1
    &&& c.disjunctions == item.disjunctions
    &&& c.next_disjunction_idx == item.next_disjunction_idx + 1
}

/// The item has a disjunction left to split and depth to split it.
pub open spec fn can_expand(item: WorkItem, max_depth: usize) -> bool {
    item.depth < max_depth && item.next_disjunction_idx < (*item.disjunctions)@.len()
}

/// `order` lists each operand position below `n` once.
pub open spec fn is_order(order: Seq<usize>, n: int) -> bool {
    &&& order.len() == n
    &&& order.no_duplicates()
    &&& forall|t: int| 0 <= t < order.len() ==> (#[trigger] order[t] as int) < n
}

/// Splits `item` on its next disjunction: a union gives one child per
/// operand, taken in `order`, with consecutive branch ids from
/// `next_branch`; another expression is passed over. Nothing comes of an
/// item at the depth limit or without a disjunction left, or of an empty
/// union.
pub fn expand_with_order(item: &WorkItem, max_depth: usize, order: &Vec<usize>, next_branch: &mut u64)
    -> (r: Option<Vec<WorkItem>>)
    requires
        can_expand(*item, max_depth) ==> match (*item.disjunctions)@[item.next_disjunction_idx as int] {
            ClassExpression::ObjectUnionOf(ops) => is_order(order@, ops@.len() as int)
                && *old(next_branch) + ops@.len() <= u64::MAX,
            _ => true,
        },
    ensures
        !can_expand(*item, max_depth) ==> r is None && *final(next_branch) == *old(next_branch),
        can_expand(*item, max_depth) ==> match (*item.disjunctions)@[item.next_disjunction_idx as int] {
            ClassExpression::ObjectUnionOf(ops) => if ops@.len() == 0 {
                r is None && *final(next_branch) == *old(next_branch)
            } else {
                r matches Some(v) && v@.len() == ops@.len()
                    && *final(next_branch) == *old(next_branch) + ops@.len()
                    && forall|t: int| 0 <= t < v@.len() ==> child_of(*item, (*ops@[order@[t] as int])@,
                        (*old(next_branch) + t) as u64, #[trigger] v@[t])
            },
            _ => r matches Some(v) && v@.len() == 1 && skipped(*item, v@[0]) && *final(next_branch) == *old(next_branch),
        },
{
    let ds: &Vec<ClassExpression> = &*item.disjunctions;
    if item.depth >= max_depth || item.next_disjunction_idx >= ds.len() {
        return None;
    }
    match &ds[item.next_disjunction_idx] {
        ClassExpression::ObjectUnionOf(ops) => {
            if ops.len() == 0 {
                return None;
            }
            let ghost start = *next_branch;
            let mut out: Vec<WorkItem> = Vec::new();
            let mut t: usize = 0;
            while t < order.len()
                invariant
                    is_order(order@, ops@.len() as int),
                    start + ops@.len() <= u64::MAX,
                    t <= order@.len(),
                    out@.len() == t,
                    *next_branch == start + t,
                    item.depth < max_depth,
                    item.next_disjunction_idx < ds.len(),
                    forall|k: int| 0 <= k < t ==> child_of(*item, (*ops@[order@[k] as int])@,
                        (start + k) as u64, #[trigger] out@[k]),
                decreases order@.len() - t,
            {
                let operand: &ClassExpression = &ops[order[t]];
                let mut constraints = copy_expressions(&item.constraints);
                let ghost cbefore = constraints@;
                constraints.push(copy_expression(operand));
                let mut test_expressions = copy_expressions(&item.test_expressions);
                insert_distinct(&mut test_expressions, operand);
                let id = *next_branch;
                *next_branch = *next_branch + 1;
                let child = WorkItem {
                    branch_id: BranchId::new(id),
                    constraints,
                    test_expressions,
                    depth: item.depth + 1,
                    disjunctions: share_arc(&item.disjunctions),
                    next_disjunction_idx: item.next_disjunction_idx + 1,
                };
                proof {
                    assert(views_of(child.constraints@) =~= views_of(cbefore).push(operand@));
                }
                out.push(child);
                t += 1;
            }
            Some(out)
        },
        _ => {
            let mut v: Vec<WorkItem> = Vec::new();
            v.push(WorkItem {
                branch_id: item.branch_id,
                constraints: copy_expressions(&item.constraints),
                test_expressions: copy_expressions(&item.test_expressions),
                depth: item.depth + 1,
                disjunctions: share_arc(&item.disjunctions),
                next_disjunction_idx: item.next_disjunction_idx + 1,
            });
            Some(v)
        },
    }
}


/// The operand order of the branch policy `mode`: operand order for the
/// baseline; otherwise highest structural priority first, ties in operand
/// order.
pub open spec fn policy_order(mode: BranchPolicyMode, ops: Seq<ExprView>, order: Seq<usize>) -> bool {
    &&& is_order(order, ops.len() as int)
    &&& mode == BranchPolicyMode::Baseline ==> forall|t: int| 0 <= t < order.len() ==> #[trigger] order[t] == t
    &&& mode != BranchPolicyMode::Baseline ==> forall|i: int, j: int| 0 <= i < j < order.len()
        ==> ranks_before(Seq::new(ops.len(), |k: int| cap64(heuristic(ops[k]))), #[trigger] order[i], #[trigger] order[j])
}

/// The views of boxed operands.
pub open spec fn operand_views_of(ops: Seq<Box<ClassExpression>>) -> Seq<ExprView> {
    ops.map_values(|b: Box<ClassExpression>| (*b)@)
}

/// Splits `item` on its next disjunction with the operands in the order of
/// the branch policy `mode` (see `expand_with_order`).
pub fn expand_work_item(item: &WorkItem, max_depth: usize, mode: BranchPolicyMode, next_branch: &mut u64)
    -> (r: Option<Vec<WorkItem>>)
    requires
        can_expand(*item, max_depth) ==> match (*item.disjunctions)@[item.next_disjunction_idx as int] {
            ClassExpression::ObjectUnionOf(ops) => *old(next_branch) + ops@.len() <= u64::MAX,
            _ => true,
        },
    ensures
        !can_expand(*item, max_depth) ==> r is None && *final(next_branch) == *old(next_branch),
        can_expand(*item, max_depth) ==> match (*item.disjunctions)@[item.next_disjunction_idx as int] {
            ClassExpression::ObjectUnionOf(ops) => if ops@.len() == 0 {
                r is None && *final(next_branch) == *old(next_branch)
            } else {
                r matches Some(v) && v@.len() == ops@.len()
                    && *final(next_branch) == *old(next_branch) + ops@.len()
                    && exists|order: Seq<usize>| policy_order(mode, operand_views_of(ops@), order)
                        && forall|t: int| 0 <= t < v@.len() ==> child_of(*item, (*ops@[order[t] as int])@,
                            (*old(next_branch) + t) as u64, #[trigger] v@[t])
            },
            _ => r matches Some(v) && v@.len() == 1 && skipped(*item, v@[0]) && *final(next_branch) == *old(next_branch),
        },
{
    let ds: &Vec<ClassExpression> = &*item.disjunctions;
    let mut order: Vec<usize> = Vec::new();
    if item.depth < max_depth && item.next_disjunction_idx < ds.len() {
        if let ClassExpression::ObjectUnionOf(ops) = &ds[item.next_disjunction_idx] {
            let mut operands: Vec<ClassExpression> = Vec::new();
            let mut k: usize = 0;
            while k < ops.len()
                invariant
                    k <= ops@.len(),
                    views_of(operands@) == operand_views_of(ops@).take(k as int),
                decreases ops@.len() - k,
            {
                let ghost before = operands@;
                operands.push(copy_expression(&ops[k]));
                proof {
                    assert(views_of(operands@) =~= views_of(before).push((*ops@[k as int])@));
                    assert(operand_views_of(ops@).take(k + 1) =~= operand_views_of(ops@).take(k as int).push((*ops@[k as int])@));
                }
                k += 1;
            }
            assert(operand_views_of(ops@).take(ops@.len() as int) == operand_views_of(ops@));
            order = rank_indices(mode, &operands);
            proof {
                let ov = operand_views_of(ops@);
                assert forall|x: int| 0 <= x < ov.len() implies #[trigger] operands@[x]@ == ov[x] by {
                    assert(views_of(operands@)[x] == ov[x]);
                }
                assert(Seq::new(operands@.len(), |x: int| cap64(heuristic(operands@[x]@)))
                    =~= Seq::new(ov.len(), |x: int| cap64(heuristic(ov[x]))));
                assert(policy_order(mode, ov, order@));
            }
        }
    }
    expand_with_order(item, max_depth, &order, next_branch)
}


/// The IRI text of the test individual of branch `id`.
pub open spec fn branch_individual_text(id: u64) -> Seq<char> {
    "http://tableauxx.org/branch#test_"@ + decimal(id as nat)
}

/// The keys of the class assertions of `ind` to each of `cs`.
pub open spec fn assertion_keys(ind: Seq<char>, cs: Seq<ExprView>) -> Seq<AxiomKey> {
    cs.map_values(|c: ExprView| AxiomKey::Assertion(ind, c))
}

/// The keys of the axioms of an ontology.
pub open spec fn axiom_keys(o: Ontology) -> Seq<AxiomKey> {
    o.axioms_spec().map_values(|a: Axiom| axiom_key(a))
}

/// The ontology a branch is tested in: `ontology` with, when the branch has
/// constraints, a test individual for the branch asserted to be an
/// instance of each constraint.
pub fn ontology_with_constraints(ontology: Ontology, branch_id: BranchId, constraints: &Vec<ClassExpression>)
    -> (r: Ontology)
    ensures
        constraints@.len() == 0 ==> r == ontology,
        constraints@.len() > 0 ==> {
            &&& r.classes_spec() == ontology.classes_spec()
            &&& r.object_properties_spec() == ontology.object_properties_spec()
            &&& r.data_properties_spec() == ontology.data_properties_spec()
            &&& individual_names(r.named_individuals_spec())
                == add_name(individual_names(ontology.named_individuals_spec()), branch_individual_text(branch_id.0))
            &&& axiom_keys(r) == axiom_keys(ontology)
                + assertion_keys(branch_individual_text(branch_id.0), views_of(constraints@))
        },
{
    if constraints.len() == 0 {
        return ontology;
    }
    let mut branch_ontology = ontology;
    let ghost o0 = branch_ontology;
    let mut text: Vec<char> = Vec::new();
    push_str(&mut text, "http://tableauxx.org/branch#test_");
    push_decimal_u64(&mut text, branch_id.0);
    let iri_text = string_from_chars(&text);
    proof {
        reveal_strlit("http://tableauxx.org/branch#test_");
        assert(iri_text@.len() > 0);
    }
    let iri = match IRI::new(iri_text.as_str()) {
        Ok(i) => i,
        Err(_) => { return branch_ontology; },
    };
    let individual = NamedIndividual::new(iri);
    let ghost before = branch_ontology.named_individuals_spec();
    let ghost names = individual_names(before);
    proof {
        if names.contains(iri@) {
            let j = choose|j: int| 0 <= j < names.len() && names[j] == iri@;
            assert(before[j].iri_spec()@ == individual.iri_spec()@);
        } else {
            assert forall|j: int| 0 <= j < before.len() implies #[trigger] before[j].iri_spec()@ != individual.iri_spec()@ by {
                assert(names[j] == before[j].iri_spec()@);
            }
        }
    }
    let ind_iri = share_arc(individual.iri());
    let _ = branch_ontology.add_named_individual(individual);
    proof {
        if !names.contains(iri@) {
            assert(individual_names(before.push(individual)) =~= names.push(iri@));
        }
    }
    let ghost o1 = branch_ontology;
    let ghost cs = views_of(constraints@);
    let ghost ind = branch_individual_text(branch_id.0);
    let mut i: usize = 0;
    while i < constraints.len()
        invariant
            i <= constraints@.len(),
            cs == views_of(constraints@),
            (*ind_iri)@ == ind,
            branch_ontology.classes_spec() == o0.classes_spec(),
            branch_ontology.object_properties_spec() == o0.object_properties_spec(),
            branch_ontology.data_properties_spec() == o0.data_properties_spec(),
            branch_ontology.named_individuals_spec() == o1.named_individuals_spec(),
            axiom_keys(branch_ontology) == axiom_keys(o0) + assertion_keys(ind, cs.take(i as int)),
        decreases constraints@.len() - i,
    {
        let ghost axs = branch_ontology.axioms_spec();
        let assertion = ClassAssertionAxiom::new(share_arc(&ind_iri), copy_expression(&constraints[i]));
        let _ = branch_ontology.add_class_assertion(assertion);
        proof {
            assert(axiom_keys(branch_ontology) =~= axiom_keys(o0) + assertion_keys(ind, cs.take(i + 1))) by {
                assert(assertion_keys(ind, cs.take(i + 1)) =~= assertion_keys(ind, cs.take(i as int))
                    .push(AxiomKey::Assertion(ind, cs[i as int])));
                assert(branch_ontology.axioms_spec().map_values(|a: Axiom| axiom_key(a))
                    =~= axs.map_values(|a: Axiom| axiom_key(a)).push(AxiomKey::Assertion(ind, constraints@[i as int]@)));
            }
        }
        i += 1;
    }
    assert(cs.take(constraints@.len() as int) == cs);
    branch_ontology
}


/// The search for a smaller conflicting set of constraints: each constraint
/// in turn is tried without, and left out for good when what remains still
/// conflicts. A trial is never empty.
#[derive(Debug)]
pub struct CoreSearch {
    pub core: Vec<ClassExpression>,
    pub idx: usize,
}

impl CoreSearch {
    /// Starts the search from all of `constraints`.
    pub fn start(constraints: &Vec<ClassExpression>) -> (r: Self)
        ensures
            views_of(r.core@) == views_of(constraints@),
            r.idx == 0,
    {
        CoreSearch { core: copy_expressions(constraints), idx: 0 }
    }

    /// The next set to test: the core without its constraint at `idx`.
    /// Nothing is left to test once `idx` has passed the core, or when the
    /// core has at most one constraint (which is then the result).
    pub fn next_trial(&mut self) -> (r: Option<Vec<ClassExpression>>)
        ensures
            views_of(final(self).core@) == views_of(old(self).core@),
            old(self).core@.len() <= 1 ==> r is None && final(self).idx >= old(self).core@.len(),
            old(self).core@.len() > 1 ==> final(self).idx == old(self).idx
                && (old(self).idx >= old(self).core@.len() ==> r is None)
                && (old(self).idx < old(self).core@.len() ==> (r matches Some(t)
                    && views_of(t@) == views_of(old(self).core@).remove(old(self).idx as int))),
    {
        if self.core.len() <= 1 {
            if self.idx < self.core.len() {
                self.idx = self.core.len();
            }
            return None;
        }
        if self.idx >= self.core.len() {
            return None;
        }
        let mut trial: Vec<ClassExpression> = Vec::new();
        let mut k: usize = 0;
        let ghost cv = views_of(self.core@);
        while k < self.core.len()
            invariant
                k <= self.core@.len(),
                cv == views_of(self.core@),
                self.idx < self.core@.len(),
                views_of(trial@) == (if k <= self.idx { cv.take(k as int) }
                    else { cv.take(k as int).remove(self.idx as int) }),
            decreases self.core@.len() - k,
        {
            let ghost before = trial@;
            if k != self.idx {
                trial.push(copy_expression(&self.core[k]));
                proof {
                    assert(views_of(trial@) =~= views_of(before).push(cv[k as int]));
                    if k < self.idx {
                        assert(cv.take(k + 1) =~= cv.take(k as int).push(cv[k as int]));
                    } else {
                        assert(cv.take(k + 1).remove(self.idx as int) =~= cv.take(k as int).remove(self.idx as int).push(cv[k as int]));
                    }
                }
            } else {
                proof {
                    assert(cv.take(k + 1).remove(self.idx as int) =~= cv.take(k as int));
                }
            }
            k += 1;
        }
        assert(cv.take(self.core@.len() as int) == cv);
        Some(trial)
    }

    /// Takes the outcome of testing the last trial: when it still
    /// conflicts, the constraint at `idx` is left out; otherwise the search
    /// moves on.
    pub fn record_trial(&mut self, still_conflicting: bool)
        requires
            old(self).idx < old(self).core@.len(),
            old(self).core@.len() > 1,
        ensures
            still_conflicting ==> views_of(final(self).core@) == views_of(old(self).core@).remove(old(self).idx as int)
                && final(self).idx == old(self).idx,
            !still_conflicting ==> views_of(final(self).core@) == views_of(old(self).core@)
                && final(self).idx == old(self).idx + 1,
    {
        if still_conflicting {
            let ghost before = self.core@;
            let _ = self.core.remove(self.idx);
            assert(views_of(self.core@) =~= views_of(before).remove(old(self).idx as int));
        } else {
            assert(self.idx < self.core.len());
            self.idx = self.idx + 1;
        }
    }
}

/// A nogood learned from a branch is kept only when the minimized core is
/// not empty and still conflicts when tested again; otherwise nothing is
/// learned.
pub fn verified_nogood_from_core(minimized: Vec<ClassExpression>, still_conflicting: bool) -> (r: Vec<ClassExpression>)
    ensures
        minimized@.len() == 0 || !still_conflicting ==> r@.len() == 0,
        minimized@.len() > 0 && still_conflicting ==> r@ == minimized@,
{
    if minimized.len() == 0 || !still_conflicting {
        return Vec::new();
    }
    minimized
}

/// A result a worker reports, or what waiting for one gave.
#[derive(Debug, Clone, Copy, PartialEq, Eq, Structural)]
pub enum ResultEvent {
    Success,
    Contradiction,
    Partial,
    Timeout,
    Disconnected,
}

/// What the collector does next.
#[derive(Debug, PartialEq, Eq)]
pub enum CollectAction {
    Finish(bool),
    Fail(String),
    Wait,
}

/// Before waiting: a found solution ends the search as consistent, no
/// outstanding work ends it as inconsistent.
pub fn collect_before_wait(solution_found: bool, outstanding: usize) -> (r: Option<bool>)
    ensures
        solution_found ==> r == Some(true),
        !solution_found && outstanding == 0 ==> r == Some(false),
        !solution_found && outstanding > 0 ==> r is None,
{
    if solution_found {
        Some(true)
    } else if outstanding == 0 {
        Some(false)
    } else {
        None
    }
}

/// After waiting: a success ends the search as consistent; contradictions
/// and expansions keep it waiting; a timeout fails it once more than
/// `timeout_ms` have passed; a closed channel ends it as inconsistent when
/// no work is outstanding and fails it otherwise.
pub fn collect_on_event(event: ResultEvent, outstanding: usize, elapsed_ms: u64, timeout_ms: u64) -> (r: CollectAction)
    ensures
        event == ResultEvent::Success ==> r == CollectAction::Finish(true),
        (event == ResultEvent::Contradiction || event == ResultEvent::Partial) ==> r == CollectAction::Wait,
        event == ResultEvent::Timeout ==> (elapsed_ms > timeout_ms ==> r is Fail) && (elapsed_ms <= timeout_ms ==> r == CollectAction::Wait),
        event == ResultEvent::Disconnected ==> (outstanding == 0 ==> r == CollectAction::Finish(false))
            && (outstanding > 0 ==> r is Fail),
{
    match event {
        ResultEvent::Success => CollectAction::Finish(true),
        ResultEvent::Contradiction => CollectAction::Wait,
        ResultEvent::Partial => CollectAction::Wait,
        ResultEvent::Timeout => {
            if elapsed_ms > timeout_ms {
                CollectAction::Fail(String::from_str("Speculative reasoning timeout"))
            } else {
                CollectAction::Wait
            }
        },
        ResultEvent::Disconnected => {
            if outstanding == 0 {
                CollectAction::Finish(false)
            } else {
                CollectAction::Fail(String::from_str("Speculative worker channel disconnected before completion"))
            }
        },
    }
}

}
