//! Structural measures of class expressions and ontologies used to choose a
//! reasoning strategy: disjunction and complex-expression counts, nesting
//! depth, and whether the hierarchical fast path applies.

use vstd::prelude::*;
use crate::class_expression::{ClassExpression, ExprView, expr_view, operand_views, lemma_operand_views};
use crate::axioms::{Axiom, SubClassOfAxiom};
use crate::ontology::{Ontology, subclass_axioms_of};

verus! {

/// The reasoning strategy recommended for an ontology by its structure.
#[derive(Debug, Clone, Copy, PartialEq, Eq, Structural)]
pub enum ReasoningStrategy {
    /// Simple hierarchical classification (fastest).
    Hierarchical,
    /// Batch classification with early termination.
    BatchIncremental,
    /// Full tableaux with speculative parallelism.
    SpeculativeParallel,
    /// Conservative sequential reasoning.
    Sequential,
}


broadcast use vstd::std_specs::vec::group_vec_axioms;

/// `x`, or `usize::MAX` when it does not fit.
pub open spec fn cap(x: nat) -> usize {
    if x > usize::MAX { usize::MAX } else { x as usize }
}

/// The number of unions in an expression (through intersections,
/// complements and the fillers of restrictions).
pub open spec fn disjunctions(v: ExprView) -> nat
    decreases v,
{
    match v {
        ExprView::Or(ops) => 1 + ops_disjunctions(ops),
        ExprView::And(ops) => ops_disjunctions(ops),
        ExprView::Not(b) => disjunctions(*b),
        ExprView::Exists(_, b) => disjunctions(*b),
        ExprView::Forall(_, b) => disjunctions(*b),
        _ => 0,
    }
}

/// The unions in a sequence of operands.
pub open spec fn ops_disjunctions(ops: Seq<ExprView>) -> nat
    decreases ops,
{
    if ops.len() == 0 { 0 } else { ops_disjunctions(ops.drop_last()) + disjunctions(ops.last()) }
}

/// The number of complements and restrictions in an expression (a
/// complement counts once with what it holds).
pub open spec fn complex_count(v: ExprView) -> nat
    decreases v,
{
    match v {
        ExprView::Or(ops) => ops_complex(ops),
        ExprView::And(ops) => ops_complex(ops),
        ExprView::Not(_) => 1,
        ExprView::Exists(_, b) => 1 + complex_count(*b),
        ExprView::Forall(_, b) => 1 + complex_count(*b),
        _ => 0,
    }
}

/// The complex expressions in a sequence of operands.
pub open spec fn ops_complex(ops: Seq<ExprView>) -> nat
    decreases ops,
{
    if ops.len() == 0 { 0 } else { ops_complex(ops.drop_last()) + complex_count(ops.last()) }
}

/// The nesting depth of an expression: 1 for a leaf.
pub open spec fn depth(v: ExprView) -> nat
    decreases v,
{
    match v {
        ExprView::Or(ops) => 1 + ops_depth(ops),
        ExprView::And(ops) => 1 + ops_depth(ops),
        ExprView::Not(b) => 1 + depth(*b),
        ExprView::Exists(_, b) => 1 + depth(*b),
        ExprView::Forall(_, b) => 1 + depth(*b),
        _ => 1,
    }
}

/// The greatest depth among operands (0 for none).
pub open spec fn ops_depth(ops: Seq<ExprView>) -> nat
    decreases ops,
{
    if ops.len() == 0 {
        0
    } else {
        let a = ops_depth(ops.drop_last());
        let b = depth(ops.last());
        if a >= b { a } else { b }
    }
}

/// Which measure an expression walk computes.
#[derive(Clone, Copy, PartialEq, Eq, Structural)]
enum Measure {
    Disjunctions,
    Complex,
    Depth,
}

/// The measure `m` of `v`.
spec fn measure(m: Measure, v: ExprView) -> nat {
    match m {
        Measure::Disjunctions => disjunctions(v),
        Measure::Complex => complex_count(v),
        Measure::Depth => depth(v),
    }
}

/// Walks `expr` computing the measure `m`, capped at `usize::MAX`.
fn walk(m: Measure, expr: &ClassExpression) -> (r: usize)
    ensures
        r == cap(measure(m, expr@)),
    decreases expr,
{
    match expr {
        ClassExpression::ObjectIntersectionOf(operands) | ClassExpression::ObjectUnionOf(operands) => {
            let is_union = match expr {
                ClassExpression::ObjectUnionOf(_) => true,
                _ => false,
            };
            let ghost views = operand_views(operands@);
            proof {
                lemma_operand_views(operands@);
                assert(decreases_to!(*expr => *operands));
                assert(decreases_to!(*operands => operands@));
            }
            let mut acc: usize = 0;
            let n = operands.len();
            let mut k: usize = 0;
            while k < n
                invariant
                    n == operands@.len(),
                    views == operand_views(operands@),
                    views.len() == n,
                    forall|i: int| 0 <= i < n ==> #[trigger] views[i] == expr_view(*operands@[i]),
                    k <= n,
                    decreases_to!(*expr => operands@),
                    m == Measure::Depth ==> acc == cap(ops_depth(views.take(k as int))),
                    m == Measure::Disjunctions ==> acc == cap(ops_disjunctions(views.take(k as int))),
                    m == Measure::Complex ==> acc == cap(ops_complex(views.take(k as int))),
                decreases n - k,
            {
                proof {
                    assert(decreases_to!(operands@ => operands@[k as int]));
                    assert(views.take(k + 1).drop_last() == views.take(k as int));
                    assert(views.take(k + 1).last() == views[k as int]);
                }
                let x = walk(m, &operands[k]);
                if m == Measure::Depth {
                    if x > acc {
                        acc = x;
                    }
                } else {
                    acc = acc.saturating_add(x);
                }
                k += 1;
            }
            assert(views.take(n as int) == views);
            if m == Measure::Complex {
                acc
            } else {
                acc.saturating_add(if m == Measure::Depth || is_union { 1 } else { 0 })
            }
        },
        ClassExpression::ObjectComplementOf(inner) => {
            if m == Measure::Complex {
                1
            } else {
                let x = walk(m, inner);
                x.saturating_add(if m == Measure::Depth { 1 } else { 0 })
            }
        },
        ClassExpression::ObjectSomeValuesFrom(_, inner) | ClassExpression::ObjectAllValuesFrom(_, inner) => {
            let x = walk(m, inner);
            if m == Measure::Disjunctions { x } else { x.saturating_add(1) }
        },
        _ => {
            if m == Measure::Depth { 1 } else { 0 }
        },
    }
}

/// The number of unions in `expr` (capped at `usize::MAX`).
pub fn count_disjunctions(expr: &ClassExpression) -> (r: usize)
    ensures
        r == cap(disjunctions(expr@)),
{
    walk(Measure::Disjunctions, expr)
}

/// The number of complements and restrictions in `expr` (capped at `usize::MAX`).
pub fn count_complex_expressions(expr: &ClassExpression) -> (r: usize)
    ensures
        r == cap(complex_count(expr@)),
{
    walk(Measure::Complex, expr)
}

/// The nesting depth of `expr` (capped at `usize::MAX`).
pub fn expression_depth(expr: &ClassExpression) -> (r: usize)
    ensures
        r == cap(depth(expr@)),
{
    walk(Measure::Depth, expr)
}

/// The number of unions in `expr`, as the hierarchical engine counts them.
pub fn count_disjunctions_in_expr(expr: &ClassExpression) -> (r: usize)
    ensures
        r == cap(disjunctions(expr@)),
{
    walk(Measure::Disjunctions, expr)
}

/// The unions in the superclasses of the subclass axioms.
pub open spec fn union_total(axs: Seq<Axiom>) -> nat
    decreases axs.len(),
{
    if axs.len() == 0 {
        0
    } else {
        union_total(axs.drop_last()) + match axs.last() {
            Axiom::SubClassOf(ax) => disjunctions(ax.super_class_spec()@),
            _ => 0,
        }
    }
}

/// The unions in the superclasses of `ontology`'s subclass axioms (capped
/// at `usize::MAX`).
pub fn count_union_axioms(ontology: &Ontology) -> (r: usize)
    ensures
        r == cap(union_total(ontology.axioms_spec())),
{
    let axioms = ontology.axioms();
    let mut acc: usize = 0;
    let mut i: usize = 0;
    while i < axioms.len()
        invariant
            i <= axioms@.len(),
            axioms@ == ontology.axioms_spec(),
            acc == cap(union_total(axioms@.take(i as int))),
        decreases axioms@.len() - i,
    {
        proof {
            assert(axioms@.take(i + 1).drop_last() == axioms@.take(i as int));
            assert(axioms@.take(i + 1).last() == axioms@[i as int]);
        }
        match &axioms[i] {
            Axiom::SubClassOf(sub) => {
                let x = count_disjunctions(sub.super_class());
                acc = acc.saturating_add(x);
            },
            _ => {},
        }
        i += 1;
    }
    assert(axioms@.take(axioms@.len() as int) == axioms@);
    acc
}

/// The subclass axioms between two named classes.
pub open spec fn simple_count(subs: Seq<SubClassOfAxiom>) -> nat
    decreases subs.len(),
{
    if subs.len() == 0 {
        0
    } else {
        simple_count(subs.drop_last()) + if subs.last().sub_class_spec() is Class
            && subs.last().super_class_spec() is Class { 1nat } else { 0nat }
    }
}

proof fn lemma_simple_count_le(subs: Seq<SubClassOfAxiom>)
    ensures
        simple_count(subs) <= subs.len(),
    decreases subs.len(),
{
    if subs.len() > 0 {
        lemma_simple_count_le(subs.drop_last());
    }
}

/// Whether the hierarchical fast path applies: there are subclass axioms,
/// at least nine tenths of them relate two named classes, and the unions
/// number fewer than one per hundred subclass axioms (at least one allowed).
pub open spec fn hierarchical_fits(o: Ontology) -> bool {
    let subs = subclass_axioms_of(o.axioms_spec());
    let total = subs.len();
    let unions = union_total(o.axioms_spec());
    let allowed = if total / 100 >= 1 { total / 100 } else { 1 };
    &&& total > 0
    &&& 10 * simple_count(subs) >= 9 * total
    &&& unions < allowed
}

/// The subclass axioms that relate two named classes.
pub open spec fn named_pairs(subs: Seq<SubClassOfAxiom>) -> Seq<SubClassOfAxiom> {
    subs.filter(|a: SubClassOfAxiom| a.sub_class_spec() is Class && a.super_class_spec() is Class)
}

proof fn lemma_simple_count_named(subs: Seq<SubClassOfAxiom>)
    ensures
        simple_count(subs) == named_pairs(subs).len(),
    decreases subs.len(),
{
    reveal(Seq::filter);
    if subs.len() > 0 {
        lemma_simple_count_named(subs.drop_last());
    }
}

/// Law: the hierarchical fast path is taken only for an ontology with
/// subclass axioms of which at least nine tenths relate two named classes;
/// with fewer, `can_handle_hierarchically` answers no.
pub proof fn lemma_hierarchical_needs_named_pairs(o: Ontology)
    ensures
        hierarchical_fits(o) ==> subclass_axioms_of(o.axioms_spec()).len() > 0
            && 10 * named_pairs(subclass_axioms_of(o.axioms_spec())).len()
                >= 9 * subclass_axioms_of(o.axioms_spec()).len(),
{
    lemma_simple_count_named(subclass_axioms_of(o.axioms_spec()));
}

/// Whether the hierarchical classification engine can handle `ontology`
/// (see `hierarchical_fits`).
pub fn can_handle_hierarchically(ontology: &Ontology) -> (r: bool)
    ensures
        r == hierarchical_fits(*ontology),
{
    let subs = ontology.subclass_axioms();
    let total = subs.len();
    let mut simple: usize = 0;
    let mut i: usize = 0;
    while i < total
        invariant
            total == subs@.len(),
            subs@.len() == subclass_axioms_of(ontology.axioms_spec()).len(),
            forall|k: int| 0 <= k < subs@.len() ==> *subs@[k] == #[trigger] subclass_axioms_of(ontology.axioms_spec())[k],
            i <= total,
            simple == simple_count(subclass_axioms_of(ontology.axioms_spec()).take(i as int)),
            simple <= i,
        decreases total - i,
    {
        let ghost ss = subclass_axioms_of(ontology.axioms_spec());
        proof {
            assert(ss.take(i + 1).drop_last() == ss.take(i as int));
            assert(ss.take(i + 1).last() == ss[i as int]);
        }
        let ax = subs[i];
        match (ax.sub_class(), ax.super_class()) {
            (ClassExpression::Class(_), ClassExpression::Class(_)) => {
                simple += 1;
            },
            _ => {},
        }
        i += 1;
    }
    proof {
        let ss = subclass_axioms_of(ontology.axioms_spec());
        assert(ss.take(total as int) == ss);
    }
    let unions = count_union_axioms(ontology);
    let allowed = if total / 100 >= 1 { total / 100 } else { 1 };
    let ratio_ok = (simple as u128) * 10 >= (total as u128) * 9;
    proof {
        if union_total(ontology.axioms_spec()) > usize::MAX {
            assert(unions == usize::MAX);
            assert(allowed <= usize::MAX);
        }
    }
    ratio_ok && unions < allowed && total > 0
}


/// The axiom measures of an ontology that choose a reasoning strategy:
/// disjunctions, complex expressions and the deepest nesting among the
/// superclasses of subclass axioms, and the disjointness and equivalence
/// axioms.
#[derive(Debug, Clone, Copy, PartialEq, Eq, Structural)]
pub struct AxiomMeasures {
    pub disjunction_count: usize,
    pub complex_expression_count: usize,
    pub disjointness_axiom_count: usize,
    pub equivalence_axiom_count: usize,
    pub max_expression_depth: usize,
}

/// The uncapped measures of `axs`: the sums of disjunctions and complex
/// expressions over subclass superclasses, the numbers of disjointness and
/// equivalence axioms, and the greatest depth (capped per expression).
pub open spec fn measures_of(axs: Seq<Axiom>) -> (nat, nat, nat, nat, nat)
    decreases axs.len(),
{
    if axs.len() == 0 {
        (0, 0, 0, 0, 0)
    } else {
        let (d, c, dj, eq, m) = measures_of(axs.drop_last());
        match axs.last() {
            Axiom::DisjointClasses(_) => (d, c, dj + 1, eq, m),
            Axiom::EquivalentClasses(_) => (d, c, dj, eq + 1, m),
            Axiom::SubClassOf(sub) => {
                let e = sub.super_class_spec()@;
                let de = cap(depth(e)) as nat;
                (d + cap(disjunctions(e)) as nat, c + cap(complex_count(e)) as nat, dj, eq, if de > m { de } else { m })
            },
            _ => (d, c, dj, eq, m),
        }
    }
}

/// Measures the axioms of `ontology` (sums saturate at `usize::MAX`).
pub fn measure_axioms(ontology: &Ontology) -> (r: AxiomMeasures)
    ensures
        ({
            let (d, c, dj, eq, m) = measures_of(ontology.axioms_spec());
            r.disjunction_count == cap(d) && r.complex_expression_count == cap(c)
                && r.disjointness_axiom_count == cap(dj) && r.equivalence_axiom_count == cap(eq)
                && r.max_expression_depth == m
        }),
{
    let axioms = ontology.axioms();
    let mut r = AxiomMeasures {
        disjunction_count: 0,
        complex_expression_count: 0,
        disjointness_axiom_count: 0,
        equivalence_axiom_count: 0,
        max_expression_depth: 0,
    };
    let mut k: usize = 0;
    while k < axioms.len()
        invariant
            k <= axioms@.len(),
            axioms@ == ontology.axioms_spec(),
            ({
                let (d, c, dj, eq, m) = measures_of(axioms@.take(k as int));
                r.disjunction_count == cap(d) && r.complex_expression_count == cap(c)
                    && r.disjointness_axiom_count == cap(dj) && r.equivalence_axiom_count == cap(eq)
                    && r.max_expression_depth == m
            }),
        decreases axioms@.len() - k,
    {
        proof {
            assert(axioms@.take(k + 1).drop_last() =~= axioms@.take(k as int));
            assert(axioms@.take(k + 1).last() == axioms@[k as int]);
        }
        match &axioms[k] {
            Axiom::DisjointClasses(_) => {
                r.disjointness_axiom_count = r.disjointness_axiom_count.saturating_add(1);
            },
            Axiom::EquivalentClasses(_) => {
                r.equivalence_axiom_count = r.equivalence_axiom_count.saturating_add(1);
            },
            Axiom::SubClassOf(sub) => {
                let e = sub.super_class();
                r.disjunction_count = r.disjunction_count.saturating_add(count_disjunctions(e));
                r.complex_expression_count = r.complex_expression_count.saturating_add(count_complex_expressions(e));
                let de = expression_depth(e);
                if de > r.max_expression_depth {
                    r.max_expression_depth = de;
                }
            },
            _ => {},
        }
        k += 1;
    }
    assert(axioms@.take(axioms@.len() as int) =~= axioms@);
    r
}

} // verus!
