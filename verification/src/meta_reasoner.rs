//! Rule conditions over ontology features, as the strategy-selecting
//! decision tree tests them, and the strategies it chooses between.

use vstd::prelude::*;
use crate::reasoning::{ComplexityLevel, ExpressivenessLevel, OntologyFeatures};

verus! {

/// A reasoning strategy the decision tree can choose.
#[derive(Debug, Clone, Copy, PartialEq, Eq, Hash, Structural)]
pub enum ReasoningStrategy {
    /// Tableaux-based reasoning.
    Tableaux,
    /// Saturation-based reasoning (EL profiles).
    Saturation,
    /// Transformation-based reasoning (EL++).
    Transformation,
    /// A hybrid approach with fallback.
    Hybrid,
}

/// A condition of a decision rule.
#[derive(Debug)]
pub enum RuleCondition {
    /// The ontology needs exactly this expressiveness level.
    ExpressionLevel(ExpressivenessLevel),
    /// The ontology has exactly this complexity level.
    ComplexityLevel(ComplexityLevel),
    /// The number of classes is at least `min` and, when `max` is given,
    /// at most `max`.
    NumClasses { min: usize, max: Option<usize> },
    /// Whether the ontology has nominals is as given.
    HasNominals(bool),
    /// All conditions hold.
    And(Vec<RuleCondition>),
    /// At least one condition holds.
    Or(Vec<RuleCondition>),
}

/// Whether a condition holds of the features.
pub open spec fn condition_holds(c: RuleCondition, f: OntologyFeatures) -> bool
    decreases c,
{
    match c {
        RuleCondition::ExpressionLevel(l) => f.expressiveness_level == l,
        RuleCondition::ComplexityLevel(l) => f.estimated_complexity == l,
        RuleCondition::NumClasses { min, max } =>
            f.num_classes >= min && (max matches Some(m) ==> f.num_classes <= m),
        RuleCondition::HasNominals(e) => f.has_nominals == e,
        RuleCondition::And(cs) => all_hold(cs@, f),
        RuleCondition::Or(cs) => any_holds(cs@, f),
    }
}

/// Whether every condition of the list holds.
pub open spec fn all_hold(cs: Seq<RuleCondition>, f: OntologyFeatures) -> bool
    decreases cs,
{
    if cs.len() == 0 {
        true
    } else {
        all_hold(cs.drop_last(), f) && condition_holds(cs.last(), f)
    }
}

/// Whether some condition of the list holds.
pub open spec fn any_holds(cs: Seq<RuleCondition>, f: OntologyFeatures) -> bool
    decreases cs,
{
    if cs.len() == 0 {
        false
    } else {
        any_holds(cs.drop_last(), f) || condition_holds(cs.last(), f)
    }
}

/// `all_hold` is the conjunction over the list's members.
pub proof fn lemma_all_hold(cs: Seq<RuleCondition>, f: OntologyFeatures)
    ensures
        all_hold(cs, f) <==> forall|i: int| 0 <= i < cs.len() ==> #[trigger] condition_holds(cs[i], f),
    decreases cs.len(),
{
    if cs.len() > 0 {
        lemma_all_hold(cs.drop_last(), f);
        if !all_hold(cs, f) {
            if !condition_holds(cs.last(), f) {
                assert(!condition_holds(cs[cs.len() - 1], f));
            } else {
                let i = choose|i: int| 0 <= i < cs.drop_last().len() && !condition_holds(cs.drop_last()[i], f);
                assert(!condition_holds(cs[i], f));
            }
        } else {
            assert forall|i: int| 0 <= i < cs.len() implies #[trigger] condition_holds(cs[i], f) by {
                if i < cs.len() - 1 {
                    assert(cs.drop_last()[i] == cs[i]);
                }
            }
        }
    }
}

/// `any_holds` is the disjunction over the list's members.
pub proof fn lemma_any_holds(cs: Seq<RuleCondition>, f: OntologyFeatures)
    ensures
        any_holds(cs, f) <==> exists|i: int| 0 <= i < cs.len() && #[trigger] condition_holds(cs[i], f),
    decreases cs.len(),
{
    if cs.len() > 0 {
        lemma_any_holds(cs.drop_last(), f);
        if any_holds(cs, f) {
            if condition_holds(cs.last(), f) {
                assert(condition_holds(cs[cs.len() - 1], f));
            } else {
                let i = choose|i: int| 0 <= i < cs.drop_last().len() && condition_holds(cs.drop_last()[i], f);
                assert(condition_holds(cs[i], f));
            }
        } else {
            assert forall|i: int| 0 <= i < cs.len() implies !#[trigger] condition_holds(cs[i], f) by {
                if i < cs.len() - 1 {
                    assert(cs.drop_last()[i] == cs[i]);
                }
            }
        }
    }
}

/// Whether a condition holds of the features.
pub fn evaluate_condition(condition: &RuleCondition, features: &OntologyFeatures) -> (r: bool)
    ensures
        r == condition_holds(*condition, *features),
    decreases condition,
{
    match condition {
        RuleCondition::ExpressionLevel(level) => features.expressiveness_level == *level,
        RuleCondition::ComplexityLevel(level) => features.estimated_complexity == *level,
        RuleCondition::NumClasses { min, max } => {
            features.num_classes >= *min && match max {
                Some(m) => features.num_classes <= *m,
                None => true,
            }
        },
        RuleCondition::HasNominals(expected) => features.has_nominals == *expected,
        RuleCondition::And(conditions) => {
            let mut ok = true;
            let mut i: usize = 0;
            while i < conditions.len()
                invariant
                    i <= conditions@.len(),
                    ok == all_hold(conditions@.take(i as int), *features),
                    forall|k: int| 0 <= k < conditions@.len() ==> decreases_to!(*condition => #[trigger] conditions@[k]),
                decreases conditions@.len() - i,
            {
                proof {
                    assert(conditions@.take(i + 1).drop_last() =~= conditions@.take(i as int));
                }
                let h = evaluate_condition(&conditions[i], features);
                ok = ok && h;
                i += 1;
            }
            proof {
                assert(conditions@.take(i as int) =~= conditions@);
            }
            ok
        },
        RuleCondition::Or(conditions) => {
            let mut found = false;
            let mut i: usize = 0;
            while i < conditions.len()
                invariant
                    i <= conditions@.len(),
                    found == any_holds(conditions@.take(i as int), *features),
                    forall|k: int| 0 <= k < conditions@.len() ==> decreases_to!(*condition => #[trigger] conditions@[k]),
                decreases conditions@.len() - i,
            {
                proof {
                    assert(conditions@.take(i + 1).drop_last() =~= conditions@.take(i as int));
                }
                let h = evaluate_condition(&conditions[i], features);
                found = found || h;
                i += 1;
            }
            proof {
                assert(conditions@.take(i as int) =~= conditions@);
            }
            found
        },
    }
}

} // verus!
