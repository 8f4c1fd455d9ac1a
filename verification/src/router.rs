//! Choosing a reasoner: by the ontology's OWL 2 profile when one is known,
//! else by its structure.

use vstd::prelude::*;
use crate::class_expression::ClassExpression;
use crate::ontology::Ontology;
use crate::profiles::Owl2Profile;
use crate::analysis::{cap, disjunctions, union_total, count_union_axioms, count_disjunctions,
    hierarchical_fits, can_handle_hierarchically};

verus! {

/// Fewest classes for the speculative reasoner.
pub const SPACL_MIN_CLASSES: usize = 100;

/// What a routing decision rests on.
#[derive(Debug, Clone, Copy, PartialEq, Eq, Structural)]
pub enum RoutingSource {
    Profile,
    Structure,
}

/// The reasoner chosen for consistency checking.
#[derive(Debug, Clone, Copy, PartialEq, Eq, Structural)]
pub enum ConsistencyReasoner {
    Simple,
    Speculative,
}

impl ConsistencyReasoner {
    /// The reasoner's name.
    pub fn as_str(self) -> (r: &'static str)
        ensures
            self == ConsistencyReasoner::Simple ==> r@ == "SimpleReasoner"@,
            self == ConsistencyReasoner::Speculative ==> r@ == "SpeculativeTableauxReasoner"@,
    {
        match self {
            ConsistencyReasoner::Simple => "SimpleReasoner",
            ConsistencyReasoner::Speculative => "SpeculativeTableauxReasoner",
        }
    }
}

/// The reasoner chosen for classification.
#[derive(Debug, Clone, Copy, PartialEq, Eq, Structural)]
pub enum ClassificationReasoner {
    Hierarchical,
    Simple,
    Speculative,
}

impl ClassificationReasoner {
    /// The reasoner's name.
    pub fn as_str(self) -> (r: &'static str)
        ensures
            self == ClassificationReasoner::Hierarchical ==> r@ == "HierarchicalClassificationEngine"@,
            self == ClassificationReasoner::Simple ==> r@ == "SimpleReasoner"@,
            self == ClassificationReasoner::Speculative ==> r@ == "SpeculativeTableauxReasoner"@,
    {
        match self {
            ClassificationReasoner::Hierarchical => "HierarchicalClassificationEngine",
            ClassificationReasoner::Simple => "SimpleReasoner",
            ClassificationReasoner::Speculative => "SpeculativeTableauxReasoner",
        }
    }
}

/// The routing decision for consistency checking.
#[derive(Debug)]
pub struct ConsistencyRoutingDecision {
    pub profile: Option<Owl2Profile>,
    pub reasoner: ConsistencyReasoner,
    pub source: RoutingSource,
    pub rationale: &'static str,
}

/// The routing decision for classification.
#[derive(Debug)]
pub struct ClassificationRoutingDecision {
    pub profile: Option<Owl2Profile>,
    pub reasoner: ClassificationReasoner,
    pub source: RoutingSource,
    pub rationale: &'static str,
}

/// Whether the speculative reasoner pays: the ontology has axioms, at least
/// `SPACL_MIN_CLASSES` classes, and at least one union per hundred axioms
/// (in the superclasses of subclass axioms).
pub open spec fn speculative_fits(o: Ontology) -> bool {
    let axioms = o.axioms_spec().len();
    &&& axioms > 0
    &&& o.classes_spec().len() >= SPACL_MIN_CLASSES
    &&& 100 * union_total(o.axioms_spec()) >= axioms
}

/// Whether the speculative reasoner pays (see `speculative_fits`).
pub fn should_use_speculative(ontology: &Ontology) -> (r: bool)
    ensures
        r == speculative_fits(*ontology),
{
    let axiom_count = ontology.axioms().len();
    if axiom_count == 0 {
        return false;
    }
    let union_count = count_union_axioms(ontology);
    proof {
        if union_total(ontology.axioms_spec()) > usize::MAX {
            assert(100 * union_total(ontology.axioms_spec()) >= axiom_count);
        }
    }
    ontology.classes().len() >= SPACL_MIN_CLASSES && (union_count as u128) * 100 >= axiom_count as u128
}

/// The number of unions in `expr` (capped at `usize::MAX`).
pub fn count_unions_in_expression(expr: &ClassExpression) -> (r: usize)
    ensures
        r == cap(disjunctions(expr@)),
{
    count_disjunctions(expr)
}

/// Chooses the consistency reasoner: the simple one for an ontology in the
/// EL, QL or RL profile; otherwise the speculative one where it pays
/// (see `speculative_fits`), else the simple one.
pub fn select_consistency_reasoner(ontology: &Ontology, profile: Option<Owl2Profile>) -> (r: ConsistencyRoutingDecision)
    ensures
        (profile matches Some(p) && p != Owl2Profile::Full) ==> r.profile == profile
            && r.reasoner == ConsistencyReasoner::Simple && r.source == RoutingSource::Profile
            && r.rationale@ == "OWL2 profile permits fast deterministic path"@,
        !(profile matches Some(p) && p != Owl2Profile::Full) ==> r.profile == profile && r.source == RoutingSource::Structure
            && (speculative_fits(*ontology) ==> r.reasoner == ConsistencyReasoner::Speculative
                && r.rationale@ == "Disjunction-heavy ontology benefits from speculative branch parallelism"@)
            && (!speculative_fits(*ontology) ==> r.reasoner == ConsistencyReasoner::Simple
                && r.rationale@ == "Low branching complexity favors cache-friendly simple reasoning"@),
{
    match profile {
        Some(Owl2Profile::EL) | Some(Owl2Profile::QL) | Some(Owl2Profile::RL) => {
            return ConsistencyRoutingDecision {
                profile,
                reasoner: ConsistencyReasoner::Simple,
                source: RoutingSource::Profile,
                rationale: "OWL2 profile permits fast deterministic path",
            };
        },
        _ => {},
    }
    if should_use_speculative(ontology) {
        return ConsistencyRoutingDecision {
            profile,
            reasoner: ConsistencyReasoner::Speculative,
            source: RoutingSource::Structure,
            rationale: "Disjunction-heavy ontology benefits from speculative branch parallelism",
        };
    }
    ConsistencyRoutingDecision {
        profile,
        reasoner: ConsistencyReasoner::Simple,
        source: RoutingSource::Structure,
        rationale: "Low branching complexity favors cache-friendly simple reasoning",
    }
}

/// Chooses the classification reasoner: the hierarchical engine for an EL
/// ontology it can handle, the simple one for QL and RL; otherwise, by
/// structure, the hierarchical engine where it can handle the ontology
/// (see `hierarchical_fits`), the speculative one where it pays, else the
/// simple one.
pub fn select_classification_reasoner(ontology: &Ontology, profile: Option<Owl2Profile>) -> (r: ClassificationRoutingDecision)
    ensures
        r.profile == profile,
        (profile == Some(Owl2Profile::EL) && hierarchical_fits(*ontology)) ==> r.reasoner == ClassificationReasoner::Hierarchical
            && r.source == RoutingSource::Profile
            && r.rationale@ == "OWL2 EL hierarchy can be classified with linear-style indexing"@,
        (profile == Some(Owl2Profile::QL) || profile == Some(Owl2Profile::RL)) ==> r.reasoner == ClassificationReasoner::Simple
            && r.source == RoutingSource::Profile
            && r.rationale@ == "OWL2 QL/RL profile mapped to conservative cached classifier"@,
        (profile is None || profile == Some(Owl2Profile::Full) || (profile == Some(Owl2Profile::EL) && !hierarchical_fits(*ontology)))
            ==> r.source == RoutingSource::Structure
            && (hierarchical_fits(*ontology) ==> r.reasoner == ClassificationReasoner::Hierarchical
                && r.rationale@ == "Taxonomic structure is suitable for hierarchical fast path"@)
            && (!hierarchical_fits(*ontology) && speculative_fits(*ontology) ==> r.reasoner == ClassificationReasoner::Speculative
                && r.rationale@ == "Disjunction-heavy structure favors speculative parallel exploration"@)
            && (!hierarchical_fits(*ontology) && !speculative_fits(*ontology) ==> r.reasoner == ClassificationReasoner::Simple
                && r.rationale@ == "Defaulting to stable cached classification path"@),
{
    let can_use_hierarchy = can_handle_hierarchically(ontology);
    match profile {
        Some(Owl2Profile::EL) => {
            if can_use_hierarchy {
                return ClassificationRoutingDecision {
                    profile,
                    reasoner: ClassificationReasoner::Hierarchical,
                    source: RoutingSource::Profile,
                    rationale: "OWL2 EL hierarchy can be classified with linear-style indexing",
                };
            }
        },
        Some(Owl2Profile::QL) | Some(Owl2Profile::RL) => {
            return ClassificationRoutingDecision {
                profile,
                reasoner: ClassificationReasoner::Simple,
                source: RoutingSource::Profile,
                rationale: "OWL2 QL/RL profile mapped to conservative cached classifier",
            };
        },
        _ => {},
    }
    if can_use_hierarchy {
        return ClassificationRoutingDecision {
            profile,
            reasoner: ClassificationReasoner::Hierarchical,
            source: RoutingSource::Structure,
            rationale: "Taxonomic structure is suitable for hierarchical fast path",
        };
    }
    if should_use_speculative(ontology) {
        return ClassificationRoutingDecision {
            profile,
            reasoner: ClassificationReasoner::Speculative,
            source: RoutingSource::Structure,
            rationale: "Disjunction-heavy structure favors speculative parallel exploration",
        };
    }
    ClassificationRoutingDecision {
        profile,
        reasoner: ClassificationReasoner::Simple,
        source: RoutingSource::Structure,
        rationale: "Defaulting to stable cached classification path",
    }
}

} // verus!
