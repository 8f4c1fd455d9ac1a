//! The vocabulary shared by the reasoners: what they offer, what a run
//! reports, and the features of an ontology that strategy selection reads.

use vstd::prelude::*;
use crate::error::OwlResult;
use crate::iri::IRI;

verus! {

/// What an OWL reasoner answers.
pub trait OwlReasoner {
    /// Whether the ontology is consistent.
    fn is_consistent(&self) -> OwlResult<bool>;

    /// Whether a class is satisfiable.
    fn is_satisfiable(&self, class_iri: &IRI) -> OwlResult<bool>;

    /// Whether one class is a subclass of another.
    fn is_subclass_of(&self, sub: &IRI, sup: &IRI) -> OwlResult<bool>;

    /// Classifies the ontology.
    fn classify(&mut self) -> OwlResult<()>;
}

/// A reasoner run as a whole.
pub trait Reasoner {
    /// Prepares the reasoner.
    fn initialize(&mut self) -> OwlResult<()>;

    /// Reasons and reports the outcome.
    fn reason(&mut self) -> OwlResult<ReasoningResult>;

    /// The statistics gathered so far.
    fn get_stats(&self) -> ReasoningStats;
}

/// The outcome of a reasoning run.
#[derive(Debug, Clone, Default)]
pub struct ReasoningResult {
    pub is_consistent: bool,
    pub has_clash: bool,
    pub reasoning_time_ms: u64,
    pub nodes_expanded: usize,
    pub rules_applied: usize,
}

/// Statistics about reasoning.
#[derive(Debug, Clone, Default)]
pub struct ReasoningStats {
    pub total_nodes: usize,
    pub total_edges: usize,
    pub total_rules: usize,
    pub memory_usage_bytes: usize,
    pub cache_hits: usize,
    pub cache_misses: usize,
}

/// The description logic an ontology needs, from the least to the most
/// expressive.
#[derive(Debug, Clone, Copy, PartialEq, Eq, Hash, Structural)]
pub enum ExpressivenessLevel {
    EL,
    DLLite,
    ALC,
    ALCQ,
    ALCQI,
    SHIQ,
    SROIQ,
}

/// The position of a level in the order from `EL` to `SROIQ`.
pub open spec fn level_rank(l: ExpressivenessLevel) -> u8 {
    match l {
        ExpressivenessLevel::EL => 0,
        ExpressivenessLevel::DLLite => 1,
        ExpressivenessLevel::ALC => 2,
        ExpressivenessLevel::ALCQ => 3,
        ExpressivenessLevel::ALCQI => 4,
        ExpressivenessLevel::SHIQ => 5,
        ExpressivenessLevel::SROIQ => 6,
    }
}

impl ExpressivenessLevel {
    /// The position of the level, `EL` first.
    pub fn rank(&self) -> (r: u8)
        ensures
            r == level_rank(*self),
    {
        match self {
            ExpressivenessLevel::EL => 0,
            ExpressivenessLevel::DLLite => 1,
            ExpressivenessLevel::ALC => 2,
            ExpressivenessLevel::ALCQ => 3,
            ExpressivenessLevel::ALCQI => 4,
            ExpressivenessLevel::SHIQ => 5,
            ExpressivenessLevel::SROIQ => 6,
        }
    }
}

/// Distinct levels have distinct ranks: the rank orders the levels.
pub proof fn lemma_rank_injective(a: ExpressivenessLevel, b: ExpressivenessLevel)
    ensures
        level_rank(a) == level_rank(b) <==> a == b,
{
}

/// How hard reasoning is expected to be.
#[derive(Debug, Clone, Copy, PartialEq, Eq, Hash, Structural)]
pub enum ComplexityLevel {
    Low,
    Medium,
    High,
    VeryHigh,
}

/// A kind of reasoning task.
#[derive(Debug, Clone, Copy, PartialEq, Eq, Hash, Structural)]
pub enum ReasoningTask {
    ConsistencyCheck,
    Classification,
    SatisfiabilityCheck,
    InstanceRetrieval,
    QueryAnswering,
}

/// The features of an ontology that strategy selection reads.
#[derive(Debug, Clone)]
pub struct OntologyFeatures {
    pub num_classes: usize,
    pub num_properties: usize,
    pub num_individuals: usize,
    pub expressiveness_level: ExpressivenessLevel,
    pub has_nominals: bool,
    pub has_cardinality_restrictions: bool,
    pub estimated_complexity: ComplexityLevel,
}

impl OntologyFeatures {
    /// Features with the given counts, taken as `ALC` of medium complexity,
    /// without nominals or cardinality restrictions.
    pub fn new(num_classes: usize, num_properties: usize, num_individuals: usize) -> (r: Self)
        ensures
            r.num_classes == num_classes,
            r.num_properties == num_properties,
            r.num_individuals == num_individuals,
            r.expressiveness_level == ExpressivenessLevel::ALC,
            !r.has_nominals,
            !r.has_cardinality_restrictions,
            r.estimated_complexity == ComplexityLevel::Medium,
    {
        OntologyFeatures {
            num_classes,
            num_properties,
            num_individuals,
            expressiveness_level: ExpressivenessLevel::ALC,
            has_nominals: false,
            has_cardinality_restrictions: false,
            estimated_complexity: ComplexityLevel::Medium,
        }
    }
}

/// Statistics of a hierarchical classification run.
#[derive(Debug, Clone)]
pub struct HierarchicalStats {
    pub classes_processed: usize,
    pub direct_relationships: usize,
    pub transitive_relationships: usize,
    pub levels_computed: usize,
    pub time_ms: u64,
}

} // verus!
