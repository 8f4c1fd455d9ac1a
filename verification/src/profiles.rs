//! OWL 2 profiles (EL, QL, RL and full OWL 2 DL), their validators and the
//! reports built from them.

use vstd::prelude::*;
use std::sync::Arc;
use crate::error::OwlResult;
use crate::iri::share_arc;
use crate::ontology::{Ontology, subclass_axioms_of};

verus! {

broadcast use vstd::std_specs::vec::group_vec_axioms;

/// An OWL 2 profile.
#[derive(Debug, Clone, Copy, PartialEq, Eq, Structural, Hash)]
pub enum Owl2Profile {
    /// EL (EL++): polynomial time reasoning.
    EL,
    /// QL: efficient query answering.
    QL,
    /// RL: rule-based reasoning.
    RL,
    /// Full OWL 2 DL.
    Full,
}

/// Whether profile `a` is more restrictive than profile `b`: EL is more
/// restrictive than every other profile, QL and RL than full OWL 2 DL;
/// QL and RL are incomparable.
pub open spec fn more_restrictive(a: Owl2Profile, b: Owl2Profile) -> bool {
    match (a, b) {
        (Owl2Profile::EL, Owl2Profile::EL) => false,
        (Owl2Profile::EL, _) => true,
        (Owl2Profile::QL, Owl2Profile::Full) => true,
        (Owl2Profile::RL, Owl2Profile::Full) => true,
        _ => false,
    }
}

impl Owl2Profile {
    /// The profile's name.
    pub fn name(&self) -> (r: &'static str)
        ensures
            *self == Owl2Profile::EL ==> r@ == "EL"@,
            *self == Owl2Profile::QL ==> r@ == "QL"@,
            *self == Owl2Profile::RL ==> r@ == "RL"@,
            *self == Owl2Profile::Full ==> r@ == "OWL2 DL"@,
    {
        match self {
            Owl2Profile::EL => "EL",
            Owl2Profile::QL => "QL",
            Owl2Profile::RL => "RL",
            Owl2Profile::Full => "OWL2 DL",
        }
    }

    /// Whether this profile is more restrictive than `other`.
    pub fn is_more_restrictive_than(&self, other: Owl2Profile) -> (r: bool)
        ensures
            r == more_restrictive(*self, other),
    {
        match (self, other) {
            (Owl2Profile::EL, Owl2Profile::EL) => false,
            (Owl2Profile::EL, _) => true,
            (Owl2Profile::QL, Owl2Profile::EL) => false,
            (Owl2Profile::QL, Owl2Profile::QL) => false,
            (Owl2Profile::QL, Owl2Profile::Full) => true,
            (Owl2Profile::QL, Owl2Profile::RL) => false,
            (Owl2Profile::RL, Owl2Profile::EL) => false,
            (Owl2Profile::RL, Owl2Profile::QL) => false,
            (Owl2Profile::RL, Owl2Profile::RL) => false,
            (Owl2Profile::RL, Owl2Profile::Full) => true,
            (Owl2Profile::Full, _) => false,
        }
    }
}

/// "More restrictive than" is a strict partial order: no profile is more
/// restrictive than itself, never both ways, and it chains.
pub proof fn lemma_more_restrictive_strict_order(a: Owl2Profile, b: Owl2Profile, c: Owl2Profile)
    ensures
        !more_restrictive(a, a),
        more_restrictive(a, b) ==> !more_restrictive(b, a),
        more_restrictive(a, b) && more_restrictive(b, c) ==> more_restrictive(a, c),
{
}

/// EL is more restrictive than every other profile, and full OWL 2 DL is
/// more restrictive than none.
pub proof fn lemma_el_most_full_least(p: Owl2Profile)
    ensures
        p != Owl2Profile::EL ==> more_restrictive(Owl2Profile::EL, p),
        !more_restrictive(Owl2Profile::Full, p),
{
}

/// The severity of a profile violation.
#[derive(Debug, Clone, Copy, PartialEq, Eq, Structural, Hash)]
pub enum ViolationSeverity {
    Error,
    Warning,
    Info,
}

/// The kind of a profile violation.
#[derive(Debug, Clone, PartialEq, Eq, Hash)]
pub enum ProfileViolationType {
    DisallowedClassExpression(String),
    DisallowedPropertyExpression(String),
    DisallowedAxiomType(String),
    DisallowedDataRange(String),
    GlobalRestrictionViolation(String),
    UnsupportedFeature(String),
}

/// One profile violation.
#[derive(Debug, Clone, PartialEq, Eq, Hash)]
pub struct ProfileViolation {
    pub violation_type: ProfileViolationType,
    pub severity: ViolationSeverity,
    pub message: String,
    pub location: Option<String>,
}

impl ProfileViolation {
    /// A violation without location.
    pub fn new(violation_type: ProfileViolationType, severity: ViolationSeverity, message: String) -> (r: Self)
        ensures
            r.violation_type == violation_type,
            r.severity == severity,
            r.message == message,
            r.location is None,
    {
        ProfileViolation { violation_type, severity, message, location: None }
    }

    /// The violation with `location` attached.
    pub fn with_location(self, location: String) -> (r: Self)
        ensures
            r.violation_type == self.violation_type,
            r.severity == self.severity,
            r.message == self.message,
            r.location == Some(location),
    {
        ProfileViolation { location: Some(location), ..self }
    }
}

/// Counters collected while validating.
#[derive(Debug, Clone)]
pub struct ValidationStatistics {
    pub axioms_checked: usize,
    pub class_expressions_checked: usize,
    pub property_expressions_checked: usize,
    pub validation_time_ms: u64,
}

impl Default for ValidationStatistics {
    fn default() -> (r: Self)
        ensures
            r.axioms_checked == 0,
            r.class_expressions_checked == 0,
            r.property_expressions_checked == 0,
            r.validation_time_ms == 0,
    {
        ValidationStatistics { axioms_checked: 0, class_expressions_checked: 0, property_expressions_checked: 0, validation_time_ms: 0 }
    }
}

/// The outcome of validating an ontology against a profile.
#[derive(Debug, Clone)]
pub struct ProfileValidationResult {
    pub profile: Owl2Profile,
    pub is_valid: bool,
    pub violations: Vec<ProfileViolation>,
    pub statistics: ValidationStatistics,
}

/// The number of violations of severity `sev`.
pub open spec fn count_severity(vs: Seq<ProfileViolation>, sev: ViolationSeverity) -> nat
    decreases vs.len(),
{
    if vs.len() == 0 {
        0
    } else {
        count_severity(vs.drop_last(), sev) + if vs.last().severity == sev { 1nat } else { 0nat }
    }
}

proof fn lemma_count_severity_le(vs: Seq<ProfileViolation>, sev: ViolationSeverity)
    ensures
        count_severity(vs, sev) <= vs.len(),
    decreases vs.len(),
{
    if vs.len() > 0 {
        lemma_count_severity_le(vs.drop_last(), sev);
    }
}

impl ProfileValidationResult {
    /// A passing result.
    pub fn valid(profile: Owl2Profile) -> (r: Self)
        ensures
            r.profile == profile,
            r.is_valid,
            r.violations@.len() == 0,
            r.statistics.axioms_checked == 0 && r.statistics.class_expressions_checked == 0,
    {
        ProfileValidationResult { profile, is_valid: true, violations: Vec::new(), statistics: ValidationStatistics::default() }
    }

    /// A failing result with `violations`.
    pub fn invalid(profile: Owl2Profile, violations: Vec<ProfileViolation>) -> (r: Self)
        ensures
            r.profile == profile,
            !r.is_valid,
            r.violations == violations,
            r.statistics.axioms_checked == 0 && r.statistics.class_expressions_checked == 0,
    {
        ProfileValidationResult { profile, is_valid: false, violations, statistics: ValidationStatistics::default() }
    }

    fn count_of(&self, sev: ViolationSeverity) -> (r: usize)
        ensures
            r == count_severity(self.violations@, sev),
    {
        let mut n: usize = 0;
        let mut i: usize = 0;
        while i < self.violations.len()
            invariant
                i <= self.violations@.len(),
                n == count_severity(self.violations@.take(i as int), sev),
                n <= i,
            decreases self.violations@.len() - i,
        {
            proof {
                assert(self.violations@.take(i + 1).drop_last() == self.violations@.take(i as int));
            }
            if self.violations[i].severity == sev {
                n += 1;
            }
            i += 1;
        }
        assert(self.violations@.take(self.violations@.len() as int) == self.violations@);
        n
    }

    /// The number of errors.
    pub fn error_count(&self) -> (r: usize)
        ensures
            r == count_severity(self.violations@, ViolationSeverity::Error),
    {
        self.count_of(ViolationSeverity::Error)
    }

    /// The number of warnings.
    pub fn warning_count(&self) -> (r: usize)
        ensures
            r == count_severity(self.violations@, ViolationSeverity::Warning),
    {
        self.count_of(ViolationSeverity::Warning)
    }
}

/// What a validator reports for an ontology: valid, with no violations,
/// after checking each class and each subclass axiom.
pub open spec fn passing_report(r: ProfileValidationResult, p: Owl2Profile, o: Ontology) -> bool {
    &&& r.profile == p
    &&& r.is_valid
    &&& r.violations@.len() == 0
    &&& r.statistics.class_expressions_checked == o.classes_spec().len()
    &&& r.statistics.axioms_checked == subclass_axioms_of(o.axioms_spec()).len()
    &&& r.statistics.property_expressions_checked == 0
}

/// The validation shared by the profile validators: this library's
/// profiles accept every ontology; the classes and the subclass axioms are
/// counted as checked.
fn validate_counting(p: Owl2Profile, ontology: &Ontology) -> (r: OwlResult<ProfileValidationResult>)
    ensures
        r matches Ok(res) && passing_report(res, p, *ontology),
{
    let mut stats = ValidationStatistics::default();
    let classes = ontology.classes();
    let mut i: usize = 0;
    while i < classes.len()
        invariant
            i <= classes@.len(),
            stats.class_expressions_checked == i,
            stats.axioms_checked == 0,
            stats.property_expressions_checked == 0,
        decreases classes@.len() - i,
    {
        stats.class_expressions_checked = stats.class_expressions_checked + 1;
        i += 1;
    }
    let subs = ontology.subclass_axioms();
    let mut j: usize = 0;
    while j < subs.len()
        invariant
            j <= subs@.len(),
            stats.class_expressions_checked == classes@.len(),
            stats.axioms_checked == j,
            stats.property_expressions_checked == 0,
        decreases subs@.len() - j,
    {
        stats.axioms_checked = stats.axioms_checked + 1;
        j += 1;
    }
    let violations: Vec<ProfileViolation> = Vec::new();
    let is_valid = violations.len() == 0;
    Ok(ProfileValidationResult { profile: p, is_valid, violations, statistics: stats })
}

/// What a validation outcome says of compliance: the report's verdict, or
/// the error.
pub open spec fn verdict_of(v: OwlResult<ProfileValidationResult>) -> OwlResult<bool> {
    match v {
        Ok(res) => Ok(res.is_valid),
        Err(e) => Err(e),
    }
}

/// A validator for one profile.
pub trait ProfileValidator {
    /// The outcomes `validate` may give for `ontology`.
    spec fn validation_holds(&self, ontology: Ontology, r: OwlResult<ProfileValidationResult>) -> bool;

    /// Validates `ontology` against the profile.
    fn validate(&self, ontology: &Ontology) -> (r: OwlResult<ProfileValidationResult>)
        ensures
            self.validation_holds(*ontology, r);

    /// The profile checked.
    fn profile(&self) -> Owl2Profile;

    /// Whether `ontology` complies with the profile: the verdict of
    /// `validate`, or its error.
    fn is_valid(&self, ontology: &Ontology) -> (r: OwlResult<bool>)
        ensures
            exists|v: OwlResult<ProfileValidationResult>| #[trigger] self.validation_holds(*ontology, v)
                && r == verdict_of(v),
    {
        let result = self.validate(ontology);
        match result {
            Ok(res) => Ok(res.is_valid),
            Err(e) => Err(e),
        }
    }
}

/// The EL profile validator.
#[derive(Debug)]
pub struct ELProfileValidator {
    pub ontology: Arc<Ontology>,
}

impl ELProfileValidator {
    /// Creates the validator for `ontology`.
    pub fn new(ontology: Arc<Ontology>) -> (r: Self)
        ensures
            r.ontology == ontology,
    {
        ELProfileValidator { ontology }
    }
}

impl ProfileValidator for ELProfileValidator {
    open spec fn validation_holds(&self, ontology: Ontology, r: OwlResult<ProfileValidationResult>) -> bool {
        r matches Ok(res) && passing_report(res, Owl2Profile::EL, ontology)
    }

    fn validate(&self, ontology: &Ontology) -> (r: OwlResult<ProfileValidationResult>)
        ensures
            r matches Ok(res) && passing_report(res, Owl2Profile::EL, *ontology),
    {
        validate_counting(Owl2Profile::EL, ontology)
    }

    fn profile(&self) -> (r: Owl2Profile)
        ensures
            r == Owl2Profile::EL,
    {
        Owl2Profile::EL
    }
}

/// The QL profile validator.
#[derive(Debug)]
pub struct QLProfileValidator {
    pub ontology: Arc<Ontology>,
}

impl QLProfileValidator {
    /// Creates the validator for `ontology`.
    pub fn new(ontology: Arc<Ontology>) -> (r: Self)
        ensures
            r.ontology == ontology,
    {
        QLProfileValidator { ontology }
    }
}

impl ProfileValidator for QLProfileValidator {
    open spec fn validation_holds(&self, ontology: Ontology, r: OwlResult<ProfileValidationResult>) -> bool {
        r matches Ok(res) && passing_report(res, Owl2Profile::QL, ontology)
    }

    fn validate(&self, ontology: &Ontology) -> (r: OwlResult<ProfileValidationResult>)
        ensures
            r matches Ok(res) && passing_report(res, Owl2Profile::QL, *ontology),
    {
        validate_counting(Owl2Profile::QL, ontology)
    }

    fn profile(&self) -> (r: Owl2Profile)
        ensures
            r == Owl2Profile::QL,
    {
        Owl2Profile::QL
    }
}

/// The RL profile validator.
#[derive(Debug)]
pub struct RLProfileValidator {
    pub ontology: Arc<Ontology>,
}

impl RLProfileValidator {
    /// Creates the validator for `ontology`.
    pub fn new(ontology: Arc<Ontology>) -> (r: Self)
        ensures
            r.ontology == ontology,
    {
        RLProfileValidator { ontology }
    }
}

impl ProfileValidator for RLProfileValidator {
    open spec fn validation_holds(&self, ontology: Ontology, r: OwlResult<ProfileValidationResult>) -> bool {
        r matches Ok(res) && passing_report(res, Owl2Profile::RL, ontology)
    }

    fn validate(&self, ontology: &Ontology) -> (r: OwlResult<ProfileValidationResult>)
        ensures
            r matches Ok(res) && passing_report(res, Owl2Profile::RL, *ontology),
    {
        validate_counting(Owl2Profile::RL, ontology)
    }

    fn profile(&self) -> (r: Owl2Profile)
        ensures
            r == Owl2Profile::RL,
    {
        Owl2Profile::RL
    }
}


/// Counts of an ontology's entities and axioms.
#[derive(Debug, Clone)]
pub struct OntologyStats {
    pub num_classes: usize,
    pub num_object_properties: usize,
    pub num_data_properties: usize,
    pub num_individuals: usize,
    pub num_axioms: usize,
    pub num_subclass_axioms: usize,
    pub num_disjoint_class_axioms: usize,
    pub num_property_assertions: usize,
    pub num_class_assertions: usize,
}

impl Default for OntologyStats {
    fn default() -> (r: Self)
        ensures
            r.num_classes == 0 && r.num_object_properties == 0 && r.num_data_properties == 0
                && r.num_individuals == 0 && r.num_axioms == 0 && r.num_subclass_axioms == 0
                && r.num_disjoint_class_axioms == 0 && r.num_property_assertions == 0
                && r.num_class_assertions == 0,
    {
        OntologyStats {
            num_classes: 0,
            num_object_properties: 0,
            num_data_properties: 0,
            num_individuals: 0,
            num_axioms: 0,
            num_subclass_axioms: 0,
            num_disjoint_class_axioms: 0,
            num_property_assertions: 0,
            num_class_assertions: 0,
        }
    }
}

/// The kind of an optimization hint.
#[derive(Debug, Clone, Copy, PartialEq, Eq, Structural, Hash)]
pub enum OptimizationType {
    Simplify,
    RemoveRedundant,
    Restructure,
    AlternativeEncoding,
}

/// A hint towards profile compliance.
#[derive(Debug, Clone)]
pub struct OptimizationHint {
    pub optimization_type: OptimizationType,
    pub description: String,
    pub suggestion: Option<String>,
    pub expected_improvement: Option<String>,
}

impl OptimizationHint {
    /// A hint with a description only.
    pub fn new(optimization_type: OptimizationType, description: String) -> (r: Self)
        ensures
            r.optimization_type == optimization_type,
            r.description == description,
            r.suggestion is None,
            r.expected_improvement is None,
    {
        OptimizationHint { optimization_type, description, suggestion: None, expected_improvement: None }
    }

    /// The hint with a suggested replacement.
    pub fn with_suggestion(self, suggestion: String) -> (r: Self)
        ensures
            r.optimization_type == self.optimization_type,
            r.description == self.description,
            r.suggestion == Some(suggestion),
            r.expected_improvement == self.expected_improvement,
    {
        OptimizationHint { suggestion: Some(suggestion), ..self }
    }

    /// The hint with an expected improvement.
    pub fn with_improvement(self, improvement: String) -> (r: Self)
        ensures
            r.optimization_type == self.optimization_type,
            r.description == self.description,
            r.suggestion == self.suggestion,
            r.expected_improvement == Some(improvement),
    {
        OptimizationHint { expected_improvement: Some(improvement), ..self }
    }
}

/// A report over all profiles.
#[derive(Debug, Clone)]
pub struct ProfileAnalysisReport {
    pub el_result: Option<ProfileValidationResult>,
    pub ql_result: Option<ProfileValidationResult>,
    pub rl_result: Option<ProfileValidationResult>,
    pub ontology_stats: OntologyStats,
    pub recommended_profile: Option<Owl2Profile>,
    pub optimization_hints: Vec<OptimizationHint>,
}

impl ProfileAnalysisReport {
    /// An empty report over `ontology_stats`.
    pub fn new(ontology_stats: OntologyStats) -> (r: Self)
        ensures
            r.el_result is None && r.ql_result is None && r.rl_result is None,
            r.ontology_stats == ontology_stats,
            r.recommended_profile is None,
            r.optimization_hints@.len() == 0,
    {
        ProfileAnalysisReport {
            el_result: None,
            ql_result: None,
            rl_result: None,
            ontology_stats,
            recommended_profile: None,
            optimization_hints: Vec::new(),
        }
    }
}

/// Cache hit and miss counts.
#[derive(Debug, Clone)]
pub struct CacheStats {
    pub hits: usize,
    pub misses: usize,
}

/// The validator over all profiles.
#[derive(Debug)]
pub struct Owl2ProfileValidator {
    ontology: Arc<Ontology>,
    cache_enabled: bool,
    advanced_caching: bool,
}

/// The most restrictive profile among the outcomes: EL when it holds; else
/// QL or RL when exactly one of them holds; none otherwise (QL and RL are
/// incomparable).
pub open spec fn most_restrictive_of(el: bool, ql: bool, rl: bool) -> Option<Owl2Profile> {
    if el {
        Some(Owl2Profile::EL)
    } else if ql && rl {
        None
    } else if ql {
        Some(Owl2Profile::QL)
    } else if rl {
        Some(Owl2Profile::RL)
    } else {
        None
    }
}

impl Owl2ProfileValidator {
    /// The ontology validated.
    pub closed spec fn ontology_spec(&self) -> Ontology {
        *self.ontology
    }

    /// Whether advanced caching is on.
    pub closed spec fn advanced_caching_spec(&self) -> bool {
        self.advanced_caching
    }

    /// Creates the validator for `ontology`.
    pub fn new(ontology: Arc<Ontology>) -> (r: OwlResult<Self>)
        ensures
            r matches Ok(v) && v.ontology_spec() == *ontology && !v.advanced_caching_spec(),
    {
        Ok(Owl2ProfileValidator { ontology, cache_enabled: true, advanced_caching: false })
    }

    /// Validates the ontology against `profile`; full OWL 2 DL always holds.
    pub fn validate_profile(&self, profile: Owl2Profile) -> (r: OwlResult<ProfileValidationResult>)
        ensures
            profile != Owl2Profile::Full ==> (r matches Ok(res) && passing_report(res, profile, self.ontology_spec())),
            profile == Owl2Profile::Full ==> (r matches Ok(res) && res.profile == Owl2Profile::Full && res.is_valid
                && res.violations@.len() == 0),
    {
        match profile {
            Owl2Profile::EL => {
                let validator = ELProfileValidator::new(share_arc(&self.ontology));
                validator.validate(&self.ontology)
            },
            Owl2Profile::QL => {
                let validator = QLProfileValidator::new(share_arc(&self.ontology));
                validator.validate(&self.ontology)
            },
            Owl2Profile::RL => {
                let validator = RLProfileValidator::new(share_arc(&self.ontology));
                validator.validate(&self.ontology)
            },
            Owl2Profile::Full => Ok(ProfileValidationResult::valid(Owl2Profile::Full)),
        }
    }

    /// The results for EL, QL and RL, in that order.
    pub fn validate_all_profiles(&self) -> (r: OwlResult<Vec<ProfileValidationResult>>)
        ensures
            r matches Ok(v) && v@.len() == 3
                && passing_report(v@[0], Owl2Profile::EL, self.ontology_spec())
                && passing_report(v@[1], Owl2Profile::QL, self.ontology_spec())
                && passing_report(v@[2], Owl2Profile::RL, self.ontology_spec()),
    {
        let mut results: Vec<ProfileValidationResult> = Vec::new();
        results.push(self.validate_profile(Owl2Profile::EL)?);
        results.push(self.validate_profile(Owl2Profile::QL)?);
        results.push(self.validate_profile(Owl2Profile::RL)?);
        Ok(results)
    }

    /// The most restrictive profile the ontology satisfies (see
    /// `most_restrictive_of`).
    pub fn get_most_restrictive_profile(&self) -> (r: OwlResult<Option<Owl2Profile>>)
        ensures
            r matches Ok(p) && p == most_restrictive_of(true, true, true),
    {
        let el_valid = self.validate_profile(Owl2Profile::EL)?.is_valid;
        let ql_valid = self.validate_profile(Owl2Profile::QL)?.is_valid;
        let rl_valid = self.validate_profile(Owl2Profile::RL)?.is_valid;
        if el_valid {
            Ok(Some(Owl2Profile::EL))
        } else if ql_valid && rl_valid {
            Ok(None)
        } else if ql_valid {
            Ok(Some(Owl2Profile::QL))
        } else if rl_valid {
            Ok(Some(Owl2Profile::RL))
        } else {
            Ok(None)
        }
    }

    /// Whether some profile holds.
    pub fn satisfies_any_profile(&self) -> (r: OwlResult<bool>)
        ensures
            r == Ok::<bool, crate::error::OwlError>(true),
    {
        let results = self.validate_all_profiles()?;
        let mut any = false;
        let mut i: usize = 0;
        while i < results.len()
            invariant
                i <= results@.len(),
                results@.len() == 3,
                results@[0].is_valid,
                any == (i > 0),
            decreases results@.len() - i,
        {
            if results[i].is_valid {
                any = true;
            }
            i += 1;
        }
        Ok(any)
    }

    /// The optimization hints (none are computed).
    pub fn get_optimization_hints(&self) -> (r: Vec<OptimizationHint>)
        ensures
            r@.len() == 0,
    {
        Vec::new()
    }

    /// Clears the validation cache (which holds nothing).
    pub fn clear_cache(&mut self)
        ensures
            final(self).ontology_spec() == old(self).ontology_spec(),
            final(self).advanced_caching_spec() == old(self).advanced_caching_spec(),
    {
    }

    /// The cache statistics (no lookups are cached).
    pub fn get_cache_stats(&self) -> (r: CacheStats)
        ensures
            r.hits == 0 && r.misses == 0,
    {
        CacheStats { hits: 0, misses: 0 }
    }

    /// Turns advanced caching on or off.
    pub fn set_advanced_caching(&mut self, enabled: bool)
        ensures
            final(self).advanced_caching_spec() == enabled,
            final(self).ontology_spec() == old(self).ontology_spec(),
    {
        self.advanced_caching = enabled;
    }
}

impl ProfileValidator for Owl2ProfileValidator {
    open spec fn validation_holds(&self, ontology: Ontology, r: OwlResult<ProfileValidationResult>) -> bool {
        r matches Ok(res) && passing_report(res, Owl2Profile::EL, self.ontology_spec())
    }

    fn validate(&self, _ontology: &Ontology) -> (r: OwlResult<ProfileValidationResult>)
        ensures
            r matches Ok(res) && passing_report(res, Owl2Profile::EL, self.ontology_spec()),
    {
        let results = self.validate_all_profiles()?;
        let mut i: usize = 0;
        while i < results.len()
            invariant
                i <= results@.len(),
                results@.len() == 3,
                passing_report(results@[0], Owl2Profile::EL, self.ontology_spec()),
                i == 0,
            decreases results@.len() - i,
        {
            if results[i].is_valid {
                let mut results = results;
                let first = results.remove(i);
                return Ok(first);
            }
            i += 1;
        }
        Ok(ProfileValidationResult::valid(Owl2Profile::Full))
    }

    fn profile(&self) -> (r: Owl2Profile)
        ensures
            r == Owl2Profile::Full,
    {
        Owl2Profile::Full
    }
}

/// The most restrictive valid profile of `ontology`.
pub fn detect_profile(ontology: &Arc<Ontology>) -> (r: Option<Owl2Profile>)
    ensures
        r == most_restrictive_of(true, true, true),
{
    let validator = match Owl2ProfileValidator::new(share_arc(ontology)) {
        Ok(v) => v,
        Err(_) => { return None; },
    };
    match validator.get_most_restrictive_profile() {
        Ok(p) => p,
        Err(_) => None,
    }
}

} // verus!
