use std::sync::Arc;

use owl2_reasoner::axioms::SubClassOfAxiom;
use owl2_reasoner::class_expression::ClassExpression;
use owl2_reasoner::class_graph::ClassGraph;
use owl2_reasoner::compact_hierarchy::CompactBitSet;
use owl2_reasoner::entities::Class;
use owl2_reasoner::grail::GrailInterval;
use owl2_reasoner::iri::IRI;
use owl2_reasoner::ontology::Ontology;
use owl2_reasoner::profiles::{
    detect_profile, ELProfileValidator, Owl2Profile, ProfileValidator, QLProfileValidator,
    RLProfileValidator,
};
use owl2_reasoner::router::{
    select_classification_reasoner, select_consistency_reasoner, ClassificationReasoner,
    ConsistencyReasoner, RoutingSource,
};
use owl2_reasoner::speculative::{
    evaluate_parallel_decision, find_disjunctions_in_expression, Nogood, SchedulingMode,
    SpeculativeConfig,
};

fn class(iri: &str) -> Class {
    Class::new(IRI::new(iri).unwrap())
}

#[test]
fn test_compact_bitset() {
    let mut bs = CompactBitSet::new(100);

    bs.set(5);
    bs.set(10);
    bs.set(63);
    bs.set(64);

    assert!(bs.contains(5));
    assert!(bs.contains(10));
    assert!(bs.contains(63));
    assert!(bs.contains(64));
    assert!(!bs.contains(0));
    assert!(!bs.contains(99));

    assert_eq!(bs.count(), 4);

    let vec = bs.to_vec();
    assert_eq!(vec, vec![5, 10, 63, 64]);
}

#[test]
fn test_bitset_union() {
    let mut bs1 = CompactBitSet::new(100);
    let mut bs2 = CompactBitSet::new(100);

    bs1.set(1);
    bs1.set(2);
    bs2.set(2);
    bs2.set(3);

    bs1.union_with(&bs2);

    assert!(bs1.contains(1));
    assert!(bs1.contains(2));
    assert!(bs1.contains(3));
    assert_eq!(bs1.count(), 3);
}

#[test]
fn test_grail_interval() {
    let i1 = GrailInterval { min: 1, max: 10 };
    let i2 = GrailInterval { min: 2, max: 5 };
    let i3 = GrailInterval { min: 15, max: 20 };

    assert!(i1.contains(&i2));
    assert!(!i2.contains(&i1));
    assert!(i1.is_disjoint(&i3));
}

#[test]
fn test_graph_toposort() {
    let mut graph = ClassGraph::new(5);

    graph.add_edge(0, 1);
    graph.add_edge(0, 2);
    graph.add_edge(1, 3);
    graph.add_edge(2, 3);
    graph.add_edge(3, 4);

    let order = graph.kahn_toposort();
    assert_eq!(order.len(), 5);

    let pos = |v: u32| order.iter().position(|&x| x == v).unwrap();

    assert!(pos(0) < pos(1));
    assert!(pos(0) < pos(2));
    assert!(pos(1) < pos(3));
    assert!(pos(2) < pos(3));
    assert!(pos(3) < pos(4));
}

#[test]
fn test_tarjan_scc() {
    let mut graph = ClassGraph::new(4);
    graph.add_edge(0, 1);
    graph.add_edge(1, 2);
    graph.add_edge(2, 3);
    graph.add_edge(3, 1);

    let sccs = graph.tarjan_scc();

    assert_eq!(sccs.len(), 2);

    let scc_sizes: Vec<usize> = sccs.iter().map(|s| s.len()).collect();
    assert!(scc_sizes.contains(&1));
    assert!(scc_sizes.contains(&3));
}

#[test]
fn test_nogood_creation() {
    let assertions = vec![ClassExpression::Class(class("http://example.org/A"))];

    let nogood = Nogood::new(assertions);
    assert_eq!(nogood.size, 1);
    assert_eq!(nogood.hit_count, 0);
}

#[test]
fn test_nogood_subsumption() {
    let assertions1 = vec![ClassExpression::Class(class("http://example.org/A"))];
    let nogood = Nogood::new(vec![ClassExpression::Class(class("http://example.org/A"))]);

    let assertions2 = vec![
        ClassExpression::Class(class("http://example.org/A")),
        ClassExpression::Class(class("http://example.org/B")),
    ];

    assert!(nogood.subsumes(&assertions2));
    assert!(nogood.subsumes(&assertions1));
}

#[test]
fn test_speculative_config_default() {
    let config = SpeculativeConfig::default();
    assert!(config.enable_learning);
    assert_eq!(config.max_speculative_depth, 10);
    assert_eq!(config.scheduling_mode, SchedulingMode::Adaptive);
}

#[test]
fn test_parallel_decision_respects_forced_modes() {
    let mut ontology = Ontology::new();
    let a = class("http://example.org/A");
    let b = class("http://example.org/B");
    let c = class("http://example.org/C");
    ontology.add_class(a.clone()).unwrap();
    ontology.add_class(b.clone()).unwrap();
    ontology.add_class(c.clone()).unwrap();
    ontology
        .add_subclass_axiom(SubClassOfAxiom::new(
            ClassExpression::Class(a),
            ClassExpression::ObjectUnionOf(vec![
                Box::new(ClassExpression::Class(b)),
                Box::new(ClassExpression::Class(c)),
            ]),
        ))
        .unwrap();

    let mut disjunctions = Vec::new();
    for sub in ontology.subclass_axioms() {
        find_disjunctions_in_expression(sub.super_class(), &mut disjunctions);
    }

    let mut config = SpeculativeConfig::default();
    config.parallel_threshold = usize::MAX;
    assert!(!evaluate_parallel_decision(&config, &ontology, &disjunctions).use_parallel);

    config.scheduling_mode = SchedulingMode::AlwaysParallel;
    assert!(evaluate_parallel_decision(&config, &ontology, &disjunctions).use_parallel);

    config.scheduling_mode = SchedulingMode::Sequential;
    assert!(!evaluate_parallel_decision(&config, &ontology, &disjunctions).use_parallel);
}

#[test]
fn test_el_validator_creation() {
    let ontology = Arc::new(Ontology::new());
    let validator = ELProfileValidator::new(ontology);
    assert_eq!(validator.profile(), Owl2Profile::EL);
}

#[test]
fn test_ql_validator_creation() {
    let ontology = Arc::new(Ontology::new());
    let validator = QLProfileValidator::new(ontology);
    assert_eq!(validator.profile(), Owl2Profile::QL);
}

#[test]
fn test_rl_validator_creation() {
    let ontology = Arc::new(Ontology::new());
    let validator = RLProfileValidator::new(ontology);
    assert_eq!(validator.profile(), Owl2Profile::RL);
}

fn two_class_hierarchy() -> Ontology {
    let mut ontology = Ontology::new();
    let a = class("http://example.org/A");
    let b = class("http://example.org/B");
    ontology.add_class(a.clone()).unwrap();
    ontology.add_class(b.clone()).unwrap();
    ontology
        .add_subclass_axiom(SubClassOfAxiom::new(
            ClassExpression::Class(a),
            ClassExpression::Class(b),
        ))
        .unwrap();
    ontology
}

#[test]
fn detects_el_profile_for_simple_hierarchy() {
    let ontology = two_class_hierarchy();
    let profile = detect_profile(&Arc::new(ontology));
    assert_eq!(profile, Some(Owl2Profile::EL));
}

#[test]
fn routes_el_hierarchy_to_hierarchical_classification() {
    let ontology = two_class_hierarchy();
    let decision = select_classification_reasoner(&ontology, Some(Owl2Profile::EL));
    assert_eq!(decision.reasoner, ClassificationReasoner::Hierarchical);
    assert_eq!(decision.source, RoutingSource::Profile);
}

#[test]
fn routes_union_heavy_ontology_to_speculative_consistency() {
    let mut ontology = Ontology::new();

    for i in 0..120 {
        let sub = class(&format!("http://example.org/Sub{}", i));
        let left = class(&format!("http://example.org/Left{}", i));
        let right = class(&format!("http://example.org/Right{}", i));
        ontology.add_class(sub.clone()).unwrap();
        ontology.add_class(left.clone()).unwrap();
        ontology.add_class(right.clone()).unwrap();

        let union = ClassExpression::ObjectUnionOf(vec![
            Box::new(ClassExpression::Class(left)),
            Box::new(ClassExpression::Class(right)),
        ]);
        ontology
            .add_subclass_axiom(SubClassOfAxiom::new(ClassExpression::Class(sub), union))
            .unwrap();
    }

    let decision = select_consistency_reasoner(&ontology, None);
    assert_eq!(decision.reasoner, ConsistencyReasoner::Speculative);
}

#[test]
fn routes_ql_profile_to_simple_classification() {
    let ontology = Ontology::new();
    let decision = select_classification_reasoner(&ontology, Some(Owl2Profile::QL));
    assert_eq!(decision.reasoner, ClassificationReasoner::Simple);
    assert_eq!(decision.source, RoutingSource::Profile);
}
