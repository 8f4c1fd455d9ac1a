use std::sync::Arc;

use owl2_reasoner::analysis::ReasoningStrategy as AnalysisStrategy;
use owl2_reasoner::axioms::{Axiom, ClassAssertionAxiom, SubClassOfAxiom};
use owl2_reasoner::batch::{create_family_ontology, create_hierarchy_ontology, AxiomBatchBuilder, ClassBatchBuilder};
use owl2_reasoner::branches::{
    collect_before_wait, collect_on_event, create_branch_work_items, expand_work_item, verified_nogood_from_core,
    CollectAction, CoreSearch, ResultEvent, WorkItem,
};
use owl2_reasoner::class_expression::{ClassExpression, ObjectPropertyExpression};
use owl2_reasoner::entities::{Class, ObjectProperty};
use owl2_reasoner::error::OwlError;
use owl2_reasoner::expansion::{
    ConjunctionRule, DisjunctionRule, ExistentialRule, ExpansionQueue, ExpansionRule, ExpansionTask, NodeId,
    RuleApplication, UniversalRule,
};
use owl2_reasoner::iri::IRI;
use owl2_reasoner::meta_reasoner::{evaluate_condition, ReasoningStrategy, RuleCondition};
use owl2_reasoner::ontology::{extract_tbox_module, validate_ontology, Ontology};
use owl2_reasoner::profile_cache::{CachePriority, ProfileCacheConfig};
use owl2_reasoner::rdf_xml::RdfXmlStreamingParser;
use owl2_reasoner::reasoning::{ComplexityLevel, ExpressivenessLevel, OntologyFeatures, ReasoningResult};
use owl2_reasoner::speculative::{BranchId, BranchPolicyMode, SpeculativeConfig};

fn iri(s: &str) -> IRI {
    IRI::new(s).unwrap()
}

fn named(s: &str) -> ClassExpression {
    ClassExpression::Class(Class::new(iri(s)))
}

fn named_iri(c: &ClassExpression) -> String {
    match c {
        ClassExpression::Class(k) => k.iri().as_str().to_string(),
        _ => panic!("expected a named class"),
    }
}

fn union3() -> ClassExpression {
    ClassExpression::ObjectUnionOf(vec![
        Box::new(named("http://example.org/A")),
        Box::new(named("http://example.org/B")),
        Box::new(named("http://example.org/C")),
    ])
}

#[test]
fn test_expand_work_item_generates_all_operands() {
    let a = named("http://example.org/A");
    let item = WorkItem {
        branch_id: BranchId::new(0),
        constraints: Vec::new(),
        test_expressions: vec![a],
        depth: 0,
        disjunctions: Arc::new(vec![union3()]),
        next_disjunction_idx: 0,
    };
    let config = SpeculativeConfig::default();
    let mut counter: u64 = 1;
    let expanded = expand_work_item(&item, 10, config.branch_policy, &mut counter).expect("expansion");

    assert_eq!(expanded.len(), 3);
    for child in expanded {
        assert_eq!(child.constraints.len(), 1);
        assert_eq!(child.next_disjunction_idx, 1);
        assert_eq!(child.depth, 1);
    }
}

#[test]
fn expansion_in_baseline_order_numbers_branches_consecutively() {
    let item = WorkItem {
        branch_id: BranchId::new(0),
        constraints: Vec::new(),
        test_expressions: Vec::new(),
        depth: 0,
        disjunctions: Arc::new(vec![union3()]),
        next_disjunction_idx: 0,
    };
    let mut counter: u64 = 5;
    let expanded = expand_work_item(&item, 10, BranchPolicyMode::Baseline, &mut counter).unwrap();
    assert_eq!(counter, 8);
    let ids: Vec<u64> = expanded.iter().map(|c| c.branch_id.0).collect();
    assert_eq!(ids, vec![5, 6, 7]);
    let names: Vec<String> = expanded.iter().map(|c| named_iri(&c.constraints[0])).collect();
    assert_eq!(names, vec!["http://example.org/A", "http://example.org/B", "http://example.org/C"]);
}

#[test]
fn expansion_stops_at_the_depth_limit_and_after_the_last_disjunction() {
    let mut item = WorkItem {
        branch_id: BranchId::new(0),
        constraints: Vec::new(),
        test_expressions: Vec::new(),
        depth: 10,
        disjunctions: Arc::new(vec![union3()]),
        next_disjunction_idx: 0,
    };
    let mut counter: u64 = 1;
    assert!(expand_work_item(&item, 10, BranchPolicyMode::Baseline, &mut counter).is_none());
    item.depth = 0;
    item.next_disjunction_idx = 1;
    assert!(expand_work_item(&item, 10, BranchPolicyMode::Baseline, &mut counter).is_none());
    assert_eq!(counter, 1);
}

#[test]
fn first_work_item_is_branch_zero() {
    let items = create_branch_work_items(Arc::new(vec![union3()]), &vec![named("http://example.org/X")]);
    assert_eq!(items.len(), 1);
    assert_eq!(items[0].branch_id.0, 0);
    assert_eq!(items[0].depth, 0);
    assert_eq!(items[0].next_disjunction_idx, 0);
    assert!(items[0].constraints.is_empty());
    assert_eq!(items[0].test_expressions.len(), 1);
}

#[test]
fn core_search_drops_constraints_that_are_not_needed() {
    let constraints = vec![named("http://example.org/A"), named("http://example.org/B"), named("http://example.org/C")];
    let mut search = CoreSearch::start(&constraints);
    // Without A the set still conflicts: A is dropped.
    let t0 = search.next_trial().unwrap();
    assert_eq!(t0.len(), 2);
    search.record_trial(true);
    // Without B it no longer conflicts: B stays.
    let t1 = search.next_trial().unwrap();
    assert_eq!(named_iri(&t1[0]), "http://example.org/C");
    search.record_trial(false);
    assert_eq!(search.idx, 1);
    let t2 = search.next_trial().unwrap();
    assert_eq!(named_iri(&t2[0]), "http://example.org/B");
    search.record_trial(false);
    assert!(search.next_trial().is_none());
    let core: Vec<String> = search.core.iter().map(named_iri).collect();
    assert_eq!(core, vec!["http://example.org/B", "http://example.org/C"]);
}

#[test]
fn nogood_is_learned_only_from_a_confirmed_core() {
    assert!(verified_nogood_from_core(Vec::new(), true).is_empty());
    assert!(verified_nogood_from_core(vec![named("http://example.org/A")], false).is_empty());
    assert_eq!(verified_nogood_from_core(vec![named("http://example.org/A")], true).len(), 1);
}

#[test]
fn collection_decisions() {
    assert_eq!(collect_before_wait(true, 3), Some(true));
    assert_eq!(collect_before_wait(false, 0), Some(false));
    assert_eq!(collect_before_wait(false, 2), None);
    assert_eq!(collect_on_event(ResultEvent::Success, 1, 0, 10), CollectAction::Finish(true));
    assert_eq!(collect_on_event(ResultEvent::Contradiction, 1, 0, 10), CollectAction::Wait);
    assert_eq!(collect_on_event(ResultEvent::Timeout, 1, 5, 10), CollectAction::Wait);
    assert!(matches!(collect_on_event(ResultEvent::Timeout, 1, 11, 10), CollectAction::Fail(_)));
    assert_eq!(collect_on_event(ResultEvent::Disconnected, 0, 0, 10), CollectAction::Finish(false));
    assert!(matches!(collect_on_event(ResultEvent::Disconnected, 2, 0, 10), CollectAction::Fail(_)));
}

#[test]
fn conjunction_rule_applies_to_intersections_only() {
    let rule = ConjunctionRule;
    let and = ClassExpression::ObjectIntersectionOf(vec![
        Box::new(named("http://example.org/A")),
        Box::new(named("http://example.org/B")),
    ]);
    assert_eq!(rule.name(), "Conjunction (⊓-rule)");
    assert!(rule.is_applicable(NodeId(0), &and));
    assert!(!rule.is_applicable(NodeId(0), &union3()));
    let tasks = rule.apply(NodeId(4), &and);
    assert_eq!(tasks.len(), 1);
    match &tasks[0] {
        ExpansionTask::Conjunction { node_id, expressions } => {
            assert_eq!(*node_id, NodeId(4));
            assert_eq!(expressions.len(), 2);
            assert_eq!(named_iri(&expressions[1]), "http://example.org/B");
        }
        other => panic!("unexpected task {:?}", other),
    }
    assert!(rule.apply(NodeId(4), &union3()).is_empty());
}

#[test]
fn disjunction_existential_and_universal_rules() {
    let p = ObjectPropertyExpression::ObjectProperty(ObjectProperty::new(iri("http://example.org/p")));
    let some = ClassExpression::ObjectSomeValuesFrom(Box::new(p), Box::new(named("http://example.org/A")));
    let q = ObjectPropertyExpression::ObjectProperty(ObjectProperty::new(iri("http://example.org/q")));
    let all = ClassExpression::ObjectAllValuesFrom(Box::new(q), Box::new(named("http://example.org/B")));

    let tasks = DisjunctionRule.apply(NodeId(1), &union3());
    assert!(matches!(&tasks[0], ExpansionTask::Disjunction { expressions, .. } if expressions.len() == 3));
    assert!(DisjunctionRule.apply(NodeId(1), &some).is_empty());

    assert!(ExistentialRule.is_applicable(NodeId(1), &some));
    match &ExistentialRule.apply(NodeId(2), &some)[0] {
        ExpansionTask::Existential { node_id, class_expression, .. } => {
            assert_eq!(*node_id, NodeId(2));
            assert_eq!(named_iri(class_expression), "http://example.org/A");
        }
        other => panic!("unexpected task {:?}", other),
    }
    assert!(UniversalRule.is_applicable(NodeId(1), &all));
    assert!(!UniversalRule.is_applicable(NodeId(1), &some));
    assert_eq!(UniversalRule.apply(NodeId(3), &all).len(), 1);
    assert_eq!(ExistentialRule.name(), "Existential (∃-rule)");
}

#[test]
fn rule_application_records_its_parts() {
    let app = RuleApplication::new(NodeId(7), "Conjunction (⊓-rule)", named("http://example.org/A"));
    assert_eq!(app.node_id, NodeId(7));
    assert_eq!(app.rule_name, "Conjunction (⊓-rule)");
}

fn conj(n: usize) -> ExpansionTask {
    ExpansionTask::Conjunction { node_id: NodeId(n), expressions: Vec::new() }
}

fn node_of(t: &ExpansionTask) -> usize {
    match t {
        ExpansionTask::Conjunction { node_id, .. } => node_id.0,
        _ => panic!("unexpected task"),
    }
}

#[test]
fn expansion_queue_is_first_in_first_out_with_front_pushes() {
    let mut q = ExpansionQueue::new();
    assert!(q.is_empty());
    q.push(conj(1));
    q.push(conj(2));
    q.push_front(conj(0));
    q.extend(vec![conj(3), conj(4)]);
    assert_eq!(q.len(), 5);
    let mut order = Vec::new();
    while let Some(t) = q.pop() {
        order.push(node_of(&t));
    }
    assert_eq!(order, vec![0, 1, 2, 3, 4]);
    assert!(q.pop().is_none());
}

fn features(level: ExpressivenessLevel, complexity: ComplexityLevel, classes: usize, nominals: bool) -> OntologyFeatures {
    let mut f = OntologyFeatures::new(classes, 0, 0);
    f.expressiveness_level = level;
    f.estimated_complexity = complexity;
    f.has_nominals = nominals;
    f
}

#[test]
fn rule_conditions_evaluate_over_features() {
    let f = features(ExpressivenessLevel::EL, ComplexityLevel::Low, 100, false);
    assert!(evaluate_condition(&RuleCondition::ExpressionLevel(ExpressivenessLevel::EL), &f));
    assert!(!evaluate_condition(&RuleCondition::ExpressionLevel(ExpressivenessLevel::ALC), &f));
    let small_and_low = RuleCondition::And(vec![
        RuleCondition::NumClasses { min: 0, max: Some(1000) },
        RuleCondition::ComplexityLevel(ComplexityLevel::Low),
    ]);
    assert!(evaluate_condition(&small_and_low, &f));
    assert!(!evaluate_condition(&RuleCondition::NumClasses { min: 101, max: None }, &f));
    assert!(evaluate_condition(&RuleCondition::NumClasses { min: 100, max: Some(100) }, &f));
    let hard = RuleCondition::Or(vec![
        RuleCondition::ComplexityLevel(ComplexityLevel::High),
        RuleCondition::HasNominals(true),
    ]);
    assert!(!evaluate_condition(&hard, &f));
    let g = features(ExpressivenessLevel::SROIQ, ComplexityLevel::Medium, 5, true);
    assert!(evaluate_condition(&hard, &g));
    assert!(evaluate_condition(&RuleCondition::And(Vec::new()), &g));
    assert!(!evaluate_condition(&RuleCondition::Or(Vec::new()), &g));
    assert_ne!(ReasoningStrategy::Saturation, ReasoningStrategy::Tableaux);
}

#[test]
fn expressiveness_ranks_and_default_features() {
    assert_eq!(ExpressivenessLevel::EL.rank(), 0);
    assert_eq!(ExpressivenessLevel::ALC.rank(), 2);
    assert_eq!(ExpressivenessLevel::SROIQ.rank(), 6);
    let f = OntologyFeatures::new(3, 4, 5);
    assert_eq!((f.num_classes, f.num_properties, f.num_individuals), (3, 4, 5));
    assert_eq!(f.expressiveness_level, ExpressivenessLevel::ALC);
    assert_eq!(f.estimated_complexity, ComplexityLevel::Medium);
    assert!(!f.has_nominals && !f.has_cardinality_restrictions);
    let r = ReasoningResult::default();
    assert!(!r.is_consistent && r.nodes_expanded == 0);
    assert_ne!(AnalysisStrategy::Hierarchical, AnalysisStrategy::Sequential);
}

#[test]
fn tbox_module_keeps_classes_and_class_axioms_only() {
    let mut o = Ontology::with_iri(iri("http://example.org/onto"));
    o.add_class(Class::new(iri("http://example.org/A"))).unwrap();
    o.add_class(Class::new(iri("http://example.org/B"))).unwrap();
    o.add_axiom(Axiom::SubClassOf(Box::new(SubClassOfAxiom::new(
        named("http://example.org/A"),
        named("http://example.org/B"),
    ))))
    .unwrap();
    o.add_axiom(Axiom::ClassAssertion(Box::new(ClassAssertionAxiom::new(
        Arc::new(iri("http://example.org/a")),
        named("http://example.org/A"),
    ))))
    .unwrap();
    o.add_axiom(Axiom::SubClassOf(Box::new(SubClassOfAxiom::new(
        named("http://example.org/B"),
        named("http://example.org/C"),
    ))))
    .unwrap();
    let m = extract_tbox_module(o).unwrap();
    assert_eq!(m.iri().unwrap().as_str(), "http://example.org/onto");
    assert_eq!(m.classes().len(), 2);
    assert_eq!(m.axioms().len(), 2);
    assert!(m.axioms().iter().all(|a| matches!(a, Axiom::SubClassOf(_))));
    match &m.axioms()[1] {
        Axiom::SubClassOf(ax) => assert_eq!(named_iri(ax.sub_class()), "http://example.org/B"),
        _ => unreachable!(),
    }
    assert!(validate_ontology(&m).unwrap());
}

#[test]
fn cache_settings() {
    assert_eq!(CachePriority::default(), CachePriority::Normal);
    assert!(CachePriority::Low < CachePriority::Critical);
    let c = ProfileCacheConfig::new();
    assert_eq!(c.max_entries, 1000);
    assert_eq!(c.default_ttl, std::time::Duration::from_secs(3600));
    let c = c.with_max_entries(5).with_ttl(std::time::Duration::from_secs(7));
    assert_eq!(c.max_entries, 5);
    assert_eq!(c.default_ttl.as_secs(), 7);
    assert!(c.priority_eviction && c.track_statistics);
}

#[test]
fn test_experimental_strict_mode_rejects_skipped() {
    let strict_err = RdfXmlStreamingParser::ensure_experimental_strict_mode(true, 1);
    assert!(strict_err.is_err(), "strict mode should fail when skipped > 0");

    let strict_ok = RdfXmlStreamingParser::ensure_experimental_strict_mode(true, 0);
    assert!(strict_ok.is_ok(), "strict mode should pass when skipped == 0");

    let non_strict_ok = RdfXmlStreamingParser::ensure_experimental_strict_mode(false, 99);
    assert!(non_strict_ok.is_ok(), "non-strict mode should allow skipped triples");
}

#[test]
fn strict_mode_message_gives_the_count() {
    match RdfXmlStreamingParser::ensure_experimental_strict_mode(true, 42) {
        Err(OwlError::ParseError(m)) => {
            assert_eq!(m, "Experimental RDF/XML strict mode failed: 42 unsupported triples skipped")
        }
        other => panic!("unexpected {:?}", other),
    }
}

#[test]
fn class_batch_builder_names_classes_under_its_prefix() {
    let mut b = ClassBatchBuilder::new("http://example.org/");
    let a = b.add_class("A").clone();
    let c = b.add_class("C").clone();
    assert_eq!(a.iri().as_str(), "http://example.org/A");
    b.add_subclass(&c, &a);
    assert_eq!(b.len(), 2);
    assert!(!b.is_empty());
    let classes = b.build();
    assert_eq!(classes[1].iri().as_str(), "http://example.org/C");
}

#[test]
fn axiom_batch_builder_collects_subclass_axioms() {
    let mut b = AxiomBatchBuilder::new();
    b.add_subclass(named("http://example.org/A"), named("http://example.org/B"));
    b.add_subclass_batch(vec![(named("http://example.org/B"), named("http://example.org/C"))]);
    assert_eq!(b.len(), 2);
    let axioms = b.build();
    assert_eq!(named_iri(axioms[1].super_class()), "http://example.org/C");
}

#[test]
fn family_and_hierarchy_ontologies() {
    let (o, classes) =
        create_family_ontology("http://example.org/family#", &vec![("Parent", "Child"), ("Parent", "Other")]).unwrap();
    assert_eq!(o.classes().len(), 3);
    assert_eq!(classes.len(), 4);
    assert_eq!(o.classes()[0].iri().as_str(), "http://example.org/family#Parent");
    let (h, hc) = create_hierarchy_ontology("Root", &vec![("L1", vec!["A", "B"]), ("L2", vec!["A"])]).unwrap();
    assert_eq!(hc[0].iri().as_str(), "http://example.org/hierarchy/Root");
    assert_eq!(h.classes().len(), 3);
    assert_eq!(h.axioms().len(), 0);
}

#[test]
fn heuristic_policy_reorders_operands_and_updates_stats() {
    let a = named("http://example.org/A");
    let b = named("http://example.org/B");
    let c = named("http://example.org/C");
    let nested = ClassExpression::ObjectUnionOf(vec![Box::new(b), Box::new(c)]);

    let item = WorkItem {
        branch_id: BranchId::new(0),
        constraints: Vec::new(),
        test_expressions: Vec::new(),
        depth: 0,
        disjunctions: Arc::new(vec![ClassExpression::ObjectUnionOf(vec![Box::new(a), Box::new(nested)])]),
        next_disjunction_idx: 0,
    };

    let mut counter: u64 = 1;
    let expanded = expand_work_item(&item, 10, BranchPolicyMode::Heuristic, &mut counter).expect("expansion");

    assert_eq!(expanded.len(), 2);
    match expanded[0].constraints.first() {
        Some(ClassExpression::ObjectUnionOf(ops)) => {
            let names: Vec<String> = ops.iter().map(|o| named_iri(o)).collect();
            assert_eq!(names, vec!["http://example.org/B", "http://example.org/C"]);
        }
        _ => panic!("expected the nested union first"),
    }
    // The reordering shows in the children: the named class comes second.
    assert_eq!(named_iri(expanded[1].constraints.first().unwrap()), "http://example.org/A");
}
