use owl2_reasoner::parser::NtriplesParser;
use owl2_reasoner::loading::{load_plan, LoadAction};
use std::sync::Arc;

use owl2_reasoner::axioms::{Axiom, AxiomType, SubClassOfAxiom};
use owl2_reasoner::branches::{branch_assertions, ontology_with_constraints, WorkItem};
use owl2_reasoner::class_expression::ClassExpression;
use owl2_reasoner::entities::Class;
use owl2_reasoner::iri::IRI;
use owl2_reasoner::ontology::Ontology;
use owl2_reasoner::parser::{sanitize_iri, ParserFactory, ParserFormat};
use owl2_reasoner::profiles::{
    Owl2Profile, ProfileValidationResult, ProfileViolation, ProfileViolationType, ViolationSeverity,
};
use owl2_reasoner::router::count_unions_in_expression;
use owl2_reasoner::speculative::{BranchId, Nogood, NogoodDatabase, ThreadLocalNogoodCache};

fn named(s: &str) -> ClassExpression {
    ClassExpression::Class(Class::new(IRI::new(s).unwrap()))
}

#[test]
fn content_types_choose_formats() {
    assert_eq!(ParserFactory::for_content_type("text/turtle"), Some(ParserFormat::Turtle));
    assert_eq!(ParserFactory::for_content_type("application/rdf+xml"), Some(ParserFormat::RdfXml));
    assert_eq!(ParserFactory::for_content_type("application/n-triples"), Some(ParserFormat::NTriples));
    assert_eq!(ParserFactory::for_content_type("image/png"), None);
    assert_eq!(sanitize_iri("http://example.org/x").unwrap(), "http://example.org/x");
}

#[test]
fn axiom_types_and_unions() {
    let ax = Axiom::SubClassOf(Box::new(SubClassOfAxiom::new(named("http://example.org/A"), named("http://example.org/B"))));
    assert_eq!(ax.axiom_type(), AxiomType::SubClassOf);
    let u = ClassExpression::ObjectUnionOf(vec![
        Box::new(named("http://example.org/A")),
        Box::new(ClassExpression::ObjectUnionOf(vec![Box::new(named("http://example.org/B"))])),
    ]);
    assert_eq!(count_unions_in_expression(&u), 2);
    assert_eq!(count_unions_in_expression(&named("http://example.org/A")), 0);
}

#[test]
fn profile_order_and_violation_counts() {
    assert!(Owl2Profile::EL.is_more_restrictive_than(Owl2Profile::QL));
    assert!(!Owl2Profile::EL.is_more_restrictive_than(Owl2Profile::EL));
    let v = ProfileViolation::new(
        ProfileViolationType::UnsupportedFeature("x".to_string()),
        ViolationSeverity::Error,
        "bad".to_string(),
    )
    .with_location("axiom 3".to_string());
    assert_eq!(v.location.as_deref(), Some("axiom 3"));
    let w = ProfileViolation::new(
        ProfileViolationType::UnsupportedFeature("y".to_string()),
        ViolationSeverity::Warning,
        "meh".to_string(),
    );
    let r = ProfileValidationResult::invalid(Owl2Profile::QL, vec![v, w]);
    assert!(!r.is_valid);
    assert_eq!(r.error_count(), 1);
    assert_eq!(r.warning_count(), 1);
}

#[test]
fn branch_ontology_asserts_constraints_for_a_fresh_individual() {
    let mut o = Ontology::new();
    o.add_class(Class::new(IRI::new("http://example.org/A").unwrap())).unwrap();
    let b = ontology_with_constraints(o, BranchId::new(7), &vec![named("http://example.org/A"), named("http://example.org/B")]);
    assert_eq!(b.named_individuals().len(), 1);
    assert_eq!(b.named_individuals()[0].iri().as_str(), "http://tableauxx.org/branch#test_7");
    assert_eq!(b.axioms().len(), 2);
    let same = ontology_with_constraints(Ontology::new(), BranchId::new(1), &Vec::new());
    assert_eq!(same.named_individuals().len(), 0);
}

#[test]
fn branch_assertions_merge_tests_and_constraints_once() {
    let item = WorkItem {
        branch_id: BranchId::new(0),
        constraints: vec![named("http://example.org/A"), named("http://example.org/C")],
        test_expressions: vec![named("http://example.org/A"), named("http://example.org/B")],
        depth: 0,
        disjunctions: Arc::new(Vec::new()),
        next_disjunction_idx: 0,
    };
    assert_eq!(branch_assertions(&item).len(), 3);
}

#[test]
fn nogood_hits_and_local_flush() {
    let mut n = Nogood::new(vec![named("http://example.org/A")]);
    n.record_hit();
    assert_eq!(n.hit_count, 1);
    let mut db = NogoodDatabase::new(10);
    let mut cache = ThreadLocalNogoodCache::new(5);
    cache.add_nogood(n);
    cache.flush_to_global(&mut db);
    assert_eq!(db.get_nogoods().unwrap().len(), 1);
    assert!(cache.local_nogoods.is_empty());
}

#[test]
fn ntriples_line_needs_closing_dot() {
    let p = NtriplesParser::new();
    assert!(p.parse_ntriples_line("<http://example.org/s> <http://example.org/p> <http://example.org/o>").is_err());
    assert!(p.parse_ntriples_line("<http://example.org/s> <http://example.org/p> <http://example.org/o> .").is_ok());
    assert!(p.parse_ntriples_line("<http://example.org/s> <http://example.org/p> <http://example.org/o> x").is_err());
}

#[test]
fn ntriples_document_builds_classes_and_axioms() {
    let p = NtriplesParser::new();
    let doc = "# comment\n<http://example.org/A> <http://www.w3.org/2000/01/rdf-schema#subClassOf> <http://example.org/B> .\n\n";
    let o = p.parse_str(doc).unwrap();
    assert_eq!(o.classes().len(), 2);
    assert_eq!(o.axioms().len(), 1);
    assert!(o.iri().is_none());
    let bad = "<http://example.org/A> <http://www.w3.org/2000/01/rdf-schema#subClassOf> <http://example.org/B>\n";
    let e = p.parse_str(bad).unwrap_err();
    match e {
        owl2_reasoner::error::OwlError::ParseError(m) => assert!(m.starts_with("Parse error at line 1: ")),
        _ => panic!("expected a parse error"),
    }
}

#[test]
fn load_plan_follows_the_switches() {
    assert_eq!(load_plan(true, false, false, false), LoadAction::RequiredBinaryMissing);
    assert_eq!(load_plan(true, true, true, true), LoadAction::ReadRequiredBinary);
    assert_eq!(load_plan(false, true, true, true), LoadAction::TextForcedOnBinary);
    assert_eq!(load_plan(false, false, true, false), LoadAction::ReadInputAsBinary);
    assert_eq!(load_plan(false, false, false, true), LoadAction::TryBinaryThenText);
    assert_eq!(load_plan(false, true, false, true), LoadAction::ParseText);
    assert_eq!(load_plan(false, false, false, false), LoadAction::ParseText);
}

fn nogood_with_hits(name: &str, hits: usize) -> Nogood {
    let mut n = Nogood::new(vec![named(name)]);
    for _ in 0..hits {
        n.record_hit();
    }
    n
}

fn first_name(n: &Nogood) -> String {
    match &n.assertions[0] {
        owl2_reasoner::class_expression::ClassExpression::Class(c) => c.iri().as_str().to_string(),
        _ => panic!("expected a named class"),
    }
}

#[test]
fn flush_prunes_a_full_store_keeping_ties_in_order() {
    let mut db = NogoodDatabase::new(3);
    let mut cache = ThreadLocalNogoodCache::new(5);
    cache.add_nogood(nogood_with_hits("http://example.org/A", 1));
    cache.add_nogood(nogood_with_hits("http://example.org/B", 2));
    cache.add_nogood(nogood_with_hits("http://example.org/C", 1));
    cache.add_nogood(nogood_with_hits("http://example.org/D", 1));
    cache.flush_to_global(&mut db);
    // The fourth nogood overflows the store of three: the best 3 * 9 / 10 = 2
    // by score stay, B first, then A (the first of the tied ones).
    let names: Vec<String> = db.get_nogoods().unwrap().iter().map(first_name).collect();
    assert_eq!(names, vec!["http://example.org/B", "http://example.org/A"]);
}

#[test]
fn axiom_measures_count_disjunctions_and_kinds() {
    let mut o = owl2_reasoner::ontology::Ontology::new();
    let union = owl2_reasoner::class_expression::ClassExpression::ObjectUnionOf(vec![
        Box::new(named("http://example.org/B")),
        Box::new(named("http://example.org/C")),
    ]);
    o.add_subclass_axiom(owl2_reasoner::axioms::SubClassOfAxiom::new(named("http://example.org/A"), union)).unwrap();
    let m = owl2_reasoner::analysis::measure_axioms(&o);
    assert_eq!(m.disjunction_count, 1);
    assert_eq!(m.disjointness_axiom_count, 0);
    assert_eq!(m.equivalence_axiom_count, 0);
    assert_eq!(m.max_expression_depth, 2);
}
