use owl2_reasoner::axioms::SubClassOfAxiom;
use owl2_reasoner::class_expression::ClassExpression;
use owl2_reasoner::compact_hierarchy::{position_of, CompactHierarchy};
use owl2_reasoner::entities::Class;
use owl2_reasoner::iri::IRI;
use owl2_reasoner::ontology::Ontology;

fn class(iri: &str) -> Class {
    Class::new(IRI::new(iri).unwrap())
}

fn chain_ontology() -> Ontology {
    let mut ontology = Ontology::new();
    for name in ["A", "B", "C"] {
        ontology.add_class(class(&format!("http://example.org/{}", name))).unwrap();
    }
    ontology
        .add_subclass_axiom(SubClassOfAxiom::new(
            ClassExpression::Class(class("http://example.org/A")),
            ClassExpression::Class(class("http://example.org/B")),
        ))
        .unwrap();
    ontology
        .add_subclass_axiom(SubClassOfAxiom::new(
            ClassExpression::Class(class("http://example.org/B")),
            ClassExpression::Class(class("http://example.org/C")),
        ))
        .unwrap();
    ontology
}

fn index(h: &CompactHierarchy, iri: &str) -> usize {
    position_of(&h.idx_to_iri, &IRI::new(iri).unwrap()).unwrap()
}

#[test]
fn compact_hierarchy_indexes_thing_nothing_then_classes() {
    let ontology = chain_ontology();
    let h = CompactHierarchy::new(&ontology).unwrap();
    assert_eq!(h.num_classes, 5);
    assert_eq!(h.idx_to_iri[0].as_str(), "http://www.w3.org/2002/07/owl#Thing");
    assert_eq!(h.idx_to_iri[1].as_str(), "http://www.w3.org/2002/07/owl#Nothing");
    assert_eq!(h.idx_to_iri[2].as_str(), "http://example.org/A");
}

#[test]
fn compact_hierarchy_build_and_close() {
    let ontology = chain_ontology();
    let mut h = CompactHierarchy::new(&ontology).unwrap();
    h.build_from_ontology(&ontology).unwrap();
    let a = index(&h, "http://example.org/A");
    let b = index(&h, "http://example.org/B");
    let c = index(&h, "http://example.org/C");
    assert!(h.direct_parents[a].contains(b));
    assert!(!h.direct_parents[a].contains(c));
    // C has no parent from the axioms, so it goes under owl:Thing
    assert!(h.direct_parents[c].contains(0));
    // owl:Nothing is under every other class
    assert!(h.direct_parents[1].contains(a));
    assert!(h.direct_parents[1].contains(0));
    assert!(h.direct_children[b].contains(a));

    h.compute_transitive_closure();
    assert!(h.ancestors[a].contains(b));
    assert!(h.ancestors[a].contains(c));
    assert!(h.ancestors[a].contains(0));
    assert!(!h.ancestors[c].contains(a));
}

#[test]
fn compact_hierarchy_topological_closure() {
    let ontology = chain_ontology();
    let mut h = CompactHierarchy::new(&ontology).unwrap();
    h.build_from_ontology(&ontology).unwrap();
    h.compute_transitive_closure_topological();
    let a = index(&h, "http://example.org/A");
    let b = index(&h, "http://example.org/B");
    let c = index(&h, "http://example.org/C");
    assert!(h.ancestors[a].contains(b));
    assert!(h.ancestors[a].contains(c));
    assert!(h.ancestors[b].contains(c));
    assert!(!h.ancestors[c].contains(b));
}

#[test]
fn compact_hierarchy_memory_usage() {
    let ontology = chain_ontology();
    let h = CompactHierarchy::new(&ontology).unwrap();
    // 5 classes: 3 tables * 5 rows * 1 chunk * 8 bytes, plus 2 * 5 * 32
    assert_eq!(h.memory_usage(), 3 * 5 * 8 + 320);
}
