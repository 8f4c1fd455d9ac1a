use owl2_reasoner::axioms::SubClassOfAxiom;
use owl2_reasoner::class_expression::ClassExpression;
use owl2_reasoner::entities::Class;
use owl2_reasoner::grail::{GrailIndex, HybridHierarchy};
use owl2_reasoner::iri::IRI;
use owl2_reasoner::ontology::Ontology;
use owl2_reasoner::reachability::OnDemandReachability;

#[test]
fn test_grail_chain() {
    // Chain: 0 -> 1 -> 2 -> 3 (0 is root)
    let mut grail = GrailIndex::new(4, 3);
    grail.add_edge(1, 0);
    grail.add_edge(2, 1);
    grail.add_edge(3, 2);
    grail.build();

    assert!(grail.is_reachable(3, 0));
    assert!(grail.is_reachable(3, 1));
    assert!(grail.is_reachable(3, 2));
    assert!(grail.is_reachable(3, 3));

    assert!(!grail.is_reachable(0, 3));
    assert!(!grail.is_reachable(1, 3));
}

#[test]
fn test_grail_diamond() {
    //    3
    //   / \
    //  1   2
    //   \ /
    //    0
    let mut grail = GrailIndex::new(4, 5);
    grail.add_edge(0, 1);
    grail.add_edge(0, 2);
    grail.add_edge(1, 3);
    grail.add_edge(2, 3);
    grail.build();

    assert!(grail.is_reachable(0, 3));
    assert!(grail.is_reachable(0, 1));
    assert!(grail.is_reachable(0, 2));

    assert!(grail.is_reachable(1, 3));
    assert!(grail.is_reachable(2, 3));

    assert!(!grail.is_reachable(1, 2));
    assert!(!grail.is_reachable(2, 1));

    assert!(!grail.is_reachable(3, 0));
    assert!(!grail.is_reachable(3, 1));
    assert!(!grail.is_reachable(3, 2));
}

#[test]
fn grail_interval_test_separates_unrelated_classes() {
    // Two separate trees: 1 under 0, 3 under 2.
    let mut grail = GrailIndex::new(4, 2);
    grail.add_edge(1, 0);
    grail.add_edge(3, 2);
    grail.build();
    assert_eq!(grail.can_reach(1, 2), (false, true));
    assert_eq!(grail.can_reach(1, 0), (true, false));
    assert!(!grail.is_reachable(3, 0));
    assert!(grail.is_reachable(3, 2));
}

fn iri(s: &str) -> IRI {
    IRI::new(s).unwrap()
}

fn sub(o: &mut Ontology, a: &str, b: &str) {
    o.add_subclass_axiom(SubClassOfAxiom::new(
        ClassExpression::Class(Class::new(iri(a))),
        ClassExpression::Class(Class::new(iri(b))),
    ))
    .unwrap();
}

#[test]
fn hybrid_hierarchy_answers_subclass_questions() {
    let mut o = Ontology::new();
    for n in ["A", "B", "C", "D"] {
        o.add_class(Class::new(iri(&format!("http://example.org/{}", n)))).unwrap();
    }
    sub(&mut o, "http://example.org/A", "http://example.org/B");
    sub(&mut o, "http://example.org/B", "http://example.org/C");
    sub(&mut o, "http://example.org/A", "http://example.org/D");
    let mut h = HybridHierarchy::new(&o).unwrap();
    h.build_from_ontology(&o).unwrap();
    let a = iri("http://example.org/A");
    let c = iri("http://example.org/C");
    let d = iri("http://example.org/D");
    let thing = iri("http://www.w3.org/2002/07/owl#Thing");
    assert!(h.is_subclass_of(&a, &c));
    assert!(h.is_subclass_of(&a, &d));
    assert!(h.is_subclass_of(&a, &thing));
    assert!(!h.is_subclass_of(&c, &a));
    assert!(!h.is_subclass_of(&d, &c));
    // Classes: Thing, Nothing, A, B, C, D; edges: A-B, B-C, A-D, C-Thing, D-Thing.
    assert_eq!(h.get_stats(), (6, 5));
}

#[test]
fn grail_all_ancestors_of_diamond_bottom() {
    let mut grail = GrailIndex::new(5, 2);
    grail.add_edge(0, 1);
    grail.add_edge(0, 2);
    grail.add_edge(1, 3);
    grail.add_edge(2, 3);
    assert_eq!(grail.get_all_ancestors(0), vec![1, 2, 3]);
    assert_eq!(grail.get_all_ancestors(1), vec![3]);
    assert_eq!(grail.get_all_ancestors(3), Vec::<u32>::new());
    assert_eq!(grail.get_all_ancestors(4), Vec::<u32>::new());
}

#[test]
fn grail_all_ancestors_include_self_on_cycle() {
    let mut grail = GrailIndex::new(3, 1);
    grail.add_edge(0, 1);
    grail.add_edge(1, 0);
    grail.add_edge(1, 2);
    assert_eq!(grail.get_all_ancestors(0), vec![0, 1, 2]);
    assert_eq!(grail.get_all_ancestors(2), Vec::<u32>::new());
}

#[test]
fn on_demand_reachability_walks_and_remembers() {
    let mut r = OnDemandReachability::new(4);
    r.add_edge(0, 1);
    r.add_edge(1, 2);
    assert!(r.is_reachable(0, 2));
    assert!(r.is_reachable(3, 3));
    assert!(!r.is_reachable(2, 0));
    assert!(!r.is_reachable(0, 3));
    assert!(r.is_reachable(0, 2));
}

#[test]
fn on_demand_reachability_keeps_remembered_no_after_new_edge() {
    let mut r = OnDemandReachability::new(3);
    assert!(!r.is_reachable(0, 2));
    r.add_edge(0, 1);
    r.add_edge(1, 2);
    // The earlier answer is remembered and given again.
    assert!(!r.is_reachable(0, 2));
    // A pair never asked is walked over the new edges.
    assert!(r.is_reachable(1, 2));
    let mut fresh = OnDemandReachability::new(3);
    fresh.add_edge(0, 1);
    fresh.add_edge(1, 2);
    assert!(fresh.is_reachable(0, 2));
}
