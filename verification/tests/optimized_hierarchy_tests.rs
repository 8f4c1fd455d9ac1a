use owl2_reasoner::axioms::SubClassOfAxiom;
use owl2_reasoner::class_expression::ClassExpression;
use owl2_reasoner::entities::Class;
use owl2_reasoner::error::OwlError;
use owl2_reasoner::iri::IRI;
use owl2_reasoner::ontology::Ontology;
use owl2_reasoner::optimized_hierarchy::{AncestorSet, IriPool, OptimizedHierarchy};

fn iri(s: &str) -> IRI {
    IRI::new(s).unwrap()
}

#[test]
fn test_iri_pool() {
    let mut pool = IriPool::new();

    let iri1 = IRI::new("http://test.org/A").unwrap();
    let iri2 = IRI::new("http://test.org/B").unwrap();
    let iri1_dup = IRI::new("http://test.org/A").unwrap();

    let idx1 = pool.get_or_insert(iri1.clone());
    let idx2 = pool.get_or_insert(iri2.clone());
    let idx1_dup = pool.get_or_insert(iri1_dup.clone());

    assert_eq!(idx1, idx1_dup);
    assert_ne!(idx1, idx2);
    assert_eq!(pool.len(), 2);
}

#[test]
fn test_ancestor_set() {
    let mut set = AncestorSet::new();

    set.insert(1);
    set.insert(5);
    set.insert(3);
    set.insert(1);

    assert_eq!(set.len(), 3);

    let vec = set.to_set();
    assert!(vec.contains(&1));
    assert!(vec.contains(&3));
    assert!(vec.contains(&5));
}

#[test]
fn ancestor_set_is_sorted_and_extends_by_union() {
    let mut a = AncestorSet::new();
    a.insert(9);
    a.insert(2);
    let mut b = AncestorSet::new();
    b.insert(4);
    b.insert(2);
    a.extend(&b);
    assert_eq!(a.to_set(), vec![2, 4, 9]);
    assert!(a.contains(4) && !a.contains(3));
    assert!(!a.is_empty());
    assert!(AncestorSet::default().is_empty());
}

#[test]
fn iri_pool_lookup() {
    let mut pool = IriPool::new();
    pool.get_or_insert(iri("http://test.org/A"));
    assert_eq!(pool.get_iri(0).unwrap().as_str(), "http://test.org/A");
    assert!(pool.get_iri(1).is_none());
    assert_eq!(pool.index_of(&iri("http://test.org/A")), Some(0));
    assert_eq!(pool.index_of(&iri("http://test.org/B")), None);
    assert!(!pool.is_empty());
}

fn chain(n: usize, cycle: bool) -> Ontology {
    let mut o = Ontology::new();
    let name = |i: usize| format!("http://example.org/C{}", i);
    for i in 0..n {
        o.add_class(Class::new(iri(&name(i)))).unwrap();
    }
    for i in 0..n - 1 {
        o.add_subclass_axiom(SubClassOfAxiom::new(
            ClassExpression::Class(Class::new(iri(&name(i)))),
            ClassExpression::Class(Class::new(iri(&name(i + 1)))),
        ))
        .unwrap();
    }
    if cycle {
        o.add_subclass_axiom(SubClassOfAxiom::new(
            ClassExpression::Class(Class::new(iri(&name(n - 1)))),
            ClassExpression::Class(Class::new(iri(&name(0)))),
        ))
        .unwrap();
    }
    o
}

#[test]
fn linear_ancestors_of_a_chain() {
    let o = chain(4, false);
    let mut h = OptimizedHierarchy::new(&o).unwrap();
    h.build_from_ontology(&o).unwrap();
    h.compute_ancestors_linear().unwrap();
    assert_eq!(h.len(), 6);
    let c0 = h.class_index(&iri("http://example.org/C0")).unwrap();
    let c3 = h.class_index(&iri("http://example.org/C3")).unwrap();
    assert_eq!((c0, c3), (2, 5));
    // C0 reaches C1, C2, C3 and owl:Thing above C3.
    assert!(h.is_ancestor(c0, 3) && h.is_ancestor(c0, c3) && h.is_ancestor(c0, 0));
    assert!(!h.is_ancestor(c3, c0));
    assert!(!h.is_ancestor(c0, 1));
    // owl:Nothing is below every class.
    assert!(h.is_ancestor(1, c0) && h.is_ancestor(1, 0));
    assert!(!h.is_ancestor(0, 1));
}

#[test]
fn linear_ancestors_report_a_cycle() {
    let o = chain(3, true);
    let mut h = OptimizedHierarchy::new(&o).unwrap();
    h.build_from_ontology(&o).unwrap();
    match h.compute_ancestors_linear() {
        Err(OwlError::ParseError(m)) => assert_eq!(m, "Cycle detected in class hierarchy"),
        other => panic!("expected a cycle error, got {:?}", other),
    }
}
