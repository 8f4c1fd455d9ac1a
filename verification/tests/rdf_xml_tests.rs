use owl2_reasoner::axioms::Axiom;
use owl2_reasoner::parser::ParserConfig;
use owl2_reasoner::rdf_xml::{predicate_tag, PredicateTag, ProcessedObject, RdfXmlStreamingParser};
use owl2_reasoner::iri::IRI;
use owl2_reasoner::ntriples::NtriplesTerm;

#[test]
fn test_rdf_xml_streaming_basic_parsing() {
    let config = ParserConfig::default();
    let mut parser = RdfXmlStreamingParser::new(config);

    let rdf_xml_content = r#"<?xml version="1.0"?>
<rdf:RDF xmlns:rdf="http://www.w3.org/1999/02/22-rdf-syntax-ns#"
         xmlns:owl="http://www.w3.org/2002/07/owl#"
         xmlns:rdfs="http://www.w3.org/2000/01/rdf-schema#">

    <owl:Class rdf:about="http://example.org/Person">
        <rdfs:label>Person</rdfs:label>
    </owl:Class>

</rdf:RDF>"#;

    let result = parser.parse_content(rdf_xml_content);
    assert!(
        result.is_ok(),
        "Failed to parse basic RDF/XML content: {:?}",
        result.as_ref().err()
    );

    if let Ok(ontology) = result {
        let classes = ontology.classes();
        assert!(!classes.is_empty(), "No classes were parsed from the content");
    }
}

#[test]
fn rdf_xml_subclass_and_assertions() {
    let mut parser = RdfXmlStreamingParser::new(ParserConfig::default());
    let content = r#"<?xml version="1.0"?>
<rdf:RDF xmlns:rdf="http://www.w3.org/1999/02/22-rdf-syntax-ns#"
         xmlns:owl="http://www.w3.org/2002/07/owl#"
         xmlns:ex="http://example.org/"
         xmlns:rdfs="http://www.w3.org/2000/01/rdf-schema#">
    <owl:Class rdf:about="http://example.org/Dog">
        <rdfs:subClassOf rdf:resource="http://example.org/Animal"/>
    </owl:Class>
    <ex:Dog rdf:about="http://example.org/rex">
        <ex:owner rdf:resource="http://example.org/alice"/>
        <ex:age>3</ex:age>
    </ex:Dog>
</rdf:RDF>"#;
    let ontology = parser.parse_content(content).unwrap();
    assert_eq!(ontology.classes().len(), 1);
    assert_eq!(ontology.classes()[0].iri().as_str(), "http://example.org/Dog");
    let axioms = ontology.axioms();
    let subclass = axioms.iter().filter(|a| matches!(a, Axiom::SubClassOf(_))).count();
    let assertions = axioms.iter().filter(|a| matches!(a, Axiom::ClassAssertion(_))).count();
    let object_assertions = axioms.iter().filter(|a| matches!(a, Axiom::PropertyAssertion(_))).count();
    let data_assertions = axioms.iter().filter(|a| matches!(a, Axiom::DataPropertyAssertion(_))).count();
    assert_eq!(subclass, 1);
    assert_eq!(assertions, 1);
    assert_eq!(object_assertions, 1);
    assert_eq!(data_assertions, 1);
    let names: Vec<&str> = ontology.named_individuals().iter().map(|i| i.iri().as_str()).collect();
    assert_eq!(names, vec!["http://example.org/rex", "http://example.org/alice"]);
}

#[test]
fn rdf_xml_blank_node_object_becomes_anonymous_individual() {
    let mut parser = RdfXmlStreamingParser::new(ParserConfig::default());
    let content = r#"<?xml version="1.0"?>
<rdf:RDF xmlns:rdf="http://www.w3.org/1999/02/22-rdf-syntax-ns#"
         xmlns:ex="http://example.org/">
    <rdf:Description rdf:about="http://example.org/a">
        <ex:knows rdf:nodeID="b1"/>
    </rdf:Description>
</rdf:RDF>"#;
    let ontology = parser.parse_content(content).unwrap();
    assert_eq!(ontology.anonymous_individuals().len(), 1);
    assert!(ontology.anonymous_individuals()[0].node_id.starts_with("_:"));
}

#[test]
fn rdf_xml_malformed_input_is_a_parse_error() {
    let mut parser = RdfXmlStreamingParser::new(ParserConfig::default());
    let result = parser.parse_content("<rdf:RDF xmlns:rdf=\"http://www.w3.org/1999/02/22-rdf-syntax-ns#\"><oops");
    assert!(result.is_err());
}

#[test]
fn predicate_tags() {
    assert_eq!(
        predicate_tag("http://www.w3.org/1999/02/22-rdf-syntax-ns#type"),
        PredicateTag::RdfType
    );
    assert_eq!(
        predicate_tag("http://www.w3.org/2002/07/owl#sameAs"),
        PredicateTag::OwlOther
    );
    assert_eq!(predicate_tag("http://example.org/p"), PredicateTag::Other);
}

#[test]
fn test_subject_to_iri_with_named_node() {
    let config = ParserConfig::default();
    let parser = RdfXmlStreamingParser::new(config);

    let subject = NtriplesTerm::IRI(IRI::new("http://example.org/test").unwrap());

    let result = parser.subject_to_iri(&subject);
    assert!(result.is_ok());
    assert_eq!(result.unwrap().as_str(), "http://example.org/test");
}

#[test]
fn test_subject_to_iri_with_blank_node() {
    let config = ParserConfig::default();
    let parser = RdfXmlStreamingParser::new(config);

    let subject = NtriplesTerm::BlankNode("test123".to_string());

    let result = parser.subject_to_iri(&subject);
    assert!(result.is_ok());
    assert_eq!(result.unwrap().as_str(), "_:test123");
}

#[test]
fn test_process_object_with_named_node() {
    let config = ParserConfig::default();
    let parser = RdfXmlStreamingParser::new(config);

    let term = NtriplesTerm::IRI(IRI::new("http://example.org/object").unwrap());

    let result = parser.process_object(&term);
    assert!(result.is_ok());

    if let ProcessedObject::Iri(iri) = result.unwrap() {
        assert_eq!(iri.as_str(), "http://example.org/object");
    } else {
        panic!("Expected Iri object");
    }
}

#[test]
fn test_process_object_with_blank_node() {
    let config = ParserConfig::default();
    let parser = RdfXmlStreamingParser::new(config);

    let term = NtriplesTerm::BlankNode("blank456".to_string());

    let result = parser.process_object(&term);
    assert!(result.is_ok());

    if let ProcessedObject::BlankNode(id) = result.unwrap() {
        assert_eq!(id, "blank456");
    } else {
        panic!("Expected BlankNode object");
    }
}

#[test]
fn new_streaming_parser_has_counted_no_triple() {
    let parser = RdfXmlStreamingParser::new(ParserConfig::default());
    assert_eq!(parser.triple_counter, 0);
}
