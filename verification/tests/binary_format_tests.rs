use owl2_reasoner::axioms::SubClassOfAxiom;
use owl2_reasoner::binary_format::{deserialize, serialize};
use owl2_reasoner::class_expression::ClassExpression;
use owl2_reasoner::entities::Class;
use owl2_reasoner::iri::IRI;
use owl2_reasoner::ontology::Ontology;
use owl2_reasoner::string_table::BinaryFormatError;

#[test]
fn test_serialize_deserialize_empty() {
    let ontology = Ontology::new();
    let buffer = serialize(&ontology);

    let deserialized = deserialize(&buffer[..]).unwrap();

    assert_eq!(deserialized.classes().len(), 0);
}

#[test]
fn test_serialize_deserialize_with_classes() {
    let mut ontology = Ontology::new();
    ontology
        .add_class(Class::new(IRI::new("http://example.org/A").unwrap()))
        .unwrap();
    ontology
        .add_class(Class::new(IRI::new("http://example.org/B").unwrap()))
        .unwrap();

    let buffer = serialize(&ontology);
    let deserialized = deserialize(&buffer[..]).unwrap();

    assert_eq!(deserialized.classes().len(), 2);
}

#[test]
fn test_serialize_deserialize_with_subclass_axioms() {
    let mut ontology = Ontology::new();
    let class_a = Class::new(IRI::new("http://example.org/A").unwrap());
    let class_b = Class::new(IRI::new("http://example.org/B").unwrap());
    ontology.add_class(class_a.clone()).unwrap();
    ontology.add_class(class_b.clone()).unwrap();

    let subclass = SubClassOfAxiom::new(
        ClassExpression::Class(class_a),
        ClassExpression::Class(class_b),
    );
    ontology.add_subclass_axiom(subclass).unwrap();

    let buffer = serialize(&ontology);
    let deserialized = deserialize(&buffer[..]).unwrap();

    assert_eq!(deserialized.classes().len(), 2);
    assert_eq!(deserialized.axioms().len(), 1);
}

#[test]
fn test_invalid_magic() {
    let data = b"XXXX\x01\x00\x00\x00";

    assert!(deserialize(&data[..]).is_err());
}

#[test]
fn invalid_magic_is_reported_as_wrong_magic() {
    let mut data = serialize(&Ontology::new());
    data[0] = b'X';
    assert_eq!(deserialize(&data[..]).err(), Some(BinaryFormatError::WrongMagic));
}

#[test]
fn short_input_is_reported_as_end_of_input() {
    assert_eq!(deserialize(&b"OWL"[..]).err(), Some(BinaryFormatError::UnexpectedEof));
}

#[test]
fn round_trip_keeps_class_names() {
    let mut ontology = Ontology::new();
    ontology
        .add_class(Class::new(IRI::new("http://example.org/A").unwrap()))
        .unwrap();
    let buffer = serialize(&ontology);
    let back = deserialize(&buffer[..]).unwrap();
    assert_eq!(back.classes()[0].iri().as_str(), "http://example.org/A");
}
