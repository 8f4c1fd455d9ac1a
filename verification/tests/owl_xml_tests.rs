use owl2_reasoner::axioms::Axiom;
use owl2_reasoner::class_expression::ClassExpression;
use owl2_reasoner::error::OwlError;
use owl2_reasoner::owl_xml::{parse_owl_xml_events, OwlXmlEvent, StepOutcome, StreamingOwlXmlParser, XmlTag};
use quick_xml::events::{BytesStart, Event};
use quick_xml::Reader;

fn tag_of(e: &BytesStart) -> XmlTag {
    let name = std::str::from_utf8(e.name().as_ref()).ok().map(|s| s.to_string());
    let mut attributes = Vec::new();
    for attr in e.attributes() {
        match attr {
            Ok(a) => attributes.push((
                std::str::from_utf8(a.key.as_ref()).ok().map(|s| s.to_string()),
                a.unescape_value().ok().map(|v| v.to_string()),
            )),
            Err(_) => attributes.push((None, None)),
        }
    }
    XmlTag { name, attributes }
}

/// The events a quick-xml reader reports for a document, up to the end of
/// input or the first error.
fn events_of(xml: &str) -> Vec<OwlXmlEvent> {
    let mut reader = Reader::from_reader(xml.as_bytes());
    reader.trim_text(true);
    let mut buf = Vec::new();
    let mut out = Vec::new();
    loop {
        buf.clear();
        let ev = match reader.read_event_into(&mut buf) {
            Ok(Event::Start(e)) => OwlXmlEvent::Start(tag_of(&e), e.len()),
            Ok(Event::Empty(e)) => OwlXmlEvent::Empty(tag_of(&e)),
            Ok(Event::End(e)) => OwlXmlEvent::End(std::str::from_utf8(e.name().as_ref()).ok().map(|s| s.to_string())),
            Ok(Event::Text(e)) => OwlXmlEvent::Text(e.len()),
            Ok(Event::Eof) => OwlXmlEvent::Eof,
            Err(e) => OwlXmlEvent::Error(format!("{:?}", e)),
            _ => OwlXmlEvent::Other,
        };
        let last = matches!(ev, OwlXmlEvent::Eof | OwlXmlEvent::Error(_));
        out.push(ev);
        if last {
            return out;
        }
    }
}

fn parse(xml: &str) -> Result<Vec<Axiom>, OwlError> {
    parse_owl_xml_events(&events_of(xml))
}

fn class_iri(c: &ClassExpression) -> String {
    match c {
        ClassExpression::Class(k) => k.iri().as_str().to_string(),
        _ => panic!("expected a named class"),
    }
}

#[test]
fn test_streaming_parse_simple() {
    let xml = r#"<?xml version="1.0"?>
            <Ontology xmlns="http://www.w3.org/2002/07/owl#">
                <SubClassOf>
                    <Class about="http://example.org/A"/>
                    <Class about="http://example.org/B"/>
                </SubClassOf>
            </Ontology>"#;

    let axioms = parse(xml).unwrap();

    assert_eq!(axioms.len(), 1);
}

#[test]
fn test_streaming_parse_multiple() {
    let xml = r#"<?xml version="1.0"?>
            <Ontology xmlns="http://www.w3.org/2002/07/owl#">
                <SubClassOf>
                    <Class about="http://example.org/A"/>
                    <Class about="http://example.org/B"/>
                </SubClassOf>
                <SubClassOf>
                    <Class about="http://example.org/B"/>
                    <Class about="http://example.org/C"/>
                </SubClassOf>
            </Ontology>"#;

    let axioms = parse(xml).unwrap();

    assert_eq!(axioms.len(), 2);
}

#[test]
fn owl_xml_subclass_keeps_order_of_classes() {
    let xml = r#"<Ontology>
        <SubClassOf><Class IRI="http://example.org/A"/><Class IRI="http://example.org/B"/></SubClassOf>
    </Ontology>"#;
    let axioms = parse(xml).unwrap();
    match &axioms[0] {
        Axiom::SubClassOf(ax) => {
            assert_eq!(class_iri(ax.sub_class()), "http://example.org/A");
            assert_eq!(class_iri(ax.super_class()), "http://example.org/B");
        }
        _ => panic!("expected a subclass axiom"),
    }
}

#[test]
fn owl_xml_class_assertion() {
    let xml = r#"<Ontology>
        <ClassAssertion>
            <Class IRI="http://example.org/Person"/>
            <NamedIndividual IRI="http://example.org/alice"/>
        </ClassAssertion>
    </Ontology>"#;
    let axioms = parse(xml).unwrap();
    assert_eq!(axioms.len(), 1);
    match &axioms[0] {
        Axiom::ClassAssertion(ax) => {
            assert_eq!(ax.individual().as_str(), "http://example.org/alice");
            assert_eq!(class_iri(ax.class_expr()), "http://example.org/Person");
        }
        _ => panic!("expected a class assertion"),
    }
}

#[test]
fn owl_xml_subclass_with_one_class_gives_nothing() {
    let xml = r#"<Ontology><SubClassOf><Class IRI="http://example.org/A"/></SubClassOf></Ontology>"#;
    assert_eq!(parse(xml).unwrap().len(), 0);
}

#[test]
fn owl_xml_class_without_reference_is_an_error() {
    let xml = r#"<Ontology><SubClassOf><Class name="A"/><Class IRI="http://example.org/B"/></SubClassOf></Ontology>"#;
    match parse(xml) {
        Err(OwlError::ParseError(msg)) => assert_eq!(msg, "Class without IRI reference"),
        other => panic!("expected a parse error, got {:?}", other),
    }
}

#[test]
fn owl_xml_individual_without_reference_is_an_error() {
    let xml = r#"<Ontology><ClassAssertion><NamedIndividual/></ClassAssertion></Ontology>"#;
    match parse(xml) {
        Err(OwlError::ParseError(msg)) => assert_eq!(msg, "Individual without IRI reference"),
        other => panic!("expected a parse error, got {:?}", other),
    }
}

#[test]
fn owl_xml_reader_error_between_axioms_is_reported() {
    let events = vec![OwlXmlEvent::Error("bad".to_string())];
    match parse_owl_xml_events(&events) {
        Err(OwlError::ParseError(msg)) => assert_eq!(msg, "XML parsing error: bad"),
        other => panic!("expected a parse error, got {:?}", other),
    }
}

#[test]
fn owl_xml_step_counts_bytes_between_axioms() {
    let mut parser = StreamingOwlXmlParser::new();
    let tag = XmlTag { name: Some("Ontology".to_string()), attributes: vec![] };
    assert!(matches!(parser.step(&OwlXmlEvent::Start(tag, 8)), Ok(StepOutcome::Continue)));
    assert!(matches!(parser.step(&OwlXmlEvent::Text(5)), Ok(StepOutcome::Continue)));
    assert_eq!(parser.bytes_read(), 13);
    assert!(matches!(parser.step(&OwlXmlEvent::Eof), Ok(StepOutcome::Done)));
}
