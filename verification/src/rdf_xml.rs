//! RDF/XML input: `rio_xml` reads the document into triples, and each triple
//! is applied to the ontology: `rdf:type` declarations and assertions,
//! `rdfs:subClassOf`, `rdfs:domain`, `rdfs:range`, `owl:disjointWith`,
//! `owl:equivalentClass`, and property assertions for other predicates.

use vstd::prelude::*;
use std::sync::Arc;
use crate::iri::IRI;
use crate::error::{OwlError, OwlResult};
use crate::entities::{Class, ObjectProperty, DataProperty, NamedIndividual, AnonymousIndividual, Literal};
use crate::class_expression::{ClassExpression, ExprView};
use crate::axioms::{Axiom, SubClassOfAxiom, ClassAssertionAxiom, EquivalentClassesAxiom, DisjointClassesAxiom};
use crate::axioms_core::{PropertyAssertionAxiom, PropertyAssertionObject, DataPropertyAssertionAxiom,
    ObjectPropertyDomainAxiom, ObjectPropertyRangeAxiom};
use crate::ontology::{Ontology, class_iris};
use crate::binary_format::{add_name, object_property_names, data_property_names, individual_names};
use crate::ntriples::{NtriplesTerm, NtriplesTriple, TermView, read_line, scan_line};
use crate::parser::ParserConfig;
use crate::text::{str_eq, has_prefix, starts_with_chars, push_str, push_decimal, decimal, str_chars, string_from_chars};

verus! {

broadcast use vstd::std_specs::vec::group_vec_axioms;

/// The views of a sequence of strings.
pub open spec fn string_views(v: Seq<String>) -> Seq<Seq<char>> {
    v.map_values(|s: String| s@)
}

/// What a read of RDF/XML gave, by views.
pub open spec fn lines_view(r: Result<Vec<String>, String>) -> Result<Seq<Seq<char>>, Seq<char>> {
    match r {
        Ok(v) => Ok(string_views(v@)),
        Err(e) => Err(e@),
    }
}

/// An optional text by its view.
pub open spec fn opt_text(o: Option<&str>) -> Option<Seq<char>> {
    match o {
        Some(s) => Some(s@),
        None => None,
    }
}

/// What `rio_xml`'s RDF/XML parser makes of `content` with the base IRI
/// `base`: each triple in document order, written by `rio_api`'s `Display`
/// (subject, predicate and object in N-Triples syntax, separated by single
/// spaces), or the text of the parser's error.
pub uninterp spec fn rdf_xml_triple_lines(content: Seq<char>, base: Option<Seq<char>>) -> Result<Seq<Seq<char>>, Seq<char>>;

/// Runs `rio_xml::RdfXmlParser` over `content` (the base IRI is parsed with
/// `oxiri::Iri::parse` and dropped when that fails) and collects each
/// triple's `to_string()`; a parser error gives its `to_string()`. The
/// contract names the outcome; nothing more is claimed of it.
#[verifier::external_body]
fn read_rdf_xml(content: &str, base: Option<&str>) -> (r: Result<Vec<String>, String>)
    ensures
        lines_view(r) == rdf_xml_triple_lines(content@, opt_text(base)),
{
    let base_iri = match base {
        Some(b) => oxiri::Iri::parse(b.to_string()).ok(),
        None => None,
    };
    let mut lines: Vec<String> = Vec::new();
    let mut parser = rio_xml::RdfXmlParser::new(std::io::Cursor::new(content.as_bytes()), base_iri);
    let outcome = rio_api::parser::TriplesParser::parse_all(&mut parser,
        &mut |t: rio_api::model::Triple| -> Result<(), rio_xml::RdfXmlError> { lines.push(t.to_string()); Ok(()) });
    match outcome {
        Ok(()) => Ok(lines),
        Err(e) => Err(e.to_string()),
    }
}

/// The namespace of OWL terms.
pub open spec fn owl_ns() -> Seq<char> {
    "http://www.w3.org/2002/07/owl#"@
}

/// How a predicate IRI is handled.
#[derive(Debug, Clone, Copy, PartialEq, Eq, Structural)]
pub enum PredicateTag {
    RdfType,
    RdfsSubClassOf,
    RdfsDomain,
    RdfsRange,
    OwlDisjointWith,
    OwlEquivalentClass,
    OwlOther,
    Other,
}

/// The tag of a predicate IRI: the six handled IRIs, other IRIs of the OWL
/// namespace, and the rest.
pub open spec fn tag_of(p: Seq<char>) -> PredicateTag {
    if p == "http://www.w3.org/1999/02/22-rdf-syntax-ns#type"@ {
        PredicateTag::RdfType
    } else if p == "http://www.w3.org/2000/01/rdf-schema#subClassOf"@ {
        PredicateTag::RdfsSubClassOf
    } else if p == "http://www.w3.org/2000/01/rdf-schema#domain"@ {
        PredicateTag::RdfsDomain
    } else if p == "http://www.w3.org/2000/01/rdf-schema#range"@ {
        PredicateTag::RdfsRange
    } else if p == "http://www.w3.org/2002/07/owl#disjointWith"@ {
        PredicateTag::OwlDisjointWith
    } else if p == "http://www.w3.org/2002/07/owl#equivalentClass"@ {
        PredicateTag::OwlEquivalentClass
    } else if has_prefix(p, owl_ns()) {
        PredicateTag::OwlOther
    } else {
        PredicateTag::Other
    }
}

/// The tag of a predicate IRI.
pub fn predicate_tag(predicate_iri: &str) -> (r: PredicateTag)
    ensures
        r == tag_of(predicate_iri@),
{
    if str_eq(predicate_iri, "http://www.w3.org/1999/02/22-rdf-syntax-ns#type") {
        PredicateTag::RdfType
    } else if str_eq(predicate_iri, "http://www.w3.org/2000/01/rdf-schema#subClassOf") {
        PredicateTag::RdfsSubClassOf
    } else if str_eq(predicate_iri, "http://www.w3.org/2000/01/rdf-schema#domain") {
        PredicateTag::RdfsDomain
    } else if str_eq(predicate_iri, "http://www.w3.org/2000/01/rdf-schema#range") {
        PredicateTag::RdfsRange
    } else if str_eq(predicate_iri, "http://www.w3.org/2002/07/owl#disjointWith") {
        PredicateTag::OwlDisjointWith
    } else if str_eq(predicate_iri, "http://www.w3.org/2002/07/owl#equivalentClass") {
        PredicateTag::OwlEquivalentClass
    } else if starts_with_chars(&str_chars(predicate_iri), "http://www.w3.org/2002/07/owl#") {
        PredicateTag::OwlOther
    } else {
        PredicateTag::Other
    }
}


/// A literal by its view: lexical form, datatype IRI text, language tag.
pub open spec fn literal_view(l: Literal) -> (Seq<char>, Option<Seq<char>>, Option<Seq<char>>) {
    (l.lexical_form@,
        match l.datatype { Some(d) => Some((*d)@), None => None },
        match l.language { Some(t) => Some(t@), None => None })
}

/// What an axiom that RDF/XML input adds says, by views.
pub enum RdfKey {
    Sub(ExprView, ExprView),
    Assertion(Seq<char>, ExprView),
    Domain(Seq<char>, Seq<char>),
    Range(Seq<char>, Seq<char>),
    Disjoint(Seq<ExprView>),
    Equivalent(Seq<ExprView>),
    ObjectAssertion(Seq<char>, Seq<char>, Seq<char>),
    AnonymousAssertion(Seq<char>, Seq<char>, Seq<char>),
    DataAssertion(Seq<char>, Seq<char>, (Seq<char>, Option<Seq<char>>, Option<Seq<char>>)),
    Other,
}

/// The key of an axiom.
pub open spec fn rdf_key(a: Axiom) -> RdfKey {
    match a {
        Axiom::SubClassOf(ax) => RdfKey::Sub(ax.sub_class_spec()@, ax.super_class_spec()@),
        Axiom::ClassAssertion(ax) => RdfKey::Assertion(ax.individual_spec()@, ax.class_expr_spec()@),
        Axiom::ObjectPropertyDomain(ax) => RdfKey::Domain(ax.property_spec()@, ax.domain_spec()@),
        Axiom::ObjectPropertyRange(ax) => RdfKey::Range(ax.property_spec()@, ax.range_spec()@),
        Axiom::DisjointClasses(ax) => RdfKey::Disjoint(ax.classes_spec()@.map_values(|e: ClassExpression| e@)),
        Axiom::EquivalentClasses(ax) => RdfKey::Equivalent(ax.classes_spec()@.map_values(|e: ClassExpression| e@)),
        Axiom::PropertyAssertion(ax) => match ax.object_spec() {
            PropertyAssertionObject::Named(o) => RdfKey::ObjectAssertion(ax.subject_spec()@, ax.property_spec()@, (*o)@),
            PropertyAssertionObject::Anonymous(b) => RdfKey::AnonymousAssertion(ax.subject_spec()@,
                ax.property_spec()@, b.node_id@),
        },
        Axiom::DataPropertyAssertion(ax) => RdfKey::DataAssertion(ax.subject_spec()@, ax.property_spec()@,
            literal_view(ax.value_spec())),
        _ => RdfKey::Other,
    }
}

/// The part of an ontology that RDF/XML input builds.
pub struct RdfState {
    pub classes: Seq<Seq<char>>,
    pub object_properties: Seq<Seq<char>>,
    pub data_properties: Seq<Seq<char>>,
    pub individuals: Seq<Seq<char>>,
    pub anonymous: Seq<Seq<char>>,
    pub axioms: Seq<RdfKey>,
}

/// The RDF/XML part of an ontology.
pub open spec fn rdf_state_of(o: Ontology) -> RdfState {
    RdfState {
        classes: class_iris(o.classes_spec()),
        object_properties: object_property_names(o.object_properties_spec()),
        data_properties: data_property_names(o.data_properties_spec()),
        individuals: individual_names(o.named_individuals_spec()),
        anonymous: o.anonymous_ids_spec(),
        axioms: o.axioms_spec().map_values(|a: Axiom| rdf_key(a)),
    }
}

/// The IRI text a subject term stands for: an IRI, or `_:` and the label
/// of a blank node.
pub open spec fn subject_text(t: TermView) -> Option<Seq<char>> {
    match t {
        TermView::Iri(i) => Some(i),
        TermView::Blank(l) => Some("_:"@ + l),
        _ => None,
    }
}

/// What `rdf:type` with class IRI `o` does for subject `s`.
pub open spec fn apply_type(st: RdfState, s: Seq<char>, o: Seq<char>) -> RdfState {
    if o == "http://www.w3.org/2002/07/owl#Class"@ {
        RdfState { classes: add_name(st.classes, s), ..st }
    } else if o == "http://www.w3.org/2002/07/owl#ObjectProperty"@ {
        RdfState { object_properties: add_name(st.object_properties, s), ..st }
    } else if o == "http://www.w3.org/2002/07/owl#DatatypeProperty"@ {
        RdfState { data_properties: add_name(st.data_properties, s), ..st }
    } else if o == "http://www.w3.org/2002/07/owl#NamedIndividual"@ {
        RdfState { individuals: add_name(st.individuals, s), ..st }
    } else {
        RdfState {
            individuals: add_name(st.individuals, s),
            axioms: st.axioms.push(RdfKey::Assertion(s, ExprView::Class(o))),
            ..st
        }
    }
}

/// What a property assertion with predicate `p` does for subject `s`: `s`
/// becomes a named individual; a named object does too and the assertion is
/// an object property assertion; a blank node object becomes an anonymous
/// individual `_:label`; a literal gives a data property assertion.
pub open spec fn apply_property(st: RdfState, s: Seq<char>, p: Seq<char>, o: TermView) -> RdfState {
    let st1 = RdfState { individuals: add_name(st.individuals, s), ..st };
    match o {
        TermView::Iri(oi) => RdfState {
            individuals: add_name(st1.individuals, oi),
            axioms: st1.axioms.push(RdfKey::ObjectAssertion(s, p, oi)),
            ..st1
        },
        TermView::Blank(l) => RdfState {
            anonymous: add_name(st1.anonymous, "_:"@ + l),
            axioms: st1.axioms.push(RdfKey::AnonymousAssertion(s, p, "_:"@ + l)),
            ..st1
        },
        TermView::Literal(v, lang, dt) => RdfState {
            axioms: st1.axioms.push(RdfKey::DataAssertion(s, p, (v, dt, lang))),
            ..st1
        },
    }
}

/// What one triple does; the statements that need an IRI object do nothing
/// with another object.
pub open spec fn apply_rdf(st: RdfState, s: Seq<char>, p: Seq<char>, o: TermView) -> RdfState {
    match tag_of(p) {
        PredicateTag::RdfType => match o {
            TermView::Iri(oi) => apply_type(st, s, oi),
            _ => st,
        },
        PredicateTag::RdfsSubClassOf => match o {
            TermView::Iri(oi) => RdfState {
                axioms: st.axioms.push(RdfKey::Sub(ExprView::Class(s), ExprView::Class(oi))), ..st },
            _ => st,
        },
        PredicateTag::RdfsDomain => match o {
            TermView::Iri(oi) => RdfState { axioms: st.axioms.push(RdfKey::Domain(s, oi)), ..st },
            _ => st,
        },
        PredicateTag::RdfsRange => match o {
            TermView::Iri(oi) => RdfState { axioms: st.axioms.push(RdfKey::Range(s, oi)), ..st },
            _ => st,
        },
        PredicateTag::OwlDisjointWith => match o {
            TermView::Iri(oi) => RdfState {
                axioms: st.axioms.push(RdfKey::Disjoint(seq![ExprView::Class(s), ExprView::Class(oi)])), ..st },
            _ => st,
        },
        PredicateTag::OwlEquivalentClass => match o {
            TermView::Iri(oi) => RdfState {
                axioms: st.axioms.push(RdfKey::Equivalent(seq![ExprView::Class(s), ExprView::Class(oi)])), ..st },
            _ => st,
        },
        PredicateTag::OwlOther => st,
        PredicateTag::Other => apply_property(st, s, p, o),
    }
}

/// The tag of `rdfs:domain` and of `rdfs:range`.
proof fn lemma_domain_range_tags()
    ensures
        tag_of("http://www.w3.org/2000/01/rdf-schema#domain"@) == PredicateTag::RdfsDomain,
        tag_of("http://www.w3.org/2000/01/rdf-schema#range"@) == PredicateTag::RdfsRange,
{
    reveal_strlit("http://www.w3.org/1999/02/22-rdf-syntax-ns#type");
    reveal_strlit("http://www.w3.org/2000/01/rdf-schema#subClassOf");
    reveal_strlit("http://www.w3.org/2000/01/rdf-schema#domain");
    reveal_strlit("http://www.w3.org/2000/01/rdf-schema#range");
    let ty = "http://www.w3.org/1999/02/22-rdf-syntax-ns#type"@;
    let sub = "http://www.w3.org/2000/01/rdf-schema#subClassOf"@;
    let dom = "http://www.w3.org/2000/01/rdf-schema#domain"@;
    let ran = "http://www.w3.org/2000/01/rdf-schema#range"@;
    assert(dom != ty) by { assert(dom[18] != ty[18]); }
    assert(dom != sub) by { assert(dom.len() != sub.len()); }
    assert(ran != ty) by { assert(ran[18] != ty[18]); }
    assert(ran != sub) by { assert(ran.len() != sub.len()); }
    assert(ran != dom) by { assert(ran.len() != dom.len()); }
}

/// The axioms of `after` are those of `before` and one more, whose key is `k`.
proof fn lemma_one_axiom_added(before: Ontology, after: Ontology, k: RdfKey)
    requires
        rdf_state_of(after).axioms == rdf_state_of(before).axioms.push(k),
    ensures
        after.axioms_spec().len() == before.axioms_spec().len() + 1,
        forall|i: int| 0 <= i < before.axioms_spec().len()
            ==> rdf_key(#[trigger] after.axioms_spec()[i]) == rdf_key(before.axioms_spec()[i]),
        rdf_key(after.axioms_spec().last()) == k,
{
    let a = after.axioms_spec();
    let b = before.axioms_spec();
    assert(a.map_values(|x: Axiom| rdf_key(x)).len() == a.len());
    assert(b.map_values(|x: Axiom| rdf_key(x)).len() == b.len());
    assert forall|i: int| 0 <= i < b.len() implies rdf_key(#[trigger] a[i]) == rdf_key(b[i]) by {
        assert(a.map_values(|x: Axiom| rdf_key(x))[i] == rdf_key(a[i]));
        assert(b.map_values(|x: Axiom| rdf_key(x))[i] == rdf_key(b[i]));
    }
    assert(a.map_values(|x: Axiom| rdf_key(x))[b.len() as int] == rdf_key(a.last()));
}

/// Law: the triple `p rdfs:domain c` (with an IRI object) adds to an
/// ontology exactly one axiom, at the end: the object property domain axiom
/// of property `p` with domain `c`.
pub proof fn lemma_domain_triple(before: Ontology, after: Ontology, p: Seq<char>, c: Seq<char>)
    requires
        rdf_state_of(after) == apply_rdf(rdf_state_of(before), p, "http://www.w3.org/2000/01/rdf-schema#domain"@,
            TermView::Iri(c)),
    ensures
        after.axioms_spec().len() == before.axioms_spec().len() + 1,
        forall|i: int| 0 <= i < before.axioms_spec().len()
            ==> rdf_key(#[trigger] after.axioms_spec()[i]) == rdf_key(before.axioms_spec()[i]),
        after.axioms_spec().last() matches Axiom::ObjectPropertyDomain(ax)
            && ax.property_spec()@ == p && ax.domain_spec()@ == c,
{
    lemma_domain_range_tags();
    lemma_one_axiom_added(before, after, RdfKey::Domain(p, c));
}

/// Law: the triple `p rdfs:range c` (with an IRI object) adds to an
/// ontology exactly one axiom, at the end: the object property range axiom
/// of property `p` with range `c`.
pub proof fn lemma_range_triple(before: Ontology, after: Ontology, p: Seq<char>, c: Seq<char>)
    requires
        rdf_state_of(after) == apply_rdf(rdf_state_of(before), p, "http://www.w3.org/2000/01/rdf-schema#range"@,
            TermView::Iri(c)),
    ensures
        after.axioms_spec().len() == before.axioms_spec().len() + 1,
        forall|i: int| 0 <= i < before.axioms_spec().len()
            ==> rdf_key(#[trigger] after.axioms_spec()[i]) == rdf_key(before.axioms_spec()[i]),
        after.axioms_spec().last() matches Axiom::ObjectPropertyRange(ax)
            && ax.property_spec()@ == p && ax.range_spec()@ == c,
{
    lemma_domain_range_tags();
    lemma_one_axiom_added(before, after, RdfKey::Range(p, c));
}

/// What one triple line does to a state: nothing can be made of a line
/// that does not scan as a triple, whose subject is a literal or whose
/// predicate is not an IRI.
pub open spec fn apply_rdf_line(st: RdfState, line: Seq<char>) -> Option<RdfState> {
    match scan_line(line) {
        Some((s, p, o)) => match (subject_text(s), p) {
            (Some(si), TermView::Iri(pi)) => Some(apply_rdf(st, si, pi, o)),
            _ => None,
        },
        None => None,
    }
}

/// The state the lines build from `st`, in order; nothing when a line fails.
pub open spec fn run_rdf_lines(st: RdfState, lines: Seq<Seq<char>>) -> Option<RdfState>
    decreases lines.len(),
{
    if lines.len() == 0 {
        Some(st)
    } else {
        match run_rdf_lines(st, lines.drop_last()) {
            Some(mid) => apply_rdf_line(mid, lines.last()),
            None => None,
        }
    }
}

/// The state of an empty ontology.
pub open spec fn empty_rdf_state() -> RdfState {
    RdfState {
        classes: Seq::empty(),
        object_properties: Seq::empty(),
        data_properties: Seq::empty(),
        individuals: Seq::empty(),
        anonymous: Seq::empty(),
        axioms: Seq::empty(),
    }
}


/// Adds a class named `iri`.
fn add_class_named(ontology: &mut Ontology, iri: &IRI)
    ensures
        final(ontology).iri_spec() == old(ontology).iri_spec(),
        final(ontology).version_iri_spec() == old(ontology).version_iri_spec(),
        rdf_state_of(*final(ontology)) == (RdfState { classes: add_name(rdf_state_of(*old(ontology)).classes, iri@),
            ..rdf_state_of(*old(ontology)) }),
{
    let ghost before = ontology.classes_spec();
    let c = Class::new(iri.clone());
    let _ = ontology.add_class(c);
    proof {
        if !class_iris(before).contains(iri@) {
            assert(class_iris(before.push(c)) =~= class_iris(before).push(iri@));
        }
    }
}

/// Adds an object property named `iri`.
fn add_object_property_named(ontology: &mut Ontology, iri: &IRI)
    ensures
        final(ontology).iri_spec() == old(ontology).iri_spec(),
        final(ontology).version_iri_spec() == old(ontology).version_iri_spec(),
        rdf_state_of(*final(ontology)) == (RdfState {
            object_properties: add_name(rdf_state_of(*old(ontology)).object_properties, iri@),
            ..rdf_state_of(*old(ontology)) }),
{
    let ghost before = ontology.object_properties_spec();
    let ghost names = object_property_names(before);
    let prop = ObjectProperty::new(iri.clone());
    proof {
        if names.contains(iri@) {
            let j = choose|j: int| 0 <= j < names.len() && names[j] == iri@;
            assert(before[j].iri_spec()@ == prop.iri_spec()@);
        } else {
            assert forall|j: int| 0 <= j < before.len() implies #[trigger] before[j].iri_spec()@ != prop.iri_spec()@ by {
                assert(names[j] == before[j].iri_spec()@);
            }
        }
    }
    let _ = ontology.add_object_property(prop);
    proof {
        if !names.contains(iri@) {
            assert(object_property_names(before.push(prop)) =~= names.push(iri@));
        }
    }
}

/// Adds a data property named `iri`.
fn add_data_property_named(ontology: &mut Ontology, iri: &IRI)
    ensures
        final(ontology).iri_spec() == old(ontology).iri_spec(),
        final(ontology).version_iri_spec() == old(ontology).version_iri_spec(),
        rdf_state_of(*final(ontology)) == (RdfState {
            data_properties: add_name(rdf_state_of(*old(ontology)).data_properties, iri@),
            ..rdf_state_of(*old(ontology)) }),
{
    let ghost before = ontology.data_properties_spec();
    let ghost names = data_property_names(before);
    let prop = DataProperty::new(iri.clone());
    proof {
        if names.contains(iri@) {
            let j = choose|j: int| 0 <= j < names.len() && names[j] == iri@;
            assert(before[j].iri_spec()@ == prop.iri_spec()@);
        } else {
            assert forall|j: int| 0 <= j < before.len() implies #[trigger] before[j].iri_spec()@ != prop.iri_spec()@ by {
                assert(names[j] == before[j].iri_spec()@);
            }
        }
    }
    let _ = ontology.add_data_property(prop);
    proof {
        if !names.contains(iri@) {
            assert(data_property_names(before.push(prop)) =~= names.push(iri@));
        }
    }
}

/// Adds a named individual named `iri`.
fn add_individual_named(ontology: &mut Ontology, iri: &IRI)
    ensures
        final(ontology).iri_spec() == old(ontology).iri_spec(),
        final(ontology).version_iri_spec() == old(ontology).version_iri_spec(),
        rdf_state_of(*final(ontology)) == (RdfState {
            individuals: add_name(rdf_state_of(*old(ontology)).individuals, iri@),
            ..rdf_state_of(*old(ontology)) }),
{
    let ghost before = ontology.named_individuals_spec();
    let ghost names = individual_names(before);
    let ind = NamedIndividual::new(iri.clone());
    proof {
        if names.contains(iri@) {
            let j = choose|j: int| 0 <= j < names.len() && names[j] == iri@;
            assert(before[j].iri_spec()@ == ind.iri_spec()@);
        } else {
            assert forall|j: int| 0 <= j < before.len() implies #[trigger] before[j].iri_spec()@ != ind.iri_spec()@ by {
                assert(names[j] == before[j].iri_spec()@);
            }
        }
    }
    let _ = ontology.add_named_individual(ind);
    proof {
        if !names.contains(iri@) {
            assert(individual_names(before.push(ind)) =~= names.push(iri@));
        }
    }
}

/// Appends an axiom.
fn push_axiom(ontology: &mut Ontology, a: Axiom)
    ensures
        final(ontology).iri_spec() == old(ontology).iri_spec(),
        final(ontology).version_iri_spec() == old(ontology).version_iri_spec(),
        rdf_state_of(*final(ontology)) == (RdfState {
            axioms: rdf_state_of(*old(ontology)).axioms.push(rdf_key(a)),
            ..rdf_state_of(*old(ontology)) }),
{
    let ghost before = ontology.axioms_spec();
    let ghost key = rdf_key(a);
    let _ = ontology.add_axiom(a);
    proof {
        assert(ontology.axioms_spec().map_values(|x: Axiom| rdf_key(x))
            =~= before.map_values(|x: Axiom| rdf_key(x)).push(key));
    }
}

/// The text `_:` followed by `label`.
fn blank_label(label: &str) -> (r: String)
    ensures
        r@ == "_:"@ + label@,
{
    let mut cs: Vec<char> = Vec::new();
    push_str(&mut cs, "_:");
    push_str(&mut cs, label);
    string_from_chars(&cs)
}

/// The object of a triple, as the handlers take it.
#[derive(Debug)]
pub enum ProcessedObject {
    Iri(IRI),
    BlankNode(String),
    Literal(Literal),
}

impl ProcessedObject {
    /// The IRI of a named object.
    pub fn as_iri(&self) -> (r: Option<&IRI>)
        ensures
            match self {
                ProcessedObject::Iri(i) => r == Some(i),
                _ => r is None,
            },
    {
        match self {
            ProcessedObject::Iri(i) => Some(i),
            _ => None,
        }
    }
}

/// The term a processed object comes from.
pub open spec fn object_term(o: ProcessedObject) -> TermView {
    match o {
        ProcessedObject::Iri(i) => TermView::Iri(i@),
        ProcessedObject::BlankNode(l) => TermView::Blank(l@),
        ProcessedObject::Literal(l) => TermView::Literal(l.lexical_form@,
            match l.language { Some(t) => Some(t@), None => None },
            match l.datatype { Some(d) => Some((*d)@), None => None }),
    }
}


/// The streaming RDF/XML parser.
#[derive(Debug)]
pub struct RdfXmlStreamingParser {
    pub config: ParserConfig,
    pub base_iri: Option<IRI>,
    pub triple_counter: u64,
}

/// The base IRI text, if any.
pub open spec fn base_text(b: Option<IRI>) -> Option<Seq<char>> {
    match b {
        Some(i) => Some(i@),
        None => None,
    }
}

impl RdfXmlStreamingParser {
    /// Creates a parser with the given configuration and no base IRI.
    pub fn new(config: ParserConfig) -> (r: Self)
        ensures
            r.config == config,
            r.base_iri is None,
            r.triple_counter == 0,
    {
        RdfXmlStreamingParser { config, base_iri: None, triple_counter: 0 }
    }

    /// `rdf:type`: declares a class, object property, data property or
    /// named individual, or asserts the subject an instance of the class.
    fn handle_type_assertion(&mut self, ontology: &mut Ontology, subject: &IRI, object_iri: &IRI)
        ensures
            final(ontology).iri_spec() == old(ontology).iri_spec(),
            final(ontology).version_iri_spec() == old(ontology).version_iri_spec(),
            *final(self) == *old(self),
            rdf_state_of(*final(ontology)) == apply_type(rdf_state_of(*old(ontology)), subject@, object_iri@),
    {
        let o = object_iri.as_str();
        if str_eq(o, "http://www.w3.org/2002/07/owl#Class") {
            add_class_named(ontology, subject);
        } else if str_eq(o, "http://www.w3.org/2002/07/owl#ObjectProperty") {
            add_object_property_named(ontology, subject);
        } else if str_eq(o, "http://www.w3.org/2002/07/owl#DatatypeProperty") {
            add_data_property_named(ontology, subject);
        } else if str_eq(o, "http://www.w3.org/2002/07/owl#NamedIndividual") {
            add_individual_named(ontology, subject);
        } else {
            add_individual_named(ontology, subject);
            let assertion = ClassAssertionAxiom::new(Arc::new(subject.clone()),
                ClassExpression::Class(Class::new(object_iri.clone())));
            push_axiom(ontology, Axiom::ClassAssertion(Box::new(assertion)));
        }
    }

    /// A property assertion for any other predicate.
    fn handle_property_assertion(&mut self, ontology: &mut Ontology, subject: &IRI, predicate: &IRI,
        object: &ProcessedObject)
        ensures
            final(ontology).iri_spec() == old(ontology).iri_spec(),
            final(ontology).version_iri_spec() == old(ontology).version_iri_spec(),
            *final(self) == *old(self),
            rdf_state_of(*final(ontology)) == apply_property(rdf_state_of(*old(ontology)), subject@, predicate@,
                object_term(*object)),
    {
        add_individual_named(ontology, subject);
        match object {
            ProcessedObject::Iri(object_iri) => {
                add_individual_named(ontology, object_iri);
                let assertion = PropertyAssertionAxiom::new(Arc::new(subject.clone()), Arc::new(predicate.clone()),
                    Arc::new(object_iri.clone()));
                push_axiom(ontology, Axiom::PropertyAssertion(Box::new(assertion)));
            },
            ProcessedObject::BlankNode(node_id) => {
                let label = blank_label(node_id.as_str());
                let ghost before = *ontology;
                let _ = ontology.add_anonymous_individual(AnonymousIndividual { node_id: label.clone() });
                proof {
                    assert(rdf_state_of(*ontology).anonymous == add_name(rdf_state_of(before).anonymous, label@));
                    assert(rdf_state_of(*ontology).axioms =~= rdf_state_of(before).axioms);
                }
                let assertion = PropertyAssertionAxiom::new_with_anonymous(Arc::new(subject.clone()),
                    Arc::new(predicate.clone()), AnonymousIndividual { node_id: label });
                push_axiom(ontology, Axiom::PropertyAssertion(Box::new(assertion)));
            },
            ProcessedObject::Literal(literal) => {
                let value = Literal {
                    lexical_form: literal.lexical_form.clone(),
                    datatype: match &literal.datatype { Some(d) => Some(Arc::new((**d).clone())), None => None },
                    language: match &literal.language { Some(t) => Some(t.clone()), None => None },
                };
                let assertion = DataPropertyAssertionAxiom::new(Arc::new(subject.clone()), Arc::new(predicate.clone()),
                    value);
                push_axiom(ontology, Axiom::DataPropertyAssertion(Box::new(assertion)));
            },
        }
    }

    /// `rdfs:subClassOf` between named classes.
    fn handle_subclass_of(&mut self, ontology: &mut Ontology, subject: &IRI, object_iri: &IRI)
        ensures
            final(ontology).iri_spec() == old(ontology).iri_spec(),
            final(ontology).version_iri_spec() == old(ontology).version_iri_spec(),
            *final(self) == *old(self),
            rdf_state_of(*final(ontology)) == (RdfState {
                axioms: rdf_state_of(*old(ontology)).axioms.push(RdfKey::Sub(ExprView::Class(subject@),
                    ExprView::Class(object_iri@))),
                ..rdf_state_of(*old(ontology)) }),
    {
        let subclass = SubClassOfAxiom::new(ClassExpression::Class(Class::new(subject.clone())),
            ClassExpression::Class(Class::new(object_iri.clone())));
        push_axiom(ontology, Axiom::SubClassOf(Box::new(subclass)));
    }

    /// `rdfs:domain`, read as an object property domain.
    fn handle_domain(&mut self, ontology: &mut Ontology, subject: &IRI, object_iri: &IRI)
        ensures
            final(ontology).iri_spec() == old(ontology).iri_spec(),
            final(ontology).version_iri_spec() == old(ontology).version_iri_spec(),
            *final(self) == *old(self),
            rdf_state_of(*final(ontology)) == (RdfState {
                axioms: rdf_state_of(*old(ontology)).axioms.push(RdfKey::Domain(subject@, object_iri@)),
                ..rdf_state_of(*old(ontology)) }),
    {
        let domain = ObjectPropertyDomainAxiom::new(Arc::new(subject.clone()), Arc::new(object_iri.clone()));
        push_axiom(ontology, Axiom::ObjectPropertyDomain(Box::new(domain)));
    }

    /// `rdfs:range`, read as an object property range.
    fn handle_range(&mut self, ontology: &mut Ontology, subject: &IRI, object_iri: &IRI)
        ensures
            final(ontology).iri_spec() == old(ontology).iri_spec(),
            final(ontology).version_iri_spec() == old(ontology).version_iri_spec(),
            *final(self) == *old(self),
            rdf_state_of(*final(ontology)) == (RdfState {
                axioms: rdf_state_of(*old(ontology)).axioms.push(RdfKey::Range(subject@, object_iri@)),
                ..rdf_state_of(*old(ontology)) }),
    {
        let range = ObjectPropertyRangeAxiom::new(Arc::new(subject.clone()), Arc::new(object_iri.clone()));
        push_axiom(ontology, Axiom::ObjectPropertyRange(Box::new(range)));
    }

    /// `owl:disjointWith` and `owl:equivalentClass` with a named class;
    /// other OWL predicates add nothing.
    fn handle_owl_property(&mut self, ontology: &mut Ontology, subject: &IRI, predicate_tag: PredicateTag,
        object: &ProcessedObject)
        requires
            predicate_tag == PredicateTag::OwlDisjointWith || predicate_tag == PredicateTag::OwlEquivalentClass
                || predicate_tag == PredicateTag::OwlOther,
        ensures
            final(ontology).iri_spec() == old(ontology).iri_spec(),
            final(ontology).version_iri_spec() == old(ontology).version_iri_spec(),
            *final(self) == *old(self),
            rdf_state_of(*final(ontology)) == match (predicate_tag, object_term(*object)) {
                (PredicateTag::OwlDisjointWith, TermView::Iri(oi)) => RdfState {
                    axioms: rdf_state_of(*old(ontology)).axioms.push(RdfKey::Disjoint(
                        seq![ExprView::Class(subject@), ExprView::Class(oi)])),
                    ..rdf_state_of(*old(ontology)) },
                (PredicateTag::OwlEquivalentClass, TermView::Iri(oi)) => RdfState {
                    axioms: rdf_state_of(*old(ontology)).axioms.push(RdfKey::Equivalent(
                        seq![ExprView::Class(subject@), ExprView::Class(oi)])),
                    ..rdf_state_of(*old(ontology)) },
                _ => rdf_state_of(*old(ontology)),
            },
    {
        match predicate_tag {
            PredicateTag::OwlDisjointWith => {
                if let Some(object_iri) = object.as_iri() {
                    let mut classes: Vec<ClassExpression> = Vec::new();
                    classes.push(ClassExpression::Class(Class::new(subject.clone())));
                    classes.push(ClassExpression::Class(Class::new(object_iri.clone())));
                    let disjoint = DisjointClassesAxiom::new(classes);
                    proof {
                        assert(disjoint.classes_spec()@.map_values(|e: ClassExpression| e@)
                            =~= seq![ExprView::Class(subject@), ExprView::Class(object_iri@)]);
                    }
                    push_axiom(ontology, Axiom::DisjointClasses(Box::new(disjoint)));
                }
            },
            PredicateTag::OwlEquivalentClass => {
                if let Some(object_iri) = object.as_iri() {
                    let mut classes: Vec<ClassExpression> = Vec::new();
                    classes.push(ClassExpression::Class(Class::new(subject.clone())));
                    classes.push(ClassExpression::Class(Class::new(object_iri.clone())));
                    let equivalent = EquivalentClassesAxiom::new(classes);
                    proof {
                        assert(equivalent.classes_spec()@.map_values(|e: ClassExpression| e@)
                            =~= seq![ExprView::Class(subject@), ExprView::Class(object_iri@)]);
                    }
                    push_axiom(ontology, Axiom::EquivalentClasses(Box::new(equivalent)));
                }
            },
            _ => {},
        }
    }

    /// Applies one triple: subject IRI, predicate IRI and object.
    fn apply_triple_terms_core(&mut self, ontology: &mut Ontology, subject_iri: &IRI, predicate_iri: &IRI,
        object: &ProcessedObject)
        ensures
            final(ontology).iri_spec() == old(ontology).iri_spec(),
            final(ontology).version_iri_spec() == old(ontology).version_iri_spec(),
            *final(self) == *old(self),
            rdf_state_of(*final(ontology)) == apply_rdf(rdf_state_of(*old(ontology)), subject_iri@, predicate_iri@,
                object_term(*object)),
    {
        let tag = predicate_tag(predicate_iri.as_str());
        match tag {
            PredicateTag::RdfType => {
                if let Some(object_iri) = object.as_iri() {
                    self.handle_type_assertion(ontology, subject_iri, object_iri);
                }
            },
            PredicateTag::RdfsSubClassOf => {
                if let Some(object_iri) = object.as_iri() {
                    self.handle_subclass_of(ontology, subject_iri, object_iri);
                }
            },
            PredicateTag::RdfsDomain => {
                if let Some(object_iri) = object.as_iri() {
                    self.handle_domain(ontology, subject_iri, object_iri);
                }
            },
            PredicateTag::RdfsRange => {
                if let Some(object_iri) = object.as_iri() {
                    self.handle_range(ontology, subject_iri, object_iri);
                }
            },
            PredicateTag::OwlDisjointWith | PredicateTag::OwlEquivalentClass | PredicateTag::OwlOther => {
                self.handle_owl_property(ontology, subject_iri, tag, object);
            },
            PredicateTag::Other => {
                self.handle_property_assertion(ontology, subject_iri, predicate_iri, object);
            },
        }
    }
}


/// A failed prefix fails the whole run.
proof fn lemma_run_failed_prefix(st: RdfState, lines: Seq<Seq<char>>, k: int)
    requires
        0 <= k <= lines.len(),
        run_rdf_lines(st, lines.take(k)) is None,
    ensures
        run_rdf_lines(st, lines) is None,
    decreases lines.len() - k,
{
    if k < lines.len() {
        assert(lines.take(k + 1).drop_last() == lines.take(k));
        lemma_run_failed_prefix(st, lines, k + 1);
    } else {
        assert(lines.take(k) == lines);
    }
}

/// The error for a triple the handlers cannot take.
fn unsupported_triple() -> (r: OwlError)
    ensures
        r matches OwlError::ParseError(m) && m@ == "RDF/XML triple with a literal subject or a non-IRI predicate"@,
{
    OwlError::ParseError(String::from_str("RDF/XML triple with a literal subject or a non-IRI predicate"))
}

/// The message of a strict-mode failure with `skipped` triples left out.
pub open spec fn strict_mode_message(skipped: nat) -> Seq<char> {
    "Experimental RDF/XML strict mode failed: "@ + decimal(skipped) + " unsupported triples skipped"@
}

impl RdfXmlStreamingParser {
    /// In strict mode no triple may have been skipped (RDF-star terms): a
    /// parse error that gives their number when some were.
    pub fn ensure_experimental_strict_mode(strict_mode: bool, skipped: usize) -> (r: OwlResult<()>)
        ensures
            strict_mode && skipped > 0 ==> (r matches Err(OwlError::ParseError(m)) && m@ == strict_mode_message(skipped as nat)),
            !(strict_mode && skipped > 0) ==> r is Ok,
    {
        if strict_mode && skipped > 0 {
            let mut text: Vec<char> = Vec::new();
            push_str(&mut text, "Experimental RDF/XML strict mode failed: ");
            push_decimal(&mut text, skipped);
            push_str(&mut text, " unsupported triples skipped");
            proof {
                reveal_strlit("Experimental RDF/XML strict mode failed: ");
                reveal_strlit(" unsupported triples skipped");
            }
            return Err(OwlError::ParseError(string_from_chars(&text)));
        }
        Ok(())
    }
}

impl RdfXmlStreamingParser {
    /// The IRI a subject term stands for: the IRI itself, or `_:` and the
    /// label of a blank node; a literal is no subject.
    pub fn subject_to_iri(&self, subject: &NtriplesTerm) -> (r: OwlResult<IRI>)
        ensures
            match subject_text(subject@) {
                Some(t) => r matches Ok(i) && i@ == t,
                None => r matches Err(e) && e is ParseError,
            },
    {
        match subject {
            NtriplesTerm::IRI(i) => Ok(i.clone()),
            NtriplesTerm::BlankNode(l) => {
                let label = blank_label(l.as_str());
                proof {
                    reveal_strlit("_:");
                }
                match IRI::new(label.as_str()) {
                    Ok(i) => Ok(i),
                    Err(e) => Err(e),
                }
            },
            NtriplesTerm::Literal { .. } => Err(unsupported_triple()),
        }
    }

    /// The object of a triple as the handlers take it; every term is one.
    pub fn process_object(&self, term: &NtriplesTerm) -> (r: OwlResult<ProcessedObject>)
        ensures
            r matches Ok(o) && object_term(o) == term@,
    {
        match term {
            NtriplesTerm::IRI(i) => Ok(ProcessedObject::Iri(i.clone())),
            NtriplesTerm::BlankNode(l) => Ok(ProcessedObject::BlankNode(l.clone())),
            NtriplesTerm::Literal { value, language, datatype } => Ok(ProcessedObject::Literal(Literal {
                lexical_form: value.clone(),
                datatype: match datatype { Some(d) => Some(Arc::new(d.clone())), None => None },
                language: match language { Some(t) => Some(t.clone()), None => None },
            })),
        }
    }

    /// Applies one triple read from a line.
    fn process_triple(&mut self, ontology: &mut Ontology, triple: &NtriplesTriple) -> (r: OwlResult<()>)
        ensures
            final(ontology).iri_spec() == old(ontology).iri_spec(),
            final(ontology).version_iri_spec() == old(ontology).version_iri_spec(),
            match (subject_text(triple.subject@), triple.predicate@) {
                (Some(si), TermView::Iri(pi)) => r is Ok && rdf_state_of(*final(ontology))
                    == apply_rdf(rdf_state_of(*old(ontology)), si, pi, triple.object@),
                _ => r is Err && rdf_state_of(*final(ontology)) == rdf_state_of(*old(ontology)),
            },
            r matches Err(e) ==> e is ParseError,
            final(self).config == old(self).config,
            final(self).base_iri == old(self).base_iri,
    {
        if self.triple_counter < u64::MAX {
            self.triple_counter = self.triple_counter + 1;
        }
        let subject_iri = match self.subject_to_iri(&triple.subject) {
            Ok(i) => i,
            Err(e) => { return Err(e); },
        };
        let predicate_iri = match &triple.predicate {
            NtriplesTerm::IRI(i) => i,
            _ => { return Err(unsupported_triple()); },
        };
        let object = match self.process_object(&triple.object) {
            Ok(o) => o,
            Err(e) => { return Err(e); },
        };
        assert(object_term(object) == triple.object@);
        self.apply_triple_terms_core(ontology, &subject_iri, predicate_iri, &object);
        Ok(())
    }

    /// Builds an ontology from triple lines in N-Triples syntax, in order
    /// (see `run_rdf_lines`).
    pub fn apply_triple_lines(&mut self, lines: &Vec<String>) -> (r: OwlResult<Ontology>)
        ensures
            match run_rdf_lines(empty_rdf_state(), string_views(lines@)) {
                Some(st) => r matches Ok(o) && rdf_state_of(o) == st && o.iri_spec() is None && o.version_iri_spec() is None,
                None => r matches Err(e) && e is ParseError,
            },
            final(self).config == old(self).config,
            final(self).base_iri == old(self).base_iri,
    {
        let ghost views = string_views(lines@);
        let mut ontology = Ontology::new();
        proof {
            assert(rdf_state_of(ontology) == empty_rdf_state()) by {
                assert(ontology.anonymous_ids_spec() =~= Seq::<Seq<char>>::empty());
                assert(class_iris(ontology.classes_spec()) =~= Seq::<Seq<char>>::empty());
                assert(object_property_names(ontology.object_properties_spec()) =~= Seq::<Seq<char>>::empty());
                assert(data_property_names(ontology.data_properties_spec()) =~= Seq::<Seq<char>>::empty());
                assert(individual_names(ontology.named_individuals_spec()) =~= Seq::<Seq<char>>::empty());
                assert(ontology.axioms_spec().map_values(|a: Axiom| rdf_key(a)) =~= Seq::<RdfKey>::empty());
            }
            assert(views.take(0) =~= Seq::<Seq<char>>::empty());
        }
        let mut k: usize = 0;
        while k < lines.len()
            invariant
                k <= lines@.len(),
                views == string_views(lines@),
                run_rdf_lines(empty_rdf_state(), views.take(k as int)) == Some(rdf_state_of(ontology)),
                ontology.iri_spec() is None,
                ontology.version_iri_spec() is None,
                self.config == old(self).config,
                self.base_iri == old(self).base_iri,
            decreases lines@.len() - k,
        {
            proof {
                assert(views.take(k + 1).drop_last() == views.take(k as int));
                assert(views.take(k + 1).last() == lines@[k as int]@);
            }
            let triple = match read_line(lines[k].as_str()) {
                Ok(t) => t,
                Err(e) => {
                    proof {
                        lemma_run_failed_prefix(empty_rdf_state(), views, k + 1);
                    }
                    return Err(e);
                },
            };
            match self.process_triple(&mut ontology, &triple) {
                Ok(()) => {},
                Err(e) => {
                    proof {
                        lemma_run_failed_prefix(empty_rdf_state(), views, k + 1);
                    }
                    return Err(e);
                },
            }
            k += 1;
        }
        assert(views.take(lines@.len() as int) == views);
        Ok(ontology)
    }

    /// Parses RDF/XML text: `rio_xml` reads the triples, which are then
    /// applied in document order.
    pub fn parse_content(&mut self, content: &str) -> (r: OwlResult<Ontology>)
        ensures
            match rdf_xml_triple_lines(content@, base_text(old(self).base_iri)) {
                Err(_) => r matches Err(e) && e is ParseError,
                Ok(lines) => match run_rdf_lines(empty_rdf_state(), lines) {
                    Some(st) => r matches Ok(o) && rdf_state_of(o) == st && o.iri_spec() is None && o.version_iri_spec() is None,
                    None => r matches Err(e) && e is ParseError,
                },
            },
    {
        let base = match &self.base_iri {
            Some(i) => Some(i.as_str()),
            None => None,
        };
        let lines = match read_rdf_xml(content, base) {
            Ok(l) => l,
            Err(msg) => {
                let mut text: Vec<char> = Vec::new();
                push_str(&mut text, "Failed to parse RDF/XML: ");
                push_str(&mut text, msg.as_str());
                return Err(OwlError::ParseError(string_from_chars(&text)));
            },
        };
        self.apply_triple_lines(&lines)
    }
}

}
