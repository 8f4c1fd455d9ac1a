//! The most commonly used OWL 2 axioms over named entities.

use vstd::prelude::*;
use std::sync::Arc;
use crate::iri::IRI;
use crate::entities::{AnonymousIndividual, Literal, Annotation};

verus! {

/// The object of a property assertion: a named or an anonymous individual.
#[derive(Debug)]
pub enum PropertyAssertionObject {
    Named(Arc<IRI>),
    Anonymous(Box<AnonymousIndividual>),
}

/// Property assertion axiom: (a, b) is in P.
#[derive(Debug)]
pub struct PropertyAssertionAxiom {
    subject: Arc<IRI>,
    property: Arc<IRI>,
    object: PropertyAssertionObject,
}

impl PropertyAssertionAxiom {
    /// The subject, as a value.
    pub closed spec fn subject_spec(&self) -> IRI {
        *self.subject
    }

    /// The property, as a value.
    pub closed spec fn property_spec(&self) -> IRI {
        *self.property
    }

    /// The object, as a value.
    pub closed spec fn object_spec(&self) -> PropertyAssertionObject {
        self.object
    }

    /// Create a new property assertion axiom with a named individual.
    pub fn new(subject: Arc<IRI>, property: Arc<IRI>, object: Arc<IRI>) -> (r: Self)
        ensures
            r.subject_spec() == *subject,
            r.property_spec() == *property,
            r.object_spec() == PropertyAssertionObject::Named(object),
    {
        PropertyAssertionAxiom { subject, property, object: PropertyAssertionObject::Named(object) }
    }

    /// Create a new property assertion axiom with an anonymous individual.
    pub fn new_with_anonymous(subject: Arc<IRI>, property: Arc<IRI>, object: AnonymousIndividual) -> (r: Self)
        ensures
            r.subject_spec() == *subject,
            r.property_spec() == *property,
            r.object_spec() == PropertyAssertionObject::Anonymous(Box::new(object)),
    {
        PropertyAssertionAxiom {
            subject,
            property,
            object: PropertyAssertionObject::Anonymous(Box::new(object)),
        }
    }

    /// Create a new property assertion axiom with a property assertion object.
    pub fn new_with_object(subject: Arc<IRI>, property: Arc<IRI>, object: PropertyAssertionObject) -> (r: Self)
        ensures
            r.subject_spec() == *subject,
            r.property_spec() == *property,
            r.object_spec() == object,
    {
        PropertyAssertionAxiom { subject, property, object }
    }

    /// Get the subject.
    pub fn subject(&self) -> (r: &Arc<IRI>)
        ensures
            **r == self.subject_spec(),
    {
        &self.subject
    }

    /// Get the property.
    pub fn property(&self) -> (r: &Arc<IRI>)
        ensures
            **r == self.property_spec(),
    {
        &self.property
    }

    /// Get the object.
    pub fn object(&self) -> (r: &PropertyAssertionObject)
        ensures
            *r == self.object_spec(),
    {
        &self.object
    }

    /// Get the object as an IRI if it is a named individual.
    pub fn object_iri(&self) -> (r: Option<&Arc<IRI>>)
        ensures
            match self.object_spec() {
                PropertyAssertionObject::Named(iri) => r == Some(&iri),
                PropertyAssertionObject::Anonymous(_) => r is None,
            },
    {
        match &self.object {
            PropertyAssertionObject::Named(iri) => Some(iri),
            PropertyAssertionObject::Anonymous(_) => None,
        }
    }

    /// Check if this axiom involves a specific subject.
    pub fn involves_subject(&self, subject_iri: &IRI) -> (r: bool)
        ensures
            r == (self.subject_spec()@ == subject_iri@),
    {
        &*self.subject == subject_iri
    }

    /// Check if this axiom involves a specific property.
    pub fn involves_property(&self, property_iri: &IRI) -> (r: bool)
        ensures
            r == (self.property_spec()@ == property_iri@),
    {
        &*self.property == property_iri
    }
}

/// Data property assertion axiom: (a, v) is in P where v is a literal.
#[derive(Debug)]
pub struct DataPropertyAssertionAxiom {
    subject: Arc<IRI>,
    property: Arc<IRI>,
    value: Literal,
}

impl DataPropertyAssertionAxiom {
    /// The subject, as a value.
    pub closed spec fn subject_spec(&self) -> IRI {
        *self.subject
    }

    /// The property, as a value.
    pub closed spec fn property_spec(&self) -> IRI {
        *self.property
    }

    /// The literal, as a value.
    pub closed spec fn value_spec(&self) -> Literal {
        self.value
    }

    /// Create a new data property assertion axiom.
    pub fn new(subject: Arc<IRI>, property: Arc<IRI>, value: Literal) -> (r: Self)
        ensures
            r.subject_spec() == *subject,
            r.property_spec() == *property,
            r.value_spec() == value,
    {
        DataPropertyAssertionAxiom { subject, property, value }
    }

    /// Get the subject.
    pub fn subject(&self) -> (r: &Arc<IRI>)
        ensures
            **r == self.subject_spec(),
    {
        &self.subject
    }

    /// Get the property.
    pub fn property(&self) -> (r: &Arc<IRI>)
        ensures
            **r == self.property_spec(),
    {
        &self.property
    }

    /// Get the literal value.
    pub fn value(&self) -> (r: &Literal)
        ensures
            *r == self.value_spec(),
    {
        &self.value
    }

    /// Check if this axiom involves a specific subject.
    pub fn involves_subject(&self, subject_iri: &IRI) -> (r: bool)
        ensures
            r == (self.subject_spec()@ == subject_iri@),
    {
        &*self.subject == subject_iri
    }

    /// Check if this axiom involves a specific property.
    pub fn involves_property(&self, property_iri: &IRI) -> (r: bool)
        ensures
            r == (self.property_spec()@ == property_iri@),
    {
        &*self.property == property_iri
    }
}

/// Annotation assertion axiom.
#[derive(Debug)]
pub struct AnnotationAssertionAxiom {
    subject: Arc<IRI>,
    property: Arc<IRI>,
    value: Annotation,
}

impl AnnotationAssertionAxiom {
    /// The subject, as a value.
    pub closed spec fn subject_spec(&self) -> IRI {
        *self.subject
    }

    /// The annotation property, as a value.
    pub closed spec fn property_spec(&self) -> IRI {
        *self.property
    }

    /// The annotation value, as a value.
    pub closed spec fn value_spec(&self) -> Annotation {
        self.value
    }

    /// Create a new annotation assertion axiom.
    pub fn new(subject: Arc<IRI>, property: Arc<IRI>, value: Annotation) -> (r: Self)
        ensures
            r.subject_spec() == *subject,
            r.property_spec() == *property,
            r.value_spec() == value,
    {
        AnnotationAssertionAxiom { subject, property, value }
    }

    /// Get the subject.
    pub fn subject(&self) -> (r: &Arc<IRI>)
        ensures
            **r == self.subject_spec(),
    {
        &self.subject
    }

    /// Get the annotation property.
    pub fn property(&self) -> (r: &Arc<IRI>)
        ensures
            **r == self.property_spec(),
    {
        &self.property
    }

    /// Get the annotation value.
    pub fn value(&self) -> (r: &Annotation)
        ensures
            *r == self.value_spec(),
    {
        &self.value
    }

    /// Check if this axiom involves a specific subject.
    pub fn involves_subject(&self, subject_iri: &IRI) -> (r: bool)
        ensures
            r == (self.subject_spec()@ == subject_iri@),
    {
        &*self.subject == subject_iri
    }
}

/// NegativeObjectPropertyAssertion axiom.
#[derive(Debug)]
pub struct NegativeObjectPropertyAssertionAxiom {
    subject: Arc<IRI>,
    property: Arc<IRI>,
    object: PropertyAssertionObject,
}

impl NegativeObjectPropertyAssertionAxiom {
    /// The subject, as a value.
    pub closed spec fn subject_spec(&self) -> IRI {
        *self.subject
    }

    /// The property, as a value.
    pub closed spec fn property_spec(&self) -> IRI {
        *self.property
    }

    /// The object, as a value.
    pub closed spec fn object_spec(&self) -> PropertyAssertionObject {
        self.object
    }

    /// Creates the axiom with a named object.
    pub fn new(subject: Arc<IRI>, property: Arc<IRI>, object: Arc<IRI>) -> (r: Self)
        ensures
            r.subject_spec() == *subject,
            r.property_spec() == *property,
            r.object_spec() == PropertyAssertionObject::Named(object),
    {
        Self { subject, property, object: PropertyAssertionObject::Named(object) }
    }
}

/// Collection item for RDF collections.
#[derive(Debug)]
pub enum CollectionItem {
    Named(Arc<IRI>),
    Anonymous(Box<AnonymousIndividual>),
    Literal(Literal),
}

/// SubObjectPropertyOf axiom: P is a subproperty of Q.
#[derive(Debug)]
pub struct SubObjectPropertyOfAxiom {
    sub_property: Arc<IRI>,
    super_property: Arc<IRI>,
}

impl SubObjectPropertyOfAxiom {
    /// The `sub_property` component, as a value.
    pub closed spec fn sub_property_spec(&self) -> IRI {
        *self.sub_property
    }

    /// The `super_property` component, as a value.
    pub closed spec fn super_property_spec(&self) -> IRI {
        *self.super_property
    }

    /// Creates the axiom from its components.
    pub fn new(sub_property: Arc<IRI>, super_property: Arc<IRI>) -> (r: Self)
        ensures
            r.sub_property_spec() == *sub_property,
            r.super_property_spec() == *super_property,
    {
        Self { sub_property, super_property }
    }

    /// The `sub_property` component.
    pub fn sub_property(&self) -> (r: &Arc<IRI>)
        ensures
            **r == self.sub_property_spec(),
    {
        &self.sub_property
    }

    /// The `super_property` component.
    pub fn super_property(&self) -> (r: &Arc<IRI>)
        ensures
            **r == self.super_property_spec(),
    {
        &self.super_property
    }
}

/// EquivalentObjectProperties axiom.
#[derive(Debug)]
pub struct EquivalentObjectPropertiesAxiom {
    properties: Vec<Arc<IRI>>,
}

impl EquivalentObjectPropertiesAxiom {
    /// The `properties` component, as a value.
    pub closed spec fn properties_spec(&self) -> Vec<Arc<IRI>> {
        self.properties
    }

    /// Creates the axiom from its components.
    pub fn new(properties: Vec<Arc<IRI>>) -> (r: Self)
        ensures
            r.properties_spec() == properties,
    {
        Self { properties }
    }

    /// The `properties` component.
    pub fn properties(&self) -> (r: &Vec<Arc<IRI>>)
        ensures
            *r == self.properties_spec(),
    {
        &self.properties
    }
}

/// DisjointObjectProperties axiom.
#[derive(Debug)]
pub struct DisjointObjectPropertiesAxiom {
    properties: Vec<Arc<IRI>>,
}

impl DisjointObjectPropertiesAxiom {
    /// The `properties` component, as a value.
    pub closed spec fn properties_spec(&self) -> Vec<Arc<IRI>> {
        self.properties
    }

    /// Creates the axiom from its components.
    pub fn new(properties: Vec<Arc<IRI>>) -> (r: Self)
        ensures
            r.properties_spec() == properties,
    {
        Self { properties }
    }

    /// The `properties` component.
    pub fn properties(&self) -> (r: &Vec<Arc<IRI>>)
        ensures
            *r == self.properties_spec(),
    {
        &self.properties
    }
}

/// FunctionalProperty axiom.
#[derive(Debug)]
pub struct FunctionalPropertyAxiom {
    property: Arc<IRI>,
}

impl FunctionalPropertyAxiom {
    /// The `property` component, as a value.
    pub closed spec fn property_spec(&self) -> IRI {
        *self.property
    }

    /// Creates the axiom from its components.
    pub fn new(property: Arc<IRI>) -> (r: Self)
        ensures
            r.property_spec() == *property,
    {
        Self { property }
    }

    /// The `property` component.
    pub fn property(&self) -> (r: &Arc<IRI>)
        ensures
            **r == self.property_spec(),
    {
        &self.property
    }
}

/// InverseFunctionalProperty axiom.
#[derive(Debug)]
pub struct InverseFunctionalPropertyAxiom {
    property: Arc<IRI>,
}

impl InverseFunctionalPropertyAxiom {
    /// The `property` component, as a value.
    pub closed spec fn property_spec(&self) -> IRI {
        *self.property
    }

    /// Creates the axiom from its components.
    pub fn new(property: Arc<IRI>) -> (r: Self)
        ensures
            r.property_spec() == *property,
    {
        Self { property }
    }

    /// The `property` component.
    pub fn property(&self) -> (r: &Arc<IRI>)
        ensures
            **r == self.property_spec(),
    {
        &self.property
    }
}

/// ReflexiveProperty axiom.
#[derive(Debug)]
pub struct ReflexivePropertyAxiom {
    property: Arc<IRI>,
}

impl ReflexivePropertyAxiom {
    /// The `property` component, as a value.
    pub closed spec fn property_spec(&self) -> IRI {
        *self.property
    }

    /// Creates the axiom from its components.
    pub fn new(property: Arc<IRI>) -> (r: Self)
        ensures
            r.property_spec() == *property,
    {
        Self { property }
    }

    /// The `property` component.
    pub fn property(&self) -> (r: &Arc<IRI>)
        ensures
            **r == self.property_spec(),
    {
        &self.property
    }
}

/// IrreflexiveProperty axiom.
#[derive(Debug)]
pub struct IrreflexivePropertyAxiom {
    property: Arc<IRI>,
}

impl IrreflexivePropertyAxiom {
    /// The `property` component, as a value.
    pub closed spec fn property_spec(&self) -> IRI {
        *self.property
    }

    /// Creates the axiom from its components.
    pub fn new(property: Arc<IRI>) -> (r: Self)
        ensures
            r.property_spec() == *property,
    {
        Self { property }
    }

    /// The `property` component.
    pub fn property(&self) -> (r: &Arc<IRI>)
        ensures
            **r == self.property_spec(),
    {
        &self.property
    }
}

/// SymmetricProperty axiom.
#[derive(Debug)]
pub struct SymmetricPropertyAxiom {
    property: Arc<IRI>,
}

impl SymmetricPropertyAxiom {
    /// The `property` component, as a value.
    pub closed spec fn property_spec(&self) -> IRI {
        *self.property
    }

    /// Creates the axiom from its components.
    pub fn new(property: Arc<IRI>) -> (r: Self)
        ensures
            r.property_spec() == *property,
    {
        Self { property }
    }

    /// The `property` component.
    pub fn property(&self) -> (r: &Arc<IRI>)
        ensures
            **r == self.property_spec(),
    {
        &self.property
    }
}

/// AsymmetricProperty axiom.
#[derive(Debug)]
pub struct AsymmetricPropertyAxiom {
    property: Arc<IRI>,
}

impl AsymmetricPropertyAxiom {
    /// The `property` component, as a value.
    pub closed spec fn property_spec(&self) -> IRI {
        *self.property
    }

    /// Creates the axiom from its components.
    pub fn new(property: Arc<IRI>) -> (r: Self)
        ensures
            r.property_spec() == *property,
    {
        Self { property }
    }

    /// The `property` component.
    pub fn property(&self) -> (r: &Arc<IRI>)
        ensures
            **r == self.property_spec(),
    {
        &self.property
    }
}

/// TransitiveProperty axiom.
#[derive(Debug)]
pub struct TransitivePropertyAxiom {
    property: Arc<IRI>,
}

impl TransitivePropertyAxiom {
    /// The `property` component, as a value.
    pub closed spec fn property_spec(&self) -> IRI {
        *self.property
    }

    /// Creates the axiom from its components.
    pub fn new(property: Arc<IRI>) -> (r: Self)
        ensures
            r.property_spec() == *property,
    {
        Self { property }
    }

    /// The `property` component.
    pub fn property(&self) -> (r: &Arc<IRI>)
        ensures
            **r == self.property_spec(),
    {
        &self.property
    }
}

/// SubDataPropertyOf axiom.
#[derive(Debug)]
pub struct SubDataPropertyOfAxiom {
    sub_property: Arc<IRI>,
    super_property: Arc<IRI>,
}

impl SubDataPropertyOfAxiom {
    /// The `sub_property` component, as a value.
    pub closed spec fn sub_property_spec(&self) -> IRI {
        *self.sub_property
    }

    /// The `super_property` component, as a value.
    pub closed spec fn super_property_spec(&self) -> IRI {
        *self.super_property
    }

    /// Creates the axiom from its components.
    pub fn new(sub_property: Arc<IRI>, super_property: Arc<IRI>) -> (r: Self)
        ensures
            r.sub_property_spec() == *sub_property,
            r.super_property_spec() == *super_property,
    {
        Self { sub_property, super_property }
    }
}

/// EquivalentDataProperties axiom.
#[derive(Debug)]
pub struct EquivalentDataPropertiesAxiom {
    properties: Vec<Arc<IRI>>,
}

impl EquivalentDataPropertiesAxiom {
    /// The `properties` component, as a value.
    pub closed spec fn properties_spec(&self) -> Vec<Arc<IRI>> {
        self.properties
    }

    /// Creates the axiom from its components.
    pub fn new(properties: Vec<Arc<IRI>>) -> (r: Self)
        ensures
            r.properties_spec() == properties,
    {
        Self { properties }
    }
}

/// DisjointDataProperties axiom.
#[derive(Debug)]
pub struct DisjointDataPropertiesAxiom {
    properties: Vec<Arc<IRI>>,
}

impl DisjointDataPropertiesAxiom {
    /// The `properties` component, as a value.
    pub closed spec fn properties_spec(&self) -> Vec<Arc<IRI>> {
        self.properties
    }

    /// Creates the axiom from its components.
    pub fn new(properties: Vec<Arc<IRI>>) -> (r: Self)
        ensures
            r.properties_spec() == properties,
    {
        Self { properties }
    }
}

/// FunctionalDataProperty axiom.
#[derive(Debug)]
pub struct FunctionalDataPropertyAxiom {
    property: Arc<IRI>,
}

impl FunctionalDataPropertyAxiom {
    /// The `property` component, as a value.
    pub closed spec fn property_spec(&self) -> IRI {
        *self.property
    }

    /// Creates the axiom from its components.
    pub fn new(property: Arc<IRI>) -> (r: Self)
        ensures
            r.property_spec() == *property,
    {
        Self { property }
    }
}

/// SameIndividual axiom.
#[derive(Debug)]
pub struct SameIndividualAxiom {
    individuals: Vec<Arc<IRI>>,
}

impl SameIndividualAxiom {
    /// The `individuals` component, as a value.
    pub closed spec fn individuals_spec(&self) -> Vec<Arc<IRI>> {
        self.individuals
    }

    /// Creates the axiom from its components.
    pub fn new(individuals: Vec<Arc<IRI>>) -> (r: Self)
        ensures
            r.individuals_spec() == individuals,
    {
        Self { individuals }
    }
}

/// DifferentIndividuals axiom.
#[derive(Debug)]
pub struct DifferentIndividualsAxiom {
    individuals: Vec<Arc<IRI>>,
}

impl DifferentIndividualsAxiom {
    /// The `individuals` component, as a value.
    pub closed spec fn individuals_spec(&self) -> Vec<Arc<IRI>> {
        self.individuals
    }

    /// Creates the axiom from its components.
    pub fn new(individuals: Vec<Arc<IRI>>) -> (r: Self)
        ensures
            r.individuals_spec() == individuals,
    {
        Self { individuals }
    }
}

/// HasKey axiom.
#[derive(Debug)]
pub struct HasKeyAxiom {
    class: Arc<IRI>,
    properties: Vec<Arc<IRI>>,
}

impl HasKeyAxiom {
    /// The `class` component, as a value.
    pub closed spec fn class_spec(&self) -> IRI {
        *self.class
    }

    /// The `properties` component, as a value.
    pub closed spec fn properties_spec(&self) -> Vec<Arc<IRI>> {
        self.properties
    }

    /// Creates the axiom from its components.
    pub fn new(class: Arc<IRI>, properties: Vec<Arc<IRI>>) -> (r: Self)
        ensures
            r.class_spec() == *class,
            r.properties_spec() == properties,
    {
        Self { class, properties }
    }
}

/// SubAnnotationPropertyOf axiom.
#[derive(Debug)]
pub struct SubAnnotationPropertyOfAxiom {
    sub_property: Arc<IRI>,
    super_property: Arc<IRI>,
}

impl SubAnnotationPropertyOfAxiom {
    /// The `sub_property` component, as a value.
    pub closed spec fn sub_property_spec(&self) -> IRI {
        *self.sub_property
    }

    /// The `super_property` component, as a value.
    pub closed spec fn super_property_spec(&self) -> IRI {
        *self.super_property
    }

    /// Creates the axiom from its components.
    pub fn new(sub_property: Arc<IRI>, super_property: Arc<IRI>) -> (r: Self)
        ensures
            r.sub_property_spec() == *sub_property,
            r.super_property_spec() == *super_property,
    {
        Self { sub_property, super_property }
    }
}

/// AnnotationPropertyDomain axiom.
#[derive(Debug)]
pub struct AnnotationPropertyDomainAxiom {
    property: Arc<IRI>,
    domain: Arc<IRI>,
}

impl AnnotationPropertyDomainAxiom {
    /// The `property` component, as a value.
    pub closed spec fn property_spec(&self) -> IRI {
        *self.property
    }

    /// The `domain` component, as a value.
    pub closed spec fn domain_spec(&self) -> IRI {
        *self.domain
    }

    /// Creates the axiom from its components.
    pub fn new(property: Arc<IRI>, domain: Arc<IRI>) -> (r: Self)
        ensures
            r.property_spec() == *property,
            r.domain_spec() == *domain,
    {
        Self { property, domain }
    }
}

/// AnnotationPropertyRange axiom.
#[derive(Debug)]
pub struct AnnotationPropertyRangeAxiom {
    property: Arc<IRI>,
    range: Arc<IRI>,
}

impl AnnotationPropertyRangeAxiom {
    /// The `property` component, as a value.
    pub closed spec fn property_spec(&self) -> IRI {
        *self.property
    }

    /// The `range` component, as a value.
    pub closed spec fn range_spec(&self) -> IRI {
        *self.range
    }

    /// Creates the axiom from its components.
    pub fn new(property: Arc<IRI>, range: Arc<IRI>) -> (r: Self)
        ensures
            r.property_spec() == *property,
            r.range_spec() == *range,
    {
        Self { property, range }
    }
}

/// SubPropertyChainOf axiom.
#[derive(Debug)]
pub struct SubPropertyChainOfAxiom {
    properties: Vec<Arc<IRI>>,
    super_property: Arc<IRI>,
}

impl SubPropertyChainOfAxiom {
    /// The `properties` component, as a value.
    pub closed spec fn properties_spec(&self) -> Vec<Arc<IRI>> {
        self.properties
    }

    /// The `super_property` component, as a value.
    pub closed spec fn super_property_spec(&self) -> IRI {
        *self.super_property
    }

    /// Creates the axiom from its components.
    pub fn new(properties: Vec<Arc<IRI>>, super_property: Arc<IRI>) -> (r: Self)
        ensures
            r.properties_spec() == properties,
            r.super_property_spec() == *super_property,
    {
        Self { properties, super_property }
    }
}

/// InverseObjectProperties axiom.
#[derive(Debug)]
pub struct InverseObjectPropertiesAxiom {
    property1: Arc<IRI>,
    property2: Arc<IRI>,
}

impl InverseObjectPropertiesAxiom {
    /// The `property1` component, as a value.
    pub closed spec fn property1_spec(&self) -> IRI {
        *self.property1
    }

    /// The `property2` component, as a value.
    pub closed spec fn property2_spec(&self) -> IRI {
        *self.property2
    }

    /// Creates the axiom from its components.
    pub fn new(property1: Arc<IRI>, property2: Arc<IRI>) -> (r: Self)
        ensures
            r.property1_spec() == *property1,
            r.property2_spec() == *property2,
    {
        Self { property1, property2 }
    }
}

/// ObjectPropertyDomain axiom.
#[derive(Debug)]
pub struct ObjectPropertyDomainAxiom {
    property: Arc<IRI>,
    domain: Arc<IRI>,
}

impl ObjectPropertyDomainAxiom {
    /// The `property` component, as a value.
    pub closed spec fn property_spec(&self) -> IRI {
        *self.property
    }

    /// The `domain` component, as a value.
    pub closed spec fn domain_spec(&self) -> IRI {
        *self.domain
    }

    /// Creates the axiom from its components.
    pub fn new(property: Arc<IRI>, domain: Arc<IRI>) -> (r: Self)
        ensures
            r.property_spec() == *property,
            r.domain_spec() == *domain,
    {
        Self { property, domain }
    }

    /// The `property` component.
    pub fn property(&self) -> (r: &Arc<IRI>)
        ensures
            **r == self.property_spec(),
    {
        &self.property
    }

    /// The `domain` component.
    pub fn domain(&self) -> (r: &Arc<IRI>)
        ensures
            **r == self.domain_spec(),
    {
        &self.domain
    }
}

/// ObjectPropertyRange axiom.
#[derive(Debug)]
pub struct ObjectPropertyRangeAxiom {
    property: Arc<IRI>,
    range: Arc<IRI>,
}

impl ObjectPropertyRangeAxiom {
    /// The `property` component, as a value.
    pub closed spec fn property_spec(&self) -> IRI {
        *self.property
    }

    /// The `range` component, as a value.
    pub closed spec fn range_spec(&self) -> IRI {
        *self.range
    }

    /// Creates the axiom from its components.
    pub fn new(property: Arc<IRI>, range: Arc<IRI>) -> (r: Self)
        ensures
            r.property_spec() == *property,
            r.range_spec() == *range,
    {
        Self { property, range }
    }

    /// The `property` component.
    pub fn property(&self) -> (r: &Arc<IRI>)
        ensures
            **r == self.property_spec(),
    {
        &self.property
    }

    /// The `range` component.
    pub fn range(&self) -> (r: &Arc<IRI>)
        ensures
            **r == self.range_spec(),
    {
        &self.range
    }
}

/// DataPropertyDomain axiom.
#[derive(Debug)]
pub struct DataPropertyDomainAxiom {
    property: Arc<IRI>,
    domain: Arc<IRI>,
}

impl DataPropertyDomainAxiom {
    /// The `property` component, as a value.
    pub closed spec fn property_spec(&self) -> IRI {
        *self.property
    }

    /// The `domain` component, as a value.
    pub closed spec fn domain_spec(&self) -> IRI {
        *self.domain
    }

    /// Creates the axiom from its components.
    pub fn new(property: Arc<IRI>, domain: Arc<IRI>) -> (r: Self)
        ensures
            r.property_spec() == *property,
            r.domain_spec() == *domain,
    {
        Self { property, domain }
    }
}

/// DataPropertyRange axiom.
#[derive(Debug)]
pub struct DataPropertyRangeAxiom {
    property: Arc<IRI>,
    range: Arc<IRI>,
}

impl DataPropertyRangeAxiom {
    /// The `property` component, as a value.
    pub closed spec fn property_spec(&self) -> IRI {
        *self.property
    }

    /// The `range` component, as a value.
    pub closed spec fn range_spec(&self) -> IRI {
        *self.range
    }

    /// Creates the axiom from its components.
    pub fn new(property: Arc<IRI>, range: Arc<IRI>) -> (r: Self)
        ensures
            r.property_spec() == *property,
            r.range_spec() == *range,
    {
        Self { property, range }
    }
}

/// NegativeDataPropertyAssertion axiom.
#[derive(Debug)]
pub struct NegativeDataPropertyAssertionAxiom {
    subject: Arc<IRI>,
    property: Arc<IRI>,
    value: Literal,
}

impl NegativeDataPropertyAssertionAxiom {
    /// The `subject` component, as a value.
    pub closed spec fn subject_spec(&self) -> IRI {
        *self.subject
    }

    /// The `property` component, as a value.
    pub closed spec fn property_spec(&self) -> IRI {
        *self.property
    }

    /// The `value` component, as a value.
    pub closed spec fn value_spec(&self) -> Literal {
        self.value
    }

    /// Creates the axiom from its components.
    pub fn new(subject: Arc<IRI>, property: Arc<IRI>, value: Literal) -> (r: Self)
        ensures
            r.subject_spec() == *subject,
            r.property_spec() == *property,
            r.value_spec() == value,
    {
        Self { subject, property, value }
    }
}

/// Collection axiom for RDF collections.
#[derive(Debug)]
pub struct CollectionAxiom {
    items: Vec<CollectionItem>,
}

impl CollectionAxiom {
    /// The `items` component, as a value.
    pub closed spec fn items_spec(&self) -> Vec<CollectionItem> {
        self.items
    }

    /// Creates the axiom from its components.
    pub fn new(items: Vec<CollectionItem>) -> (r: Self)
        ensures
            r.items_spec() == items,
    {
        Self { items }
    }
}

/// Import axiom.
#[derive(Debug)]
pub struct ImportAxiom {
    imported_ontology: Arc<IRI>,
}

impl ImportAxiom {
    /// The `imported_ontology` component, as a value.
    pub closed spec fn imported_ontology_spec(&self) -> IRI {
        *self.imported_ontology
    }

    /// Creates the axiom from its components.
    pub fn new(imported_ontology: Arc<IRI>) -> (r: Self)
        ensures
            r.imported_ontology_spec() == *imported_ontology,
    {
        Self { imported_ontology }
    }

    /// The `imported_ontology` component.
    pub fn imported_ontology(&self) -> (r: &Arc<IRI>)
        ensures
            **r == self.imported_ontology_spec(),
    {
        &self.imported_ontology
    }
}


} // verus!
