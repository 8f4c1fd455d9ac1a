//! Class axioms over class expressions and the axiom enum that wraps every
//! axiom type.

use vstd::prelude::*;
use std::sync::Arc;
use crate::iri::IRI;
use crate::class_expression::ClassExpression;
use crate::axioms_core::{PropertyAssertionObject,PropertyAssertionAxiom,DataPropertyAssertionAxiom,AnnotationAssertionAxiom,NegativeObjectPropertyAssertionAxiom,CollectionItem,SubObjectPropertyOfAxiom,EquivalentObjectPropertiesAxiom,DisjointObjectPropertiesAxiom,FunctionalPropertyAxiom,InverseFunctionalPropertyAxiom,ReflexivePropertyAxiom,IrreflexivePropertyAxiom,SymmetricPropertyAxiom,AsymmetricPropertyAxiom,TransitivePropertyAxiom,SubDataPropertyOfAxiom,EquivalentDataPropertiesAxiom,DisjointDataPropertiesAxiom,FunctionalDataPropertyAxiom,SameIndividualAxiom,DifferentIndividualsAxiom,HasKeyAxiom,SubAnnotationPropertyOfAxiom,AnnotationPropertyDomainAxiom,AnnotationPropertyRangeAxiom,SubPropertyChainOfAxiom,InverseObjectPropertiesAxiom,ObjectPropertyDomainAxiom,ObjectPropertyRangeAxiom,DataPropertyDomainAxiom,DataPropertyRangeAxiom,NegativeDataPropertyAssertionAxiom,CollectionAxiom,ImportAxiom};

verus! {

/// SubClassOf axiom: the sub class expression is subsumed by the super one.
#[derive(Debug)]
pub struct SubClassOfAxiom {
    sub_class: ClassExpression,
    super_class: ClassExpression,
}

impl SubClassOfAxiom {
    /// The sub class expression, as a value.
    pub closed spec fn sub_class_spec(&self) -> ClassExpression {
        self.sub_class
    }

    /// The super class expression, as a value.
    pub closed spec fn super_class_spec(&self) -> ClassExpression {
        self.super_class
    }

    /// Creates the axiom.
    pub fn new(sub_class: ClassExpression, super_class: ClassExpression) -> (r: Self)
        ensures
            r.sub_class_spec() == sub_class,
            r.super_class_spec() == super_class,
    {
        SubClassOfAxiom { sub_class, super_class }
    }

    /// The sub class expression.
    pub fn sub_class(&self) -> (r: &ClassExpression)
        ensures
            *r == self.sub_class_spec(),
    {
        &self.sub_class
    }

    /// The super class expression.
    pub fn super_class(&self) -> (r: &ClassExpression)
        ensures
            *r == self.super_class_spec(),
    {
        &self.super_class
    }
}

/// ClassAssertion axiom: an individual is an instance of a class expression.
#[derive(Debug)]
pub struct ClassAssertionAxiom {
    individual: Arc<IRI>,
    class_expr: ClassExpression,
}

impl ClassAssertionAxiom {
    /// The individual, as a value.
    pub closed spec fn individual_spec(&self) -> IRI {
        *self.individual
    }

    /// The class expression, as a value.
    pub closed spec fn class_expr_spec(&self) -> ClassExpression {
        self.class_expr
    }

    /// Creates the axiom.
    pub fn new(individual: Arc<IRI>, class_expr: ClassExpression) -> (r: Self)
        ensures
            r.individual_spec() == *individual,
            r.class_expr_spec() == class_expr,
    {
        ClassAssertionAxiom { individual, class_expr }
    }

    /// The individual.
    pub fn individual(&self) -> (r: &Arc<IRI>)
        ensures
            **r == self.individual_spec(),
    {
        &self.individual
    }

    /// The class expression.
    pub fn class_expr(&self) -> (r: &ClassExpression)
        ensures
            *r == self.class_expr_spec(),
    {
        &self.class_expr
    }
}

/// EquivalentClasses axiom.
#[derive(Debug)]
pub struct EquivalentClassesAxiom {
    classes: Vec<ClassExpression>,
}

impl EquivalentClassesAxiom {
    /// The class expressions, as a value.
    pub closed spec fn classes_spec(&self) -> Vec<ClassExpression> {
        self.classes
    }

    /// Creates the axiom.
    pub fn new(classes: Vec<ClassExpression>) -> (r: Self)
        ensures
            r.classes_spec() == classes,
    {
        EquivalentClassesAxiom { classes }
    }

    /// The class expressions.
    pub fn classes(&self) -> (r: &Vec<ClassExpression>)
        ensures
            *r == self.classes_spec(),
    {
        &self.classes
    }
}

/// DisjointClasses axiom.
#[derive(Debug)]
pub struct DisjointClassesAxiom {
    classes: Vec<ClassExpression>,
}

impl DisjointClassesAxiom {
    /// The class expressions, as a value.
    pub closed spec fn classes_spec(&self) -> Vec<ClassExpression> {
        self.classes
    }

    /// Creates the axiom.
    pub fn new(classes: Vec<ClassExpression>) -> (r: Self)
        ensures
            r.classes_spec() == classes,
    {
        DisjointClassesAxiom { classes }
    }

    /// The class expressions.
    pub fn classes(&self) -> (r: &Vec<ClassExpression>)
        ensures
            *r == self.classes_spec(),
    {
        &self.classes
    }
}

/// The main axiom enum that wraps all axiom types.
#[derive(Debug)]
pub enum Axiom {
    SubClassOf(Box<SubClassOfAxiom>),
    EquivalentClasses(Box<EquivalentClassesAxiom>),
    DisjointClasses(Box<DisjointClassesAxiom>),
    ClassAssertion(Box<ClassAssertionAxiom>),
    PropertyAssertion(Box<PropertyAssertionAxiom>),
    DataPropertyAssertion(Box<DataPropertyAssertionAxiom>),
    NegativeObjectPropertyAssertion(Box<NegativeObjectPropertyAssertionAxiom>),
    NegativeDataPropertyAssertion(Box<NegativeDataPropertyAssertionAxiom>),
    SubObjectProperty(Box<SubObjectPropertyOfAxiom>),
    SubDataProperty(Box<SubDataPropertyOfAxiom>),
    EquivalentObjectProperties(Box<EquivalentObjectPropertiesAxiom>),
    EquivalentDataProperties(Box<EquivalentDataPropertiesAxiom>),
    DisjointObjectProperties(Box<DisjointObjectPropertiesAxiom>),
    DisjointDataProperties(Box<DisjointDataPropertiesAxiom>),
    InverseObjectProperties(Box<InverseObjectPropertiesAxiom>),
    FunctionalProperty(Box<FunctionalPropertyAxiom>),
    FunctionalDataProperty(Box<FunctionalDataPropertyAxiom>),
    InverseFunctionalProperty(Box<InverseFunctionalPropertyAxiom>),
    ReflexiveProperty(Box<ReflexivePropertyAxiom>),
    IrreflexiveProperty(Box<IrreflexivePropertyAxiom>),
    SymmetricProperty(Box<SymmetricPropertyAxiom>),
    AsymmetricProperty(Box<AsymmetricPropertyAxiom>),
    TransitiveProperty(Box<TransitivePropertyAxiom>),
    ObjectPropertyDomain(Box<ObjectPropertyDomainAxiom>),
    ObjectPropertyRange(Box<ObjectPropertyRangeAxiom>),
    DataPropertyDomain(Box<DataPropertyDomainAxiom>),
    DataPropertyRange(Box<DataPropertyRangeAxiom>),
    SubPropertyChainOf(Box<SubPropertyChainOfAxiom>),
    HasKey(Box<HasKeyAxiom>),
    SameIndividual(Box<SameIndividualAxiom>),
    DifferentIndividuals(Box<DifferentIndividualsAxiom>),
    AnnotationAssertion(Box<AnnotationAssertionAxiom>),
    SubAnnotationPropertyOf(Box<SubAnnotationPropertyOfAxiom>),
    AnnotationPropertyDomain(Box<AnnotationPropertyDomainAxiom>),
    AnnotationPropertyRange(Box<AnnotationPropertyRangeAxiom>),
    ObjectMinQualifiedCardinality(Box<()>),
    ObjectMaxQualifiedCardinality(Box<()>),
    ObjectExactQualifiedCardinality(Box<()>),
    DataMinQualifiedCardinality(Box<()>),
    DataMaxQualifiedCardinality(Box<()>),
    DataExactQualifiedCardinality(Box<()>),
    Import(Box<ImportAxiom>),
    Collection(Box<CollectionAxiom>),
    Container(Box<()>),
    Reification(Box<()>),
}

/// The kind of an axiom.
#[derive(Debug, Clone, Copy, PartialEq, Eq, Structural)]
pub enum AxiomType {
    SubClassOf,
    EquivalentClasses,
    DisjointClasses,
    ClassAssertion,
    PropertyAssertion,
    DataPropertyAssertion,
    NegativeObjectPropertyAssertion,
    NegativeDataPropertyAssertion,
    SubObjectProperty,
    SubDataProperty,
    EquivalentObjectProperties,
    EquivalentDataProperties,
    DisjointObjectProperties,
    DisjointDataProperties,
    InverseObjectProperties,
    FunctionalProperty,
    FunctionalDataProperty,
    InverseFunctionalProperty,
    ReflexiveProperty,
    IrreflexiveProperty,
    SymmetricProperty,
    AsymmetricProperty,
    TransitiveProperty,
    ObjectPropertyDomain,
    ObjectPropertyRange,
    DataPropertyDomain,
    DataPropertyRange,
    SubPropertyChainOf,
    HasKey,
    SameIndividual,
    DifferentIndividuals,
    AnnotationAssertion,
    SubAnnotationPropertyOf,
    AnnotationPropertyDomain,
    AnnotationPropertyRange,
    ObjectMinQualifiedCardinality,
    ObjectMaxQualifiedCardinality,
    ObjectExactQualifiedCardinality,
    DataMinQualifiedCardinality,
    DataMaxQualifiedCardinality,
    DataExactQualifiedCardinality,
    Import,
    Collection,
    Container,
    Reification,
}

/// The kind of an axiom, by its variant.
pub open spec fn axiom_type_of(a: &Axiom) -> AxiomType {
    match a {
        Axiom::SubClassOf(_) => AxiomType::SubClassOf,
        Axiom::EquivalentClasses(_) => AxiomType::EquivalentClasses,
        Axiom::DisjointClasses(_) => AxiomType::DisjointClasses,
        Axiom::ClassAssertion(_) => AxiomType::ClassAssertion,
        Axiom::PropertyAssertion(_) => AxiomType::PropertyAssertion,
        Axiom::DataPropertyAssertion(_) => AxiomType::DataPropertyAssertion,
        Axiom::NegativeObjectPropertyAssertion(_) => AxiomType::NegativeObjectPropertyAssertion,
        Axiom::NegativeDataPropertyAssertion(_) => AxiomType::NegativeDataPropertyAssertion,
        Axiom::SubObjectProperty(_) => AxiomType::SubObjectProperty,
        Axiom::SubDataProperty(_) => AxiomType::SubDataProperty,
        Axiom::EquivalentObjectProperties(_) => AxiomType::EquivalentObjectProperties,
        Axiom::EquivalentDataProperties(_) => AxiomType::EquivalentDataProperties,
        Axiom::DisjointObjectProperties(_) => AxiomType::DisjointObjectProperties,
        Axiom::DisjointDataProperties(_) => AxiomType::DisjointDataProperties,
        Axiom::InverseObjectProperties(_) => AxiomType::InverseObjectProperties,
        Axiom::FunctionalProperty(_) => AxiomType::FunctionalProperty,
        Axiom::FunctionalDataProperty(_) => AxiomType::FunctionalDataProperty,
        Axiom::InverseFunctionalProperty(_) => AxiomType::InverseFunctionalProperty,
        Axiom::ReflexiveProperty(_) => AxiomType::ReflexiveProperty,
        Axiom::IrreflexiveProperty(_) => AxiomType::IrreflexiveProperty,
        Axiom::SymmetricProperty(_) => AxiomType::SymmetricProperty,
        Axiom::AsymmetricProperty(_) => AxiomType::AsymmetricProperty,
        Axiom::TransitiveProperty(_) => AxiomType::TransitiveProperty,
        Axiom::ObjectPropertyDomain(_) => AxiomType::ObjectPropertyDomain,
        Axiom::ObjectPropertyRange(_) => AxiomType::ObjectPropertyRange,
        Axiom::DataPropertyDomain(_) => AxiomType::DataPropertyDomain,
        Axiom::DataPropertyRange(_) => AxiomType::DataPropertyRange,
        Axiom::SubPropertyChainOf(_) => AxiomType::SubPropertyChainOf,
        Axiom::HasKey(_) => AxiomType::HasKey,
        Axiom::SameIndividual(_) => AxiomType::SameIndividual,
        Axiom::DifferentIndividuals(_) => AxiomType::DifferentIndividuals,
        Axiom::AnnotationAssertion(_) => AxiomType::AnnotationAssertion,
        Axiom::SubAnnotationPropertyOf(_) => AxiomType::SubAnnotationPropertyOf,
        Axiom::AnnotationPropertyDomain(_) => AxiomType::AnnotationPropertyDomain,
        Axiom::AnnotationPropertyRange(_) => AxiomType::AnnotationPropertyRange,
        Axiom::ObjectMinQualifiedCardinality(_) => AxiomType::ObjectMinQualifiedCardinality,
        Axiom::ObjectMaxQualifiedCardinality(_) => AxiomType::ObjectMaxQualifiedCardinality,
        Axiom::ObjectExactQualifiedCardinality(_) => AxiomType::ObjectExactQualifiedCardinality,
        Axiom::DataMinQualifiedCardinality(_) => AxiomType::DataMinQualifiedCardinality,
        Axiom::DataMaxQualifiedCardinality(_) => AxiomType::DataMaxQualifiedCardinality,
        Axiom::DataExactQualifiedCardinality(_) => AxiomType::DataExactQualifiedCardinality,
        Axiom::Import(_) => AxiomType::Import,
        Axiom::Collection(_) => AxiomType::Collection,
        Axiom::Container(_) => AxiomType::Container,
        Axiom::Reification(_) => AxiomType::Reification,
    }
}

impl Axiom {
    /// Get the axiom type for this axiom.
    pub fn axiom_type(&self) -> (r: AxiomType)
        ensures
            r == axiom_type_of(self),
    {
        match self {
            Axiom::SubClassOf(_) => AxiomType::SubClassOf,
            Axiom::EquivalentClasses(_) => AxiomType::EquivalentClasses,
            Axiom::DisjointClasses(_) => AxiomType::DisjointClasses,
            Axiom::ClassAssertion(_) => AxiomType::ClassAssertion,
            Axiom::PropertyAssertion(_) => AxiomType::PropertyAssertion,
            Axiom::DataPropertyAssertion(_) => AxiomType::DataPropertyAssertion,
            Axiom::NegativeObjectPropertyAssertion(_) => AxiomType::NegativeObjectPropertyAssertion,
            Axiom::NegativeDataPropertyAssertion(_) => AxiomType::NegativeDataPropertyAssertion,
            Axiom::SubObjectProperty(_) => AxiomType::SubObjectProperty,
            Axiom::SubDataProperty(_) => AxiomType::SubDataProperty,
            Axiom::EquivalentObjectProperties(_) => AxiomType::EquivalentObjectProperties,
            Axiom::EquivalentDataProperties(_) => AxiomType::EquivalentDataProperties,
            Axiom::DisjointObjectProperties(_) => AxiomType::DisjointObjectProperties,
            Axiom::DisjointDataProperties(_) => AxiomType::DisjointDataProperties,
            Axiom::InverseObjectProperties(_) => AxiomType::InverseObjectProperties,
            Axiom::FunctionalProperty(_) => AxiomType::FunctionalProperty,
            Axiom::FunctionalDataProperty(_) => AxiomType::FunctionalDataProperty,
            Axiom::InverseFunctionalProperty(_) => AxiomType::InverseFunctionalProperty,
            Axiom::ReflexiveProperty(_) => AxiomType::ReflexiveProperty,
            Axiom::IrreflexiveProperty(_) => AxiomType::IrreflexiveProperty,
            Axiom::SymmetricProperty(_) => AxiomType::SymmetricProperty,
            Axiom::AsymmetricProperty(_) => AxiomType::AsymmetricProperty,
            Axiom::TransitiveProperty(_) => AxiomType::TransitiveProperty,
            Axiom::ObjectPropertyDomain(_) => AxiomType::ObjectPropertyDomain,
            Axiom::ObjectPropertyRange(_) => AxiomType::ObjectPropertyRange,
            Axiom::DataPropertyDomain(_) => AxiomType::DataPropertyDomain,
            Axiom::DataPropertyRange(_) => AxiomType::DataPropertyRange,
            Axiom::SubPropertyChainOf(_) => AxiomType::SubPropertyChainOf,
            Axiom::HasKey(_) => AxiomType::HasKey,
            Axiom::SameIndividual(_) => AxiomType::SameIndividual,
            Axiom::DifferentIndividuals(_) => AxiomType::DifferentIndividuals,
            Axiom::AnnotationAssertion(_) => AxiomType::AnnotationAssertion,
            Axiom::SubAnnotationPropertyOf(_) => AxiomType::SubAnnotationPropertyOf,
            Axiom::AnnotationPropertyDomain(_) => AxiomType::AnnotationPropertyDomain,
            Axiom::AnnotationPropertyRange(_) => AxiomType::AnnotationPropertyRange,
            Axiom::ObjectMinQualifiedCardinality(_) => AxiomType::ObjectMinQualifiedCardinality,
            Axiom::ObjectMaxQualifiedCardinality(_) => AxiomType::ObjectMaxQualifiedCardinality,
            Axiom::ObjectExactQualifiedCardinality(_) => AxiomType::ObjectExactQualifiedCardinality,
            Axiom::DataMinQualifiedCardinality(_) => AxiomType::DataMinQualifiedCardinality,
            Axiom::DataMaxQualifiedCardinality(_) => AxiomType::DataMaxQualifiedCardinality,
            Axiom::DataExactQualifiedCardinality(_) => AxiomType::DataExactQualifiedCardinality,
            Axiom::Import(_) => AxiomType::Import,
            Axiom::Collection(_) => AxiomType::Collection,
            Axiom::Container(_) => AxiomType::Container,
            Axiom::Reification(_) => AxiomType::Reification,
        }
    }
}

} // verus!
