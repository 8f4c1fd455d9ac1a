//! OWL entities: named classes, properties and individuals, literals and
//! annotations.

use vstd::prelude::*;
use std::sync::Arc;
use crate::iri::{IRI, share_arc};

verus! {

/// A named class.
#[derive(Debug)]
pub struct Class {
    iri: Arc<IRI>,
}

impl Class {
    /// The IRI of the class, as a value.
    pub closed spec fn iri_spec(&self) -> IRI {
        *self.iri
    }

    /// Creates a class named by `iri`.
    pub fn new(iri: IRI) -> (r: Class)
        ensures
            r.iri_spec() == iri,
    {
        Class { iri: Arc::new(iri) }
    }

    /// Creates a class from an already shared IRI.
    pub fn from_shared(iri: Arc<IRI>) -> (r: Class)
        ensures
            r.iri_spec() == *iri,
    {
        Class { iri }
    }

    /// The IRI of the class.
    pub fn iri(&self) -> (r: &Arc<IRI>)
        ensures
            **r == self.iri_spec(),
    {
        &self.iri
    }
}

impl Clone for Class {
    fn clone(&self) -> (r: Self)
        ensures
            r.iri_spec() == self.iri_spec(),
    {
        Class { iri: share_arc(&self.iri) }
    }
}

/// A named object property.
#[derive(Debug)]
pub struct ObjectProperty {
    iri: Arc<IRI>,
}

impl ObjectProperty {
    /// The IRI of the property, as a value.
    pub closed spec fn iri_spec(&self) -> IRI {
        *self.iri
    }

    /// Creates an object property named by `iri`.
    pub fn new(iri: IRI) -> (r: ObjectProperty)
        ensures
            r.iri_spec() == iri,
    {
        ObjectProperty { iri: Arc::new(iri) }
    }

    /// The IRI of the property.
    pub fn iri(&self) -> (r: &Arc<IRI>)
        ensures
            **r == self.iri_spec(),
    {
        &self.iri
    }
}

impl Clone for ObjectProperty {
    fn clone(&self) -> (r: Self)
        ensures
            r.iri_spec() == self.iri_spec(),
    {
        ObjectProperty { iri: share_arc(&self.iri) }
    }
}

/// A named data property.
#[derive(Debug)]
pub struct DataProperty {
    iri: Arc<IRI>,
}

impl DataProperty {
    /// The IRI of the property, as a value.
    pub closed spec fn iri_spec(&self) -> IRI {
        *self.iri
    }

    /// Creates a data property named by `iri`.
    pub fn new(iri: IRI) -> (r: DataProperty)
        ensures
            r.iri_spec() == iri,
    {
        DataProperty { iri: Arc::new(iri) }
    }

    /// The IRI of the property.
    pub fn iri(&self) -> (r: &Arc<IRI>)
        ensures
            **r == self.iri_spec(),
    {
        &self.iri
    }
}

/// A named individual.
#[derive(Debug)]
pub struct NamedIndividual {
    iri: Arc<IRI>,
}

impl NamedIndividual {
    /// The IRI of the individual, as a value.
    pub closed spec fn iri_spec(&self) -> IRI {
        *self.iri
    }

    /// Creates an individual named by `iri`.
    pub fn new(iri: IRI) -> (r: NamedIndividual)
        ensures
            r.iri_spec() == iri,
    {
        NamedIndividual { iri: Arc::new(iri) }
    }

    /// The IRI of the individual.
    pub fn iri(&self) -> (r: &Arc<IRI>)
        ensures
            **r == self.iri_spec(),
    {
        &self.iri
    }
}

/// An anonymous (blank-node) individual, held by its node identifier.
#[derive(Debug)]
pub struct AnonymousIndividual {
    pub node_id: String,
}

/// A literal: lexical form with an optional datatype IRI and language tag.
#[derive(Debug)]
pub struct Literal {
    pub lexical_form: String,
    pub datatype: Option<Arc<IRI>>,
    pub language: Option<String>,
}

/// An annotation: an annotation property with a textual value.
#[derive(Debug)]
pub struct Annotation {
    pub property: Arc<IRI>,
    pub value: String,
}

} // verus!
