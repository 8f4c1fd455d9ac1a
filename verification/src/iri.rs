//! Internationalized resource identifiers.

use vstd::prelude::*;
use std::sync::Arc;
use crate::error::OwlError;

verus! {

/// An IRI, held as its text.
#[derive(Debug)]
pub struct IRI {
    iri: String,
}

impl View for IRI {
    type V = Seq<char>;

    closed spec fn view(&self) -> Seq<char> {
        self.iri@
    }
}

impl IRI {
    /// Creates an IRI from its text. Empty text is rejected.
    pub fn new(iri: &str) -> (r: Result<IRI, OwlError>)
        ensures
            r.is_ok() <==> iri@.len() > 0,
            r matches Ok(v) ==> v@ == iri@,
    {
        if iri.is_empty() {
            let msg = String::from_str("empty IRI");
            Err(OwlError::IriParseError { iri: iri.to_owned(), context: msg })
        } else {
            Ok(IRI { iri: iri.to_owned() })
        }
    }

    /// Creates an IRI from text already known to be non-empty.
    pub fn new_unchecked(iri: String) -> (r: IRI)
        requires
            iri@.len() > 0,
        ensures
            r@ == iri@,
    {
        IRI { iri }
    }

    /// The text of the IRI.
    pub fn as_str(&self) -> (r: &str)
        ensures
            r@ == self@,
    {
        self.iri.as_str()
    }
}

impl Clone for IRI {
    fn clone(&self) -> (r: Self)
        ensures
            r@ == self@,
    {
        IRI { iri: self.iri.clone() }
    }
}

impl PartialEq for IRI {
    fn eq(&self, other: &Self) -> (r: bool) {
        self.iri == other.iri
    }
}

impl vstd::std_specs::cmp::PartialEqSpecImpl for IRI {
    open spec fn obeys_eq_spec() -> bool {
        true
    }

    open spec fn eq_spec(&self, other: &IRI) -> bool {
        self@ == other@
    }
}

impl Eq for IRI {}

/// `Arc::clone`: another pointer to the same allocation, so the value seen
/// through it is the same.
#[verifier::external_body]
pub fn share_arc<T>(a: &Arc<T>) -> (r: Arc<T>)
    ensures
        r == *a,
{
    Arc::clone(a)
}

} // verus!
