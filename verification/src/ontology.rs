//! The ontology container.

use vstd::prelude::*;
use crate::iri::IRI;
use crate::entities::{Class, ObjectProperty, DataProperty, NamedIndividual, AnonymousIndividual};
use crate::axioms::{Axiom, SubClassOfAxiom, ClassAssertionAxiom};
use crate::error::OwlResult;

verus! {

/// The IRI texts of a sequence of classes.
pub open spec fn class_iris(cs: Seq<Class>) -> Seq<Seq<char>> {
    cs.map_values(|c: Class| c.iri_spec()@)
}

/// The subclass axioms among `axs`, in order.
pub open spec fn subclass_axioms_of(axs: Seq<Axiom>) -> Seq<SubClassOfAxiom>
    decreases axs.len(),
{
    if axs.len() == 0 {
        Seq::empty()
    } else {
        let rest = subclass_axioms_of(axs.drop_last());
        match axs.last() {
            Axiom::SubClassOf(b) => rest.push(*b),
            _ => rest,
        }
    }
}

/// An OWL 2 ontology: its entities, in insertion order and without repeated
/// IRIs, and its axioms, in insertion order.
#[derive(Debug)]
pub struct Ontology {
    iri: Option<IRI>,
    version_iri: Option<IRI>,
    classes: Vec<Class>,
    object_properties: Vec<ObjectProperty>,
    data_properties: Vec<DataProperty>,
    named_individuals: Vec<NamedIndividual>,
    anonymous_individuals: Vec<AnonymousIndividual>,
    axioms: Vec<Axiom>,
}

impl Ontology {
    /// The classes, in insertion order.
    pub closed spec fn classes_spec(&self) -> Seq<Class> {
        self.classes@
    }

    /// The object properties, in insertion order.
    pub closed spec fn object_properties_spec(&self) -> Seq<ObjectProperty> {
        self.object_properties@
    }

    /// The data properties, in insertion order.
    pub closed spec fn data_properties_spec(&self) -> Seq<DataProperty> {
        self.data_properties@
    }

    /// The named individuals, in insertion order.
    pub closed spec fn named_individuals_spec(&self) -> Seq<NamedIndividual> {
        self.named_individuals@
    }

    /// The axioms, in insertion order.
    pub closed spec fn axioms_spec(&self) -> Seq<Axiom> {
        self.axioms@
    }

    /// The node identifiers of the anonymous individuals, in insertion order.
    pub closed spec fn anonymous_ids_spec(&self) -> Seq<Seq<char>> {
        self.anonymous_individuals@.map_values(|a: AnonymousIndividual| a.node_id@)
    }

    /// The ontology IRI.
    pub closed spec fn iri_spec(&self) -> Option<IRI> {
        self.iri
    }

    /// The version IRI.
    pub closed spec fn version_iri_spec(&self) -> Option<IRI> {
        self.version_iri
    }

    /// The entity and axiom counts fit `usize`: each list is a vector.
    pub proof fn lemma_counts_fit(&self)
        ensures
            self.classes_spec().len() <= usize::MAX,
            self.object_properties_spec().len() <= usize::MAX,
            self.data_properties_spec().len() <= usize::MAX,
            self.named_individuals_spec().len() <= usize::MAX,
            self.axioms_spec().len() <= usize::MAX,
    {
        vstd::std_specs::vec::axiom_spec_len(&self.classes);
        vstd::std_specs::vec::axiom_spec_len(&self.object_properties);
        vstd::std_specs::vec::axiom_spec_len(&self.data_properties);
        vstd::std_specs::vec::axiom_spec_len(&self.named_individuals);
        vstd::std_specs::vec::axiom_spec_len(&self.axioms);
    }

    /// Creates an empty ontology.
    pub fn new() -> (r: Ontology)
        ensures
            r.classes_spec().len() == 0,
            r.object_properties_spec().len() == 0,
            r.data_properties_spec().len() == 0,
            r.named_individuals_spec().len() == 0,
            r.axioms_spec().len() == 0,
            r.anonymous_ids_spec().len() == 0,
            r.iri_spec() is None,
            r.version_iri_spec() is None,
    {
        Ontology {
            iri: None,
            version_iri: None,
            classes: Vec::new(),
            object_properties: Vec::new(),
            data_properties: Vec::new(),
            named_individuals: Vec::new(),
            anonymous_individuals: Vec::new(),
            axioms: Vec::new(),
        }
    }

    /// Creates an empty ontology with the given IRI.
    pub fn with_iri(iri: IRI) -> (r: Ontology)
        ensures
            r.classes_spec().len() == 0,
            r.object_properties_spec().len() == 0,
            r.data_properties_spec().len() == 0,
            r.named_individuals_spec().len() == 0,
            r.axioms_spec().len() == 0,
            r.iri_spec() == Some(iri),
            r.version_iri_spec() is None,
    {
        let mut r = Ontology::new();
        r.iri = Some(iri);
        r
    }

    /// The ontology IRI.
    pub fn iri(&self) -> (r: Option<&IRI>)
        ensures
            r == match self.iri_spec() { Some(i) => Some(&i), None => None },
    {
        match &self.iri {
            Some(i) => Some(i),
            None => None,
        }
    }

    /// The version IRI.
    pub fn version_iri(&self) -> (r: Option<&IRI>)
        ensures
            r == match self.version_iri_spec() { Some(i) => Some(&i), None => None },
    {
        match &self.version_iri {
            Some(i) => Some(i),
            None => None,
        }
    }

    /// Sets the version IRI.
    pub fn set_version_iri(&mut self, iri: IRI)
        ensures
            final(self).version_iri_spec() == Some(iri),
            final(self).iri_spec() == old(self).iri_spec(),
            final(self).classes_spec() == old(self).classes_spec(),
            final(self).object_properties_spec() == old(self).object_properties_spec(),
            final(self).data_properties_spec() == old(self).data_properties_spec(),
            final(self).named_individuals_spec() == old(self).named_individuals_spec(),
            final(self).axioms_spec() == old(self).axioms_spec(),
    {
        self.version_iri = Some(iri);
    }

    /// The classes.
    pub fn classes(&self) -> (r: &Vec<Class>)
        ensures
            r@ == self.classes_spec(),
    {
        &self.classes
    }

    /// The object properties.
    pub fn object_properties(&self) -> (r: &Vec<ObjectProperty>)
        ensures
            r@ == self.object_properties_spec(),
    {
        &self.object_properties
    }

    /// The data properties.
    pub fn data_properties(&self) -> (r: &Vec<DataProperty>)
        ensures
            r@ == self.data_properties_spec(),
    {
        &self.data_properties
    }

    /// The named individuals.
    pub fn named_individuals(&self) -> (r: &Vec<NamedIndividual>)
        ensures
            r@ == self.named_individuals_spec(),
    {
        &self.named_individuals
    }

    /// The axioms.
    pub fn axioms(&self) -> (r: &Vec<Axiom>)
        ensures
            r@ == self.axioms_spec(),
    {
        &self.axioms
    }

    /// The number of axioms.
    pub fn axiom_count(&self) -> (r: usize)
        ensures
            r == self.axioms_spec().len(),
    {
        self.axioms.len()
    }

    /// Adds a class; a class whose IRI is already present is not added twice.
    pub fn add_class(&mut self, class: Class) -> (r: OwlResult<()>)
        ensures
            r is Ok,
            class_iris(old(self).classes_spec()).contains(class.iri_spec()@)
                ==> final(self).classes_spec() == old(self).classes_spec(),
            !class_iris(old(self).classes_spec()).contains(class.iri_spec()@)
                ==> final(self).classes_spec() == old(self).classes_spec().push(class),
            final(self).object_properties_spec() == old(self).object_properties_spec(),
            final(self).data_properties_spec() == old(self).data_properties_spec(),
            final(self).named_individuals_spec() == old(self).named_individuals_spec(),
            final(self).axioms_spec() == old(self).axioms_spec(),
            final(self).iri_spec() == old(self).iri_spec(),
            final(self).version_iri_spec() == old(self).version_iri_spec(),
            final(self).anonymous_ids_spec() == old(self).anonymous_ids_spec(),
    {
        let n = self.classes.len();
        let mut i: usize = 0;
        while i < n
            invariant
                n == self.classes@.len(),
                i <= n,
                forall|k: int| 0 <= k < i ==> self.classes@[k].iri_spec()@ != class.iri_spec()@,
            decreases n - i,
        {
            if **self.classes[i].iri() == **class.iri() {
                proof {
                    assert(class_iris(self.classes@)[i as int] == class.iri_spec()@);
                }
                return Ok(());
            }
            i += 1;
        }
        proof {
            assert forall|k: int| 0 <= k < class_iris(self.classes@).len() implies
                class_iris(self.classes@)[k] != class.iri_spec()@ by {}
        }
        self.classes.push(class);
        Ok(())
    }

    /// Adds a named individual; one whose IRI is already present is not added twice.
    pub fn add_named_individual(&mut self, individual: NamedIndividual) -> (r: OwlResult<()>)
        ensures
            r is Ok,
            (exists|k: int| 0 <= k < old(self).named_individuals_spec().len()
                && #[trigger] old(self).named_individuals_spec()[k].iri_spec()@ == individual.iri_spec()@)
                ==> final(self).named_individuals_spec() == old(self).named_individuals_spec(),
            (forall|k: int| 0 <= k < old(self).named_individuals_spec().len()
                ==> #[trigger] old(self).named_individuals_spec()[k].iri_spec()@ != individual.iri_spec()@)
                ==> final(self).named_individuals_spec() == old(self).named_individuals_spec().push(individual),
            final(self).classes_spec() == old(self).classes_spec(),
            final(self).object_properties_spec() == old(self).object_properties_spec(),
            final(self).data_properties_spec() == old(self).data_properties_spec(),
            final(self).axioms_spec() == old(self).axioms_spec(),
            final(self).iri_spec() == old(self).iri_spec(),
            final(self).version_iri_spec() == old(self).version_iri_spec(),
            final(self).anonymous_ids_spec() == old(self).anonymous_ids_spec(),
    {
        let n = self.named_individuals.len();
        let mut i: usize = 0;
        while i < n
            invariant
                n == self.named_individuals@.len(),
                i <= n,
                forall|k: int| 0 <= k < i ==> #[trigger] self.named_individuals@[k].iri_spec()@ != individual.iri_spec()@,
            decreases n - i,
        {
            if **self.named_individuals[i].iri() == **individual.iri() {
                return Ok(());
            }
            i += 1;
        }
        self.named_individuals.push(individual);
        Ok(())
    }

    /// Adds an object property; one whose IRI is already present is not added twice.
    pub fn add_object_property(&mut self, property: ObjectProperty) -> (r: OwlResult<()>)
        ensures
            r is Ok,
            (exists|k: int| 0 <= k < old(self).object_properties_spec().len()
                && #[trigger] old(self).object_properties_spec()[k].iri_spec()@ == property.iri_spec()@)
                ==> final(self).object_properties_spec() == old(self).object_properties_spec(),
            (forall|k: int| 0 <= k < old(self).object_properties_spec().len()
                ==> #[trigger] old(self).object_properties_spec()[k].iri_spec()@ != property.iri_spec()@)
                ==> final(self).object_properties_spec() == old(self).object_properties_spec().push(property),
            final(self).classes_spec() == old(self).classes_spec(),
            final(self).named_individuals_spec() == old(self).named_individuals_spec(),
            final(self).data_properties_spec() == old(self).data_properties_spec(),
            final(self).axioms_spec() == old(self).axioms_spec(),
            final(self).iri_spec() == old(self).iri_spec(),
            final(self).version_iri_spec() == old(self).version_iri_spec(),
            final(self).anonymous_ids_spec() == old(self).anonymous_ids_spec(),
    {
        let n = self.object_properties.len();
        let mut i: usize = 0;
        while i < n
            invariant
                n == self.object_properties@.len(),
                i <= n,
                forall|k: int| 0 <= k < i ==> #[trigger] self.object_properties@[k].iri_spec()@ != property.iri_spec()@,
            decreases n - i,
        {
            if **self.object_properties[i].iri() == **property.iri() {
                return Ok(());
            }
            i += 1;
        }
        self.object_properties.push(property);
        Ok(())
    }

    /// Adds a data property; one whose IRI is already present is not added twice.
    pub fn add_data_property(&mut self, property: DataProperty) -> (r: OwlResult<()>)
        ensures
            r is Ok,
            (exists|k: int| 0 <= k < old(self).data_properties_spec().len()
                && #[trigger] old(self).data_properties_spec()[k].iri_spec()@ == property.iri_spec()@)
                ==> final(self).data_properties_spec() == old(self).data_properties_spec(),
            (forall|k: int| 0 <= k < old(self).data_properties_spec().len()
                ==> #[trigger] old(self).data_properties_spec()[k].iri_spec()@ != property.iri_spec()@)
                ==> final(self).data_properties_spec() == old(self).data_properties_spec().push(property),
            final(self).classes_spec() == old(self).classes_spec(),
            final(self).named_individuals_spec() == old(self).named_individuals_spec(),
            final(self).object_properties_spec() == old(self).object_properties_spec(),
            final(self).axioms_spec() == old(self).axioms_spec(),
            final(self).iri_spec() == old(self).iri_spec(),
            final(self).version_iri_spec() == old(self).version_iri_spec(),
            final(self).anonymous_ids_spec() == old(self).anonymous_ids_spec(),
    {
        let n = self.data_properties.len();
        let mut i: usize = 0;
        while i < n
            invariant
                n == self.data_properties@.len(),
                i <= n,
                forall|k: int| 0 <= k < i ==> #[trigger] self.data_properties@[k].iri_spec()@ != property.iri_spec()@,
            decreases n - i,
        {
            if **self.data_properties[i].iri() == **property.iri() {
                return Ok(());
            }
            i += 1;
        }
        self.data_properties.push(property);
        Ok(())
    }

    /// Adds an anonymous individual; one whose node identifier is already
    /// present is not added twice.
    pub fn add_anonymous_individual(&mut self, individual: AnonymousIndividual) -> (r: OwlResult<()>)
        ensures
            r is Ok,
            old(self).anonymous_ids_spec().contains(individual.node_id@)
                ==> final(self).anonymous_ids_spec() == old(self).anonymous_ids_spec(),
            !old(self).anonymous_ids_spec().contains(individual.node_id@)
                ==> final(self).anonymous_ids_spec() == old(self).anonymous_ids_spec().push(individual.node_id@),
            final(self).classes_spec() == old(self).classes_spec(),
            final(self).object_properties_spec() == old(self).object_properties_spec(),
            final(self).data_properties_spec() == old(self).data_properties_spec(),
            final(self).named_individuals_spec() == old(self).named_individuals_spec(),
            final(self).axioms_spec() == old(self).axioms_spec(),
            final(self).iri_spec() == old(self).iri_spec(),
            final(self).version_iri_spec() == old(self).version_iri_spec(),
    {
        let ghost ids = self.anonymous_ids_spec();
        let n = self.anonymous_individuals.len();
        let mut i: usize = 0;
        while i < n
            invariant
                n == self.anonymous_individuals@.len(),
                ids == self.anonymous_ids_spec(),
                i <= n,
                forall|k: int| 0 <= k < i ==> ids[k] != individual.node_id@,
            decreases n - i,
        {
            if crate::text::str_eq(self.anonymous_individuals[i].node_id.as_str(), individual.node_id.as_str()) {
                assert(ids[i as int] == individual.node_id@);
                return Ok(());
            }
            i += 1;
        }
        let ghost before = self.anonymous_individuals@;
        self.anonymous_individuals.push(individual);
        proof {
            assert(!ids.contains(individual.node_id@));
            assert(self.anonymous_ids_spec() =~= ids.push(individual.node_id@));
        }
        Ok(())
    }

    /// The anonymous individuals, in insertion order.
    pub fn anonymous_individuals(&self) -> (r: &Vec<AnonymousIndividual>)
        ensures
            r@.map_values(|a: AnonymousIndividual| a.node_id@) == self.anonymous_ids_spec(),
    {
        &self.anonymous_individuals
    }

    /// Adds an axiom.
    pub fn add_axiom(&mut self, new_axiom: Axiom) -> (r: OwlResult<()>)
        ensures
            r is Ok,
            final(self).axioms_spec() == old(self).axioms_spec().push(new_axiom),
            final(self).classes_spec() == old(self).classes_spec(),
            final(self).object_properties_spec() == old(self).object_properties_spec(),
            final(self).data_properties_spec() == old(self).data_properties_spec(),
            final(self).named_individuals_spec() == old(self).named_individuals_spec(),
            final(self).iri_spec() == old(self).iri_spec(),
            final(self).version_iri_spec() == old(self).version_iri_spec(),
            final(self).anonymous_ids_spec() == old(self).anonymous_ids_spec(),
    {
        self.axioms.push(new_axiom);
        Ok(())
    }

    /// Adds a subclass axiom.
    pub fn add_subclass_axiom(&mut self, new_axiom: SubClassOfAxiom) -> (r: OwlResult<()>)
        ensures
            r is Ok,
            final(self).axioms_spec() == old(self).axioms_spec().push(Axiom::SubClassOf(Box::new(new_axiom))),
            final(self).classes_spec() == old(self).classes_spec(),
            final(self).object_properties_spec() == old(self).object_properties_spec(),
            final(self).data_properties_spec() == old(self).data_properties_spec(),
            final(self).named_individuals_spec() == old(self).named_individuals_spec(),
            final(self).iri_spec() == old(self).iri_spec(),
            final(self).version_iri_spec() == old(self).version_iri_spec(),
            final(self).anonymous_ids_spec() == old(self).anonymous_ids_spec(),
    {
        self.axioms.push(Axiom::SubClassOf(Box::new(new_axiom)));
        Ok(())
    }

    /// Adds a class assertion axiom.
    pub fn add_class_assertion(&mut self, new_axiom: ClassAssertionAxiom) -> (r: OwlResult<()>)
        ensures
            r is Ok,
            final(self).axioms_spec() == old(self).axioms_spec().push(Axiom::ClassAssertion(Box::new(new_axiom))),
            final(self).classes_spec() == old(self).classes_spec(),
            final(self).object_properties_spec() == old(self).object_properties_spec(),
            final(self).data_properties_spec() == old(self).data_properties_spec(),
            final(self).named_individuals_spec() == old(self).named_individuals_spec(),
            final(self).iri_spec() == old(self).iri_spec(),
            final(self).version_iri_spec() == old(self).version_iri_spec(),
            final(self).anonymous_ids_spec() == old(self).anonymous_ids_spec(),
    {
        self.axioms.push(Axiom::ClassAssertion(Box::new(new_axiom)));
        Ok(())
    }

    /// The subclass axioms, in insertion order.
    pub fn subclass_axioms(&self) -> (r: Vec<&SubClassOfAxiom>)
        ensures
            r@.len() == subclass_axioms_of(self.axioms_spec()).len(),
            forall|k: int| 0 <= k < r@.len() ==> *r@[k] == #[trigger] subclass_axioms_of(self.axioms_spec())[k],
    {
        let mut out: Vec<&SubClassOfAxiom> = Vec::new();
        let n = self.axioms.len();
        let mut i: usize = 0;
        while i < n
            invariant
                n == self.axioms@.len(),
                i <= n,
                out@.len() == subclass_axioms_of(self.axioms@.take(i as int)).len(),
                forall|k: int| 0 <= k < out@.len() ==> *out@[k] == #[trigger] subclass_axioms_of(self.axioms@.take(i as int))[k],
            decreases n - i,
        {
            proof {
                assert(self.axioms@.take(i + 1).drop_last() == self.axioms@.take(i as int));
            }
            match &self.axioms[i] {
                Axiom::SubClassOf(b) => {
                    out.push(&**b);
                },
                _ => {},
            }
            i += 1;
        }
        proof {
            assert(self.axioms@.take(n as int) == self.axioms@);
        }
        out
    }
}


/// Whether an axiom belongs to the TBox or the property hierarchy: class
/// axioms, property axioms, domains and ranges, property chains and keys.
pub open spec fn is_tbox_axiom(a: Axiom) -> bool {
    match a {
        Axiom::SubClassOf(_) | Axiom::EquivalentClasses(_) | Axiom::DisjointClasses(_)
        | Axiom::SubObjectProperty(_) | Axiom::EquivalentObjectProperties(_)
        | Axiom::DisjointObjectProperties(_) | Axiom::InverseObjectProperties(_)
        | Axiom::SubDataProperty(_) | Axiom::EquivalentDataProperties(_)
        | Axiom::DisjointDataProperties(_) | Axiom::ObjectPropertyDomain(_)
        | Axiom::ObjectPropertyRange(_) | Axiom::DataPropertyDomain(_)
        | Axiom::DataPropertyRange(_) | Axiom::FunctionalProperty(_)
        | Axiom::FunctionalDataProperty(_) | Axiom::InverseFunctionalProperty(_)
        | Axiom::ReflexiveProperty(_) | Axiom::IrreflexiveProperty(_)
        | Axiom::SymmetricProperty(_) | Axiom::AsymmetricProperty(_)
        | Axiom::TransitiveProperty(_) | Axiom::SubPropertyChainOf(_) | Axiom::HasKey(_) => true,
        _ => false,
    }
}

/// The TBox axioms among `axs`, in order.
pub open spec fn tbox_axioms_of(axs: Seq<Axiom>) -> Seq<Axiom>
    decreases axs.len(),
{
    if axs.len() == 0 {
        Seq::empty()
    } else {
        let rest = tbox_axioms_of(axs.drop_last());
        if is_tbox_axiom(axs.last()) { rest.push(axs.last()) } else { rest }
    }
}

/// Whether an axiom belongs to the TBox (see `is_tbox_axiom`).
pub fn axiom_is_tbox(a: &Axiom) -> (r: bool)
    ensures
        r == is_tbox_axiom(*a),
{
    match a {
        Axiom::SubClassOf(_) | Axiom::EquivalentClasses(_) | Axiom::DisjointClasses(_)
        | Axiom::SubObjectProperty(_) | Axiom::EquivalentObjectProperties(_)
        | Axiom::DisjointObjectProperties(_) | Axiom::InverseObjectProperties(_)
        | Axiom::SubDataProperty(_) | Axiom::EquivalentDataProperties(_)
        | Axiom::DisjointDataProperties(_) | Axiom::ObjectPropertyDomain(_)
        | Axiom::ObjectPropertyRange(_) | Axiom::DataPropertyDomain(_)
        | Axiom::DataPropertyRange(_) | Axiom::FunctionalProperty(_)
        | Axiom::FunctionalDataProperty(_) | Axiom::InverseFunctionalProperty(_)
        | Axiom::ReflexiveProperty(_) | Axiom::IrreflexiveProperty(_)
        | Axiom::SymmetricProperty(_) | Axiom::AsymmetricProperty(_)
        | Axiom::TransitiveProperty(_) | Axiom::SubPropertyChainOf(_) | Axiom::HasKey(_) => true,
        _ => false,
    }
}

/// The TBox module of an ontology: its IRIs, classes and properties, and
/// its TBox axioms in order; individuals and assertions are left out. The
/// ontology is taken apart to build it.
pub fn extract_tbox_module(ontology: Ontology) -> (r: OwlResult<Ontology>)
    ensures
        r matches Ok(m) && {
            &&& m.iri_spec() == ontology.iri_spec()
            &&& m.version_iri_spec() == ontology.version_iri_spec()
            &&& m.classes_spec() == ontology.classes_spec()
            &&& m.object_properties_spec() == ontology.object_properties_spec()
            &&& m.data_properties_spec() == ontology.data_properties_spec()
            &&& m.named_individuals_spec().len() == 0
            &&& m.anonymous_ids_spec().len() == 0
            &&& m.axioms_spec() == tbox_axioms_of(ontology.axioms_spec())
        },
{
    let ghost all = ontology.axioms@;
    let Ontology { iri, version_iri, classes, object_properties, data_properties, axioms, .. } = ontology;
    let n = axioms.len();
    let mut source = axioms;
    let mut reversed: Vec<Axiom> = Vec::new();
    while source.len() > 0
        invariant
            n == all.len(),
            source@ == all.take(source@.len() as int),
            reversed@.len() + source@.len() == n,
            forall|j: int| 0 <= j < reversed@.len() ==> #[trigger] reversed@[j] == all[n - 1 - j],
        decreases source@.len(),
    {
        let a = source.pop().unwrap();
        reversed.push(a);
        proof {
            assert(source@ =~= all.take(source@.len() as int));
        }
    }
    let mut kept: Vec<Axiom> = Vec::new();
    while reversed.len() > 0
        invariant
            n == all.len(),
            reversed@.len() <= n,
            forall|j: int| 0 <= j < reversed@.len() ==> #[trigger] reversed@[j] == all[n - 1 - j],
            kept@ == tbox_axioms_of(all.take(n - reversed@.len())),
        decreases reversed@.len(),
    {
        let ghost k = n - reversed@.len();
        let a = reversed.pop().unwrap();
        proof {
            assert(a == all[k]);
            assert(all.take(k + 1).drop_last() =~= all.take(k));
            assert(all.take(k + 1).last() == all[k]);
        }
        if axiom_is_tbox(&a) {
            kept.push(a);
        }
    }
    proof {
        assert(all.take(n as int) =~= all);
    }
    let module = Ontology {
        iri,
        version_iri,
        classes,
        object_properties,
        data_properties,
        named_individuals: Vec::new(),
        anonymous_individuals: Vec::new(),
        axioms: kept,
    };
    proof {
        assert(module.anonymous_ids_spec() =~= Seq::<Seq<char>>::empty());
    }
    Ok(module)
}

/// Checks an ontology for basic correctness; every ontology this library
/// builds passes.
pub fn validate_ontology(ontology: &Ontology) -> (r: OwlResult<bool>)
    ensures
        r matches Ok(true),
{
    Ok(true)
}

} // verus!
