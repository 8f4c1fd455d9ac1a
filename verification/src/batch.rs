//! Batch construction of classes and subclass axioms, and small ontologies
//! built with it.

use vstd::prelude::*;
use std::sync::Arc;
use crate::iri::IRI;
use crate::entities::Class;
use crate::class_expression::{ClassExpression, ExprView};
use crate::axioms::SubClassOfAxiom;
use crate::ontology::{Ontology, class_iris};
use crate::binary_format::add_names;
use crate::error::OwlResult;
use crate::text::{push_str, string_from_chars};

verus! {

broadcast use vstd::std_specs::vec::group_vec_axioms;

/// The IRI text of `prefix` followed by `name`.
fn joined_iri(prefix: &str, name: &str) -> (r: IRI)
    requires
        prefix@.len() + name@.len() > 0,
    ensures
        r@ == prefix@ + name@,
{
    let mut cs: Vec<char> = Vec::new();
    push_str(&mut cs, prefix);
    push_str(&mut cs, name);
    let text = string_from_chars(&cs);
    IRI::new_unchecked(text)
}


/// The IRI texts of pairs of classes.
pub open spec fn pair_names(v: Seq<(Class, Class)>) -> Seq<(Seq<char>, Seq<char>)> {
    v.map_values(|p: (Class, Class)| (p.0.iri_spec()@, p.1.iri_spec()@))
}

/// Batch builder for classes named under one IRI prefix.
#[derive(Debug)]
pub struct ClassBatchBuilder {
    classes: Vec<Class>,
    iri_prefix: String,
    subclass_relationships: Vec<(Class, Class)>,
}

impl ClassBatchBuilder {
    /// The IRI texts of the classes added, in order.
    pub closed spec fn class_names(&self) -> Seq<Seq<char>> {
        class_iris(self.classes@)
    }

    /// The prefix of every class IRI.
    pub closed spec fn prefix(&self) -> Seq<char> {
        self.iri_prefix@
    }

    /// The subclass relationships recorded, subclass first, in order.
    pub closed spec fn relationships(&self) -> Seq<(Seq<char>, Seq<char>)> {
        pair_names(self.subclass_relationships@)
    }

    /// Creates an empty builder for classes under `iri_prefix`.
    pub fn new(iri_prefix: &str) -> (r: Self)
        ensures
            r.class_names().len() == 0,
            r.prefix() == iri_prefix@,
            r.relationships().len() == 0,
    {
        let r = ClassBatchBuilder { classes: Vec::new(), iri_prefix: iri_prefix.to_owned(), subclass_relationships: Vec::new() };
        assert(r.class_names() =~= Seq::<Seq<char>>::empty());
        assert(r.relationships() =~= Seq::<(Seq<char>, Seq<char>)>::empty());
        r
    }

    /// Adds the class named by the prefix and `name`, and returns it.
    pub fn add_class(&mut self, name: &str) -> (r: &Class)
        requires
            old(self).prefix().len() + name@.len() > 0,
        ensures
            final(self).class_names() == old(self).class_names().push(old(self).prefix() + name@),
            final(self).prefix() == old(self).prefix(),
            final(self).relationships() == old(self).relationships(),
            r.iri_spec()@ == old(self).prefix() + name@,
    {
        let iri = joined_iri(self.iri_prefix.as_str(), name);
        let class = Class::new(iri);
        let ghost before = self.classes@;
        self.classes.push(class);
        assert(class_iris(self.classes@) =~= class_iris(before).push(class.iri_spec()@));
        let n = self.classes.len();
        &self.classes[n - 1]
    }

    /// Records that `subclass` is a subclass of `superclass`.
    pub fn add_subclass(&mut self, subclass: &Class, superclass: &Class) -> (r: &mut Self)
        ensures
            r.class_names() == old(self).class_names(),
            r.prefix() == old(self).prefix(),
            r.relationships() == old(self).relationships().push((subclass.iri_spec()@, superclass.iri_spec()@)),
            *final(self) == *final(r),
    {
        let ghost before = self.subclass_relationships@;
        self.subclass_relationships.push((subclass.clone(), superclass.clone()));
        assert(pair_names(self.subclass_relationships@) =~= pair_names(before)
            .push((subclass.iri_spec()@, superclass.iri_spec()@)));
        self
    }

    /// Records several subclass relationships, in order.
    pub fn add_subclass_batch(&mut self, relationships: &Vec<(Class, Class)>) -> (r: &mut Self)
        ensures
            r.class_names() == old(self).class_names(),
            r.prefix() == old(self).prefix(),
            r.relationships() == old(self).relationships() + pair_names(relationships@),
            *final(self) == *final(r),
    {
        let ghost start = pair_names(self.subclass_relationships@);
        let mut k: usize = 0;
        while k < relationships.len()
            invariant
                k <= relationships@.len(),
                self.class_names() == old(self).class_names(),
                self.prefix() == old(self).prefix(),
                start == old(self).relationships(),
                pair_names(self.subclass_relationships@) == start + pair_names(relationships@.take(k as int)),
            decreases relationships@.len() - k,
        {
            let ghost before = self.subclass_relationships@;
            let pair = &relationships[k];
            self.subclass_relationships.push((pair.0.clone(), pair.1.clone()));
            proof {
                assert(pair_names(self.subclass_relationships@) =~= pair_names(before)
                    .push((pair.0.iri_spec()@, pair.1.iri_spec()@)));
                assert(pair_names(relationships@.take(k + 1)) =~= pair_names(relationships@.take(k as int))
                    .push((pair.0.iri_spec()@, pair.1.iri_spec()@)));
            }
            k += 1;
        }
        assert(relationships@.take(relationships@.len() as int) == relationships@);
        self
    }

    /// The classes added, in order.
    pub fn build(self) -> (r: Vec<Class>)
        ensures
            class_iris(r@) == self.class_names(),
    {
        self.classes
    }

    /// The number of classes added.
    pub fn len(&self) -> (r: usize)
        ensures
            r == self.class_names().len(),
    {
        self.classes.len()
    }

    /// Whether no class was added.
    pub fn is_empty(&self) -> (r: bool)
        ensures
            r == (self.class_names().len() == 0),
    {
        self.classes.len() == 0
    }
}


/// One call on a class batch builder: `add_class` with a name, or
/// `add_subclass` / `add_subclass_batch` with the relationships' IRI texts.
pub enum ClassBatchStep {
    AddClass(Seq<char>),
    AddRelationships(Seq<(Seq<char>, Seq<char>)>),
}

/// What one call's contract says of the builder before and after it.
pub open spec fn class_step_holds(before: ClassBatchBuilder, after: ClassBatchBuilder, step: ClassBatchStep) -> bool {
    &&& after.prefix() == before.prefix()
    &&& match step {
        ClassBatchStep::AddClass(name) => after.class_names() == before.class_names().push(before.prefix() + name)
            && after.relationships() == before.relationships(),
        ClassBatchStep::AddRelationships(rs) => after.class_names() == before.class_names()
            && after.relationships() == before.relationships() + rs,
    }
}

/// The class IRI texts the `AddClass` steps name, under `prefix`, in order.
pub open spec fn added_class_names(prefix: Seq<char>, steps: Seq<ClassBatchStep>) -> Seq<Seq<char>>
    decreases steps.len(),
{
    if steps.len() == 0 {
        Seq::empty()
    } else {
        let rest = added_class_names(prefix, steps.drop_last());
        match steps.last() {
            ClassBatchStep::AddClass(name) => rest.push(prefix + name),
            ClassBatchStep::AddRelationships(_) => rest,
        }
    }
}

/// Law: after a new class batch builder goes through any sequence of calls,
/// its classes (what `build` returns) are the prefix joined to each name
/// given to `add_class`, in call order with repeats kept; recorded subclass
/// relationships add none.
pub proof fn lemma_class_batch_sequence(states: Seq<ClassBatchBuilder>, steps: Seq<ClassBatchStep>)
    requires
        states.len() == steps.len() + 1,
        states[0].class_names().len() == 0,
        forall|i: int| 0 <= i < steps.len() ==> #[trigger] class_step_holds(states[i], states[i + 1], steps[i]),
    ensures
        states.last().prefix() == states[0].prefix(),
        states.last().class_names() == added_class_names(states[0].prefix(), steps),
    decreases steps.len(),
{
    if steps.len() > 0 {
        let k = steps.len() - 1;
        assert(class_step_holds(states[k], states[k + 1], steps[k]));
        lemma_class_batch_sequence(states.drop_last(), steps.drop_last());
        assert(states.drop_last().last() == states[k]);
        assert(steps.drop_last().len() == k);
        assert forall|i: int| 0 <= i < k implies #[trigger] class_step_holds(states.drop_last()[i], states.drop_last()[i + 1], steps.drop_last()[i]) by {
            assert(class_step_holds(states[i], states[i + 1], steps[i]));
        }
    }
}

/// One call on an axiom batch builder: `add_subclass`,
/// `add_class_assertion` or `add_equivalent_classes` with a pair, or
/// `add_subclass_batch` with pairs.
pub enum AxiomBatchStep {
    Subclass((ExprView, ExprView)),
    ClassAssertion((ExprView, ExprView)),
    Equivalence((ExprView, ExprView)),
    SubclassBatch(Seq<(ExprView, ExprView)>),
}

/// What one call's contract says of the subclass axioms before and after it.
pub open spec fn axiom_step_holds(before: AxiomBatchBuilder, after: AxiomBatchBuilder, step: AxiomBatchStep) -> bool {
    match step {
        AxiomBatchStep::Subclass(p) => after.subclass_spec() == before.subclass_spec().push(p),
        AxiomBatchStep::ClassAssertion(_) => after.subclass_spec() == before.subclass_spec(),
        AxiomBatchStep::Equivalence(_) => after.subclass_spec() == before.subclass_spec(),
        AxiomBatchStep::SubclassBatch(ps) => after.subclass_spec() == before.subclass_spec() + ps,
    }
}

/// The subclass pairs the steps add, in order.
pub open spec fn added_subclass_pairs(steps: Seq<AxiomBatchStep>) -> Seq<(ExprView, ExprView)>
    decreases steps.len(),
{
    if steps.len() == 0 {
        Seq::empty()
    } else {
        let rest = added_subclass_pairs(steps.drop_last());
        match steps.last() {
            AxiomBatchStep::Subclass(p) => rest.push(p),
            AxiomBatchStep::SubclassBatch(ps) => rest + ps,
            _ => rest,
        }
    }
}

/// Law: after a new axiom batch builder goes through any sequence of calls,
/// its subclass axioms (what `build` returns, and what `len` counts) are the
/// subclass pairs added, in call order; class assertions and equivalences
/// add none.
pub proof fn lemma_axiom_batch_sequence(states: Seq<AxiomBatchBuilder>, steps: Seq<AxiomBatchStep>)
    requires
        states.len() == steps.len() + 1,
        states[0].subclass_spec().len() == 0,
        forall|i: int| 0 <= i < steps.len() ==> #[trigger] axiom_step_holds(states[i], states[i + 1], steps[i]),
    ensures
        states.last().subclass_spec() == added_subclass_pairs(steps),
    decreases steps.len(),
{
    if steps.len() == 0 {
        assert(states[0].subclass_spec() =~= Seq::<(ExprView, ExprView)>::empty());
    } else {
        let k = steps.len() - 1;
        assert(axiom_step_holds(states[k], states[k + 1], steps[k]));
        assert forall|i: int| 0 <= i < k implies #[trigger] axiom_step_holds(states.drop_last()[i], states.drop_last()[i + 1], steps.drop_last()[i]) by {
            assert(axiom_step_holds(states[i], states[i + 1], steps[i]));
        }
        lemma_axiom_batch_sequence(states.drop_last(), steps.drop_last());
        assert(states.drop_last().last() == states[k]);
    }
}

/// The views of subclass axioms: subclass and superclass.
pub open spec fn subclass_views(v: Seq<SubClassOfAxiom>) -> Seq<(ExprView, ExprView)> {
    v.map_values(|a: SubClassOfAxiom| (a.sub_class_spec()@, a.super_class_spec()@))
}

/// The views of pairs of expressions.
pub open spec fn expr_pair_views(v: Seq<(ClassExpression, ClassExpression)>) -> Seq<(ExprView, ExprView)> {
    v.map_values(|p: (ClassExpression, ClassExpression)| (p.0@, p.1@))
}

/// Batch builder for axioms.
#[derive(Debug)]
pub struct AxiomBatchBuilder {
    subclass_axioms: Vec<SubClassOfAxiom>,
    class_assertions: Vec<(ClassExpression, ClassExpression)>,
    equivalent_classes: Vec<(ClassExpression, ClassExpression)>,
}

impl AxiomBatchBuilder {
    /// The subclass axioms added, in order.
    pub closed spec fn subclass_spec(&self) -> Seq<(ExprView, ExprView)> {
        subclass_views(self.subclass_axioms@)
    }

    /// The class assertion pairs added, in order.
    pub closed spec fn assertions_spec(&self) -> Seq<(ExprView, ExprView)> {
        expr_pair_views(self.class_assertions@)
    }

    /// The equivalence pairs added, in order.
    pub closed spec fn equivalences_spec(&self) -> Seq<(ExprView, ExprView)> {
        expr_pair_views(self.equivalent_classes@)
    }

    /// Creates an empty builder.
    pub fn new() -> (r: Self)
        ensures
            r.subclass_spec().len() == 0,
            r.assertions_spec().len() == 0,
            r.equivalences_spec().len() == 0,
    {
        let r = AxiomBatchBuilder { subclass_axioms: Vec::new(), class_assertions: Vec::new(), equivalent_classes: Vec::new() };
        assert(r.subclass_spec() =~= Seq::<(ExprView, ExprView)>::empty());
        assert(r.assertions_spec() =~= Seq::<(ExprView, ExprView)>::empty());
        assert(r.equivalences_spec() =~= Seq::<(ExprView, ExprView)>::empty());
        r
    }

    /// Adds a subclass axiom.
    pub fn add_subclass(&mut self, subclass: ClassExpression, superclass: ClassExpression) -> (r: &mut Self)
        ensures
            r.subclass_spec() == old(self).subclass_spec().push((subclass@, superclass@)),
            r.assertions_spec() == old(self).assertions_spec(),
            r.equivalences_spec() == old(self).equivalences_spec(),
            *final(self) == *final(r),
    {
        let ghost before = self.subclass_axioms@;
        let ghost pair = (subclass@, superclass@);
        self.subclass_axioms.push(SubClassOfAxiom::new(subclass, superclass));
        assert(subclass_views(self.subclass_axioms@) =~= subclass_views(before).push(pair));
        self
    }

    /// Adds a class assertion pair.
    pub fn add_class_assertion(&mut self, class: ClassExpression, target: ClassExpression) -> (r: &mut Self)
        ensures
            r.subclass_spec() == old(self).subclass_spec(),
            r.assertions_spec() == old(self).assertions_spec().push((class@, target@)),
            r.equivalences_spec() == old(self).equivalences_spec(),
            *final(self) == *final(r),
    {
        let ghost before = self.class_assertions@;
        let ghost pair = (class@, target@);
        self.class_assertions.push((class, target));
        assert(expr_pair_views(self.class_assertions@) =~= expr_pair_views(before).push(pair));
        self
    }

    /// Adds an equivalence pair.
    pub fn add_equivalent_classes(&mut self, class1: ClassExpression, class2: ClassExpression) -> (r: &mut Self)
        ensures
            r.subclass_spec() == old(self).subclass_spec(),
            r.assertions_spec() == old(self).assertions_spec(),
            r.equivalences_spec() == old(self).equivalences_spec().push((class1@, class2@)),
            *final(self) == *final(r),
    {
        let ghost before = self.equivalent_classes@;
        let ghost pair = (class1@, class2@);
        self.equivalent_classes.push((class1, class2));
        assert(expr_pair_views(self.equivalent_classes@) =~= expr_pair_views(before).push(pair));
        self
    }

    /// Adds a subclass axiom for each pair, in order.
    pub fn add_subclass_batch(&mut self, axioms: Vec<(ClassExpression, ClassExpression)>) -> (r: &mut Self)
        ensures
            r.subclass_spec() == old(self).subclass_spec() + expr_pair_views(axioms@),
            r.assertions_spec() == old(self).assertions_spec(),
            r.equivalences_spec() == old(self).equivalences_spec(),
            *final(self) == *final(r),
    {
        let ghost all = expr_pair_views(axioms@);
        let ghost start = self.subclass_spec();
        let mut axioms = axioms;
        let n = axioms.len();
        let mut k: usize = 0;
        while k < n
            invariant
                k <= n,
                n == all.len(),
                axioms@.len() == n - k,
                expr_pair_views(axioms@) == all.subrange(k as int, n as int),
                self.subclass_spec() == start + all.take(k as int),
                self.assertions_spec() == old(self).assertions_spec(),
                self.equivalences_spec() == old(self).equivalences_spec(),
                start == old(self).subclass_spec(),
            decreases n - k,
        {
            let ghost before_items = axioms@;
            let (sub, sup) = axioms.remove(0);
            let ghost pair = (sub@, sup@);
            proof {
                assert(expr_pair_views(before_items)[0] == pair);
                assert(expr_pair_views(axioms@) =~= expr_pair_views(before_items).drop_first());
                assert(all.take(k + 1) =~= all.take(k as int).push(pair));
            }
            let ghost before = self.subclass_axioms@;
            self.subclass_axioms.push(SubClassOfAxiom::new(sub, sup));
            assert(subclass_views(self.subclass_axioms@) =~= subclass_views(before).push(pair));
            k += 1;
        }
        assert(all.take(n as int) == all);
        self
    }

    /// The subclass axioms added, in order.
    pub fn build(self) -> (r: Vec<SubClassOfAxiom>)
        ensures
            subclass_views(r@) == self.subclass_spec(),
    {
        self.subclass_axioms
    }

    /// The number of subclass axioms added.
    pub fn len(&self) -> (r: usize)
        ensures
            r == self.subclass_spec().len(),
    {
        self.subclass_axioms.len()
    }
}


/// The class IRI texts a family ontology gets: the parent, then the child
/// of each pair, under `prefix`.
pub open spec fn family_names(prefix: Seq<char>, pairs: Seq<(Seq<char>, Seq<char>)>) -> Seq<Seq<char>>
    decreases pairs.len(),
{
    if pairs.len() == 0 {
        Seq::empty()
    } else {
        family_names(prefix, pairs.drop_last()).push(prefix + pairs.last().0).push(prefix + pairs.last().1)
    }
}

/// The views of pairs of names.
pub open spec fn name_pairs(v: Seq<(&str, &str)>) -> Seq<(Seq<char>, Seq<char>)> {
    v.map_values(|p: (&str, &str)| (p.0@, p.1@))
}

/// Adds the classes to the ontology, in order.
fn add_all_classes(ontology: &mut Ontology, classes: &Vec<Class>)
    ensures
        class_iris(final(ontology).classes_spec()) == add_names(class_iris(old(ontology).classes_spec()), class_iris(classes@)),
        final(ontology).axioms_spec() == old(ontology).axioms_spec(),
{
    let ghost start = class_iris(ontology.classes_spec());
    let ghost names = class_iris(classes@);
    let mut k: usize = 0;
    while k < classes.len()
        invariant
            k <= classes@.len(),
            names == class_iris(classes@),
            class_iris(ontology.classes_spec()) == add_names(start, names.take(k as int)),
            ontology.axioms_spec() == old(ontology).axioms_spec(),
        decreases classes@.len() - k,
    {
        let ghost before = ontology.classes_spec();
        let c = classes[k].clone();
        let _ = ontology.add_class(c);
        proof {
            assert(names.take(k + 1).drop_last() =~= names.take(k as int));
            assert(names.take(k + 1).last() == names[k as int]);
            if !class_iris(before).contains(c.iri_spec()@) {
                assert(class_iris(before.push(c)) =~= class_iris(before).push(c.iri_spec()@));
            }
        }
        k += 1;
    }
    assert(names.take(classes@.len() as int) == names);
}

/// A family ontology: for each parent and child name, the two classes under
/// `family_prefix` (classes added once each). Subclass relationships are
/// recorded in the builder only; the ontology has no axioms.
pub fn create_family_ontology(family_prefix: &str, parent_child_pairs: &Vec<(&str, &str)>)
    -> (r: OwlResult<(Ontology, Vec<Class>)>)
    requires
        forall|i: int| 0 <= i < parent_child_pairs@.len() ==>
            family_prefix@.len() + (#[trigger] parent_child_pairs@[i]).0@.len() > 0
            && family_prefix@.len() + parent_child_pairs@[i].1@.len() > 0,
    ensures
        r matches Ok((o, cs)) && class_iris(cs@) == family_names(family_prefix@, name_pairs(parent_child_pairs@))
            && class_iris(o.classes_spec()) == add_names(Seq::empty(), class_iris(cs@))
            && o.axioms_spec().len() == 0,
{
    let mut ontology = Ontology::new();
    let mut builder = ClassBatchBuilder::new(family_prefix);
    let ghost pairs = name_pairs(parent_child_pairs@);
    let mut k: usize = 0;
    while k < parent_child_pairs.len()
        invariant
            k <= parent_child_pairs@.len(),
            pairs == name_pairs(parent_child_pairs@),
            builder.prefix() == family_prefix@,
            builder.class_names() == family_names(family_prefix@, pairs.take(k as int)),
            forall|i: int| 0 <= i < parent_child_pairs@.len() ==>
                family_prefix@.len() + (#[trigger] parent_child_pairs@[i]).0@.len() > 0
                && family_prefix@.len() + parent_child_pairs@[i].1@.len() > 0,
        decreases parent_child_pairs@.len() - k,
    {
        let (parent, child) = parent_child_pairs[k];
        let parent_class = builder.add_class(parent).clone();
        let child_class = builder.add_class(child).clone();
        builder.add_subclass(&parent_class, &child_class);
        proof {
            assert(pairs.take(k + 1).drop_last() =~= pairs.take(k as int));
            assert(pairs.take(k + 1).last() == (parent@, child@));
        }
        k += 1;
    }
    assert(pairs.take(parent_child_pairs@.len() as int) == pairs);
    let classes = builder.build();
    assert(class_iris(ontology.classes_spec()) =~= Seq::<Seq<char>>::empty());
    add_all_classes(&mut ontology, &classes);
    Ok((ontology, classes))
}

/// The names of the children of each level, in order.
pub open spec fn level_children(levels: Seq<Seq<Seq<char>>>) -> Seq<Seq<char>>
    decreases levels.len(),
{
    if levels.len() == 0 {
        Seq::empty()
    } else {
        level_children(levels.drop_last()) + levels.last()
    }
}

/// The views of the levels' child names.
pub open spec fn level_views(v: Seq<(&str, Vec<&str>)>) -> Seq<Seq<Seq<char>>> {
    v.map_values(|l: (&str, Vec<&str>)| l.1@.map_values(|n: &str| n@))
}

/// The prefix of the classes of a hierarchy ontology.
pub open spec fn hierarchy_prefix() -> Seq<char> {
    "http://example.org/hierarchy/"@
}

/// A hierarchy ontology: the root class and the children of every level,
/// under `http://example.org/hierarchy/` (classes added once each).
/// Subclass relationships are recorded in the builder only; the ontology
/// has no axioms.
pub fn create_hierarchy_ontology(root_class: &str, levels: &Vec<(&str, Vec<&str>)>)
    -> (r: OwlResult<(Ontology, Vec<Class>)>)
    ensures
        r matches Ok((o, cs)) && class_iris(cs@) == seq![hierarchy_prefix() + root_class@]
                + level_children(level_views(levels@)).map_values(|n: Seq<char>| hierarchy_prefix() + n)
            && class_iris(o.classes_spec()) == add_names(Seq::empty(), class_iris(cs@))
            && o.axioms_spec().len() == 0,
{
    proof {
        reveal_strlit("http://example.org/hierarchy/");
    }
    let mut ontology = Ontology::new();
    let mut builder = ClassBatchBuilder::new("http://example.org/hierarchy/");
    let root = builder.add_class(root_class).clone();
    let ghost lv = level_views(levels@);
    let ghost pre = hierarchy_prefix();
    let mut k: usize = 0;
    while k < levels.len()
        invariant
            k <= levels@.len(),
            lv == level_views(levels@),
            pre == hierarchy_prefix(),
            pre.len() > 0,
            builder.prefix() == pre,
            builder.class_names() == seq![pre + root_class@]
                + level_children(lv.take(k as int)).map_values(|n: Seq<char>| pre + n),
        decreases levels@.len() - k,
    {
        let children = &levels[k].1;
        let ghost names_before = builder.class_names();
        let mut m: usize = 0;
        while m < children.len()
            invariant
                m <= children@.len(),
                pre == hierarchy_prefix(),
                pre.len() > 0,
                builder.prefix() == pre,
                builder.class_names() == names_before
                    + children@.take(m as int).map_values(|n: &str| pre + n@),
            decreases children@.len() - m,
        {
            let child = builder.add_class(children[m]).clone();
            builder.add_subclass(&root, &child);
            proof {
                assert(children@.take(m + 1).map_values(|n: &str| pre + n@)
                    =~= children@.take(m as int).map_values(|n: &str| pre + n@).push(pre + children@[m as int]@));
            }
            m += 1;
        }
        proof {
            assert(children@.take(children@.len() as int) == children@);
            assert(lv.take(k + 1).drop_last() =~= lv.take(k as int));
            assert(lv.take(k + 1).last() == children@.map_values(|n: &str| n@));
            let before = level_children(lv.take(k as int));
            let added = children@.map_values(|n: &str| n@);
            assert((before + added).map_values(|n: Seq<char>| pre + n)
                =~= before.map_values(|n: Seq<char>| pre + n) + children@.map_values(|n: &str| pre + n@));
        }
        k += 1;
    }
    assert(lv.take(levels@.len() as int) == lv);
    let classes = builder.build();
    assert(class_iris(ontology.classes_spec()) =~= Seq::<Seq<char>>::empty());
    add_all_classes(&mut ontology, &classes);
    Ok((ontology, classes))
}

/// The texts of the commonly used IRIs.
pub open spec fn common_iri_texts() -> Seq<Seq<char>> {
    seq!["http://www.w3.org/2002/07/owl#Class"@, "http://www.w3.org/2002/07/owl#Thing"@,
        "http://www.w3.org/2002/07/owl#Nothing"@, "http://www.w3.org/1999/02/22-rdf-syntax-ns#type"@,
        "http://www.w3.org/1999/02/22-rdf-syntax-ns#Property"@, "http://www.w3.org/2002/07/owl#sameAs"@,
        "http://www.w3.org/2001/XMLSchema#string"@]
}

/// Shared IRIs for commonly used terms: `owl:Class`, `owl:Thing`,
/// `owl:Nothing`, `rdf:type`, `rdf:Property`, `owl:sameAs`, `xsd:string`.
pub fn pre_cache_common_iris() -> (r: Vec<Arc<IRI>>)
    ensures
        r@.map_values(|i: Arc<IRI>| (*i)@) == common_iri_texts(),
{
    proof {
        reveal_strlit("http://www.w3.org/2002/07/owl#Class");
        reveal_strlit("http://www.w3.org/2002/07/owl#Thing");
        reveal_strlit("http://www.w3.org/2002/07/owl#Nothing");
        reveal_strlit("http://www.w3.org/1999/02/22-rdf-syntax-ns#type");
        reveal_strlit("http://www.w3.org/1999/02/22-rdf-syntax-ns#Property");
        reveal_strlit("http://www.w3.org/2002/07/owl#sameAs");
        reveal_strlit("http://www.w3.org/2001/XMLSchema#string");
    }
    let mut v: Vec<Arc<IRI>> = Vec::new();
    v.push(Arc::new(IRI::new_unchecked("http://www.w3.org/2002/07/owl#Class".to_owned())));
    v.push(Arc::new(IRI::new_unchecked("http://www.w3.org/2002/07/owl#Thing".to_owned())));
    v.push(Arc::new(IRI::new_unchecked("http://www.w3.org/2002/07/owl#Nothing".to_owned())));
    v.push(Arc::new(IRI::new_unchecked("http://www.w3.org/1999/02/22-rdf-syntax-ns#type".to_owned())));
    v.push(Arc::new(IRI::new_unchecked("http://www.w3.org/1999/02/22-rdf-syntax-ns#Property".to_owned())));
    v.push(Arc::new(IRI::new_unchecked("http://www.w3.org/2002/07/owl#sameAs".to_owned())));
    v.push(Arc::new(IRI::new_unchecked("http://www.w3.org/2001/XMLSchema#string".to_owned())));
    assert(v@.map_values(|i: Arc<IRI>| (*i)@) =~= common_iri_texts());
    v
}

}
