//! The binary ontology format, version 1: a header, a string table with
//! every IRI once, the entity sections as string ids, and the subclass and
//! class assertion axioms.
//!
//! ```text
//! [Header] (48 bytes)
//!   magic "OWLB", version: u32, class, object property, data property,
//!   individual and axiom counts: u64 each
//! [String table]  count: u64, then (length: u32, UTF-8 bytes)*
//! [Classes] [Object properties] [Data properties] [Individuals]  string_id: u64 each
//! [Axioms]  (tag: u8, data)*
//! ```

use vstd::prelude::*;
use std::sync::Arc;
use crate::byte_codec::{u32_le, u64_le, u32_from_le, u64_from_le, push_u32_le, push_u64_le,
    read_u8_at, read_u32_at, read_u64_at, starts_with, lemma_u64_roundtrip, lemma_u32_roundtrip};
use crate::class_expression::{ClassExpression, ExprView, expr_view, operand_views, lemma_operand_views};
use crate::entities::{Class, ObjectProperty, DataProperty, NamedIndividual};
use crate::iri::IRI;
use crate::axioms::{Axiom, SubClassOfAxiom, ClassAssertionAxiom};
use crate::ontology::{Ontology, class_iris};
use crate::string_table::{StringTable, BinaryFormatError, table_bytes};
use crate::binary_image::{image_of, image_table, same_content, carried, lemma_image_of_v1, supported_of, classes_pos, object_properties_pos,
    data_properties_pos, individuals_pos, axioms_pos, lemma_image_header, lemma_image_table, lemma_image_classes,
    lemma_image_object_properties, lemma_image_data_properties, lemma_image_individuals, lemma_image_axioms};
use crate::expr_codec::{expr_bytes, names_present, all_names_present, first_id, lemma_starts_split, lemma_starts_trans,
    write_class_expression, read_class_expression, decodable, distinct_entries};

verus! {

broadcast use vstd::std_specs::vec::group_vec_axioms;

/// The version this library writes and reads.
pub const VERSION_V1: u32 = 1;

/// Axiom kinds of the format, by their tag byte.
#[derive(Debug, Clone, Copy, PartialEq, Eq, Structural)]
pub enum AxiomType {
    SubClassOf,
    EquivalentClasses,
    DisjointClasses,
    ClassAssertion,
    PropertyAssertion,
    SubObjectProperty,
}

impl AxiomType {
    /// The kind with tag `v` (1 to 6), if any.
    pub fn from_u8(v: u8) -> (r: Option<AxiomType>)
        ensures
            v == 1 ==> r == Some(AxiomType::SubClassOf),
            v == 2 ==> r == Some(AxiomType::EquivalentClasses),
            v == 3 ==> r == Some(AxiomType::DisjointClasses),
            v == 4 ==> r == Some(AxiomType::ClassAssertion),
            v == 5 ==> r == Some(AxiomType::PropertyAssertion),
            v == 6 ==> r == Some(AxiomType::SubObjectProperty),
            (v == 0 || v > 6) ==> r is None,
    {
        match v {
            1 => Some(AxiomType::SubClassOf),
            2 => Some(AxiomType::EquivalentClasses),
            3 => Some(AxiomType::DisjointClasses),
            4 => Some(AxiomType::ClassAssertion),
            5 => Some(AxiomType::PropertyAssertion),
            6 => Some(AxiomType::SubObjectProperty),
            _ => None,
        }
    }
}

/// `ids` with `n` appended unless it is there already.
pub open spec fn add_name(ids: Seq<Seq<char>>, n: Seq<char>) -> Seq<Seq<char>> {
    if ids.contains(n) {
        ids
    } else {
        ids.push(n)
    }
}

/// `ids` with each of `ns` added in turn.
pub open spec fn add_names(ids: Seq<Seq<char>>, ns: Seq<Seq<char>>) -> Seq<Seq<char>>
    decreases ns.len(),
{
    if ns.len() == 0 {
        ids
    } else {
        add_name(add_names(ids, ns.drop_last()), ns.last())
    }
}

/// The class names of an expression in the order the collection visits
/// them (fillers of existential and universal restrictions included).
pub open spec fn expr_names(v: ExprView) -> Seq<Seq<char>>
    decreases v,
{
    match v {
        ExprView::Class(n) => seq![n],
        ExprView::And(ops) => ops_names(ops),
        ExprView::Or(ops) => ops_names(ops),
        ExprView::Not(b) => expr_names(*b),
        ExprView::Exists(_, b) => expr_names(*b),
        ExprView::Forall(_, b) => expr_names(*b),
        _ => Seq::empty(),
    }
}

/// The class names of a sequence of operands.
pub open spec fn ops_names(ops: Seq<ExprView>) -> Seq<Seq<char>>
    decreases ops,
{
    if ops.len() == 0 {
        Seq::empty()
    } else {
        ops_names(ops.drop_last()) + expr_names(ops.last())
    }
}

/// The names an axiom contributes to the string table.
pub open spec fn axiom_names(a: Axiom) -> Seq<Seq<char>> {
    match a {
        Axiom::SubClassOf(ax) => expr_names(ax.sub_class_spec()@) + expr_names(ax.super_class_spec()@),
        Axiom::ClassAssertion(ax) => seq![ax.individual_spec()@] + expr_names(ax.class_expr_spec()@),
        _ => Seq::empty(),
    }
}

/// The names all axioms contribute, in order.
pub open spec fn axioms_names(axs: Seq<Axiom>) -> Seq<Seq<char>>
    decreases axs.len(),
{
    if axs.len() == 0 {
        Seq::empty()
    } else {
        axioms_names(axs.drop_last()) + axiom_names(axs.last())
    }
}

/// Whether the format carries an axiom (subclass and class assertion axioms).
pub open spec fn is_supported(a: Axiom) -> bool {
    a is SubClassOf || a is ClassAssertion
}

/// The number of axioms the format carries.
pub open spec fn supported_count(axs: Seq<Axiom>) -> nat
    decreases axs.len(),
{
    if axs.len() == 0 {
        0
    } else {
        supported_count(axs.drop_last()) + if is_supported(axs.last()) { 1nat } else { 0nat }
    }
}

/// Adding names in two runs is adding them in one.
pub proof fn lemma_add_names_concat(ids: Seq<Seq<char>>, a: Seq<Seq<char>>, b: Seq<Seq<char>>)
    ensures
        add_names(ids, a + b) == add_names(add_names(ids, a), b),
    decreases b.len(),
{
    if b.len() == 0 {
        assert(a + b == a);
    } else {
        lemma_add_names_concat(ids, a, b.drop_last());
        assert((a + b).drop_last() == a + b.drop_last());
        assert((a + b).last() == b.last());
    }
}

/// Adding one name.
pub proof fn lemma_add_names_single(ids: Seq<Seq<char>>, n: Seq<char>)
    ensures
        add_names(ids, seq![n]) == add_name(ids, n),
{
    assert(seq![n].drop_last() =~= Seq::<Seq<char>>::empty());
    assert(add_names(ids, Seq::<Seq<char>>::empty()) == ids);
}

/// After adding names, every earlier entry and every added name is present.
pub proof fn lemma_add_names_contains(ids: Seq<Seq<char>>, ns: Seq<Seq<char>>)
    ensures
        forall|n: Seq<char>| ids.contains(n) ==> #[trigger] add_names(ids, ns).contains(n),
        forall|i: int| 0 <= i < ns.len() ==> add_names(ids, ns).contains(#[trigger] ns[i]),
    decreases ns.len(),
{
    if ns.len() > 0 {
        lemma_add_names_contains(ids, ns.drop_last());
        let prev = add_names(ids, ns.drop_last());
        assert forall|n: Seq<char>| prev.contains(n) implies #[trigger] add_name(prev, ns.last()).contains(n) by {
            if !prev.contains(ns.last()) {
                let k = choose|k: int| 0 <= k < prev.len() && prev[k] == n;
                assert(prev.push(ns.last())[k] == n);
            }
        }
        assert(add_name(prev, ns.last()).contains(ns.last())) by {
            if !prev.contains(ns.last()) {
                assert(prev.push(ns.last())[prev.len() as int] == ns.last());
            }
        }
        assert forall|i: int| 0 <= i < ns.len() implies add_names(ids, ns).contains(#[trigger] ns[i]) by {
            if i < ns.len() - 1 {
                assert(ns.drop_last()[i] == ns[i]);
            }
        }
    }
}

/// An expression's names all present in a table makes the expression
/// encodable over it.
pub proof fn lemma_names_present(v: ExprView, ids: Seq<Seq<char>>)
    requires
        forall|i: int| 0 <= i < expr_names(v).len() ==> ids.contains(#[trigger] expr_names(v)[i]),
    ensures
        names_present(v, ids),
    decreases v,
{
    match v {
        ExprView::Class(n) => {
            assert(expr_names(v)[0] == n);
        },
        ExprView::And(ops) => {
            assert(expr_names(v) == ops_names(ops));
            lemma_ops_names_present(ops, ids);
        },
        ExprView::Or(ops) => {
            assert(expr_names(v) == ops_names(ops));
            lemma_ops_names_present(ops, ids);
        },
        ExprView::Not(b) => {
            assert(expr_names(v) == expr_names(*b));
            lemma_names_present(*b, ids);
        },
        _ => {},
    }
}

/// The operand version of `lemma_names_present`.
pub proof fn lemma_ops_names_present(ops: Seq<ExprView>, ids: Seq<Seq<char>>)
    requires
        forall|i: int| 0 <= i < ops_names(ops).len() ==> ids.contains(#[trigger] ops_names(ops)[i]),
    ensures
        all_names_present(ops, ids),
    decreases ops,
{
    if ops.len() > 0 {
        let a = ops_names(ops.drop_last());
        let b = expr_names(ops.last());
        assert(ops_names(ops) == a + b);
        assert forall|i: int| 0 <= i < a.len() implies ids.contains(#[trigger] a[i]) by {
            assert(ops_names(ops)[i] == a[i]);
        }
        assert forall|i: int| 0 <= i < b.len() implies ids.contains(#[trigger] b[i]) by {
            assert(ops_names(ops)[a.len() + i] == b[i]);
        }
        lemma_ops_names_present(ops.drop_last(), ids);
        lemma_names_present(ops.last(), ids);
    }
}

/// Adds the class names of `expr` to `table`, in the order of a left-to-right walk.
pub fn collect_class_expression_strings(expr: &ClassExpression, table: &mut StringTable)
    ensures
        final(table).entries() == add_names(old(table).entries(), expr_names(expr@)),
    decreases expr,
{
    match expr {
        ClassExpression::Class(class) => {
            table.add(class.iri().as_str());
            proof {
                lemma_add_names_single(old(table).entries(), class.iri_spec()@);
            }
        },
        ClassExpression::ObjectIntersectionOf(operands) | ClassExpression::ObjectUnionOf(operands) => {
            let ghost views = operand_views(operands@);
            let ghost start = table.entries();
            proof {
                lemma_operand_views(operands@);
                assert(decreases_to!(*expr => *operands));
                assert(decreases_to!(*operands => operands@));
                assert(expr_names(expr@) == ops_names(views));
            }
            let n = operands.len();
            let mut k: usize = 0;
            while k < n
                invariant
                    n == operands@.len(),
                    views == operand_views(operands@),
                    views.len() == n,
                    forall|i: int| 0 <= i < n ==> #[trigger] views[i] == expr_view(*operands@[i]),
                    k <= n,
                    table.entries() == add_names(start, ops_names(views.take(k as int))),
                    decreases_to!(*expr => operands@),
                decreases n - k,
            {
                proof {
                    assert(decreases_to!(operands@ => operands@[k as int]));
                }
                collect_class_expression_strings(&operands[k], table);
                proof {
                    assert(views.take(k + 1).drop_last() == views.take(k as int));
                    assert(views.take(k + 1).last() == views[k as int]);
                    lemma_add_names_concat(start, ops_names(views.take(k as int)), expr_names(views[k as int]));
                }
                k += 1;
            }
            assert(views.take(n as int) == views);
        },
        ClassExpression::ObjectComplementOf(inner) => {
            collect_class_expression_strings(inner, table);
        },
        ClassExpression::ObjectSomeValuesFrom(_, inner) | ClassExpression::ObjectAllValuesFrom(_, inner) => {
            collect_class_expression_strings(inner, table);
        },
        _ => {
            assert(add_names(table.entries(), Seq::empty()) == table.entries());
        },
    }
}

/// Adds the names of the subclass and class assertion axioms of `ontology`.
pub fn collect_axiom_strings(ontology: &Ontology, table: &mut StringTable)
    ensures
        final(table).entries() == add_names(old(table).entries(), axioms_names(ontology.axioms_spec())),
{
    let axioms = ontology.axioms();
    let ghost start = table.entries();
    let n = axioms.len();
    let mut k: usize = 0;
    while k < n
        invariant
            n == axioms@.len(),
            axioms@ == ontology.axioms_spec(),
            k <= n,
            table.entries() == add_names(start, axioms_names(axioms@.take(k as int))),
        decreases n - k,
    {
        let ghost before = table.entries();
        match &axioms[k] {
            Axiom::SubClassOf(ax) => {
                collect_class_expression_strings(ax.sub_class(), table);
                collect_class_expression_strings(ax.super_class(), table);
                proof {
                    lemma_add_names_concat(before, expr_names(ax.sub_class_spec()@), expr_names(ax.super_class_spec()@));
                }
            },
            Axiom::ClassAssertion(ax) => {
                table.add(ax.individual().as_str());
                proof {
                    lemma_add_names_single(before, ax.individual_spec()@);
                }
                collect_class_expression_strings(ax.class_expr(), table);
                proof {
                    lemma_add_names_concat(before, seq![ax.individual_spec()@], expr_names(ax.class_expr_spec()@));
                }
            },
            _ => {
                assert(add_names(before, Seq::empty()) == before);
            },
        }
        proof {
            assert(axioms@.take(k + 1).drop_last() == axioms@.take(k as int));
            assert(axioms@.take(k + 1).last() == axioms@[k as int]);
            lemma_add_names_concat(start, axioms_names(axioms@.take(k as int)), axiom_names(axioms@[k as int]));
        }
        k += 1;
    }
    assert(axioms@.take(n as int) == axioms@);
}

/// The number of subclass and class assertion axioms in `ontology`.
pub fn supported_axiom_count(ontology: &Ontology) -> (r: u64)
    ensures
        r == supported_count(ontology.axioms_spec()),
{
    let axioms = ontology.axioms();
    let n = axioms.len();
    let mut count: u64 = 0;
    let mut k: usize = 0;
    while k < n
        invariant
            n == axioms@.len(),
            axioms@ == ontology.axioms_spec(),
            k <= n,
            count == supported_count(axioms@.take(k as int)),
            supported_count(axioms@.take(k as int)) <= k,
        decreases n - k,
    {
        proof {
            assert(axioms@.take(k + 1).drop_last() == axioms@.take(k as int));
            assert(axioms@.take(k + 1).last() == axioms@[k as int]);
        }
        match &axioms[k] {
            Axiom::SubClassOf(_) | Axiom::ClassAssertion(_) => {
                count = count + 1;
            },
            _ => {},
        }
        k += 1;
    }
    assert(axioms@.take(n as int) == axioms@);
    count
}


/// The magic bytes that open the format: "OWLB".
pub open spec fn magic_bytes() -> Seq<u8> {
    seq![0x4fu8, 0x57u8, 0x4cu8, 0x42u8]
}

/// The 48-byte header.
pub open spec fn header_bytes(version: u32, classes: u64, object_properties: u64, data_properties: u64,
    individuals: u64, axioms: u64) -> Seq<u8>
{
    magic_bytes() + u32_le(version) + u64_le(classes) + u64_le(object_properties)
        + u64_le(data_properties) + u64_le(individuals) + u64_le(axioms)
}

/// The IRI texts of object properties.
pub open spec fn object_property_names(s: Seq<ObjectProperty>) -> Seq<Seq<char>> {
    s.map_values(|p: ObjectProperty| p.iri_spec()@)
}

/// The IRI texts of data properties.
pub open spec fn data_property_names(s: Seq<DataProperty>) -> Seq<Seq<char>> {
    s.map_values(|p: DataProperty| p.iri_spec()@)
}

/// The IRI texts of named individuals.
pub open spec fn individual_names(s: Seq<NamedIndividual>) -> Seq<Seq<char>> {
    s.map_values(|i: NamedIndividual| i.iri_spec()@)
}

/// The string ids of `names`, each as a `u64`.
pub open spec fn ids_bytes(names: Seq<Seq<char>>, ids: Seq<Seq<char>>) -> Seq<u8>
    decreases names.len(),
{
    if names.len() == 0 {
        Seq::empty()
    } else {
        ids_bytes(names.drop_last(), ids) + u64_le(first_id(ids, names.last()) as u64)
    }
}

/// The encoding of one axiom: subclass and class assertion axioms with
/// their tag; other kinds are left out.
pub open spec fn axiom_bytes(a: Axiom, ids: Seq<Seq<char>>) -> Seq<u8> {
    match a {
        Axiom::SubClassOf(ax) => seq![1u8] + expr_bytes(ax.sub_class_spec()@, ids)
            + expr_bytes(ax.super_class_spec()@, ids),
        Axiom::ClassAssertion(ax) => seq![4u8] + u64_le(first_id(ids, ax.individual_spec()@) as u64)
            + expr_bytes(ax.class_expr_spec()@, ids),
        _ => Seq::empty(),
    }
}

/// The encoding of the axioms, in order.
pub open spec fn axioms_bytes(axs: Seq<Axiom>, ids: Seq<Seq<char>>) -> Seq<u8>
    decreases axs.len(),
{
    if axs.len() == 0 {
        Seq::empty()
    } else {
        axioms_bytes(axs.drop_last(), ids) + axiom_bytes(axs.last(), ids)
    }
}

/// The string table the writer builds for an ontology.
pub open spec fn table_of(o: Ontology) -> Seq<Seq<char>> {
    add_names(add_names(add_names(add_names(add_names(Seq::empty(), class_iris(o.classes_spec())),
        object_property_names(o.object_properties_spec())), data_property_names(o.data_properties_spec())),
        individual_names(o.named_individuals_spec())), axioms_names(o.axioms_spec()))
}

/// The version 1 encoding of an ontology.
pub open spec fn v1_bytes(o: Ontology) -> Seq<u8> {
    let ids = table_of(o);
    header_bytes(1, o.classes_spec().len() as u64, o.object_properties_spec().len() as u64,
        o.data_properties_spec().len() as u64, o.named_individuals_spec().len() as u64,
        supported_count(o.axioms_spec()) as u64)
        + table_bytes(ids)
        + ids_bytes(class_iris(o.classes_spec()), ids)
        + ids_bytes(object_property_names(o.object_properties_spec()), ids)
        + ids_bytes(data_property_names(o.data_properties_spec()), ids)
        + ids_bytes(individual_names(o.named_individuals_spec()), ids)
        + axioms_bytes(o.axioms_spec(), ids)
}

/// Appends the header.
pub fn write_header(out: &mut Vec<u8>, version: u32, class_count: u64, object_property_count: u64,
    data_property_count: u64, individual_count: u64, axiom_count: u64)
    ensures
        final(out)@ == old(out)@ + header_bytes(version, class_count, object_property_count,
            data_property_count, individual_count, axiom_count),
{
    out.push(0x4fu8);
    out.push(0x57u8);
    out.push(0x4cu8);
    out.push(0x42u8);
    assert(out@ =~= old(out)@ + magic_bytes());
    push_u32_le(out, version);
    push_u64_le(out, class_count);
    push_u64_le(out, object_property_count);
    push_u64_le(out, data_property_count);
    push_u64_le(out, individual_count);
    push_u64_le(out, axiom_count);
    assert(out@ =~= old(out)@ + header_bytes(version, class_count, object_property_count,
        data_property_count, individual_count, axiom_count));
}

/// The position `get_id` reports is the first position of the entry.
proof fn lemma_first_id_of(ids: Seq<Seq<char>>, n: Seq<char>, id: int)
    requires
        0 <= id < ids.len(),
        ids[id] == n,
        forall|j: int| 0 <= j < id ==> ids[j] != n,
    ensures
        first_id(ids, n) == id,
{
    ids.index_of_first_ensures(n);
    match ids.index_of_first(n) {
        Some(i) => {
            if i < id {
                assert(ids[i] != n);
            }
        },
        None => {
            assert(ids.contains(n));
        },
    }
}

/// Appends the string id of `s`, which the table holds.
fn push_id(out: &mut Vec<u8>, table: &StringTable, s: &str)
    requires
        table.entries().contains(s@),
    ensures
        final(out)@ == old(out)@ + u64_le(first_id(table.entries(), s@) as u64),
{
    let id = table.get_id(s);
    match id {
        Some(i) => {
            proof {
                lemma_first_id_of(table.entries(), s@, i as int);
            }
            push_u64_le(out, i);
        },
        None => {
            assert(false);
        },
    }
}

/// Appends the string ids of the classes.
pub fn write_classes(out: &mut Vec<u8>, ontology: &Ontology, table: &StringTable)
    requires
        forall|i: int| 0 <= i < ontology.classes_spec().len()
            ==> table.entries().contains(#[trigger] class_iris(ontology.classes_spec())[i]),
    ensures
        final(out)@ == old(out)@ + ids_bytes(class_iris(ontology.classes_spec()), table.entries()),
{
    let items = ontology.classes();
    let ghost names = class_iris(items@);
    let n = items.len();
    let mut k: usize = 0;
    while k < n
        invariant
            n == items@.len(),
            items@ == ontology.classes_spec(),
            names == class_iris(items@),
            forall|i: int| 0 <= i < n ==> table.entries().contains(#[trigger] names[i]),
            k <= n,
            out@ == old(out)@ + ids_bytes(names.take(k as int), table.entries()),
        decreases n - k,
    {
        assert(names[k as int] == items@[k as int].iri_spec()@);
        push_id(out, table, items[k].iri().as_str());
        proof {
            assert(names.take(k + 1).drop_last() == names.take(k as int));
            assert(names.take(k + 1).last() == names[k as int]);
        }
        k += 1;
    }
    assert(names.take(n as int) == names);
}

/// Appends the string ids of the object properties.
pub fn write_object_properties(out: &mut Vec<u8>, ontology: &Ontology, table: &StringTable)
    requires
        forall|i: int| 0 <= i < ontology.object_properties_spec().len()
            ==> table.entries().contains(#[trigger] object_property_names(ontology.object_properties_spec())[i]),
    ensures
        final(out)@ == old(out)@ + ids_bytes(object_property_names(ontology.object_properties_spec()), table.entries()),
{
    let items = ontology.object_properties();
    let ghost names = object_property_names(items@);
    let n = items.len();
    let mut k: usize = 0;
    while k < n
        invariant
            n == items@.len(),
            items@ == ontology.object_properties_spec(),
            names == object_property_names(items@),
            forall|i: int| 0 <= i < n ==> table.entries().contains(#[trigger] names[i]),
            k <= n,
            out@ == old(out)@ + ids_bytes(names.take(k as int), table.entries()),
        decreases n - k,
    {
        assert(names[k as int] == items@[k as int].iri_spec()@);
        push_id(out, table, items[k].iri().as_str());
        proof {
            assert(names.take(k + 1).drop_last() == names.take(k as int));
            assert(names.take(k + 1).last() == names[k as int]);
        }
        k += 1;
    }
    assert(names.take(n as int) == names);
}

/// Appends the string ids of the data properties.
pub fn write_data_properties(out: &mut Vec<u8>, ontology: &Ontology, table: &StringTable)
    requires
        forall|i: int| 0 <= i < ontology.data_properties_spec().len()
            ==> table.entries().contains(#[trigger] data_property_names(ontology.data_properties_spec())[i]),
    ensures
        final(out)@ == old(out)@ + ids_bytes(data_property_names(ontology.data_properties_spec()), table.entries()),
{
    let items = ontology.data_properties();
    let ghost names = data_property_names(items@);
    let n = items.len();
    let mut k: usize = 0;
    while k < n
        invariant
            n == items@.len(),
            items@ == ontology.data_properties_spec(),
            names == data_property_names(items@),
            forall|i: int| 0 <= i < n ==> table.entries().contains(#[trigger] names[i]),
            k <= n,
            out@ == old(out)@ + ids_bytes(names.take(k as int), table.entries()),
        decreases n - k,
    {
        assert(names[k as int] == items@[k as int].iri_spec()@);
        push_id(out, table, items[k].iri().as_str());
        proof {
            assert(names.take(k + 1).drop_last() == names.take(k as int));
            assert(names.take(k + 1).last() == names[k as int]);
        }
        k += 1;
    }
    assert(names.take(n as int) == names);
}

/// Appends the string ids of the named individuals.
pub fn write_individuals(out: &mut Vec<u8>, ontology: &Ontology, table: &StringTable)
    requires
        forall|i: int| 0 <= i < ontology.named_individuals_spec().len()
            ==> table.entries().contains(#[trigger] individual_names(ontology.named_individuals_spec())[i]),
    ensures
        final(out)@ == old(out)@ + ids_bytes(individual_names(ontology.named_individuals_spec()), table.entries()),
{
    let items = ontology.named_individuals();
    let ghost names = individual_names(items@);
    let n = items.len();
    let mut k: usize = 0;
    while k < n
        invariant
            n == items@.len(),
            items@ == ontology.named_individuals_spec(),
            names == individual_names(items@),
            forall|i: int| 0 <= i < n ==> table.entries().contains(#[trigger] names[i]),
            k <= n,
            out@ == old(out)@ + ids_bytes(names.take(k as int), table.entries()),
        decreases n - k,
    {
        assert(names[k as int] == items@[k as int].iri_spec()@);
        push_id(out, table, items[k].iri().as_str());
        proof {
            assert(names.take(k + 1).drop_last() == names.take(k as int));
            assert(names.take(k + 1).last() == names[k as int]);
        }
        k += 1;
    }
    assert(names.take(n as int) == names);
}

/// Every name an axiom contributes is in `ids`.
pub open spec fn axiom_names_in(a: Axiom, ids: Seq<Seq<char>>) -> bool {
    forall|i: int| 0 <= i < axiom_names(a).len() ==> ids.contains(#[trigger] axiom_names(a)[i])
}

/// Appends the encodings of the subclass and class assertion axioms.
pub fn write_axioms(out: &mut Vec<u8>, ontology: &Ontology, table: &StringTable)
    requires
        forall|k: int| 0 <= k < ontology.axioms_spec().len()
            ==> axiom_names_in(#[trigger] ontology.axioms_spec()[k], table.entries()),
    ensures
        final(out)@ == old(out)@ + axioms_bytes(ontology.axioms_spec(), table.entries()),
{
    let axioms = ontology.axioms();
    let ghost ids = table.entries();
    let n = axioms.len();
    let mut k: usize = 0;
    while k < n
        invariant
            n == axioms@.len(),
            axioms@ == ontology.axioms_spec(),
            ids == table.entries(),
            forall|j: int| 0 <= j < n ==> axiom_names_in(#[trigger] axioms@[j], ids),
            k <= n,
            out@ == old(out)@ + axioms_bytes(axioms@.take(k as int), ids),
        decreases n - k,
    {
        let ghost before = out@;
        assert(axiom_names_in(axioms@[k as int], ids));
        match &axioms[k] {
            Axiom::SubClassOf(ax) => {
                proof {
                    let a = expr_names(ax.sub_class_spec()@);
                    let b = expr_names(ax.super_class_spec()@);
                    assert(axiom_names(axioms@[k as int]) == a + b);
                    assert forall|i: int| 0 <= i < a.len() implies ids.contains(#[trigger] a[i]) by {
                        assert(axiom_names(axioms@[k as int])[i] == a[i]);
                    }
                    assert forall|i: int| 0 <= i < b.len() implies ids.contains(#[trigger] b[i]) by {
                        assert(axiom_names(axioms@[k as int])[a.len() + i] == b[i]);
                    }
                    lemma_names_present(ax.sub_class_spec()@, ids);
                    lemma_names_present(ax.super_class_spec()@, ids);
                }
                out.push(1u8);
                write_class_expression(ax.sub_class(), table, out);
                write_class_expression(ax.super_class(), table, out);
                assert(out@ =~= before + axiom_bytes(axioms@[k as int], ids));
            },
            Axiom::ClassAssertion(ax) => {
                proof {
                    let a = seq![ax.individual_spec()@];
                    let b = expr_names(ax.class_expr_spec()@);
                    assert(axiom_names(axioms@[k as int]) == a + b);
                    assert(axiom_names(axioms@[k as int])[0] == ax.individual_spec()@);
                    assert forall|i: int| 0 <= i < b.len() implies ids.contains(#[trigger] b[i]) by {
                        assert(axiom_names(axioms@[k as int])[1 + i] == b[i]);
                    }
                    lemma_names_present(ax.class_expr_spec()@, ids);
                }
                out.push(4u8);
                push_id(out, table, ax.individual().as_str());
                write_class_expression(ax.class_expr(), table, out);
                assert(out@ =~= before + axiom_bytes(axioms@[k as int], ids));
            },
            _ => {
                assert(out@ =~= before + axiom_bytes(axioms@[k as int], ids));
            },
        }
        proof {
            assert(axioms@.take(k + 1).drop_last() == axioms@.take(k as int));
            assert(axioms@.take(k + 1).last() == axioms@[k as int]);
        }
        k += 1;
    }
    assert(axioms@.take(n as int) == axioms@);
}


/// All names of `ns` are in `ids`.
pub open spec fn all_in(ns: Seq<Seq<char>>, ids: Seq<Seq<char>>) -> bool {
    forall|i: int| 0 <= i < ns.len() ==> ids.contains(#[trigger] ns[i])
}

/// Adding more names keeps every name present.
pub proof fn lemma_all_in_grow(ns: Seq<Seq<char>>, ids: Seq<Seq<char>>, more: Seq<Seq<char>>)
    requires
        all_in(ns, ids),
    ensures
        all_in(ns, add_names(ids, more)),
{
    lemma_add_names_contains(ids, more);
    assert forall|i: int| 0 <= i < ns.len() implies add_names(ids, more).contains(#[trigger] ns[i]) by {
        assert(ids.contains(ns[i]));
    }
}

/// The names of each axiom are among the names of all axioms.
pub proof fn lemma_axioms_names_each(axs: Seq<Axiom>, ids: Seq<Seq<char>>)
    requires
        all_in(axioms_names(axs), ids),
    ensures
        forall|k: int| 0 <= k < axs.len() ==> axiom_names_in(#[trigger] axs[k], ids),
    decreases axs.len(),
{
    if axs.len() > 0 {
        let a = axioms_names(axs.drop_last());
        let b = axiom_names(axs.last());
        assert(axioms_names(axs) == a + b);
        assert forall|i: int| 0 <= i < a.len() implies ids.contains(#[trigger] a[i]) by {
            assert(axioms_names(axs)[i] == a[i]);
        }
        assert forall|i: int| 0 <= i < b.len() implies ids.contains(#[trigger] b[i]) by {
            assert(axioms_names(axs)[a.len() + i] == b[i]);
        }
        lemma_axioms_names_each(axs.drop_last(), ids);
        assert forall|k: int| 0 <= k < axs.len() implies axiom_names_in(#[trigger] axs[k], ids) by {
            if k < axs.len() - 1 {
                assert(axs.drop_last()[k] == axs[k]);
            }
        }
    }
}

/// Encodes `ontology` in version 1 of the format: the header, the string
/// table of every IRI, the entity sections and the subclass and class
/// assertion axioms.
pub fn serialize_v1(ontology: &Ontology) -> (r: Vec<u8>)
    ensures
        r@ == v1_bytes(*ontology),
{
    let mut table = StringTable::new();
    let ghost e0 = table.entries();
    let classes = ontology.classes();
    let ghost cn = class_iris(classes@);
    let mut k: usize = 0;
    while k < classes.len()
        invariant
            k <= classes@.len(),
            cn == class_iris(classes@),
            table.entries() == add_names(e0, cn.take(k as int)),
        decreases classes@.len() - k,
    {
        table.add(classes[k].iri().as_str());
        proof {
            assert(cn.take(k + 1).drop_last() == cn.take(k as int));
            assert(cn.take(k + 1).last() == cn[k as int]);
        }
        k += 1;
    }
    assert(cn.take(classes@.len() as int) == cn);
    let ghost e1 = table.entries();
    let ops = ontology.object_properties();
    let ghost on = object_property_names(ops@);
    let mut k: usize = 0;
    while k < ops.len()
        invariant
            k <= ops@.len(),
            on == object_property_names(ops@),
            table.entries() == add_names(e1, on.take(k as int)),
        decreases ops@.len() - k,
    {
        table.add(ops[k].iri().as_str());
        proof {
            assert(on.take(k + 1).drop_last() == on.take(k as int));
            assert(on.take(k + 1).last() == on[k as int]);
        }
        k += 1;
    }
    assert(on.take(ops@.len() as int) == on);
    let ghost e2 = table.entries();
    let dps = ontology.data_properties();
    let ghost dn = data_property_names(dps@);
    let mut k: usize = 0;
    while k < dps.len()
        invariant
            k <= dps@.len(),
            dn == data_property_names(dps@),
            table.entries() == add_names(e2, dn.take(k as int)),
        decreases dps@.len() - k,
    {
        table.add(dps[k].iri().as_str());
        proof {
            assert(dn.take(k + 1).drop_last() == dn.take(k as int));
            assert(dn.take(k + 1).last() == dn[k as int]);
        }
        k += 1;
    }
    assert(dn.take(dps@.len() as int) == dn);
    let ghost e3 = table.entries();
    let inds = ontology.named_individuals();
    let ghost ind_n = individual_names(inds@);
    let mut k: usize = 0;
    while k < inds.len()
        invariant
            k <= inds@.len(),
            ind_n == individual_names(inds@),
            table.entries() == add_names(e3, ind_n.take(k as int)),
        decreases inds@.len() - k,
    {
        table.add(inds[k].iri().as_str());
        proof {
            assert(ind_n.take(k + 1).drop_last() == ind_n.take(k as int));
            assert(ind_n.take(k + 1).last() == ind_n[k as int]);
        }
        k += 1;
    }
    assert(ind_n.take(inds@.len() as int) == ind_n);
    let ghost e4 = table.entries();
    collect_axiom_strings(ontology, &mut table);
    let ghost ids = table.entries();
    proof {
        assert(e0 =~= Seq::<Seq<char>>::empty());
        assert(ids == table_of(*ontology));
        lemma_add_names_contains(e0, cn);
        lemma_add_names_contains(e1, on);
        lemma_add_names_contains(e2, dn);
        lemma_add_names_contains(e3, ind_n);
        lemma_add_names_contains(e4, axioms_names(ontology.axioms_spec()));
        assert(all_in(cn, e1));
        lemma_all_in_grow(cn, e1, on);
        lemma_all_in_grow(cn, e2, dn);
        lemma_all_in_grow(cn, e3, ind_n);
        lemma_all_in_grow(cn, e4, axioms_names(ontology.axioms_spec()));
        assert(all_in(on, e2));
        lemma_all_in_grow(on, e2, dn);
        lemma_all_in_grow(on, e3, ind_n);
        lemma_all_in_grow(on, e4, axioms_names(ontology.axioms_spec()));
        assert(all_in(dn, e3));
        lemma_all_in_grow(dn, e3, ind_n);
        lemma_all_in_grow(dn, e4, axioms_names(ontology.axioms_spec()));
        assert(all_in(ind_n, e4));
        lemma_all_in_grow(ind_n, e4, axioms_names(ontology.axioms_spec()));
        assert(all_in(axioms_names(ontology.axioms_spec()), ids));
        lemma_axioms_names_each(ontology.axioms_spec(), ids);
    }
    let mut out: Vec<u8> = Vec::new();
    let axiom_count = supported_axiom_count(ontology);
    write_header(&mut out, VERSION_V1, classes.len() as u64, ops.len() as u64, dps.len() as u64,
        inds.len() as u64, axiom_count);
    table.write(&mut out);
    write_classes(&mut out, ontology, &table);
    write_object_properties(&mut out, ontology, &table);
    write_data_properties(&mut out, ontology, &table);
    write_individuals(&mut out, ontology, &table);
    write_axioms(&mut out, ontology, &table);
    assert(out@ =~= v1_bytes(*ontology));
    out
}


/// The decoded header.
#[derive(Debug)]
pub struct Header {
    pub magic: [u8; 4],
    pub version: u32,
    pub class_count: u64,
    pub object_property_count: u64,
    pub data_property_count: u64,
    pub individual_count: u64,
    pub axiom_count: u64,
}

/// The header fields a 48-byte prefix holds.
pub open spec fn header_matches(h: Header, d: Seq<u8>) -> bool {
    &&& h.magic@ == d.subrange(0, 4)
    &&& h.version == u32_from_le(d.subrange(4, 8))
    &&& h.class_count == u64_from_le(d.subrange(8, 16))
    &&& h.object_property_count == u64_from_le(d.subrange(16, 24))
    &&& h.data_property_count == u64_from_le(d.subrange(24, 32))
    &&& h.individual_count == u64_from_le(d.subrange(32, 40))
    &&& h.axiom_count == u64_from_le(d.subrange(40, 48))
}

/// Reads the 48-byte header at the start of `data`.
pub fn read_header(data: &[u8]) -> (r: Result<Header, BinaryFormatError>)
    ensures
        r is Err <==> data@.len() < 48,
        r matches Err(e) ==> e == BinaryFormatError::UnexpectedEof,
        r matches Ok(h) ==> header_matches(h, data@),
{
    if data.len() < 48 {
        return Err(BinaryFormatError::UnexpectedEof);
    }
    let magic: [u8; 4] = [data[0], data[1], data[2], data[3]];
    assert(magic@ =~= data@.subrange(0, 4));
    let version = match read_u32_at(data, 4) { Some(v) => v, None => 0 };
    let class_count = match read_u64_at(data, 8) { Some(v) => v, None => 0 };
    let object_property_count = match read_u64_at(data, 16) { Some(v) => v, None => 0 };
    let data_property_count = match read_u64_at(data, 24) { Some(v) => v, None => 0 };
    let individual_count = match read_u64_at(data, 32) { Some(v) => v, None => 0 };
    let axiom_count = match read_u64_at(data, 40) { Some(v) => v, None => 0 };
    Ok(Header { magic, version, class_count, object_property_count, data_property_count, individual_count, axiom_count })
}

/// The string id stored at `p`.
pub open spec fn id_at(d: Seq<u8>, p: int) -> int {
    u64_from_le(d.subrange(p, p + 8)) as int
}

/// The `i`th id of a section at `pos` is there, names an entry, and the
/// entry is a usable IRI.
pub open spec fn name_ok(d: Seq<u8>, pos: int, i: int, ids: Seq<Seq<char>>) -> bool {
    &&& pos + 8 * i + 8 <= d.len()
    &&& id_at(d, pos + 8 * i) < ids.len()
    &&& ids[id_at(d, pos + 8 * i)].len() > 0
}

/// All `count` ids of a section at `pos` are good.
pub open spec fn names_ok(d: Seq<u8>, pos: int, count: int, ids: Seq<Seq<char>>) -> bool {
    forall|i: int| 0 <= i < count ==> #[trigger] name_ok(d, pos, i, ids)
}

/// The entries the `count` ids of a section at `pos` name.
pub open spec fn names_at(d: Seq<u8>, pos: int, count: int, ids: Seq<Seq<char>>) -> Seq<Seq<char>> {
    Seq::new(count as nat, |i: int| ids[id_at(d, pos + 8 * i)])
}

/// Reads `count` string ids at `pos` and resolves each to an IRI.
pub fn read_names(data: &[u8], pos: usize, table: &StringTable, count: u64)
    -> (r: Result<(Vec<IRI>, usize), BinaryFormatError>)
    requires
        pos <= data@.len(),
    ensures
        r is Ok <==> names_ok(data@, pos as int, count as int, table.entries()),
        r matches Ok((v, p)) ==> p == pos + 8 * count && p <= data@.len() && v@.len() == count
            && forall|i: int| 0 <= i < count ==> #[trigger] v@[i]@ == names_at(data@, pos as int, count as int, table.entries())[i],
        r matches Err(e) ==> (e == BinaryFormatError::UnexpectedEof || e is InvalidStringId
            || e == BinaryFormatError::InvalidIri),
{
    let ghost d = data@;
    let ghost ids = table.entries();
    let mut out: Vec<IRI> = Vec::new();
    let mut p: usize = pos;
    let mut k: u64 = 0;
    while k < count
        invariant
            d == data@,
            ids == table.entries(),
            pos <= p <= d.len(),
            k <= count,
            p == pos + 8 * k,
            out@.len() == k,
            forall|i: int| 0 <= i < k ==> #[trigger] name_ok(d, pos as int, i, ids),
            forall|i: int| 0 <= i < k ==> #[trigger] out@[i]@ == ids[id_at(d, pos + 8 * i)],
        decreases count - k,
    {
        let id = match read_u64_at(data, p) {
            Some(i) => i,
            None => {
                assert(!name_ok(d, pos as int, k as int, ids));
                return Err(BinaryFormatError::UnexpectedEof);
            },
        };
        let name = match table.get_string(id) {
            Some(s) => s,
            None => {
                assert(!name_ok(d, pos as int, k as int, ids));
                return Err(BinaryFormatError::InvalidStringId(id));
            },
        };
        let iri = match IRI::new(name) {
            Ok(i) => i,
            Err(_) => {
                assert(!name_ok(d, pos as int, k as int, ids));
                return Err(BinaryFormatError::InvalidIri);
            },
        };
        assert(name_ok(d, pos as int, k as int, ids));
        assert(p + 8 <= data.len());
        out.push(iri);
        p = p + 8;
        k = k + 1;
    }
    proof {
        assert forall|i: int| 0 <= i < count implies #[trigger] out@[i]@
            == names_at(d, pos as int, count as int, ids)[i] by {}
    }
    Ok((out, p))
}

/// Reads the classes section and adds each class; a class whose IRI is
/// already present is not added twice.
pub fn read_classes(data: &[u8], pos: usize, ontology: &mut Ontology, table: &StringTable, count: u64)
    -> (r: Result<usize, BinaryFormatError>)
    requires
        pos <= data@.len(),
    ensures
        r is Ok <==> names_ok(data@, pos as int, count as int, table.entries()),
        r matches Ok(p) ==> p == pos + 8 * count && p <= data@.len()
            && class_iris(final(ontology).classes_spec()) == add_names(class_iris(old(ontology).classes_spec()),
                names_at(data@, pos as int, count as int, table.entries())),
        r is Ok ==> final(ontology).axioms_spec() == old(ontology).axioms_spec()
            && final(ontology).object_properties_spec() == old(ontology).object_properties_spec()
            && final(ontology).data_properties_spec() == old(ontology).data_properties_spec()
            && final(ontology).named_individuals_spec() == old(ontology).named_individuals_spec(),
        r matches Err(e) ==> (e == BinaryFormatError::UnexpectedEof || e is InvalidStringId
            || e == BinaryFormatError::InvalidIri),
{
    let (iris, p) = match read_names(data, pos, table, count) {
        Ok(x) => x,
        Err(e) => { return Err(e); },
    };
    let ghost names = names_at(data@, pos as int, count as int, table.entries());
    let ghost start = class_iris(ontology.classes_spec());
    let ghost ops0 = ontology.object_properties_spec();
    let ghost dps0 = ontology.data_properties_spec();
    let ghost inds0 = ontology.named_individuals_spec();
    let ghost axs = ontology.axioms_spec();
    let mut iris = iris;
    let n = iris.len();
    let mut k: usize = 0;
    let mut rest: Vec<IRI> = Vec::new();
    while k < n
        invariant
            n == iris@.len(),
            n == names.len(),
            k <= n,
            forall|i: int| 0 <= i < n ==> #[trigger] iris@[i]@ == names[i],
            class_iris(ontology.classes_spec()) == add_names(start, names.take(k as int)),
            ontology.axioms_spec() == axs,
            ontology.object_properties_spec() == ops0,
            ontology.data_properties_spec() == dps0,
            ontology.named_individuals_spec() == inds0,
        decreases n - k,
    {
        let iri = iris[k].clone();
        let ghost before = ontology.classes_spec();
        let class = Class::new(iri);
        let _ = ontology.add_class(class);
        proof {
            assert(names.take(k + 1).drop_last() == names.take(k as int));
            assert(names.take(k + 1).last() == names[k as int]);
            assert(class_iris(before.push(class)) =~= class_iris(before).push(class.iri_spec()@));
        }
        k += 1;
    }
    assert(names.take(n as int) == names);
    Ok(p)
}

/// Reads the object properties section and adds each property.
pub fn read_object_properties(data: &[u8], pos: usize, ontology: &mut Ontology, table: &StringTable,
    count: u64) -> (r: Result<usize, BinaryFormatError>)
    requires
        pos <= data@.len(),
    ensures
        r is Ok <==> names_ok(data@, pos as int, count as int, table.entries()),
        r matches Ok(p) ==> p == pos + 8 * count && p <= data@.len()
            && object_property_names(final(ontology).object_properties_spec())
                == add_names(object_property_names(old(ontology).object_properties_spec()),
                names_at(data@, pos as int, count as int, table.entries())),
        r is Ok ==> final(ontology).axioms_spec() == old(ontology).axioms_spec()
            && final(ontology).classes_spec() == old(ontology).classes_spec()
            && final(ontology).data_properties_spec() == old(ontology).data_properties_spec()
            && final(ontology).named_individuals_spec() == old(ontology).named_individuals_spec(),
        r matches Err(e) ==> (e == BinaryFormatError::UnexpectedEof || e is InvalidStringId
            || e == BinaryFormatError::InvalidIri),
{
    let (iris, p) = match read_names(data, pos, table, count) {
        Ok(x) => x,
        Err(e) => { return Err(e); },
    };
    let ghost names = names_at(data@, pos as int, count as int, table.entries());
    let ghost start = object_property_names(ontology.object_properties_spec());
    let ghost axs = ontology.axioms_spec();
    let ghost cls = ontology.classes_spec();
    let ghost dps0 = ontology.data_properties_spec();
    let ghost inds0 = ontology.named_individuals_spec();
    let n = iris.len();
    let mut k: usize = 0;
    while k < n
        invariant
            n == iris@.len(),
            n == names.len(),
            k <= n,
            forall|i: int| 0 <= i < n ==> #[trigger] iris@[i]@ == names[i],
            object_property_names(ontology.object_properties_spec()) == add_names(start, names.take(k as int)),
            ontology.axioms_spec() == axs,
            ontology.classes_spec() == cls,
            ontology.data_properties_spec() == dps0,
            ontology.named_individuals_spec() == inds0,
        decreases n - k,
    {
        let iri = iris[k].clone();
        let ghost before = ontology.object_properties_spec();
        let prop = ObjectProperty::new(iri);
        proof {
            let bn = object_property_names(before);
            if bn.contains(prop.iri_spec()@) {
                let j = choose|j: int| 0 <= j < bn.len() && bn[j] == prop.iri_spec()@;
                assert(before[j].iri_spec()@ == prop.iri_spec()@);
            } else {
                assert forall|j: int| 0 <= j < before.len() implies #[trigger] before[j].iri_spec()@ != prop.iri_spec()@ by {
                    assert(bn[j] == before[j].iri_spec()@);
                }
            }
        }
        let _ = ontology.add_object_property(prop);
        proof {
            assert(names.take(k + 1).drop_last() == names.take(k as int));
            assert(names.take(k + 1).last() == names[k as int]);
            assert(object_property_names(before.push(prop)) =~= object_property_names(before).push(prop.iri_spec()@));
        }
        k += 1;
    }
    assert(names.take(n as int) == names);
    Ok(p)
}

/// Reads the data properties section and adds each property.
pub fn read_data_properties(data: &[u8], pos: usize, ontology: &mut Ontology, table: &StringTable,
    count: u64) -> (r: Result<usize, BinaryFormatError>)
    requires
        pos <= data@.len(),
    ensures
        r is Ok <==> names_ok(data@, pos as int, count as int, table.entries()),
        r matches Ok(p) ==> p == pos + 8 * count && p <= data@.len()
            && data_property_names(final(ontology).data_properties_spec())
                == add_names(data_property_names(old(ontology).data_properties_spec()),
                names_at(data@, pos as int, count as int, table.entries())),
        r is Ok ==> final(ontology).axioms_spec() == old(ontology).axioms_spec()
            && final(ontology).classes_spec() == old(ontology).classes_spec()
            && final(ontology).object_properties_spec() == old(ontology).object_properties_spec()
            && final(ontology).named_individuals_spec() == old(ontology).named_individuals_spec(),
        r matches Err(e) ==> (e == BinaryFormatError::UnexpectedEof || e is InvalidStringId
            || e == BinaryFormatError::InvalidIri),
{
    let (iris, p) = match read_names(data, pos, table, count) {
        Ok(x) => x,
        Err(e) => { return Err(e); },
    };
    let ghost names = names_at(data@, pos as int, count as int, table.entries());
    let ghost inds0 = ontology.named_individuals_spec();
    let ghost start = data_property_names(ontology.data_properties_spec());
    let ghost axs = ontology.axioms_spec();
    let ghost cls = ontology.classes_spec();
    let ghost ops = ontology.object_properties_spec();
    let n = iris.len();
    let mut k: usize = 0;
    while k < n
        invariant
            n == iris@.len(),
            n == names.len(),
            k <= n,
            forall|i: int| 0 <= i < n ==> #[trigger] iris@[i]@ == names[i],
            data_property_names(ontology.data_properties_spec()) == add_names(start, names.take(k as int)),
            ontology.axioms_spec() == axs,
            ontology.classes_spec() == cls,
            ontology.object_properties_spec() == ops,
            ontology.named_individuals_spec() == inds0,
        decreases n - k,
    {
        let iri = iris[k].clone();
        let ghost before = ontology.data_properties_spec();
        let prop = DataProperty::new(iri);
        proof {
            let bn = data_property_names(before);
            if bn.contains(prop.iri_spec()@) {
                let j = choose|j: int| 0 <= j < bn.len() && bn[j] == prop.iri_spec()@;
                assert(before[j].iri_spec()@ == prop.iri_spec()@);
            } else {
                assert forall|j: int| 0 <= j < before.len() implies #[trigger] before[j].iri_spec()@ != prop.iri_spec()@ by {
                    assert(bn[j] == before[j].iri_spec()@);
                }
            }
        }
        let _ = ontology.add_data_property(prop);
        proof {
            assert(names.take(k + 1).drop_last() == names.take(k as int));
            assert(names.take(k + 1).last() == names[k as int]);
            assert(data_property_names(before.push(prop)) =~= data_property_names(before).push(prop.iri_spec()@));
        }
        k += 1;
    }
    assert(names.take(n as int) == names);
    Ok(p)
}

/// Reads the individuals section and adds each named individual.
pub fn read_individuals(data: &[u8], pos: usize, ontology: &mut Ontology, table: &StringTable,
    count: u64) -> (r: Result<usize, BinaryFormatError>)
    requires
        pos <= data@.len(),
    ensures
        r is Ok <==> names_ok(data@, pos as int, count as int, table.entries()),
        r matches Ok(p) ==> p == pos + 8 * count && p <= data@.len()
            && individual_names(final(ontology).named_individuals_spec())
                == add_names(individual_names(old(ontology).named_individuals_spec()),
                names_at(data@, pos as int, count as int, table.entries())),
        r is Ok ==> final(ontology).axioms_spec() == old(ontology).axioms_spec()
            && final(ontology).classes_spec() == old(ontology).classes_spec()
            && final(ontology).object_properties_spec() == old(ontology).object_properties_spec()
            && final(ontology).data_properties_spec() == old(ontology).data_properties_spec(),
        r matches Err(e) ==> (e == BinaryFormatError::UnexpectedEof || e is InvalidStringId
            || e == BinaryFormatError::InvalidIri),
{
    let (iris, p) = match read_names(data, pos, table, count) {
        Ok(x) => x,
        Err(e) => { return Err(e); },
    };
    let ghost names = names_at(data@, pos as int, count as int, table.entries());
    let ghost start = individual_names(ontology.named_individuals_spec());
    let ghost axs = ontology.axioms_spec();
    let ghost cls = ontology.classes_spec();
    let ghost ops = ontology.object_properties_spec();
    let ghost dps = ontology.data_properties_spec();
    let n = iris.len();
    let mut k: usize = 0;
    while k < n
        invariant
            n == iris@.len(),
            n == names.len(),
            k <= n,
            forall|i: int| 0 <= i < n ==> #[trigger] iris@[i]@ == names[i],
            individual_names(ontology.named_individuals_spec()) == add_names(start, names.take(k as int)),
            ontology.axioms_spec() == axs,
            ontology.classes_spec() == cls,
            ontology.object_properties_spec() == ops,
            ontology.data_properties_spec() == dps,
        decreases n - k,
    {
        let iri = iris[k].clone();
        let ghost before = ontology.named_individuals_spec();
        let ind = NamedIndividual::new(iri);
        proof {
            let bn = individual_names(before);
            if bn.contains(ind.iri_spec()@) {
                let j = choose|j: int| 0 <= j < bn.len() && bn[j] == ind.iri_spec()@;
                assert(before[j].iri_spec()@ == ind.iri_spec()@);
            } else {
                assert forall|j: int| 0 <= j < before.len() implies #[trigger] before[j].iri_spec()@ != ind.iri_spec()@ by {
                    assert(bn[j] == before[j].iri_spec()@);
                }
            }
        }
        let _ = ontology.add_named_individual(ind);
        proof {
            assert(names.take(k + 1).drop_last() == names.take(k as int));
            assert(names.take(k + 1).last() == names[k as int]);
            assert(individual_names(before.push(ind)) =~= individual_names(before).push(ind.iri_spec()@));
        }
        k += 1;
    }
    assert(names.take(n as int) == names);
    Ok(p)
}


/// The view of an axiom the format carries: its class expressions and
/// individual by their views.
pub enum AxiomKey {
    Sub(ExprView, ExprView),
    Assertion(Seq<char>, ExprView),
    Other,
}

/// The key of an axiom.
pub open spec fn axiom_key(a: Axiom) -> AxiomKey {
    match a {
        Axiom::SubClassOf(ax) => AxiomKey::Sub(ax.sub_class_spec()@, ax.super_class_spec()@),
        Axiom::ClassAssertion(ax) => AxiomKey::Assertion(ax.individual_spec()@, ax.class_expr_spec()@),
        _ => AxiomKey::Other,
    }
}

/// A subclass or class assertion axiom whose parts the format can carry
/// over `ids`.
pub open spec fn axiom_decodable(a: Axiom, ids: Seq<Seq<char>>) -> bool {
    match a {
        Axiom::SubClassOf(ax) => decodable(ax.sub_class_spec()@, ids) && decodable(ax.super_class_spec()@, ids),
        Axiom::ClassAssertion(ax) => ids.contains(ax.individual_spec()@) && ax.individual_spec()@.len() > 0
            && decodable(ax.class_expr_spec()@, ids),
        _ => false,
    }
}

/// `axs` are `count` decodable axioms whose encoding starts at `pos`.
pub open spec fn axioms_at(d: Seq<u8>, pos: int, count: int, ids: Seq<Seq<char>>, axs: Seq<Axiom>) -> bool {
    &&& axs.len() == count
    &&& distinct_entries(ids)
    &&& forall|i: int| 0 <= i < axs.len() ==> #[trigger] axiom_decodable(axs[i], ids)
    &&& starts_with(d.subrange(pos, d.len() as int), axioms_bytes(axs, ids))
}

proof fn lemma_axioms_prefix(axs: Seq<Axiom>, ids: Seq<Seq<char>>, k: int)
    requires
        0 <= k <= axs.len(),
    ensures
        starts_with(axioms_bytes(axs, ids), axioms_bytes(axs.take(k), ids)),
    decreases axs.len() - k,
{
    let full = axioms_bytes(axs, ids);
    if k == axs.len() {
        assert(axs.take(k) == axs);
        assert(full.subrange(0, full.len() as int) =~= full);
    } else {
        lemma_axioms_prefix(axs, ids, k + 1);
        let a = axioms_bytes(axs.take(k), ids);
        let b = axioms_bytes(axs.take(k + 1), ids);
        assert(axs.take(k + 1).drop_last() == axs.take(k));
        assert(b == a + axiom_bytes(axs[k], ids));
        assert(b.subrange(0, a.len() as int) =~= a);
        assert(full.subrange(0, b.len() as int) == b);
        assert(full.subrange(0, a.len() as int) =~= b.subrange(0, a.len() as int));
    }
}

/// The bytes at `p` start with the `k`th axiom's encoding.
proof fn lemma_axiom_at(d: Seq<u8>, pos: int, count: int, ids: Seq<Seq<char>>, axs: Seq<Axiom>, k: int)
    requires
        0 <= pos <= d.len(),
        axioms_at(d, pos, count, ids, axs),
        0 <= k < count,
    ensures
        starts_with(d.subrange(pos + axioms_bytes(axs.take(k), ids).len(), d.len() as int), axiom_bytes(axs[k], ids)),
        axiom_decodable(axs[k], ids),
        axioms_bytes(axs.take(k + 1), ids) == axioms_bytes(axs.take(k), ids) + axiom_bytes(axs[k], ids),
{
    lemma_axioms_prefix(axs, ids, k + 1);
    assert(axs.take(k + 1).drop_last() == axs.take(k));
    assert(axs.take(k + 1).last() == axs[k]);
    lemma_starts_trans(d.subrange(pos, d.len() as int), axioms_bytes(axs, ids), axioms_bytes(axs.take(k + 1), ids));
    lemma_starts_split(d, pos, axioms_bytes(axs.take(k), ids), axiom_bytes(axs[k], ids));
}

/// Reads up to `count` axioms at `pos` and adds the subclass and class
/// assertion axioms among them; reading stops early where the input ends
/// at an axiom's tag. Tags of the other kinds are passed over.
#[verifier::rlimit(80)]
pub fn read_axioms(data: &[u8], pos: usize, ontology: &mut Ontology, table: &StringTable, count: u64)
    -> (r: Result<usize, BinaryFormatError>)
    requires
        pos <= data@.len(),
    ensures
        r matches Ok(p) ==> pos <= p <= data@.len(),
        r is Ok ==> final(ontology).axioms_spec().len() <= old(ontology).axioms_spec().len() + count
            && final(ontology).axioms_spec().take(old(ontology).axioms_spec().len() as int) == old(ontology).axioms_spec()
            && forall|i: int| old(ontology).axioms_spec().len() <= i < final(ontology).axioms_spec().len()
                ==> is_supported(#[trigger] final(ontology).axioms_spec()[i]),
        r is Ok ==> final(ontology).classes_spec() == old(ontology).classes_spec()
            && final(ontology).object_properties_spec() == old(ontology).object_properties_spec()
            && final(ontology).data_properties_spec() == old(ontology).data_properties_spec()
            && final(ontology).named_individuals_spec() == old(ontology).named_individuals_spec(),
        r matches Err(e) ==> (e == BinaryFormatError::UnexpectedEof || e is InvalidStringId
            || e == BinaryFormatError::InvalidIri || e is UnknownAxiomType || e is UnknownClassExpressionType),
        forall|axs: Seq<Axiom>| #[trigger] axioms_at(data@, pos as int, count as int, table.entries(), axs)
            ==> (r matches Ok(p) && p == pos + axioms_bytes(axs, table.entries()).len()
                && final(ontology).axioms_spec().len() == old(ontology).axioms_spec().len() + count
                && forall|i: int| 0 <= i < count ==> axiom_key(#[trigger] final(ontology).axioms_spec()[old(ontology).axioms_spec().len() + i])
                    == axiom_key(axs[i])),
{
    let ghost d = data@;
    let ghost ids = table.entries();
    let ghost start = ontology.axioms_spec();
    let ghost cls = ontology.classes_spec();
    let ghost ops = ontology.object_properties_spec();
    let ghost dps = ontology.data_properties_spec();
    let ghost inds = ontology.named_individuals_spec();
    let dlen = data.len();
    let table_len = table.len();
    let mut p: usize = pos;
    let mut k: u64 = 0;
    while k < count
        invariant
            d == data@,
            dlen == d.len(),
            ids == table.entries(),
            table_len == ids.len(),
            pos <= p <= d.len(),
            k <= count,
            start.len() <= ontology.axioms_spec().len() <= start.len() + k,
            ontology.axioms_spec().take(start.len() as int) == start,
            forall|i: int| start.len() <= i < ontology.axioms_spec().len()
                ==> is_supported(#[trigger] ontology.axioms_spec()[i]),
            ontology.classes_spec() == cls,
            ontology.object_properties_spec() == ops,
            ontology.data_properties_spec() == dps,
            ontology.named_individuals_spec() == inds,
            forall|axs: Seq<Axiom>| #[trigger] axioms_at(d, pos as int, count as int, ids, axs)
                ==> p == pos + axioms_bytes(axs.take(k as int), ids).len()
                    && ontology.axioms_spec().len() == start.len() + k
                    && forall|i: int| 0 <= i < k ==> axiom_key(#[trigger] ontology.axioms_spec()[start.len() + i])
                        == axiom_key(axs[i]),
        ensures
            pos <= p <= d.len(),
            k == count || forall|axs: Seq<Axiom>| !#[trigger] axioms_at(d, pos as int, count as int, ids, axs),
        decreases count - k,
    {
        let ghost before = ontology.axioms_spec();
        proof {
            assert forall|axs: Seq<Axiom>| #[trigger] axioms_at(d, pos as int, count as int, ids, axs)
                implies starts_with(d.subrange(p as int, d.len() as int), axiom_bytes(axs[k as int], ids))
                    && axiom_decodable(axs[k as int], ids) by {
                lemma_axiom_at(d, pos as int, count as int, ids, axs, k as int);
            }
        }
        let tag = match read_u8_at(data, p) {
            Some(t) => t,
            None => {
                proof {
                    assert forall|axs: Seq<Axiom>| !#[trigger] axioms_at(d, pos as int, count as int, ids, axs) by {
                        if axioms_at(d, pos as int, count as int, ids, axs) {
                            assert(axiom_bytes(axs[k as int], ids).len() > 0);
                        }
                    }
                }
                break;
            },
        };
        proof {
            assert forall|axs: Seq<Axiom>| #[trigger] axioms_at(d, pos as int, count as int, ids, axs)
                implies tag == axiom_bytes(axs[k as int], ids)[0] by {
                let full = d.subrange(p as int, d.len() as int);
                assert(full.subrange(0, axiom_bytes(axs[k as int], ids).len() as int)[0] == full[0]);
            }
        }
        let kind = match AxiomType::from_u8(tag) {
            Some(x) => x,
            None => {
                proof {
                    assert forall|axs: Seq<Axiom>| !#[trigger] axioms_at(d, pos as int, count as int, ids, axs) by {
                        if axioms_at(d, pos as int, count as int, ids, axs) {
                            assert(axiom_decodable(axs[k as int], ids));
                        }
                    }
                }
                return Err(BinaryFormatError::UnknownAxiomType(tag));
            },
        };
        let p1 = p + 1;
        match kind {
            AxiomType::SubClassOf => {
                proof {
                    assert forall|axs: Seq<Axiom>| #[trigger] axioms_at(d, pos as int, count as int, ids, axs)
                        implies axs[k as int] is SubClassOf by {
                        assert(axiom_decodable(axs[k as int], ids));
                    }
                    assert forall|axs: Seq<Axiom>| #[trigger] axioms_at(d, pos as int, count as int, ids, axs)
                        implies starts_with(d.subrange(p1 as int, d.len() as int),
                            expr_bytes(axs[k as int]->SubClassOf_0.sub_class_spec()@, ids)) by {
                        let ax = axs[k as int]->SubClassOf_0;
                        let a = expr_bytes(ax.sub_class_spec()@, ids);
                        let b = expr_bytes(ax.super_class_spec()@, ids);
                        assert(axiom_bytes(axs[k as int], ids) =~= seq![1u8] + (a + b));
                        lemma_starts_split(d, p as int, seq![1u8], a + b);
                        lemma_starts_split(d, p1 as int, a, b);
                    }
                }
                let (sub, p2) = match read_class_expression(data, p1, table) {
                    Ok(x) => x,
                    Err(e) => {
                        proof {
                            assert forall|axs: Seq<Axiom>| !#[trigger] axioms_at(d, pos as int, count as int, ids, axs) by {
                                if axioms_at(d, pos as int, count as int, ids, axs) {
                                    let ax = axs[k as int]->SubClassOf_0;
                                    assert(starts_with(d.subrange(p1 as int, d.len() as int), expr_bytes(ax.sub_class_spec()@, ids)));
                                }
                            }
                        }
                        return Err(e);
                    },
                };
                proof {
                    assert forall|axs: Seq<Axiom>| #[trigger] axioms_at(d, pos as int, count as int, ids, axs)
                        implies starts_with(d.subrange(p2 as int, d.len() as int),
                            expr_bytes(axs[k as int]->SubClassOf_0.super_class_spec()@, ids))
                            && sub@ == axs[k as int]->SubClassOf_0.sub_class_spec()@ by {
                        let ax = axs[k as int]->SubClassOf_0;
                        let a = expr_bytes(ax.sub_class_spec()@, ids);
                        let b = expr_bytes(ax.super_class_spec()@, ids);
                        assert(axiom_bytes(axs[k as int], ids) =~= seq![1u8] + (a + b));
                        lemma_starts_split(d, p as int, seq![1u8], a + b);
                        lemma_starts_split(d, p1 as int, a, b);
                        assert(starts_with(d.subrange(p1 as int, d.len() as int), a));
                    }
                }
                let (sup, p3) = match read_class_expression(data, p2, table) {
                    Ok(x) => x,
                    Err(e) => {
                        proof {
                            assert forall|axs: Seq<Axiom>| !#[trigger] axioms_at(d, pos as int, count as int, ids, axs) by {
                                if axioms_at(d, pos as int, count as int, ids, axs) {
                                    let ax = axs[k as int]->SubClassOf_0;
                                    assert(starts_with(d.subrange(p2 as int, d.len() as int), expr_bytes(ax.super_class_spec()@, ids)));
                                }
                            }
                        }
                        return Err(e);
                    },
                };
                let new_axiom = SubClassOfAxiom::new(sub, sup);
                let _ = ontology.add_subclass_axiom(new_axiom);
                proof {
                    assert forall|axs: Seq<Axiom>| #[trigger] axioms_at(d, pos as int, count as int, ids, axs)
                        implies p3 == pos + axioms_bytes(axs.take(k + 1), ids).len()
                            && axiom_key(ontology.axioms_spec()[start.len() + k]) == axiom_key(axs[k as int]) by {
                        let ax = axs[k as int]->SubClassOf_0;
                        let a = expr_bytes(ax.sub_class_spec()@, ids);
                        let b = expr_bytes(ax.super_class_spec()@, ids);
                        assert(axiom_bytes(axs[k as int], ids) =~= seq![1u8] + (a + b));
                        assert(starts_with(d.subrange(p2 as int, d.len() as int), b));
                        lemma_axiom_at(d, pos as int, count as int, ids, axs, k as int);
                    }
                }
                p = p3;
            },
            AxiomType::ClassAssertion => {
                proof {
                    assert forall|axs: Seq<Axiom>| #[trigger] axioms_at(d, pos as int, count as int, ids, axs)
                        implies axs[k as int] is ClassAssertion by {
                        assert(axiom_decodable(axs[k as int], ids));
                    }
                }
                let id = match read_u64_at(data, p1) {
                    Some(i) => i,
                    None => {
                        proof {
                            assert forall|axs: Seq<Axiom>| !#[trigger] axioms_at(d, pos as int, count as int, ids, axs) by {
                                if axioms_at(d, pos as int, count as int, ids, axs) {
                                    let ax = axs[k as int]->ClassAssertion_0;
                                    let u = u64_le(first_id(ids, ax.individual_spec()@) as u64);
                                    let c = expr_bytes(ax.class_expr_spec()@, ids);
                                    assert(axiom_bytes(axs[k as int], ids) =~= seq![4u8] + (u + c));
                                    lemma_starts_split(d, p as int, seq![4u8], u + c);
                                }
                            }
                        }
                        return Err(BinaryFormatError::UnexpectedEof);
                    },
                };
                let ghost idbytes = d.subrange(p1 as int, p1 + 8);
                proof {
                    assert forall|axs: Seq<Axiom>| #[trigger] axioms_at(d, pos as int, count as int, ids, axs)
                        implies id == first_id(ids, axs[k as int]->ClassAssertion_0.individual_spec()@)
                            && 0 <= id < ids.len()
                            && ids[id as int] == axs[k as int]->ClassAssertion_0.individual_spec()@
                            && starts_with(d.subrange(p1 + 8, d.len() as int),
                                expr_bytes(axs[k as int]->ClassAssertion_0.class_expr_spec()@, ids)) by {
                        let ax = axs[k as int]->ClassAssertion_0;
                        let n = ax.individual_spec()@;
                        ids.index_of_first_ensures(n);
                        let fid = first_id(ids, n);
                        let u = u64_le(fid as u64);
                        let c = expr_bytes(ax.class_expr_spec()@, ids);
                        assert(axiom_bytes(axs[k as int], ids) =~= seq![4u8] + (u + c));
                        lemma_starts_split(d, p as int, seq![4u8], u + c);
                        lemma_starts_split(d, p1 as int, u, c);
                        lemma_u64_roundtrip(fid as u64);
                    }
                }
                let name = match table.get_string(id) {
                    Some(s) => s,
                    None => {
                        return Err(BinaryFormatError::InvalidStringId(id));
                    },
                };
                let iri = match IRI::new(name) {
                    Ok(i) => i,
                    Err(_) => {
                        return Err(BinaryFormatError::InvalidIri);
                    },
                };
                let p2 = p1 + 8;
                let (cls_expr, p3) = match read_class_expression(data, p2, table) {
                    Ok(x) => x,
                    Err(e) => {
                        return Err(e);
                    },
                };
                let new_axiom = ClassAssertionAxiom::new(Arc::new(iri), cls_expr);
                let _ = ontology.add_class_assertion(new_axiom);
                proof {
                    assert forall|axs: Seq<Axiom>| #[trigger] axioms_at(d, pos as int, count as int, ids, axs)
                        implies p3 == pos + axioms_bytes(axs.take(k + 1), ids).len()
                            && axiom_key(ontology.axioms_spec()[start.len() + k]) == axiom_key(axs[k as int]) by {
                        let ax = axs[k as int]->ClassAssertion_0;
                        let u = u64_le(first_id(ids, ax.individual_spec()@) as u64);
                        let c = expr_bytes(ax.class_expr_spec()@, ids);
                        assert(axiom_bytes(axs[k as int], ids) =~= seq![4u8] + (u + c));
                        lemma_axiom_at(d, pos as int, count as int, ids, axs, k as int);
                    }
                }
                p = p3;
            },
            _ => {
                proof {
                    assert forall|axs: Seq<Axiom>| !#[trigger] axioms_at(d, pos as int, count as int, ids, axs) by {
                        if axioms_at(d, pos as int, count as int, ids, axs) {
                            assert(axiom_decodable(axs[k as int], ids));
                        }
                    }
                }
                p = p1;
            },
        }
        proof {
            assert(ontology.axioms_spec().len() >= before.len());
            assert forall|i: int| 0 <= i < start.len() implies ontology.axioms_spec()[i] == start[i] by {
                assert(before.take(start.len() as int)[i] == before[i]);
                assert(ontology.axioms_spec()[i] == before[i]);
            }
            assert(ontology.axioms_spec().take(start.len() as int) =~= start);
        }
        k = k + 1;
    }
    proof {
        assert forall|axs: Seq<Axiom>| #[trigger] axioms_at(d, pos as int, count as int, ids, axs)
            implies p == pos + axioms_bytes(axs, ids).len() by {
            assert(axs.take(count as int) == axs);
        }
    }
    Ok(p)
}


/// Reads the body of a version 1 image whose header is `header`: the string
/// table, the four entity sections and the axioms. The image of a carried
/// ontology reads back as an ontology with the same content.
#[verifier::spinoff_prover]
pub fn deserialize_v1(data: &[u8], header: &Header) -> (r: Result<Ontology, BinaryFormatError>)
    requires
        data@.len() >= 48,
    ensures
        r matches Ok(o) ==> o.axioms_spec().len() <= header.axiom_count
            && forall|i: int| 0 <= i < o.axioms_spec().len() ==> is_supported(#[trigger] o.axioms_spec()[i]),
        r matches Err(e) ==> e != BinaryFormatError::WrongMagic && !(e is UnsupportedVersion),
        forall|o: Ontology| #[trigger] image_of(data@, o) && header_matches(*header, data@)
            ==> (r matches Ok(b) && same_content(b, o)),
{
    let ghost d = data@;
    let (table, p) = match StringTable::read(data, 48) {
        Ok(x) => x,
        Err(e) => {
            proof {
                assert forall|o: Ontology| #[trigger] image_of(d, o) && header_matches(*header, d) implies false by {
                    lemma_image_table(d, o);
                }
            }
            return Err(e);
        },
    };
    let ghost p1 = p;
    let ghost ids = table.entries();
    proof {
        assert forall|o: Ontology| #[trigger] image_of(d, o) && header_matches(*header, d)
            implies ids == image_table(o) && p1 == classes_pos(o) && header.class_count == o.classes_spec().len()
                && header.object_property_count == o.object_properties_spec().len()
                && header.data_property_count == o.data_properties_spec().len()
                && header.individual_count == o.named_individuals_spec().len()
                && header.axiom_count == supported_count(o.axioms_spec()) by {
            lemma_image_table(d, o);
            lemma_image_header(d, o);
        }
    }
    let mut ontology = Ontology::new();
    let ghost o0 = ontology;
    assert(class_iris(o0.classes_spec()) =~= Seq::<Seq<char>>::empty());
    let p = match read_classes(data, p, &mut ontology, &table, header.class_count) {
        Ok(x) => x,
        Err(e) => {
            proof {
                assert forall|o: Ontology| #[trigger] image_of(d, o) && header_matches(*header, d) implies false by {
                    lemma_image_classes(d, o);
                }
            }
            return Err(e);
        },
    };
    let ghost p2 = p;
    let ghost o1 = ontology;
    proof {
        assert forall|o: Ontology| #[trigger] image_of(d, o) && header_matches(*header, d)
            implies p2 == object_properties_pos(o) && class_iris(o1.classes_spec()) == class_iris(o.classes_spec()) by {
            lemma_image_classes(d, o);
        }
    }
    assert(object_property_names(o1.object_properties_spec()) =~= Seq::<Seq<char>>::empty());
    let p = match read_object_properties(data, p, &mut ontology, &table, header.object_property_count) {
        Ok(x) => x,
        Err(e) => {
            proof {
                assert forall|o: Ontology| #[trigger] image_of(d, o) && header_matches(*header, d) implies false by {
                    lemma_image_object_properties(d, o);
                }
            }
            return Err(e);
        },
    };
    let ghost p3 = p;
    let ghost o2 = ontology;
    proof {
        assert forall|o: Ontology| #[trigger] image_of(d, o) && header_matches(*header, d)
            implies p3 == data_properties_pos(o)
                && object_property_names(o2.object_properties_spec()) == object_property_names(o.object_properties_spec()) by {
            lemma_image_object_properties(d, o);
        }
    }
    assert(data_property_names(o2.data_properties_spec()) =~= Seq::<Seq<char>>::empty());
    let p = match read_data_properties(data, p, &mut ontology, &table, header.data_property_count) {
        Ok(x) => x,
        Err(e) => {
            proof {
                assert forall|o: Ontology| #[trigger] image_of(d, o) && header_matches(*header, d) implies false by {
                    lemma_image_data_properties(d, o);
                }
            }
            return Err(e);
        },
    };
    let ghost p4 = p;
    let ghost o3 = ontology;
    proof {
        assert forall|o: Ontology| #[trigger] image_of(d, o) && header_matches(*header, d)
            implies p4 == individuals_pos(o)
                && data_property_names(o3.data_properties_spec()) == data_property_names(o.data_properties_spec()) by {
            lemma_image_data_properties(d, o);
        }
    }
    assert(individual_names(o3.named_individuals_spec()) =~= Seq::<Seq<char>>::empty());
    let p = match read_individuals(data, p, &mut ontology, &table, header.individual_count) {
        Ok(x) => x,
        Err(e) => {
            proof {
                assert forall|o: Ontology| #[trigger] image_of(d, o) && header_matches(*header, d) implies false by {
                    lemma_image_individuals(d, o);
                }
            }
            return Err(e);
        },
    };
    let ghost p5 = p;
    let ghost o4 = ontology;
    proof {
        assert forall|o: Ontology| #[trigger] image_of(d, o) && header_matches(*header, d)
            implies p5 == axioms_pos(o)
                && individual_names(o4.named_individuals_spec()) == individual_names(o.named_individuals_spec()) by {
            lemma_image_individuals(d, o);
        }
    }
    let ghost before = ontology.axioms_spec();
    assert(before.len() == 0);
    match read_axioms(data, p, &mut ontology, &table, header.axiom_count) {
        Ok(_) => {},
        Err(e) => {
            proof {
                assert forall|o: Ontology| #[trigger] image_of(d, o) && header_matches(*header, d) implies false by {
                    lemma_image_axioms(d, o);
                    assert(axioms_at(d, p5 as int, header.axiom_count as int, ids, supported_of(o.axioms_spec())));
                }
            }
            return Err(e);
        },
    }
    proof {
        assert forall|o: Ontology| #[trigger] image_of(d, o) && header_matches(*header, d)
            implies same_content(ontology, o) by {
            lemma_image_axioms(d, o);
            assert(axioms_at(d, p5 as int, header.axiom_count as int, ids, supported_of(o.axioms_spec())));
            assert(class_iris(ontology.classes_spec()) == class_iris(o.classes_spec()));
            assert(object_property_names(ontology.object_properties_spec()) == object_property_names(o.object_properties_spec()));
            assert(data_property_names(ontology.data_properties_spec()) == data_property_names(o.data_properties_spec()));
            assert(individual_names(ontology.named_individuals_spec()) == individual_names(o.named_individuals_spec()));
            assert(ontology.axioms_spec().len() == supported_of(o.axioms_spec()).len());
            assert forall|i: int| 0 <= i < ontology.axioms_spec().len() implies
                #[trigger] axiom_key(ontology.axioms_spec()[i]) == axiom_key(supported_of(o.axioms_spec())[i]) by {
                assert(before.len() + i == i);
                assert(axiom_key(ontology.axioms_spec()[before.len() + i]) == axiom_key(supported_of(o.axioms_spec())[i]));
            }
        }
    }
    Ok(ontology)
}

/// Decodes an ontology image: checks the header's magic bytes and version
/// and reads a version 1 body. The image of a carried ontology decodes to an
/// ontology with the same content.
pub fn deserialize(data: &[u8]) -> (r: Result<Ontology, BinaryFormatError>)
    ensures
        data@.len() < 48 ==> r == Err::<Ontology, BinaryFormatError>(BinaryFormatError::UnexpectedEof),
        data@.len() >= 48 && data@.subrange(0, 4) != magic_bytes()
            ==> r == Err::<Ontology, BinaryFormatError>(BinaryFormatError::WrongMagic),
        data@.len() >= 48 && data@.subrange(0, 4) == magic_bytes() && u32_from_le(data@.subrange(4, 8)) != VERSION_V1
            ==> r == Err::<Ontology, BinaryFormatError>(BinaryFormatError::UnsupportedVersion(u32_from_le(data@.subrange(4, 8)))),
        r is Ok ==> data@.len() >= 48 && data@.subrange(0, 4) == magic_bytes()
            && u32_from_le(data@.subrange(4, 8)) == VERSION_V1,
        forall|o: Ontology| #[trigger] image_of(data@, o) ==> (r matches Ok(b) && same_content(b, o)),
{
    let ghost d = data@;
    let header = match read_header(data) {
        Ok(h) => h,
        Err(e) => {
            proof {
                assert forall|o: Ontology| #[trigger] image_of(d, o) implies false by {
                    lemma_image_header(d, o);
                }
            }
            return Err(e);
        },
    };
    if header.magic[0] != 0x4fu8 || header.magic[1] != 0x57u8 || header.magic[2] != 0x4cu8 || header.magic[3] != 0x42u8 {
        proof {
            if data@.subrange(0, 4) == magic_bytes() {
                assert(header.magic@[0] == 0x4fu8);
            }
            assert forall|o: Ontology| #[trigger] image_of(d, o) implies false by {
                lemma_image_header(d, o);
                assert(header.magic@[0] == 0x4fu8);
            }
        }
        return Err(BinaryFormatError::WrongMagic);
    }
    assert(header.magic@ =~= magic_bytes());
    if header.version != VERSION_V1 {
        proof {
            assert forall|o: Ontology| #[trigger] image_of(d, o) implies false by {
                lemma_image_header(d, o);
            }
        }
        return Err(BinaryFormatError::UnsupportedVersion(header.version));
    }
    deserialize_v1(data, &header)
}


/// Encodes `ontology`; this library writes version 1 of the format. The
/// bytes are an image of a carried ontology, which `deserialize` reads back.
pub fn serialize(ontology: &Ontology) -> (r: Vec<u8>)
    ensures
        r@ == v1_bytes(*ontology),
        carried(*ontology) ==> image_of(r@, *ontology),
{
    proof {
        if carried(*ontology) {
            lemma_image_of_v1(*ontology);
        }
    }
    serialize_v1(ontology)
}

} // verus!
