//! Which ontologies a version 1 image carries in full, and where each part
//! of such an image lies: the facts the decoder's round trip rests on.

use vstd::prelude::*;
use crate::byte_codec::{u64_le, u64_from_le, u32_le, u32_from_le, starts_with, lemma_u64_roundtrip,
    lemma_u32_roundtrip};
use crate::class_expression::ExprView;
use crate::axioms::Axiom;
use crate::ontology::{Ontology, class_iris};
use crate::string_table::{table_bytes, strs_fit};
use crate::expr_codec::{decodable, all_decodable, names_present, all_names_present, first_id,
    distinct_entries};
use crate::binary_format::{add_name, add_names, ids_bytes, axiom_bytes, axioms_bytes, table_of, v1_bytes,
    header_bytes, magic_bytes, is_supported, supported_count, axiom_decodable, axioms_at, names_ok,
    names_at, name_ok, id_at, object_property_names, data_property_names, individual_names, axiom_names,
    axioms_names, expr_names, lemma_add_names_contains, lemma_names_present, all_in, axiom_names_in,
    lemma_all_in_grow, lemma_axioms_names_each, AxiomKey, axiom_key};

verus! {

/// An expression the format carries: named classes with non-empty names,
/// intersections and unions of at most `u32::MAX` operands, and complements.
pub open spec fn carried_expr(v: ExprView) -> bool
    decreases v,
{
    match v {
        ExprView::Class(n) => n.len() > 0,
        ExprView::And(ops) => ops.len() <= u32::MAX && carried_ops(ops),
        ExprView::Or(ops) => ops.len() <= u32::MAX && carried_ops(ops),
        ExprView::Not(b) => carried_expr(*b),
        _ => false,
    }
}

/// Every operand is carried.
pub open spec fn carried_ops(ops: Seq<ExprView>) -> bool
    decreases ops,
{
    if ops.len() == 0 {
        true
    } else {
        carried_ops(ops.drop_last()) && carried_expr(ops.last())
    }
}

/// A subclass or class assertion axiom whose parts the format carries;
/// axioms of other kinds are left out of an image and ask for nothing.
pub open spec fn carried_axiom(a: Axiom) -> bool {
    match a {
        Axiom::SubClassOf(ax) => carried_expr(ax.sub_class_spec()@) && carried_expr(ax.super_class_spec()@),
        Axiom::ClassAssertion(ax) => ax.individual_spec()@.len() > 0 && carried_expr(ax.class_expr_spec()@),
        _ => true,
    }
}

/// Entity names without repeats, none of them empty.
pub open spec fn names_carried(ns: Seq<Seq<char>>) -> bool {
    &&& ns.no_duplicates()
    &&& forall|i: int| 0 <= i < ns.len() ==> #[trigger] ns[i].len() > 0
}

/// An ontology whose image the decoder reads back in full: distinct,
/// non-empty entity names, carried axioms, and a string table whose entries
/// fit the length fields.
pub open spec fn carried(o: Ontology) -> bool {
    &&& names_carried(class_iris(o.classes_spec()))
    &&& names_carried(object_property_names(o.object_properties_spec()))
    &&& names_carried(data_property_names(o.data_properties_spec()))
    &&& names_carried(individual_names(o.named_individuals_spec()))
    &&& forall|i: int| 0 <= i < o.axioms_spec().len() ==> #[trigger] carried_axiom(o.axioms_spec()[i])
    &&& strs_fit(table_of(o))
}

/// `d` is the version 1 image of `o`, and the format carries `o` in full.
#[verifier::opaque]
pub open spec fn image_of(d: Seq<u8>, o: Ontology) -> bool {
    d == v1_bytes(o) && carried(o)
}

/// The axioms the format carries, in order.
pub open spec fn supported_of(axs: Seq<Axiom>) -> Seq<Axiom>
    decreases axs.len(),
{
    if axs.len() == 0 {
        Seq::empty()
    } else {
        let rest = supported_of(axs.drop_last());
        if is_supported(axs.last()) {
            rest.push(axs.last())
        } else {
            rest
        }
    }
}

/// `b` has the entities of `o`, in order, and its carried axioms by their
/// keys (class expressions and individuals by their views), in order.
pub open spec fn same_content(b: Ontology, o: Ontology) -> bool {
    &&& class_iris(b.classes_spec()) == class_iris(o.classes_spec())
    &&& object_property_names(b.object_properties_spec()) == object_property_names(o.object_properties_spec())
    &&& data_property_names(b.data_properties_spec()) == data_property_names(o.data_properties_spec())
    &&& individual_names(b.named_individuals_spec()) == individual_names(o.named_individuals_spec())
    &&& b.axioms_spec().len() == supported_of(o.axioms_spec()).len()
    &&& forall|i: int| 0 <= i < b.axioms_spec().len()
        ==> #[trigger] axiom_key(b.axioms_spec()[i]) == axiom_key(supported_of(o.axioms_spec())[i])
}

/// A carried expression whose names are in the table is decodable.
pub proof fn lemma_carried_decodable(v: ExprView, ids: Seq<Seq<char>>)
    requires
        carried_expr(v),
        names_present(v, ids),
    ensures
        decodable(v, ids),
    decreases v,
{
    match v {
        ExprView::And(ops) => lemma_carried_ops_decodable(ops, ids),
        ExprView::Or(ops) => lemma_carried_ops_decodable(ops, ids),
        ExprView::Not(b) => lemma_carried_decodable(*b, ids),
        _ => {},
    }
}

/// The operand version of `lemma_carried_decodable`.
pub proof fn lemma_carried_ops_decodable(ops: Seq<ExprView>, ids: Seq<Seq<char>>)
    requires
        carried_ops(ops),
        all_names_present(ops, ids),
    ensures
        all_decodable(ops, ids),
    decreases ops,
{
    if ops.len() > 0 {
        lemma_carried_ops_decodable(ops.drop_last(), ids);
        lemma_carried_decodable(ops.last(), ids);
    }
}


/// The carried axioms: as many as `supported_count` says, encoded as all
/// axioms are, and each with the properties every axiom of `axs` has.
pub proof fn lemma_supported_of(axs: Seq<Axiom>, ids: Seq<Seq<char>>)
    requires
        forall|j: int| 0 <= j < axs.len() ==> #[trigger] carried_axiom(axs[j]) && axiom_names_in(axs[j], ids),
    ensures
        supported_of(axs).len() == supported_count(axs),
        axioms_bytes(supported_of(axs), ids) == axioms_bytes(axs, ids),
        forall|i: int| 0 <= i < supported_of(axs).len() ==> is_supported(#[trigger] supported_of(axs)[i])
            && carried_axiom(supported_of(axs)[i]) && axiom_names_in(supported_of(axs)[i], ids),
    decreases axs.len(),
{
    if axs.len() > 0 {
        let dl = axs.drop_last();
        let l = axs.last();
        assert forall|j: int| 0 <= j < dl.len() implies #[trigger] carried_axiom(dl[j]) && axiom_names_in(dl[j], ids) by {
            assert(dl[j] == axs[j]);
            assert(carried_axiom(axs[j]));
        }
        lemma_supported_of(dl, ids);
        let rest = supported_of(dl);
        assert(carried_axiom(axs[axs.len() - 1]));
        if is_supported(l) {
            assert(rest.push(l).drop_last() =~= rest);
            assert(rest.push(l).last() == l);
            assert forall|i: int| 0 <= i < rest.push(l).len() implies is_supported(#[trigger] rest.push(l)[i])
                && carried_axiom(rest.push(l)[i]) && axiom_names_in(rest.push(l)[i], ids) by {
                if i < rest.len() {
                    assert(rest.push(l)[i] == rest[i]);
                }
            }
        } else {
            assert(axiom_bytes(l, ids) =~= Seq::<u8>::empty());
            assert(axioms_bytes(axs, ids) =~= axioms_bytes(dl, ids));
        }
    }
}

/// Adding names to a table without repeats leaves it without repeats.
pub proof fn lemma_add_names_distinct(ids: Seq<Seq<char>>, ns: Seq<Seq<char>>)
    requires
        distinct_entries(ids),
    ensures
        distinct_entries(add_names(ids, ns)),
    decreases ns.len(),
{
    if ns.len() > 0 {
        lemma_add_names_distinct(ids, ns.drop_last());
        let prev = add_names(ids, ns.drop_last());
        let n = ns.last();
        if !prev.contains(n) {
            let q = prev.push(n);
            assert forall|i: int, j: int| 0 <= i < j < q.len() implies q[i] != q[j] by {
                if j == prev.len() {
                    assert(q[i] == prev[i]);
                    if prev[i] == n {
                        assert(prev.contains(n));
                    }
                } else {
                    assert(q[i] == prev[i]);
                    assert(q[j] == prev[j]);
                }
            }
        }
    }
}

/// Adding names without repeats to an empty table gives the names.
pub proof fn lemma_add_names_fresh(ns: Seq<Seq<char>>)
    requires
        ns.no_duplicates(),
    ensures
        add_names(Seq::empty(), ns) == ns,
    decreases ns.len(),
{
    if ns.len() > 0 {
        let dl = ns.drop_last();
        assert forall|i: int, j: int| 0 <= i < dl.len() && 0 <= j < dl.len() && i != j implies dl[i] != dl[j] by {
            assert(dl[i] == ns[i]);
            assert(dl[j] == ns[j]);
        }
        lemma_add_names_fresh(dl);
        if dl.contains(ns.last()) {
            let k = choose|k: int| 0 <= k < dl.len() && dl[k] == ns.last();
            assert(ns[k] == ns[ns.len() - 1]);
        }
        assert(dl.push(ns.last()) =~= ns);
    }
}

/// A section of string ids is eight bytes per name, each the name's position.
pub proof fn lemma_ids_bytes(names: Seq<Seq<char>>, ids: Seq<Seq<char>>)
    ensures
        ids_bytes(names, ids).len() == 8 * names.len(),
        forall|i: int| 0 <= i < names.len() ==> #[trigger] ids_bytes(names, ids).subrange(8 * i, 8 * i + 8)
            == u64_le(first_id(ids, names[i]) as u64),
    decreases names.len(),
{
    if names.len() > 0 {
        let dl = names.drop_last();
        lemma_ids_bytes(dl, ids);
        let a = ids_bytes(dl, ids);
        let b = u64_le(first_id(ids, names.last()) as u64);
        let whole = ids_bytes(names, ids);
        assert(whole == a + b);
        assert forall|i: int| 0 <= i < names.len() implies #[trigger] whole.subrange(8 * i, 8 * i + 8)
            == u64_le(first_id(ids, names[i]) as u64) by {
            if i < dl.len() {
                assert(dl[i] == names[i]);
                assert(a.subrange(8 * i, 8 * i + 8) == u64_le(first_id(ids, dl[i]) as u64));
                assert(whole.subrange(8 * i, 8 * i + 8) =~= a.subrange(8 * i, 8 * i + 8));
            } else {
                assert(whole.subrange(8 * i, 8 * i + 8) =~= b);
            }
        }
    }
}


/// A section of string ids at `pos` for names the table holds: every id is
/// good and names the name in its place.
pub proof fn lemma_section(d: Seq<u8>, pos: int, names: Seq<Seq<char>>, ids: Seq<Seq<char>>)
    requires
        0 <= pos <= d.len(),
        starts_with(d.subrange(pos, d.len() as int), ids_bytes(names, ids)),
        all_in(names, ids),
        forall|i: int| 0 <= i < names.len() ==> #[trigger] names[i].len() > 0,
        ids.len() <= u64::MAX,
    ensures
        names_ok(d, pos, names.len() as int, ids),
        names_at(d, pos, names.len() as int, ids) == names,
{
    lemma_ids_bytes(names, ids);
    let sec = ids_bytes(names, ids);
    let tail = d.subrange(pos, d.len() as int);
    assert forall|i: int| 0 <= i < names.len() implies #[trigger] name_ok(d, pos, i, ids)
        && ids[id_at(d, pos + 8 * i)] == names[i] by {
        let n = names[i];
        assert(ids.contains(n));
        ids.index_of_first_ensures(n);
        let f = first_id(ids, n);
        assert(0 <= f < ids.len() && ids[f] == n);
        assert(sec.subrange(8 * i, 8 * i + 8) == u64_le(f as u64));
        assert(d.subrange(pos + 8 * i, pos + 8 * i + 8) =~= sec.subrange(8 * i, 8 * i + 8)) by {
            assert forall|k: int| 0 <= k < 8 implies #[trigger] d.subrange(pos + 8 * i, pos + 8 * i + 8)[k]
                == sec.subrange(8 * i, 8 * i + 8)[k] by {
                assert(tail.subrange(0, sec.len() as int)[8 * i + k] == sec[8 * i + k]);
            }
        }
        lemma_u64_roundtrip(f as u64);
        assert(id_at(d, pos + 8 * i) == f);
    }
    assert forall|i: int| 0 <= i < names.len() implies #[trigger] names_at(d, pos, names.len() as int, ids)[i]
        == names[i] by {
        assert(name_ok(d, pos, i, ids));
    }
    assert(names_at(d, pos, names.len() as int, ids) =~= names);
}

/// A sequence starts with itself.
pub proof fn lemma_starts_self(d: Seq<u8>)
    ensures
        starts_with(d, d),
{
    assert(d.subrange(0, d.len() as int) =~= d);
}

/// Starting with `a + b` is starting with `a`.
pub proof fn lemma_starts_left(d: Seq<u8>, a: Seq<u8>, b: Seq<u8>)
    requires
        starts_with(d, a + b),
    ensures
        starts_with(d, a),
{
    assert forall|k: int| 0 <= k < a.len() implies #[trigger] d.subrange(0, a.len() as int)[k] == a[k] by {
        assert(d.subrange(0, (a + b).len() as int)[k] == (a + b)[k]);
    }
    assert(d.subrange(0, a.len() as int) =~= a);
}

/// Starting with `a + b`, the bytes after `a` start with `b`.
pub proof fn lemma_window(d: Seq<u8>, a: Seq<u8>, b: Seq<u8>)
    requires
        starts_with(d, a + b),
    ensures
        starts_with(d.subrange(a.len() as int, d.len() as int), b),
{
    let t = d.subrange(a.len() as int, d.len() as int);
    assert forall|k: int| 0 <= k < b.len() implies #[trigger] t.subrange(0, b.len() as int)[k] == b[k] by {
        assert(d.subrange(0, (a + b).len() as int)[a.len() + k] == (a + b)[a.len() + k]);
    }
    assert(t.subrange(0, b.len() as int) =~= b);
}

/// A carried subclass or class assertion axiom whose names are in the table
/// is decodable over it.
pub proof fn lemma_axiom_decodable(a: Axiom, ids: Seq<Seq<char>>)
    requires
        is_supported(a),
        carried_axiom(a),
        axiom_names_in(a, ids),
    ensures
        axiom_decodable(a, ids),
{
    match a {
        Axiom::SubClassOf(ax) => {
            let x = expr_names(ax.sub_class_spec()@);
            let y = expr_names(ax.super_class_spec()@);
            assert(axiom_names(a) == x + y);
            assert forall|i: int| 0 <= i < x.len() implies ids.contains(#[trigger] x[i]) by {
                assert(axiom_names(a)[i] == x[i]);
            }
            assert forall|i: int| 0 <= i < y.len() implies ids.contains(#[trigger] y[i]) by {
                assert(axiom_names(a)[x.len() + i] == y[i]);
            }
            lemma_names_present(ax.sub_class_spec()@, ids);
            lemma_names_present(ax.super_class_spec()@, ids);
            lemma_carried_decodable(ax.sub_class_spec()@, ids);
            lemma_carried_decodable(ax.super_class_spec()@, ids);
        },
        Axiom::ClassAssertion(ax) => {
            let x = seq![ax.individual_spec()@];
            let y = expr_names(ax.class_expr_spec()@);
            assert(axiom_names(a) == x + y);
            assert(axiom_names(a)[0] == ax.individual_spec()@);
            assert forall|i: int| 0 <= i < y.len() implies ids.contains(#[trigger] y[i]) by {
                assert(axiom_names(a)[1 + i] == y[i]);
            }
            lemma_names_present(ax.class_expr_spec()@, ids);
            lemma_carried_decodable(ax.class_expr_spec()@, ids);
        },
        _ => {},
    }
}


/// A window inside a prefix reads the same in the whole.
proof fn lemma_sub_of_prefix(d: Seq<u8>, pre: Seq<u8>, a: int, b: int)
    requires
        starts_with(d, pre),
        0 <= a <= b <= pre.len(),
    ensures
        d.subrange(a, b) == pre.subrange(a, b),
{
    assert forall|k: int| 0 <= k < b - a implies #[trigger] d.subrange(a, b)[k] == pre.subrange(a, b)[k] by {
        assert(d.subrange(0, pre.len() as int)[a + k] == pre[a + k]);
    }
    assert(d.subrange(a, b) =~= pre.subrange(a, b));
}

/// The fields of the 48-byte header.
proof fn lemma_header_fields(version: u32, c: u64, op: u64, dp: u64, ind: u64, ax: u64)
    ensures
        header_bytes(version, c, op, dp, ind, ax).len() == 48,
        header_bytes(version, c, op, dp, ind, ax).subrange(0, 4) == magic_bytes(),
        header_bytes(version, c, op, dp, ind, ax).subrange(4, 8) == u32_le(version),
        header_bytes(version, c, op, dp, ind, ax).subrange(8, 16) == u64_le(c),
        header_bytes(version, c, op, dp, ind, ax).subrange(16, 24) == u64_le(op),
        header_bytes(version, c, op, dp, ind, ax).subrange(24, 32) == u64_le(dp),
        header_bytes(version, c, op, dp, ind, ax).subrange(32, 40) == u64_le(ind),
        header_bytes(version, c, op, dp, ind, ax).subrange(40, 48) == u64_le(ax),
{
    let h = header_bytes(version, c, op, dp, ind, ax);
    assert(h.subrange(0, 4) =~= magic_bytes());
    assert(h.subrange(4, 8) =~= u32_le(version));
    assert(h.subrange(8, 16) =~= u64_le(c));
    assert(h.subrange(16, 24) =~= u64_le(op));
    assert(h.subrange(24, 32) =~= u64_le(dp));
    assert(h.subrange(32, 40) =~= u64_le(ind));
    assert(h.subrange(40, 48) =~= u64_le(ax));
}


/// The string table of the image of `o`.
#[verifier::opaque]
pub open spec fn image_table(o: Ontology) -> Seq<Seq<char>> {
    table_of(o)
}

/// The start of the class section of the image of `o`.
pub open spec fn classes_pos(o: Ontology) -> int {
    48 + table_bytes(image_table(o)).len() as int
}

/// The start of the object property section.
pub open spec fn object_properties_pos(o: Ontology) -> int {
    classes_pos(o) + 8 * o.classes_spec().len()
}

/// The start of the data property section.
pub open spec fn data_properties_pos(o: Ontology) -> int {
    object_properties_pos(o) + 8 * o.object_properties_spec().len()
}

/// The start of the individual section.
pub open spec fn individuals_pos(o: Ontology) -> int {
    data_properties_pos(o) + 8 * o.data_properties_spec().len()
}

/// The start of the axiom section.
pub open spec fn axioms_pos(o: Ontology) -> int {
    individuals_pos(o) + 8 * o.named_individuals_spec().len()
}

/// Where the parts of the image of a carried ontology lie, and what the
/// decoder finds in each.
proof fn lemma_image_layout(o: Ontology)
    requires
        carried(o),
    ensures
        v1_bytes(o).len() >= 48,
        v1_bytes(o).subrange(0, 4) == magic_bytes(),
        u32_from_le(v1_bytes(o).subrange(4, 8)) == 1,
        u64_from_le(v1_bytes(o).subrange(8, 16)) == o.classes_spec().len(),
        u64_from_le(v1_bytes(o).subrange(16, 24)) == o.object_properties_spec().len(),
        u64_from_le(v1_bytes(o).subrange(24, 32)) == o.data_properties_spec().len(),
        u64_from_le(v1_bytes(o).subrange(32, 40)) == o.named_individuals_spec().len(),
        u64_from_le(v1_bytes(o).subrange(40, 48)) == supported_count(o.axioms_spec()),
        strs_fit(table_of(o)),
        starts_with(v1_bytes(o).subrange(48, v1_bytes(o).len() as int), table_bytes(table_of(o))),
        axioms_pos(o) <= v1_bytes(o).len(),
        names_ok(v1_bytes(o), classes_pos(o), o.classes_spec().len() as int, table_of(o)),
        names_at(v1_bytes(o), classes_pos(o), o.classes_spec().len() as int, table_of(o))
            == class_iris(o.classes_spec()),
        names_ok(v1_bytes(o), object_properties_pos(o), o.object_properties_spec().len() as int, table_of(o)),
        names_at(v1_bytes(o), object_properties_pos(o), o.object_properties_spec().len() as int, table_of(o))
            == object_property_names(o.object_properties_spec()),
        names_ok(v1_bytes(o), data_properties_pos(o), o.data_properties_spec().len() as int, table_of(o)),
        names_at(v1_bytes(o), data_properties_pos(o), o.data_properties_spec().len() as int, table_of(o))
            == data_property_names(o.data_properties_spec()),
        names_ok(v1_bytes(o), individuals_pos(o), o.named_individuals_spec().len() as int, table_of(o)),
        names_at(v1_bytes(o), individuals_pos(o), o.named_individuals_spec().len() as int, table_of(o))
            == individual_names(o.named_individuals_spec()),
        axioms_at(v1_bytes(o), axioms_pos(o), supported_count(o.axioms_spec()) as int, table_of(o),
            supported_of(o.axioms_spec())),
        supported_of(o.axioms_spec()).len() == supported_count(o.axioms_spec()),
{
    reveal(image_table);
    let d = v1_bytes(o);
    let ids = table_of(o);
    o.lemma_counts_fit();
    let cs = o.classes_spec();
    let ps = o.object_properties_spec();
    let ds = o.data_properties_spec();
    let is = o.named_individuals_spec();
    let axs = o.axioms_spec();
    let cn = class_iris(cs);
    let on = object_property_names(ps);
    let dn = data_property_names(ds);
    let inn = individual_names(is);
    let e0 = Seq::<Seq<char>>::empty();
    let e1 = add_names(e0, cn);
    let e2 = add_names(e1, on);
    let e3 = add_names(e2, dn);
    let e4 = add_names(e3, inn);
    assert(ids == add_names(e4, axioms_names(axs)));
    lemma_supported_of_count(axs);
    let h = header_bytes(1, cs.len() as u64, ps.len() as u64, ds.len() as u64, is.len() as u64,
        supported_count(axs) as u64);
    let t = table_bytes(ids);
    let c = ids_bytes(cn, ids);
    let op = ids_bytes(on, ids);
    let dp = ids_bytes(dn, ids);
    let ip = ids_bytes(inn, ids);
    let ax = axioms_bytes(axs, ids);
    let x2 = h + t;
    let x3 = x2 + c;
    let x4 = x3 + op;
    let x5 = x4 + dp;
    let x6 = x5 + ip;
    assert(d == x6 + ax);
    lemma_starts_self(d);
    lemma_window(d, x6, ax);
    lemma_starts_left(d, x6, ax);
    lemma_window(d, x5, ip);
    lemma_starts_left(d, x5, ip);
    lemma_window(d, x4, dp);
    lemma_starts_left(d, x4, dp);
    lemma_window(d, x3, op);
    lemma_starts_left(d, x3, op);
    lemma_window(d, x2, c);
    lemma_starts_left(d, x2, c);
    lemma_window(d, h, t);
    lemma_starts_left(d, h, t);
    lemma_header_fields(1, cs.len() as u64, ps.len() as u64, ds.len() as u64, is.len() as u64,
        supported_count(axs) as u64);
    lemma_sub_of_prefix(d, h, 0, 4);
    lemma_sub_of_prefix(d, h, 4, 8);
    lemma_sub_of_prefix(d, h, 8, 16);
    lemma_sub_of_prefix(d, h, 16, 24);
    lemma_sub_of_prefix(d, h, 24, 32);
    lemma_sub_of_prefix(d, h, 32, 40);
    lemma_sub_of_prefix(d, h, 40, 48);
    lemma_u32_roundtrip(1);
    lemma_u64_roundtrip(cs.len() as u64);
    lemma_u64_roundtrip(ps.len() as u64);
    lemma_u64_roundtrip(ds.len() as u64);
    lemma_u64_roundtrip(is.len() as u64);
    lemma_u64_roundtrip(supported_count(axs) as u64);
    lemma_ids_bytes(cn, ids);
    lemma_ids_bytes(on, ids);
    lemma_ids_bytes(dn, ids);
    lemma_ids_bytes(inn, ids);
    // every name is in the table
    lemma_add_names_contains(e0, cn);
    lemma_add_names_contains(e1, on);
    lemma_add_names_contains(e2, dn);
    lemma_add_names_contains(e3, inn);
    lemma_add_names_contains(e4, axioms_names(axs));
    assert(all_in(cn, e1));
    lemma_all_in_grow(cn, e1, on);
    lemma_all_in_grow(cn, e2, dn);
    lemma_all_in_grow(cn, e3, inn);
    lemma_all_in_grow(cn, e4, axioms_names(axs));
    assert(all_in(on, e2));
    lemma_all_in_grow(on, e2, dn);
    lemma_all_in_grow(on, e3, inn);
    lemma_all_in_grow(on, e4, axioms_names(axs));
    assert(all_in(dn, e3));
    lemma_all_in_grow(dn, e3, inn);
    lemma_all_in_grow(dn, e4, axioms_names(axs));
    assert(all_in(inn, e4));
    lemma_all_in_grow(inn, e4, axioms_names(axs));
    assert(all_in(axioms_names(axs), ids));
    lemma_axioms_names_each(axs, ids);
    // the entity sections
    assert(x2.len() == classes_pos(o));
    lemma_section(d, classes_pos(o), cn, ids);
    lemma_section(d, object_properties_pos(o), on, ids);
    lemma_section(d, data_properties_pos(o), dn, ids);
    lemma_section(d, individuals_pos(o), inn, ids);
    // the axioms
    lemma_add_names_distinct(e0, cn);
    lemma_add_names_distinct(e1, on);
    lemma_add_names_distinct(e2, dn);
    lemma_add_names_distinct(e3, inn);
    lemma_add_names_distinct(e4, axioms_names(axs));
    assert forall|j: int| 0 <= j < axs.len() implies #[trigger] carried_axiom(axs[j]) && axiom_names_in(axs[j], ids) by {}
    lemma_supported_of(axs, ids);
    let sup = supported_of(axs);
    assert forall|i: int| 0 <= i < sup.len() implies #[trigger] axiom_decodable(sup[i], ids) by {
        lemma_axiom_decodable(sup[i], ids);
    }
}

/// The carried axioms are at most all axioms.
proof fn lemma_supported_of_count(axs: Seq<Axiom>)
    ensures
        supported_count(axs) <= axs.len(),
    decreases axs.len(),
{
    if axs.len() > 0 {
        lemma_supported_of_count(axs.drop_last());
    }
}


/// The header of the image of a carried ontology.
pub proof fn lemma_image_header(d: Seq<u8>, o: Ontology)
    requires
        image_of(d, o),
    ensures
        d.len() >= 48,
        d.subrange(0, 4) == magic_bytes(),
        u32_from_le(d.subrange(4, 8)) == 1,
        u64_from_le(d.subrange(8, 16)) == o.classes_spec().len(),
        u64_from_le(d.subrange(16, 24)) == o.object_properties_spec().len(),
        u64_from_le(d.subrange(24, 32)) == o.data_properties_spec().len(),
        u64_from_le(d.subrange(32, 40)) == o.named_individuals_spec().len(),
        u64_from_le(d.subrange(40, 48)) == supported_count(o.axioms_spec()),
{
    reveal(image_of);
    reveal(image_table);
    lemma_image_layout(o);
}

/// The string table of the image of a carried ontology.
pub proof fn lemma_image_table(d: Seq<u8>, o: Ontology)
    requires
        image_of(d, o),
    ensures
        d.len() >= 48,
        strs_fit(image_table(o)),
        starts_with(d.subrange(48, d.len() as int), table_bytes(image_table(o))),
{
    reveal(image_of);
    reveal(image_table);
    lemma_image_layout(o);
}

/// The class section of the image of a carried ontology.
pub proof fn lemma_image_classes(d: Seq<u8>, o: Ontology)
    requires
        image_of(d, o),
    ensures
        classes_pos(o) <= d.len(),
        names_ok(d, classes_pos(o), o.classes_spec().len() as int, image_table(o)),
        names_at(d, classes_pos(o), o.classes_spec().len() as int, image_table(o))
            == class_iris(o.classes_spec()),
        add_names(Seq::empty(), class_iris(o.classes_spec())) == class_iris(o.classes_spec()),
{
    reveal(image_of);
    reveal(image_table);
    lemma_image_layout(o);
    lemma_add_names_fresh(class_iris(o.classes_spec()));
}

/// The object property section of the image of a carried ontology.
pub proof fn lemma_image_object_properties(d: Seq<u8>, o: Ontology)
    requires
        image_of(d, o),
    ensures
        object_properties_pos(o) <= d.len(),
        names_ok(d, object_properties_pos(o), o.object_properties_spec().len() as int, image_table(o)),
        names_at(d, object_properties_pos(o), o.object_properties_spec().len() as int, image_table(o))
            == object_property_names(o.object_properties_spec()),
        add_names(Seq::empty(), object_property_names(o.object_properties_spec()))
            == object_property_names(o.object_properties_spec()),
{
    reveal(image_of);
    reveal(image_table);
    lemma_image_layout(o);
    lemma_add_names_fresh(object_property_names(o.object_properties_spec()));
}

/// The data property section of the image of a carried ontology.
pub proof fn lemma_image_data_properties(d: Seq<u8>, o: Ontology)
    requires
        image_of(d, o),
    ensures
        data_properties_pos(o) <= d.len(),
        names_ok(d, data_properties_pos(o), o.data_properties_spec().len() as int, image_table(o)),
        names_at(d, data_properties_pos(o), o.data_properties_spec().len() as int, image_table(o))
            == data_property_names(o.data_properties_spec()),
        add_names(Seq::empty(), data_property_names(o.data_properties_spec()))
            == data_property_names(o.data_properties_spec()),
{
    reveal(image_of);
    reveal(image_table);
    lemma_image_layout(o);
    lemma_add_names_fresh(data_property_names(o.data_properties_spec()));
}

/// The individual section of the image of a carried ontology.
pub proof fn lemma_image_individuals(d: Seq<u8>, o: Ontology)
    requires
        image_of(d, o),
    ensures
        individuals_pos(o) <= d.len(),
        names_ok(d, individuals_pos(o), o.named_individuals_spec().len() as int, image_table(o)),
        names_at(d, individuals_pos(o), o.named_individuals_spec().len() as int, image_table(o))
            == individual_names(o.named_individuals_spec()),
        add_names(Seq::empty(), individual_names(o.named_individuals_spec()))
            == individual_names(o.named_individuals_spec()),
{
    reveal(image_of);
    reveal(image_table);
    lemma_image_layout(o);
    lemma_add_names_fresh(individual_names(o.named_individuals_spec()));
}

/// The axiom section of the image of a carried ontology.
pub proof fn lemma_image_axioms(d: Seq<u8>, o: Ontology)
    requires
        image_of(d, o),
    ensures
        axioms_pos(o) <= d.len(),
        supported_of(o.axioms_spec()).len() == supported_count(o.axioms_spec()),
        axioms_at(d, axioms_pos(o), supported_count(o.axioms_spec()) as int, image_table(o),
            supported_of(o.axioms_spec())),
{
    reveal(image_of);
    reveal(image_table);
    lemma_image_layout(o);
}


/// The image the writer produces of a carried ontology is an image of it.
pub proof fn lemma_image_of_v1(o: Ontology)
    requires
        carried(o),
    ensures
        image_of(v1_bytes(o), o),
{
    reveal(image_of);
}

}
