//! Encoding of class expressions in the binary ontology format: a tag byte,
//! then a string id for a named class, or a `u32` operand count and the
//! operands for an intersection or union, or the operand of a complement.

use vstd::prelude::*;
use crate::byte_codec::{u32_le, u64_le, u32_from_le, u64_from_le, push_u32_le, push_u64_le,
    read_u8_at, read_u32_at, read_u64_at, starts_with, lemma_u32_le_of_from_le,
    lemma_u64_le_of_from_le, lemma_u32_roundtrip, lemma_u64_roundtrip};
use crate::class_expression::{ClassExpression, ExprView, expr_view, operand_views, lemma_operand_views};
use crate::entities::Class;
use crate::iri::IRI;
use crate::string_table::{StringTable, BinaryFormatError};

verus! {

broadcast use vstd::std_specs::vec::group_vec_axioms;

/// The position of the first entry equal to `n` (0 when there is none).
pub open spec fn first_id(ids: Seq<Seq<char>>, n: Seq<char>) -> int {
    match ids.index_of_first(n) {
        Some(i) => i,
        None => 0,
    }
}

/// The encoding of a class expression over the string table `ids`.
pub open spec fn expr_bytes(v: ExprView, ids: Seq<Seq<char>>) -> Seq<u8>
    decreases v,
{
    match v {
        ExprView::Class(n) => seq![1u8] + u64_le(first_id(ids, n) as u64),
        ExprView::And(ops) => seq![2u8] + u32_le(ops.len() as u32) + ops_bytes(ops, ids),
        ExprView::Or(ops) => seq![3u8] + u32_le(ops.len() as u32) + ops_bytes(ops, ids),
        ExprView::Not(b) => seq![4u8] + expr_bytes(*b, ids),
        _ => seq![0u8],
    }
}

/// The encodings of a sequence of operands, one after the other.
pub open spec fn ops_bytes(ops: Seq<ExprView>, ids: Seq<Seq<char>>) -> Seq<u8>
    decreases ops,
{
    if ops.len() == 0 {
        Seq::empty()
    } else {
        ops_bytes(ops.drop_last(), ids) + expr_bytes(ops.last(), ids)
    }
}

/// Every named class of `v` has an entry in `ids`.
pub open spec fn names_present(v: ExprView, ids: Seq<Seq<char>>) -> bool
    decreases v,
{
    match v {
        ExprView::Class(n) => ids.contains(n),
        ExprView::And(ops) => all_names_present(ops, ids),
        ExprView::Or(ops) => all_names_present(ops, ids),
        ExprView::Not(b) => names_present(*b, ids),
        _ => true,
    }
}

/// Every operand has its named classes in `ids`.
pub open spec fn all_names_present(ops: Seq<ExprView>, ids: Seq<Seq<char>>) -> bool
    decreases ops,
{
    if ops.len() == 0 {
        true
    } else {
        all_names_present(ops.drop_last(), ids) && names_present(ops.last(), ids)
    }
}

/// `v` is built from named classes, intersections, unions and complements
/// only, with operand counts that fit `u32` and non-empty class names that
/// have an entry in `ids`: the expressions this encoding carries.
pub open spec fn decodable(v: ExprView, ids: Seq<Seq<char>>) -> bool
    decreases v,
{
    match v {
        ExprView::Class(n) => ids.contains(n) && n.len() > 0,
        ExprView::And(ops) => ops.len() <= u32::MAX && all_decodable(ops, ids),
        ExprView::Or(ops) => ops.len() <= u32::MAX && all_decodable(ops, ids),
        ExprView::Not(b) => decodable(*b, ids),
        _ => false,
    }
}

/// Every operand is decodable.
pub open spec fn all_decodable(ops: Seq<ExprView>, ids: Seq<Seq<char>>) -> bool
    decreases ops,
{
    if ops.len() == 0 {
        true
    } else {
        all_decodable(ops.drop_last(), ids) && decodable(ops.last(), ids)
    }
}

/// No entry occurs twice.
pub open spec fn distinct_entries(ids: Seq<Seq<char>>) -> bool {
    forall|i: int, j: int| 0 <= i < j < ids.len() ==> ids[i] != ids[j]
}

proof fn lemma_all_take(ops: Seq<ExprView>, ids: Seq<Seq<char>>, k: int)
    requires
        0 <= k <= ops.len(),
    ensures
        all_names_present(ops, ids) ==> all_names_present(ops.take(k), ids),
        all_decodable(ops, ids) ==> all_decodable(ops.take(k), ids),
        all_names_present(ops, ids) && k < ops.len() ==> names_present(ops[k], ids),
        all_decodable(ops, ids) && k < ops.len() ==> decodable(ops[k], ids),
    decreases ops.len(),
{
    if k == ops.len() {
        assert(ops.take(k) == ops);
    } else {
        lemma_all_take(ops.drop_last(), ids, k);
        assert(ops.drop_last().take(k) == ops.take(k));
        if k < ops.len() - 1 {
            assert(ops.drop_last()[k] == ops[k]);
        }
    }
}

proof fn lemma_ops_prefix(ops: Seq<ExprView>, ids: Seq<Seq<char>>, k: int)
    requires
        0 <= k <= ops.len(),
    ensures
        starts_with(ops_bytes(ops, ids), ops_bytes(ops.take(k), ids)),
    decreases ops.len() - k,
{
    let full = ops_bytes(ops, ids);
    if k == ops.len() {
        assert(ops.take(k) == ops);
        assert(full.subrange(0, full.len() as int) =~= full);
    } else {
        lemma_ops_prefix(ops, ids, k + 1);
        let a = ops_bytes(ops.take(k), ids);
        let b = ops_bytes(ops.take(k + 1), ids);
        assert(ops.take(k + 1).drop_last() == ops.take(k));
        assert(b == a + expr_bytes(ops[k], ids));
        assert(b.subrange(0, a.len() as int) =~= a);
        assert(full.subrange(0, b.len() as int) == b);
        assert(full.subrange(0, a.len() as int) =~= b.subrange(0, a.len() as int));
    }
}

/// Appends the encoding of `expr`.
pub fn write_class_expression(expr: &ClassExpression, table: &StringTable, out: &mut Vec<u8>)
    requires
        names_present(expr@, table.entries()),
    ensures
        final(out)@ == old(out)@ + expr_bytes(expr@, table.entries()),
    decreases expr,
{
    let ghost ids = table.entries();
    match expr {
        ClassExpression::Class(class) => {
            out.push(1u8);
            let id = table.get_id(class.iri().as_str());
            proof {
                ids.index_of_first_ensures(class.iri_spec()@);
            }
            let id = match id {
                Some(i) => i,
                None => 0,
            };
            push_u64_le(out, id);
            assert(out@ =~= old(out)@ + expr_bytes(expr@, ids));
        },
        ClassExpression::ObjectIntersectionOf(operands) | ClassExpression::ObjectUnionOf(operands) => {
            let tag: u8 = match expr {
                ClassExpression::ObjectIntersectionOf(_) => 2u8,
                _ => 3u8,
            };
            out.push(tag);
            push_u32_le(out, operands.len() as u32);
            let ghost views = operand_views(operands@);
            proof {
                lemma_operand_views(operands@);
            }
            let ghost base = out@;
            proof {
                assert(decreases_to!(*expr => *operands));
                assert(decreases_to!(*operands => operands@));
            }
            let n = operands.len();
            let mut k: usize = 0;
            while k < n
                invariant
                    n == operands@.len(),
                    views == operand_views(operands@),
                    views.len() == n,
                    forall|i: int| 0 <= i < n ==> #[trigger] views[i] == expr_view(*operands@[i]),
                    all_names_present(views, ids),
                    ids == table.entries(),
                    k <= n,
                    out@ == base + ops_bytes(views.take(k as int), ids),
                    decreases_to!(*expr => operands@),
                decreases n - k,
            {
                proof {
                    lemma_all_take(views, ids, k as int);
                    assert(decreases_to!(operands@ => operands@[k as int]));
                }
                write_class_expression(&operands[k], table, out);
                proof {
                    assert(views.take(k + 1).drop_last() == views.take(k as int));
                    assert(views.take(k + 1).last() == views[k as int]);
                }
                k += 1;
            }
            assert(views.take(n as int) == views);
            assert(out@ =~= old(out)@ + expr_bytes(expr@, ids));
        },
        ClassExpression::ObjectComplementOf(inner) => {
            out.push(4u8);
            write_class_expression(inner, table, out);
            assert(out@ =~= old(out)@ + expr_bytes(expr@, ids));
        },
        _ => {
            out.push(0u8);
            assert(out@ =~= old(out)@ + expr_bytes(expr@, ids));
        },
    }
}


/// Splitting a prefix: when the bytes at `pos` start with `a + b`, they hold
/// `a` and then start with `b`.
pub proof fn lemma_starts_split(d: Seq<u8>, pos: int, a: Seq<u8>, b: Seq<u8>)
    requires
        0 <= pos <= d.len(),
        starts_with(d.subrange(pos, d.len() as int), a + b),
    ensures
        pos + a.len() + b.len() <= d.len(),
        d.subrange(pos, pos + a.len()) == a,
        starts_with(d.subrange(pos, d.len() as int), a),
        starts_with(d.subrange(pos + a.len(), d.len() as int), b),
{
    let full = d.subrange(pos, d.len() as int);
    assert(full.subrange(0, (a + b).len() as int) == a + b);
    assert forall|i: int| 0 <= i < (a + b).len() implies #[trigger] d[pos + i] == (a + b)[i] by {
        assert(full.subrange(0, (a + b).len() as int)[i] == full[i]);
    }
    assert forall|i: int| 0 <= i < a.len() implies #[trigger] d.subrange(pos, pos + a.len())[i] == a[i] by {
        assert(d[pos + i] == (a + b)[i]);
    }
    assert(d.subrange(pos, pos + a.len()) =~= a);
    assert(full.subrange(0, a.len() as int) =~= a);
    let rest = d.subrange(pos + a.len(), d.len() as int);
    assert forall|i: int| 0 <= i < b.len() implies #[trigger] rest.subrange(0, b.len() as int)[i] == b[i] by {
        assert(d[pos + (a.len() + i)] == (a + b)[a.len() + i]);
    }
    assert(rest.subrange(0, b.len() as int) =~= b);
}

/// With distinct entries, the first position of an entry is its position.
pub proof fn lemma_first_id_distinct(ids: Seq<Seq<char>>, k: int)
    requires
        distinct_entries(ids),
        0 <= k < ids.len(),
    ensures
        first_id(ids, ids[k]) == k,
{
    ids.index_of_first_ensures(ids[k]);
    match ids.index_of_first(ids[k]) {
        Some(i) => {
            if i < k {
                assert(ids[i] != ids[k]);
            } else if i > k {
                assert(ids[k] != ids[i]);
            }
        },
        None => {
            assert(ids.contains(ids[k]));
        },
    }
}

/// The encoding of a decodable expression names a class by the position of
/// its entry.
proof fn lemma_class_id(ids: Seq<Seq<char>>, n: Seq<char>)
    requires
        ids.contains(n),
    ensures
        0 <= first_id(ids, n) < ids.len(),
        ids[first_id(ids, n)] == n,
{
    ids.index_of_first_ensures(n);
}

/// What an encoding at `pos` that starts with tag 1 tells of the expression.
proof fn lemma_class_bytes(d: Seq<u8>, pos: int, v: ExprView, ids: Seq<Seq<char>>)
    requires
        ids.len() <= u64::MAX,
        0 <= pos < d.len(),
        d[pos] == 1,
        decodable(v, ids),
        starts_with(d.subrange(pos, d.len() as int), expr_bytes(v, ids)),
    ensures
        v is Class,
        pos + 9 <= d.len(),
        0 <= first_id(ids, v->Class_0) < ids.len(),
        ids[first_id(ids, v->Class_0)] == v->Class_0,
        expr_bytes(v, ids) == seq![1u8] + u64_le(first_id(ids, v->Class_0) as u64),
        d.subrange(pos + 1, pos + 9) == u64_le(first_id(ids, v->Class_0) as u64),
        u64_from_le(d.subrange(pos + 1, pos + 9)) == first_id(ids, v->Class_0),
{
    let full = d.subrange(pos, d.len() as int);
    assert(full.subrange(0, expr_bytes(v, ids).len() as int)[0] == full[0]);
    match v {
        ExprView::Class(n) => {
            lemma_class_id(ids, n);
            let fid = first_id(ids, n) as u64;
            lemma_starts_split(d, pos, seq![1u8], u64_le(fid));
            assert(d.subrange(pos + 1, d.len() as int).subrange(0, 8) =~= d.subrange(pos + 1, pos + 9));
            lemma_u64_roundtrip(fid);
        },
        ExprView::Not(b) => {},
        _ => {},
    }
}

/// Reads the class expression encoded at `pos`, with its string ids resolved
/// in `table`; gives the expression and the position after it.
#[verifier::rlimit(40)]
pub fn read_class_expression(data: &[u8], pos: usize, table: &StringTable)
    -> (r: Result<(ClassExpression, usize), BinaryFormatError>)
    requires
        pos <= data@.len(),
    ensures
        r matches Ok((e, p)) ==> pos < p <= data@.len() && decodable(e@, table.entries())
            && (distinct_entries(table.entries())
                ==> data@.subrange(pos as int, p as int) == expr_bytes(e@, table.entries())),
        r matches Err(err) ==> (err == BinaryFormatError::UnexpectedEof
            || err is UnknownClassExpressionType || err is InvalidStringId
            || err == BinaryFormatError::InvalidIri),
        forall|v: ExprView| decodable(v, table.entries()) && distinct_entries(table.entries())
            && #[trigger] starts_with(data@.subrange(pos as int, data@.len() as int), expr_bytes(v, table.entries()))
            ==> (r matches Ok((e, p)) && e@ == v && p == pos + expr_bytes(v, table.entries()).len()),
    decreases data@.len() - pos, 1int,
{
    let ghost ids = table.entries();
    let ghost d = data@;
    let table_len = table.len();
    assert(ids.len() == table_len);
    let tag = match read_u8_at(data, pos) {
        Some(t) => t,
        None => {
            proof {
                assert forall|v: ExprView| decodable(v, ids) && distinct_entries(ids)
                    && #[trigger] starts_with(d.subrange(pos as int, d.len() as int), expr_bytes(v, ids))
                    implies false by {
                    assert(expr_bytes(v, ids).len() >= 1);
                }
            }
            return Err(BinaryFormatError::UnexpectedEof);
        },
    };
    assert(pos < data.len());
    proof {
        assert forall|v: ExprView| decodable(v, ids) && distinct_entries(ids)
            && #[trigger] starts_with(d.subrange(pos as int, d.len() as int), expr_bytes(v, ids))
            implies tag == expr_bytes(v, ids)[0] by {
            let full = d.subrange(pos as int, d.len() as int);
            assert(full.subrange(0, expr_bytes(v, ids).len() as int)[0] == full[0]);
        }
    }
    if tag == 1u8 {
        let id = match read_u64_at(data, pos + 1) {
            Some(i) => i,
            None => {
                proof {
                    assert forall|v: ExprView| decodable(v, ids) && distinct_entries(ids)
                        && #[trigger] starts_with(d.subrange(pos as int, d.len() as int), expr_bytes(v, ids))
                        implies false by {
                        assert(v is Class);
                        assert(expr_bytes(v, ids).len() == 9);
                    }
                }
                return Err(BinaryFormatError::UnexpectedEof);
            },
        };
        let ghost idbytes = d.subrange(pos + 1, pos + 9);
        let name = match table.get_string(id) {
            Some(s) => s,
            None => {
                proof {
                    assert forall|v: ExprView| decodable(v, ids) && distinct_entries(ids)
                        && #[trigger] starts_with(d.subrange(pos as int, d.len() as int), expr_bytes(v, ids))
                        implies false by {
                        lemma_class_bytes(d, pos as int, v, ids);
                    }
                }
                return Err(BinaryFormatError::InvalidStringId(id));
            },
        };
        let iri = match IRI::new(name) {
            Ok(i) => i,
            Err(_) => {
                proof {
                    assert forall|v: ExprView| decodable(v, ids) && distinct_entries(ids)
                        && #[trigger] starts_with(d.subrange(pos as int, d.len() as int), expr_bytes(v, ids))
                        implies false by {
                        lemma_class_bytes(d, pos as int, v, ids);
                    }
                }
                return Err(BinaryFormatError::InvalidIri);
            },
        };
        let e = ClassExpression::Class(Class::new(iri));
        proof {
            lemma_u64_le_of_from_le(idbytes);
            assert(ids.contains(name@));
            if distinct_entries(ids) {
                lemma_first_id_distinct(ids, id as int);
                assert(d.subrange(pos as int, pos + 9) =~= seq![1u8] + idbytes);
            }
            assert forall|v: ExprView| decodable(v, ids) && distinct_entries(ids)
                && #[trigger] starts_with(d.subrange(pos as int, d.len() as int), expr_bytes(v, ids))
                implies e@ == v && pos + 9 == pos + expr_bytes(v, ids).len() by {
                lemma_class_bytes(d, pos as int, v, ids);
            }
        }
        return Ok((e, pos + 9));
    }
    if tag == 4u8 {
        let inner = read_class_expression(data, pos + 1, table);
        match inner {
            Ok((ie, p)) => {
                let e = ClassExpression::ObjectComplementOf(Box::new(ie));
                proof {
                    if distinct_entries(ids) {
                        assert(d.subrange(pos as int, p as int) =~= seq![4u8] + d.subrange(pos + 1, p as int));
                    }
                    assert forall|v: ExprView| decodable(v, ids) && distinct_entries(ids)
                        && #[trigger] starts_with(d.subrange(pos as int, d.len() as int), expr_bytes(v, ids))
                        implies e@ == v && p == pos + expr_bytes(v, ids).len() by {
                        let b = *(v->Not_0);
                        lemma_starts_split(d, pos as int, seq![4u8], expr_bytes(b, ids));
                        assert(starts_with(d.subrange(pos + 1, d.len() as int), expr_bytes(b, ids)));
                    }
                }
                return Ok((e, p));
            },
            Err(err) => {
                proof {
                    assert forall|v: ExprView| decodable(v, ids) && distinct_entries(ids)
                        && #[trigger] starts_with(d.subrange(pos as int, d.len() as int), expr_bytes(v, ids))
                        implies false by {
                        let b = *(v->Not_0);
                        lemma_starts_split(d, pos as int, seq![4u8], expr_bytes(b, ids));
                        assert(starts_with(d.subrange(pos + 1, d.len() as int), expr_bytes(b, ids)));
                    }
                }
                return Err(err);
            },
        }
    }
    if tag != 2u8 && tag != 3u8 {
        proof {
            assert forall|v: ExprView| decodable(v, ids) && distinct_entries(ids)
                && #[trigger] starts_with(d.subrange(pos as int, d.len() as int), expr_bytes(v, ids))
                implies false by {
                assert(expr_bytes(v, ids)[0] == 1 || expr_bytes(v, ids)[0] == 2
                    || expr_bytes(v, ids)[0] == 3 || expr_bytes(v, ids)[0] == 4);
            }
        }
        return Err(BinaryFormatError::UnknownClassExpressionType(tag));
    }
    read_operand_list(data, pos, tag, table)
}


/// The operands of an intersection or a union (empty for other expressions).
pub open spec fn operands_of(v: ExprView) -> Seq<ExprView> {
    match v {
        ExprView::And(ops) => ops,
        ExprView::Or(ops) => ops,
        _ => Seq::empty(),
    }
}

/// A prefix of a prefix is a prefix.
pub proof fn lemma_starts_trans(x: Seq<u8>, a: Seq<u8>, b: Seq<u8>)
    requires
        starts_with(x, a),
        starts_with(a, b),
    ensures
        starts_with(x, b),
{
    assert(x.subrange(0, b.len() as int) =~= a.subrange(0, b.len() as int));
}

/// What the first byte of an encoding at `pos` tells of a list expression.
proof fn lemma_list_shape(d: Seq<u8>, pos: int, tag: u8, v: ExprView, ids: Seq<Seq<char>>)
    requires
        0 <= pos < d.len(),
        d[pos] == tag,
        tag == 2 || tag == 3,
        decodable(v, ids),
        starts_with(d.subrange(pos, d.len() as int), expr_bytes(v, ids)),
    ensures
        operands_of(v).len() <= u32::MAX,
        all_decodable(operands_of(v), ids),
        expr_bytes(v, ids) == seq![tag] + u32_le(operands_of(v).len() as u32) + ops_bytes(operands_of(v), ids),
        tag == 2 ==> v == ExprView::And(operands_of(v)),
        tag == 3 ==> v == ExprView::Or(operands_of(v)),
{
    let full = d.subrange(pos, d.len() as int);
    assert(full.subrange(0, expr_bytes(v, ids).len() as int)[0] == full[0]);
    match v {
        ExprView::Class(n) => {},
        ExprView::Not(b) => {},
        _ => {},
    }
}

/// Reads the operand count and the operands of an intersection (`tag` 2)
/// or a union (`tag` 3) whose tag byte stands at `pos`.
#[verifier::rlimit(60)]
fn read_operand_list(data: &[u8], pos: usize, tag: u8, table: &StringTable)
    -> (r: Result<(ClassExpression, usize), BinaryFormatError>)
    requires
        pos < data@.len(),
        data@[pos as int] == tag,
        tag == 2 || tag == 3,
    ensures
        r matches Ok((e, p)) ==> pos < p <= data@.len() && decodable(e@, table.entries())
            && (distinct_entries(table.entries())
                ==> data@.subrange(pos as int, p as int) == expr_bytes(e@, table.entries())),
        r matches Err(err) ==> (err == BinaryFormatError::UnexpectedEof
            || err is UnknownClassExpressionType || err is InvalidStringId
            || err == BinaryFormatError::InvalidIri),
        forall|v: ExprView| decodable(v, table.entries()) && distinct_entries(table.entries())
            && #[trigger] starts_with(data@.subrange(pos as int, data@.len() as int), expr_bytes(v, table.entries()))
            ==> (r matches Ok((e, p)) && e@ == v && p == pos + expr_bytes(v, table.entries()).len()),
    decreases data@.len() - pos, 0int,
{
    let ghost ids = table.entries();
    let ghost d = data@;
    let dlen = data.len();
    let count = match read_u32_at(data, pos + 1) {
        Some(c) => c,
        None => {
            proof {
                assert forall|v: ExprView| decodable(v, ids) && distinct_entries(ids)
                    && #[trigger] starts_with(d.subrange(pos as int, d.len() as int), expr_bytes(v, ids))
                    implies false by {
                    lemma_list_shape(d, pos as int, tag, v, ids);
                }
            }
            return Err(BinaryFormatError::UnexpectedEof);
        },
    };
    let ghost cbytes = d.subrange(pos + 1, pos + 5);
    proof {
        lemma_u32_le_of_from_le(cbytes);
        assert forall|v: ExprView| decodable(v, ids) && distinct_entries(ids)
            && #[trigger] starts_with(d.subrange(pos as int, d.len() as int), expr_bytes(v, ids))
            implies operands_of(v).len() == count && starts_with(d.subrange(pos + 5, d.len() as int),
                ops_bytes(operands_of(v), ids)) by {
            lemma_list_shape(d, pos as int, tag, v, ids);
            let l = operands_of(v);
            lemma_starts_split(d, pos as int, seq![tag] + u32_le(l.len() as u32), ops_bytes(l, ids));
            assert(d.subrange(pos as int, pos + 5).subrange(1, 5) =~= cbytes);
            assert((seq![tag] + u32_le(l.len() as u32)).subrange(1, 5) =~= u32_le(l.len() as u32));
            lemma_u32_roundtrip(l.len() as u32);
        }
    }
    let mut ops: Vec<Box<ClassExpression>> = Vec::new();
    let mut p: usize = pos + 5;
    let mut k: u32 = 0;
    while k < count
        invariant
            d == data@,
            dlen == d.len(),
            ids == table.entries(),
            pos + 5 <= p <= d.len(),
            pos < d.len(),
            k <= count,
            ops@.len() == k,
            u32_le(count) == cbytes,
            cbytes == d.subrange(pos + 1, pos + 5),
            all_decodable(operand_views(ops@), ids),
            distinct_entries(ids) ==> d.subrange(pos + 5, p as int) == ops_bytes(operand_views(ops@), ids),
            forall|v: ExprView| decodable(v, ids) && distinct_entries(ids)
                && #[trigger] starts_with(d.subrange(pos as int, d.len() as int), expr_bytes(v, ids))
                ==> operands_of(v).len() == count
                    && all_decodable(operands_of(v), ids)
                    && starts_with(d.subrange(pos + 5, d.len() as int), ops_bytes(operands_of(v), ids))
                    && operand_views(ops@) == operands_of(v).take(k as int)
                    && p == pos + 5 + ops_bytes(operands_of(v).take(k as int), ids).len(),
        decreases count - k,
    {
        let ghost prev = ops@;
        let res = read_class_expression(data, p, table);
        proof {
            assert forall|v: ExprView| decodable(v, ids) && distinct_entries(ids)
                && #[trigger] starts_with(d.subrange(pos as int, d.len() as int), expr_bytes(v, ids))
                implies decodable(operands_of(v)[k as int], ids) && starts_with(d.subrange(p as int, d.len() as int),
                    expr_bytes(operands_of(v)[k as int], ids)) by {
                let l = operands_of(v);
                lemma_all_take(l, ids, k as int);
                lemma_ops_prefix(l, ids, k + 1);
                assert(l.take(k + 1).drop_last() == l.take(k as int));
                assert(l.take(k + 1).last() == l[k as int]);
                lemma_starts_trans(d.subrange(pos + 5, d.len() as int), ops_bytes(l, ids), ops_bytes(l.take(k + 1), ids));
                lemma_starts_split(d, pos + 5, ops_bytes(l.take(k as int), ids), expr_bytes(l[k as int], ids));
            }
        }
        match res {
            Ok((e, np)) => {
                let ghost ev = expr_view(e);
                ops.push(Box::new(e));
                proof {
                    assert(ops@.drop_last() == prev);
                    assert(operand_views(ops@) == operand_views(prev).push(ev));
                    assert(operand_views(ops@).drop_last() == operand_views(prev));
                    if distinct_entries(ids) {
                        assert(d.subrange(pos + 5, np as int) =~= d.subrange(pos + 5, p as int) + d.subrange(p as int, np as int));
                    }
                    assert forall|v: ExprView| decodable(v, ids) && distinct_entries(ids)
                        && #[trigger] starts_with(d.subrange(pos as int, d.len() as int), expr_bytes(v, ids))
                        implies operand_views(ops@) == operands_of(v).take(k + 1)
                            && np == pos + 5 + ops_bytes(operands_of(v).take(k + 1), ids).len() by {
                        let l = operands_of(v);
                        assert(l.take(k + 1).drop_last() == l.take(k as int));
                        assert(l.take(k + 1).last() == l[k as int]);
                        assert(l.take(k + 1) =~= l.take(k as int).push(l[k as int]));
                    }
                }
                p = np;
                k = k + 1;
            },
            Err(err) => {
                proof {
                    assert forall|v: ExprView| decodable(v, ids) && distinct_entries(ids)
                        && #[trigger] starts_with(d.subrange(pos as int, d.len() as int), expr_bytes(v, ids))
                        implies false by {
                        let l = operands_of(v);
                        assert(starts_with(d.subrange(p as int, d.len() as int), expr_bytes(l[k as int], ids)));
                    }
                }
                return Err(err);
            },
        }
    }
    let ghost views = operand_views(ops@);
    proof {
        lemma_operand_views(ops@);
    }
    let e = if tag == 2u8 {
        ClassExpression::ObjectIntersectionOf(ops)
    } else {
        ClassExpression::ObjectUnionOf(ops)
    };
    proof {
        assert(e@ == ExprView::And(views) || e@ == ExprView::Or(views));
        assert(views.len() == count);
        if distinct_entries(ids) {
            assert(d.subrange(pos as int, p as int) =~= seq![tag] + cbytes + d.subrange(pos + 5, p as int));
            assert(expr_bytes(e@, ids) == seq![tag] + u32_le(count) + ops_bytes(views, ids));
        }
        assert forall|v: ExprView| decodable(v, ids) && distinct_entries(ids)
            && #[trigger] starts_with(d.subrange(pos as int, d.len() as int), expr_bytes(v, ids))
            implies e@ == v && p == pos + expr_bytes(v, ids).len() by {
            lemma_list_shape(d, pos as int, tag, v, ids);
            let l = operands_of(v);
            assert(l.take(count as int) == l);
        }
    }
    Ok((e, p))
}

} // verus!
