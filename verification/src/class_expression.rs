//! Class expressions and object property expressions, with their
//! mathematical views.

use vstd::prelude::*;
use std::sync::Arc;
use crate::iri::{IRI, share_arc};
use crate::entities::{Class, ObjectProperty};

verus! {

broadcast use vstd::std_specs::vec::group_vec_axioms;

/// An object property expression.
#[derive(Debug)]
pub enum ObjectPropertyExpression {
    ObjectProperty(ObjectProperty),
    ObjectInverseOf(ObjectProperty),
}

/// The view of an object property expression: the IRI text of the property
/// and whether it is taken inversely.
pub enum PropertyView {
    Direct(Seq<char>),
    Inverse(Seq<char>),
}

impl View for ObjectPropertyExpression {
    type V = PropertyView;

    open spec fn view(&self) -> PropertyView {
        match self {
            ObjectPropertyExpression::ObjectProperty(p) => PropertyView::Direct(p.iri_spec()@),
            ObjectPropertyExpression::ObjectInverseOf(p) => PropertyView::Inverse(p.iri_spec()@),
        }
    }
}

/// A class expression.
#[derive(Debug)]
pub enum ClassExpression {
    Class(Class),
    ObjectIntersectionOf(Vec<Box<ClassExpression>>),
    ObjectUnionOf(Vec<Box<ClassExpression>>),
    ObjectComplementOf(Box<ClassExpression>),
    ObjectSomeValuesFrom(Box<ObjectPropertyExpression>, Box<ClassExpression>),
    ObjectAllValuesFrom(Box<ObjectPropertyExpression>, Box<ClassExpression>),
    ObjectHasValue(Box<ObjectPropertyExpression>, Arc<IRI>),
    ObjectOneOf(Vec<Arc<IRI>>),
}

/// The mathematical view of a class expression.
pub enum ExprView {
    Class(Seq<char>),
    And(Seq<ExprView>),
    Or(Seq<ExprView>),
    Not(Box<ExprView>),
    Exists(PropertyView, Box<ExprView>),
    Forall(PropertyView, Box<ExprView>),
    HasValue(PropertyView, Seq<char>),
    OneOf(Seq<Seq<char>>),
}

/// The views of a sequence of operands.
pub open spec fn operand_views(ops: Seq<Box<ClassExpression>>) -> Seq<ExprView>
    decreases ops,
{
    if ops.len() == 0 {
        Seq::empty()
    } else {
        operand_views(ops.drop_last()).push(expr_view(*ops.last()))
    }
}

/// `operand_views` maps each operand to its view.
pub proof fn lemma_operand_views(ops: Seq<Box<ClassExpression>>)
    ensures
        operand_views(ops).len() == ops.len(),
        forall|i: int| 0 <= i < ops.len() ==> #[trigger] operand_views(ops)[i] == expr_view(*ops[i]),
    decreases ops.len(),
{
    if ops.len() > 0 {
        lemma_operand_views(ops.drop_last());
    }
}

/// The view of a class expression.
pub open spec fn expr_view(e: ClassExpression) -> ExprView
    decreases e,
{
    match e {
        ClassExpression::Class(c) => ExprView::Class(c.iri_spec()@),
        ClassExpression::ObjectIntersectionOf(ops) => ExprView::And(operand_views(ops@)),
        ClassExpression::ObjectUnionOf(ops) => ExprView::Or(operand_views(ops@)),
        ClassExpression::ObjectComplementOf(inner) => ExprView::Not(Box::new(expr_view(*inner))),
        ClassExpression::ObjectSomeValuesFrom(p, inner) => ExprView::Exists((*p)@, Box::new(expr_view(*inner))),
        ClassExpression::ObjectAllValuesFrom(p, inner) => ExprView::Forall((*p)@, Box::new(expr_view(*inner))),
        ClassExpression::ObjectHasValue(p, ind) => ExprView::HasValue((*p)@, (*ind)@),
        ClassExpression::ObjectOneOf(inds) => ExprView::OneOf(Seq::new(inds@.len(), |i: int| inds@[i]@)),
    }
}

impl View for ClassExpression {
    type V = ExprView;

    open spec fn view(&self) -> ExprView {
        expr_view(*self)
    }
}


/// Whether two object property expressions have the same view.
pub fn same_property(a: &ObjectPropertyExpression, b: &ObjectPropertyExpression) -> (r: bool)
    ensures
        r == (a@ == b@),
{
    match (a, b) {
        (ObjectPropertyExpression::ObjectProperty(x), ObjectPropertyExpression::ObjectProperty(y)) => **x.iri() == **y.iri(),
        (ObjectPropertyExpression::ObjectInverseOf(x), ObjectPropertyExpression::ObjectInverseOf(y)) => **x.iri() == **y.iri(),
        _ => false,
    }
}

/// Whether two class expressions have the same view.
pub fn same_expression(a: &ClassExpression, b: &ClassExpression) -> (r: bool)
    ensures
        r == (a@ == b@),
    decreases a,
{
    match (a, b) {
        (ClassExpression::Class(x), ClassExpression::Class(y)) => **x.iri() == **y.iri(),
        (ClassExpression::ObjectIntersectionOf(xs), ClassExpression::ObjectIntersectionOf(ys))
        | (ClassExpression::ObjectUnionOf(xs), ClassExpression::ObjectUnionOf(ys)) => {
            proof {
                lemma_operand_views(xs@);
                lemma_operand_views(ys@);
                assert(decreases_to!(*a => *xs));
                assert(decreases_to!(*xs => xs@));
            }
            if xs.len() != ys.len() {
                proof {
                    assert(operand_views(xs@).len() != operand_views(ys@).len());
                }
                return false;
            }
            let mut i: usize = 0;
            while i < xs.len()
                invariant
                    i <= xs@.len(),
                    xs@.len() == ys@.len(),
                    decreases_to!(*a => xs@),
                    operand_views(xs@).len() == xs@.len(),
                    operand_views(ys@).len() == ys@.len(),
                    forall|k: int| 0 <= k < xs@.len() ==> #[trigger] operand_views(xs@)[k] == expr_view(*xs@[k]),
                    forall|k: int| 0 <= k < ys@.len() ==> #[trigger] operand_views(ys@)[k] == expr_view(*ys@[k]),
                    forall|k: int| 0 <= k < i ==> operand_views(xs@)[k] == operand_views(ys@)[k],
                    a@ == b@ ==> operand_views(xs@) == operand_views(ys@),
                    a@ == b@ <== operand_views(xs@) == operand_views(ys@),
                decreases xs@.len() - i,
            {
                proof {
                    assert(decreases_to!(xs@ => xs@[i as int]));
                }
                if !same_expression(&xs[i], &ys[i]) {
                    proof {
                        assert(operand_views(xs@)[i as int] != operand_views(ys@)[i as int]);
                    }
                    return false;
                }
                i += 1;
            }
            assert(operand_views(xs@) =~= operand_views(ys@));
            true
        },
        (ClassExpression::ObjectComplementOf(x), ClassExpression::ObjectComplementOf(y)) => same_expression(x, y),
        (ClassExpression::ObjectSomeValuesFrom(p, x), ClassExpression::ObjectSomeValuesFrom(q, y))
        | (ClassExpression::ObjectAllValuesFrom(p, x), ClassExpression::ObjectAllValuesFrom(q, y)) => {
            same_property(p, q) && same_expression(x, y)
        },
        (ClassExpression::ObjectHasValue(p, x), ClassExpression::ObjectHasValue(q, y)) => {
            same_property(p, q) && **x == **y
        },
        (ClassExpression::ObjectOneOf(xs), ClassExpression::ObjectOneOf(ys)) => {
            let ghost vx = Seq::new(xs@.len(), |i: int| xs@[i]@);
            let ghost vy = Seq::new(ys@.len(), |i: int| ys@[i]@);
            if xs.len() != ys.len() {
                proof {
                    assert(vx.len() != vy.len());
                }
                return false;
            }
            let mut i: usize = 0;
            while i < xs.len()
                invariant
                    i <= xs@.len(),
                    xs@.len() == ys@.len(),
                    vx == Seq::new(xs@.len(), |i: int| xs@[i]@),
                    vy == Seq::new(ys@.len(), |i: int| ys@[i]@),
                    forall|k: int| 0 <= k < i ==> vx[k] == vy[k],
                    a@ == b@ <==> vx == vy,
                decreases xs@.len() - i,
            {
                if !(*xs[i] == *ys[i]) {
                    proof {
                        assert(vx[i as int] != vy[i as int]);
                    }
                    return false;
                }
                i += 1;
            }
            assert(vx =~= vy);
            true
        },
        _ => false,
    }
}

/// A copy of a property expression.
pub fn copy_property(p: &ObjectPropertyExpression) -> (r: ObjectPropertyExpression)
    ensures
        r@ == p@,
{
    match p {
        ObjectPropertyExpression::ObjectProperty(x) => ObjectPropertyExpression::ObjectProperty(x.clone()),
        ObjectPropertyExpression::ObjectInverseOf(x) => ObjectPropertyExpression::ObjectInverseOf(x.clone()),
    }
}

/// A copy of a class expression, sharing its IRIs.
pub fn copy_expression(e: &ClassExpression) -> (r: ClassExpression)
    ensures
        r@ == e@,
    decreases e,
{
    match e {
        ClassExpression::Class(c) => ClassExpression::Class(c.clone()),
        ClassExpression::ObjectIntersectionOf(xs) | ClassExpression::ObjectUnionOf(xs) => {
            proof {
                lemma_operand_views(xs@);
                assert(decreases_to!(*e => *xs));
                assert(decreases_to!(*xs => xs@));
            }
            let mut out: Vec<Box<ClassExpression>> = Vec::new();
            let mut i: usize = 0;
            while i < xs.len()
                invariant
                    i <= xs@.len(),
                    out@.len() == i,
                    decreases_to!(*e => xs@),
                    forall|k: int| 0 <= k < i ==> expr_view(*#[trigger] out@[k]) == expr_view(*xs@[k]),
                decreases xs@.len() - i,
            {
                proof {
                    assert(decreases_to!(xs@ => xs@[i as int]));
                }
                let c = copy_expression(&xs[i]);
                out.push(Box::new(c));
                i += 1;
            }
            proof {
                lemma_operand_views(out@);
                assert(operand_views(out@) =~= operand_views(xs@));
            }
            match e {
                ClassExpression::ObjectIntersectionOf(_) => ClassExpression::ObjectIntersectionOf(out),
                _ => ClassExpression::ObjectUnionOf(out),
            }
        },
        ClassExpression::ObjectComplementOf(x) => ClassExpression::ObjectComplementOf(Box::new(copy_expression(x))),
        ClassExpression::ObjectSomeValuesFrom(p, x) => ClassExpression::ObjectSomeValuesFrom(
            Box::new(copy_property(p)), Box::new(copy_expression(x))),
        ClassExpression::ObjectAllValuesFrom(p, x) => ClassExpression::ObjectAllValuesFrom(
            Box::new(copy_property(p)), Box::new(copy_expression(x))),
        ClassExpression::ObjectHasValue(p, x) => ClassExpression::ObjectHasValue(Box::new(copy_property(p)), share_arc(x)),
        ClassExpression::ObjectOneOf(xs) => {
            let mut out: Vec<Arc<IRI>> = Vec::new();
            let mut i: usize = 0;
            while i < xs.len()
                invariant
                    i <= xs@.len(),
                    out@.len() == i,
                    forall|k: int| 0 <= k < i ==> #[trigger] out@[k] == xs@[k],
                decreases xs@.len() - i,
            {
                out.push(share_arc(&xs[i]));
                i += 1;
            }
            assert(out@ =~= xs@);
            ClassExpression::ObjectOneOf(out)
        },
    }
}

} // verus!
