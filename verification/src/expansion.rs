//! Tableaux expansion: the rules that turn a class expression in a node's
//! label into expansion tasks, and the queue of pending tasks.

use vstd::prelude::*;
use std::collections::VecDeque;
use crate::entities::NamedIndividual;
use crate::class_expression::{
    ClassExpression, ExprView, ObjectPropertyExpression, PropertyView, copy_expression, expr_view,
};

verus! {

/// A node of the completion graph.
#[derive(Debug, Clone, Copy, PartialEq, Eq, Hash, Structural)]
pub struct NodeId(pub usize);

/// What an expansion came to.
#[derive(Debug)]
pub enum ExpansionResult {
    /// The expansion succeeded.
    Success { node_id: NodeId },
    /// The expansion created new nodes.
    NewNodes { parent_id: NodeId, new_nodes: Vec<NodeId> },
    /// The expansion found a clash.
    Clash { node_id: NodeId, reason: String },
}

/// A pending application of a tableaux rule.
#[derive(Debug)]
pub enum ExpansionTask {
    /// The conjunction rule: add every conjunct to the node.
    Conjunction { node_id: NodeId, expressions: Vec<Box<ClassExpression>> },
    /// The disjunction rule: branch on the disjuncts.
    Disjunction { node_id: NodeId, expressions: Vec<Box<ClassExpression>> },
    /// The existential rule: a successor along the property with the class.
    Existential { node_id: NodeId, property: ObjectPropertyExpression, class_expression: Box<ClassExpression> },
    /// The universal rule: the class on every successor along the property.
    Universal { node_id: NodeId, property: ObjectPropertyExpression, class_expression: Box<ClassExpression> },
    /// The nominal rule.
    Nominal { node_id: NodeId, individual: NamedIndividual },
    /// A cardinality rule.
    Cardinality {
        node_id: NodeId,
        property: ObjectPropertyExpression,
        min_cardinality: Option<usize>,
        max_cardinality: Option<usize>,
    },
}

/// A task by the node, the rule and the views of what it carries.
pub enum TaskView {
    Conjunction(NodeId, Seq<ExprView>),
    Disjunction(NodeId, Seq<ExprView>),
    Existential(NodeId, PropertyView, ExprView),
    Universal(NodeId, PropertyView, ExprView),
    Nominal(NodeId, Seq<char>),
    Cardinality(NodeId, PropertyView, Option<usize>, Option<usize>),
}

/// The view of a task.
pub open spec fn task_view(t: ExpansionTask) -> TaskView {
    match t {
        ExpansionTask::Conjunction { node_id, expressions } =>
            TaskView::Conjunction(node_id, crate::class_expression::operand_views(expressions@)),
        ExpansionTask::Disjunction { node_id, expressions } =>
            TaskView::Disjunction(node_id, crate::class_expression::operand_views(expressions@)),
        ExpansionTask::Existential { node_id, property, class_expression } =>
            TaskView::Existential(node_id, property@, expr_view(*class_expression)),
        ExpansionTask::Universal { node_id, property, class_expression } =>
            TaskView::Universal(node_id, property@, expr_view(*class_expression)),
        ExpansionTask::Nominal { node_id, individual } => TaskView::Nominal(node_id, individual.iri_spec()@),
        ExpansionTask::Cardinality { node_id, property, min_cardinality, max_cardinality } =>
            TaskView::Cardinality(node_id, property@, min_cardinality, max_cardinality),
    }
}

/// The views of a list of tasks.
pub open spec fn task_views(ts: Seq<ExpansionTask>) -> Seq<TaskView> {
    ts.map_values(|t: ExpansionTask| task_view(t))
}

/// A tableaux expansion rule.
pub trait ExpansionRule {
    /// The rule's name.
    fn name(&self) -> &str;

    /// Whether the rule applies to the expression in the node's label.
    fn is_applicable(&self, node_id: NodeId, expression: &ClassExpression) -> bool;

    /// The tasks the rule makes of the expression.
    fn apply(&self, node_id: NodeId, expression: &ClassExpression) -> Vec<ExpansionTask>;
}

/// The conjunction rule (⊓-rule): for `C ⊓ D` in the label, add `C` and `D`.
#[derive(Debug)]
pub struct ConjunctionRule;

/// The disjunction rule (⊔-rule): for `C ⊔ D` in the label, branch on `C`
/// or `D`.
#[derive(Debug)]
pub struct DisjunctionRule;

/// The existential rule (∃-rule): for `∃R.C` in the label, a new successor
/// along `R` with `C`.
#[derive(Debug)]
pub struct ExistentialRule;

/// The universal rule (∀-rule): for `∀R.C` in the label, `C` on every
/// successor along `R`.
#[derive(Debug)]
pub struct UniversalRule;

/// The tasks of the conjunction rule.
pub open spec fn conjunction_tasks(n: NodeId, e: ExprView) -> Seq<TaskView> {
    match e {
        ExprView::And(ops) => seq![TaskView::Conjunction(n, ops)],
        _ => Seq::empty(),
    }
}

/// The tasks of the disjunction rule.
pub open spec fn disjunction_tasks(n: NodeId, e: ExprView) -> Seq<TaskView> {
    match e {
        ExprView::Or(ops) => seq![TaskView::Disjunction(n, ops)],
        _ => Seq::empty(),
    }
}

/// The tasks of the existential rule.
pub open spec fn existential_tasks(n: NodeId, e: ExprView) -> Seq<TaskView> {
    match e {
        ExprView::Exists(p, c) => seq![TaskView::Existential(n, p, *c)],
        _ => Seq::empty(),
    }
}

/// The tasks of the universal rule.
pub open spec fn universal_tasks(n: NodeId, e: ExprView) -> Seq<TaskView> {
    match e {
        ExprView::Forall(p, c) => seq![TaskView::Universal(n, p, *c)],
        _ => Seq::empty(),
    }
}

impl ExpansionRule for ConjunctionRule {
    fn name(&self) -> (r: &str)
        ensures
            r@ == "Conjunction (⊓-rule)"@,
    {
        "Conjunction (⊓-rule)"
    }

    fn is_applicable(&self, node_id: NodeId, expression: &ClassExpression) -> (r: bool)
        ensures
            r == (expression@ is And),
    {
        match expression {
            ClassExpression::ObjectIntersectionOf(_) => true,
            _ => false,
        }
    }

    fn apply(&self, node_id: NodeId, expression: &ClassExpression) -> (r: Vec<ExpansionTask>)
        ensures
            task_views(r@) == conjunction_tasks(node_id, expression@),
    {
        let c = copy_expression(expression);
        match c {
            ClassExpression::ObjectIntersectionOf(expressions) => {
                let r = vec![ExpansionTask::Conjunction { node_id, expressions }];
                assert(task_views(r@) =~= conjunction_tasks(node_id, expression@));
                r
            },
            _ => {
                let r = Vec::new();
                assert(task_views(r@) =~= conjunction_tasks(node_id, expression@));
                r
            },
        }
    }
}

impl ExpansionRule for DisjunctionRule {
    fn name(&self) -> (r: &str)
        ensures
            r@ == "Disjunction (⊔-rule)"@,
    {
        "Disjunction (⊔-rule)"
    }

    fn is_applicable(&self, node_id: NodeId, expression: &ClassExpression) -> (r: bool)
        ensures
            r == (expression@ is Or),
    {
        match expression {
            ClassExpression::ObjectUnionOf(_) => true,
            _ => false,
        }
    }

    fn apply(&self, node_id: NodeId, expression: &ClassExpression) -> (r: Vec<ExpansionTask>)
        ensures
            task_views(r@) == disjunction_tasks(node_id, expression@),
    {
        let c = copy_expression(expression);
        match c {
            ClassExpression::ObjectUnionOf(expressions) => {
                let r = vec![ExpansionTask::Disjunction { node_id, expressions }];
                assert(task_views(r@) =~= disjunction_tasks(node_id, expression@));
                r
            },
            _ => {
                let r = Vec::new();
                assert(task_views(r@) =~= disjunction_tasks(node_id, expression@));
                r
            },
        }
    }
}

impl ExpansionRule for ExistentialRule {
    fn name(&self) -> (r: &str)
        ensures
            r@ == "Existential (∃-rule)"@,
    {
        "Existential (∃-rule)"
    }

    fn is_applicable(&self, node_id: NodeId, expression: &ClassExpression) -> (r: bool)
        ensures
            r == (expression@ is Exists),
    {
        match expression {
            ClassExpression::ObjectSomeValuesFrom(_, _) => true,
            _ => false,
        }
    }

    fn apply(&self, node_id: NodeId, expression: &ClassExpression) -> (r: Vec<ExpansionTask>)
        ensures
            task_views(r@) == existential_tasks(node_id, expression@),
    {
        let c = copy_expression(expression);
        match c {
            ClassExpression::ObjectSomeValuesFrom(property, class_expression) => {
                let r = vec![ExpansionTask::Existential { node_id, property: *property, class_expression }];
                assert(task_views(r@) =~= existential_tasks(node_id, expression@));
                r
            },
            _ => {
                let r = Vec::new();
                assert(task_views(r@) =~= existential_tasks(node_id, expression@));
                r
            },
        }
    }
}

impl ExpansionRule for UniversalRule {
    fn name(&self) -> (r: &str)
        ensures
            r@ == "Universal (∀-rule)"@,
    {
        "Universal (∀-rule)"
    }

    fn is_applicable(&self, node_id: NodeId, expression: &ClassExpression) -> (r: bool)
        ensures
            r == (expression@ is Forall),
    {
        match expression {
            ClassExpression::ObjectAllValuesFrom(_, _) => true,
            _ => false,
        }
    }

    fn apply(&self, node_id: NodeId, expression: &ClassExpression) -> (r: Vec<ExpansionTask>)
        ensures
            task_views(r@) == universal_tasks(node_id, expression@),
    {
        let c = copy_expression(expression);
        match c {
            ClassExpression::ObjectAllValuesFrom(property, class_expression) => {
                let r = vec![ExpansionTask::Universal { node_id, property: *property, class_expression }];
                assert(task_views(r@) =~= universal_tasks(node_id, expression@));
                r
            },
            _ => {
                let r = Vec::new();
                assert(task_views(r@) =~= universal_tasks(node_id, expression@));
                r
            },
        }
    }
}

/// A record that a rule was applied to an expression at a node.
#[derive(Debug)]
pub struct RuleApplication {
    pub node_id: NodeId,
    pub rule_name: String,
    pub expression: ClassExpression,
}

impl RuleApplication {
    /// The record of `rule_name` applied to `expression` at `node_id`.
    pub fn new(node_id: NodeId, rule_name: &str, expression: ClassExpression) -> (r: Self)
        ensures
            r.node_id == node_id,
            r.rule_name@ == rule_name@,
            r.expression == expression,
    {
        RuleApplication { node_id, rule_name: rule_name.to_string(), expression }
    }
}

/// The pending expansion tasks, first in first out, with urgent tasks put
/// in front.
#[derive(Debug)]
pub struct ExpansionQueue {
    tasks: VecDeque<ExpansionTask>,
}

impl View for ExpansionQueue {
    type V = Seq<ExpansionTask>;

    closed spec fn view(&self) -> Seq<ExpansionTask> {
        self.tasks@
    }
}

impl ExpansionQueue {
    /// An empty queue.
    pub fn new() -> (r: Self)
        ensures
            r@ == Seq::<ExpansionTask>::empty(),
    {
        ExpansionQueue { tasks: VecDeque::new() }
    }

    /// Adds a task at the back.
    pub fn push(&mut self, task: ExpansionTask)
        ensures
            final(self)@ == old(self)@.push(task),
    {
        self.tasks.push_back(task);
    }

    /// Adds a task at the front.
    pub fn push_front(&mut self, task: ExpansionTask)
        ensures
            final(self)@ == seq![task] + old(self)@,
    {
        self.tasks.push_front(task);
    }

    /// Takes the task at the front.
    pub fn pop(&mut self) -> (r: Option<ExpansionTask>)
        ensures
            old(self)@.len() == 0 ==> r is None && final(self)@ == old(self)@,
            old(self)@.len() > 0 ==> r == Some(old(self)@[0]) && final(self)@ == old(self)@.drop_first(),
    {
        self.tasks.pop_front()
    }

    /// Whether no task is pending.
    pub fn is_empty(&self) -> (r: bool)
        ensures
            r == (self@.len() == 0),
    {
        self.tasks.len() == 0
    }

    /// The number of pending tasks.
    pub fn len(&self) -> (r: usize)
        ensures
            r == self@.len(),
    {
        self.tasks.len()
    }

    /// Adds the tasks at the back, in their order.
    pub fn extend(&mut self, tasks: Vec<ExpansionTask>)
        ensures
            final(self)@ == old(self)@ + tasks@,
    {
        let ghost start = self.tasks@;
        let ghost given = tasks@;
        let base = self.tasks.len();
        let mut rest = tasks;
        while rest.len() > 0
            invariant
                base == start.len(),
                self.tasks@.len() == start.len() + given.len() - rest@.len(),
                rest@ == given.take(rest@.len() as int),
                self.tasks@ == start + given.skip(rest@.len() as int),
            decreases rest@.len(),
        {
            let ghost k = rest@.len() - 1;
            let t = rest.pop().unwrap();
            proof {
                assert(t == given[k]);
            }
            self.tasks.insert(base, t);
            proof {
                assert(rest@ =~= given.take(rest@.len() as int));
                assert(self.tasks@ =~= start + given.skip(rest@.len() as int));
            }
        }
        proof {
            assert(given.skip(0) =~= given);
        }
    }
}

impl Default for ExpansionQueue {
    fn default() -> (r: Self)
        ensures
            r@ == Seq::<ExpansionTask>::empty(),
    {
        ExpansionQueue::new()
    }
}

} // verus!
