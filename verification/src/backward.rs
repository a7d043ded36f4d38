//! The backward pass: which rules fire, and in which order.
//!
//! A pass from a root seeds the root's gradient with one and then lets every
//! rule below the root fire once, the root's first, each rule before those
//! of its node's predecessors. The library fixes that order and says, for
//! each rule, which gradients it changes and by what. The arithmetic itself
//! is the caller's.

use vstd::prelude::*;
use crate::double::{is_non_negative, non_negative, ONE};
use crate::pass::{Cursor, Pass};
use crate::topo::{predecessors_first, reaches, topo_order};
use crate::value::{well_formed, Graph, Node, Prev, Rule, Value};

verus! {

/// One firing of a rule: `node` hands its gradient on to the operands of
/// `rule`.
#[derive(Clone, Copy, Debug, PartialEq, Eq, Structural)]
pub struct Step {
    pub node: Value,
    pub rule: Rule,
}

/// What the upstream gradient is multiplied by before it reaches an operand.
#[derive(Clone, Copy, Debug, PartialEq, Eq, Structural)]
pub enum Factor {
    /// Nothing: the gradient passes as it is.
    One,
    /// The current value of a node.
    ValueOf(Prev),
    /// `e * b^(e - 1)`, for the values `b` of `base` and `e` of `exponent`.
    PowerSlope { base: Prev, exponent: Prev },
    /// `b^e * ln(b)`, for the values `b` of `base` and `e` of `exponent`.
    PowerLog { base: Prev, exponent: Prev },
}

/// One change that a rule makes: the upstream gradient times `factor` is
/// added to the gradient of `target`, or taken from it where `subtract` is
/// set. The gradient is never overwritten.
#[derive(Clone, Copy, Debug, PartialEq, Eq, Structural)]
pub struct Update {
    pub target: Prev,
    pub factor: Factor,
    pub subtract: bool,
}

impl Rule {
    /// The changes that the rule makes when it fires, one for each operand
    /// slot, left to right.
    pub open spec fn spec_updates(self) -> Seq<Update> {
        match self {
            Rule::Add { lhs, rhs } => seq![
                Update { target: lhs, factor: Factor::One, subtract: false },
                Update { target: rhs, factor: Factor::One, subtract: false },
            ],
            Rule::Sub { lhs, rhs } => seq![
                Update { target: lhs, factor: Factor::One, subtract: true },
                Update { target: rhs, factor: Factor::One, subtract: true },
            ],
            Rule::Mul { lhs, rhs } => seq![
                Update { target: lhs, factor: Factor::ValueOf(rhs), subtract: false },
                Update { target: rhs, factor: Factor::ValueOf(lhs), subtract: false },
            ],
            Rule::Pow { base, exponent } => seq![
                Update { target: base, factor: Factor::PowerSlope { base, exponent }, subtract: false },
                Update { target: exponent, factor: Factor::PowerLog { base, exponent }, subtract: false },
            ],
            Rule::Relu { input } => seq![
                Update { target: input, factor: Factor::One, subtract: false },
            ],
        }
    }

    /// Whether the rule makes its changes when the upstream gradient is
    /// `upstream`. Only the rectifier's rule ever holds back, and it looks
    /// at the sign of the upstream gradient, not at the value of its input.
    pub open spec fn spec_fires(self, upstream: u64) -> bool {
        self is Relu ==> non_negative(upstream)
    }

    /// The changes that the rule makes when it fires.
    pub fn updates(&self) -> (updates: Vec<Update>)
        ensures
            updates@ == self.spec_updates(),
    {
        let mut updates: Vec<Update> = Vec::new();
        match self {
            Rule::Add { lhs, rhs } => {
                updates.push(Update { target: *lhs, factor: Factor::One, subtract: false });
                updates.push(Update { target: *rhs, factor: Factor::One, subtract: false });
            },
            Rule::Sub { lhs, rhs } => {
                updates.push(Update { target: *lhs, factor: Factor::One, subtract: true });
                updates.push(Update { target: *rhs, factor: Factor::One, subtract: true });
            },
            Rule::Mul { lhs, rhs } => {
                updates.push(Update { target: *lhs, factor: Factor::ValueOf(*rhs), subtract: false });
                updates.push(Update { target: *rhs, factor: Factor::ValueOf(*lhs), subtract: false });
            },
            Rule::Pow { base, exponent } => {
                updates.push(
                    Update {
                        target: *base,
                        factor: Factor::PowerSlope { base: *base, exponent: *exponent },
                        subtract: false,
                    },
                );
                updates.push(
                    Update {
                        target: *exponent,
                        factor: Factor::PowerLog { base: *base, exponent: *exponent },
                        subtract: false,
                    },
                );
            },
            Rule::Relu { input } => {
                updates.push(Update { target: *input, factor: Factor::One, subtract: false });
            },
        }
        assert(updates@ =~= self.spec_updates());
        updates
    }

    /// Whether the rule makes its changes when the upstream gradient is
    /// `upstream`.
    pub fn fires(&self, upstream: u64) -> (fires: bool)
        ensures
            fires == self.spec_fires(upstream),
    {
        match self {
            Rule::Relu { .. } => is_non_negative(upstream),
            _ => true,
        }
    }
}

/// The steps of the nodes of `order` that carry a rule, read from the back
/// of `order` to its front.
pub open spec fn steps_back(nodes: Seq<Node>, order: Seq<Value>) -> Seq<Step>
    decreases order.len(),
{
    if order.len() == 0 {
        Seq::empty()
    } else {
        let v = order.last();
        let rest = steps_back(nodes, order.drop_last());
        if v.id < nodes.len() && nodes[v.id as int].backward is Some {
            seq![Step { node: v, rule: nodes[v.id as int].backward->Some_0 }] + rest
        } else {
            rest
        }
    }
}

/// The schedule of the backward pass from `root`: the topological order
/// below `root`, reversed, without the leaves.
pub open spec fn schedule(nodes: Seq<Node>, root: usize) -> Seq<Step> {
    steps_back(nodes, topo_order(nodes, root))
}

/// The graph `nodes` after the seeding of a backward pass from `root`.
pub open spec fn seeded(nodes: Seq<Node>, root: usize) -> Seq<Node> {
    nodes.update(root as int, (Node { grad: ONE, ..nodes[root as int] }))
}

/// Whether `plan` holds a step of node `v`.
pub open spec fn has_step(plan: Seq<Step>, v: Value) -> bool {
    exists|i: int| 0 <= i < plan.len() && (#[trigger] plan[i]).node == v
}

/// What `steps_back` keeps of an order without repetitions: a step for
/// each entry that carries a rule and for no other, with the entry's own
/// rule, later entries first.
pub proof fn lemma_steps_back(nodes: Seq<Node>, order: Seq<Value>)
    requires
        order.no_duplicates(),
    ensures
        forall|i: int|
            0 <= i < steps_back(nodes, order).len() ==> {
                let step = #[trigger] steps_back(nodes, order)[i];
                &&& order.contains(step.node)
                &&& step.node.id < nodes.len()
                &&& nodes[step.node.id as int].backward == Some(step.rule)
            },
        forall|j: int|
            0 <= j < order.len() && (#[trigger] order[j]).id < nodes.len()
                && nodes[order[j].id as int].backward is Some ==> has_step(
                steps_back(nodes, order),
                order[j],
            ),
        forall|i1: int, i2: int, j1: int, j2: int|
            0 <= i1 < i2 < steps_back(nodes, order).len() && 0 <= j1 < order.len() && 0 <= j2
                < order.len() && #[trigger] order[j1] == (#[trigger] steps_back(nodes, order)[i1]).node
                && #[trigger] order[j2] == (#[trigger] steps_back(nodes, order)[i2]).node ==> j2
                < j1,
    decreases order.len(),
{
    let plan = steps_back(nodes, order);
    if order.len() > 0 {
        let v = order.last();
        let front = order.drop_last();
        let rest = steps_back(nodes, front);
        let kept = v.id < nodes.len() && nodes[v.id as int].backward is Some;
        let shift: int = if kept { 1 } else { 0 };
        lemma_steps_back(nodes, front);
        assert(plan.len() == rest.len() + shift);
        assert(forall|i: int| shift <= i < plan.len() ==> plan[i] == rest[i - shift]);
        assert(forall|j: int| 0 <= j < front.len() ==> front[j] == order[j]);
        assert forall|i: int| 0 <= i < plan.len() implies {
            let step = #[trigger] plan[i];
            &&& order.contains(step.node)
            &&& step.node.id < nodes.len()
            &&& nodes[step.node.id as int].backward == Some(step.rule)
        } by {
            if i < shift {
                assert(order[order.len() - 1] == plan[i].node);
            } else {
                let step = rest[i - shift];
                assert(front.contains(step.node));
                let j = front.index_of(step.node);
                assert(order[j] == step.node);
            }
        }
        assert forall|j: int|
            0 <= j < order.len() && (#[trigger] order[j]).id < nodes.len()
                && nodes[order[j].id as int].backward is Some implies has_step(plan, order[j]) by {
            if j == order.len() - 1 {
                assert(plan[0].node == order[j]);
            } else {
                assert(front[j] == order[j]);
                assert(has_step(rest, front[j]));
                let i = choose|i: int| 0 <= i < rest.len() && (#[trigger] rest[i]).node == front[j];
                assert(plan[i + shift].node == order[j]);
            }
        }
        assert forall|i1: int, i2: int, j1: int, j2: int|
            0 <= i1 < i2 < plan.len() && 0 <= j1 < order.len() && 0 <= j2 < order.len()
                && #[trigger] order[j1] == (#[trigger] plan[i1]).node && #[trigger] order[j2] == (
            #[trigger] plan[i2]).node implies j2 < j1 by {
            let late = rest[i2 - shift];
            assert(front.contains(late.node));
            let at = front.index_of(late.node);
            assert(order[at] == late.node);
            assert(j2 == at);
            if i1 < shift {
                assert(order[order.len() - 1] == plan[i1].node);
                assert(j1 == order.len() - 1);
            } else {
                let early = rest[i1 - shift];
                assert(front.contains(early.node));
                let from = front.index_of(early.node);
                assert(order[from] == early.node);
                assert(j1 == from);
                assert(front[j1] == rest[i1 - shift].node);
                assert(front[j2] == rest[i2 - shift].node);
            }
        }
    }
}

/// In the schedule of a backward pass every rule below the root fires, and
/// fires once: each step belongs to a node that the root reaches and carries
/// that node's rule, no node has two steps, and every node that the root
/// reaches and that carries a rule has its step.
pub proof fn lemma_every_rule_fires_once(nodes: Seq<Node>, root: usize)
    requires
        well_formed(nodes),
        root < nodes.len(),
    ensures
        forall|i: int|
            0 <= i < schedule(nodes, root).len() ==> {
                let step = #[trigger] schedule(nodes, root)[i];
                &&& step.node.id < nodes.len()
                &&& nodes[step.node.id as int].backward == Some(step.rule)
                &&& reaches(nodes, root, step.node.id)
            },
        forall|i: int, j: int|
            0 <= i < j < schedule(nodes, root).len() ==> (#[trigger] schedule(nodes, root)[i]).node
                != (#[trigger] schedule(nodes, root)[j]).node,
        forall|n: usize|
            n < nodes.len() && #[trigger] reaches(nodes, root, n) && nodes[n as int].backward is Some
                ==> has_step(schedule(nodes, root), Value { id: n }),
{
    let order = topo_order(nodes, root);
    let plan = schedule(nodes, root);
    crate::topo::lemma_topo_order(nodes, root);
    lemma_steps_back(nodes, order);
    assert forall|i: int| 0 <= i < plan.len() implies {
        let step = #[trigger] plan[i];
        &&& step.node.id < nodes.len()
        &&& nodes[step.node.id as int].backward == Some(step.rule)
        &&& reaches(nodes, root, step.node.id)
    } by {
        assert(order.contains(plan[i].node));
    }
    assert forall|i: int, j: int| 0 <= i < j < plan.len() implies (#[trigger] plan[i]).node != (
    #[trigger] plan[j]).node by {
        if plan[i].node == plan[j].node {
            assert(order.contains(plan[i].node));
            let at = order.index_of(plan[i].node);
            assert(order[at] == plan[i].node && order[at] == plan[j].node);
        }
    }
    assert forall|n: usize|
        n < nodes.len() && #[trigger] reaches(nodes, root, n)
            && nodes[n as int].backward is Some implies has_step(plan, Value { id: n }) by {
        let v = Value { id: n };
        assert(order.contains(v));
        let at = order.index_of(v);
        assert(order[at] == v);
    }
}

/// In the schedule of a backward pass a node's rule fires before the rules
/// of its predecessors. So when a rule fires, every rule that adds to its
/// node's gradient has fired already.
pub proof fn lemma_rule_fires_before_predecessors(nodes: Seq<Node>, root: usize)
    requires
        well_formed(nodes),
        root < nodes.len(),
    ensures
        forall|i: int, j: int, k: int|
            #![trigger schedule(nodes, root)[j], nodes[schedule(nodes, root)[i].node.id as int].prev[k]]
            0 <= i < schedule(nodes, root).len() && 0 <= j < schedule(nodes, root).len() && 0 <= k
                < nodes[schedule(nodes, root)[i].node.id as int].prev.len() && schedule(
                nodes,
                root,
            )[j].node.id == nodes[schedule(nodes, root)[i].node.id as int].prev[k].id ==> i < j,
{
    let order = topo_order(nodes, root);
    let plan = schedule(nodes, root);
    crate::topo::lemma_topo_order(nodes, root);
    lemma_steps_back(nodes, order);
    assert forall|i: int, j: int, k: int|
        #![trigger plan[j], nodes[plan[i].node.id as int].prev[k]]
        0 <= i < plan.len() && 0 <= j < plan.len() && 0 <= k < nodes[plan[i].node.id as int].prev.len()
            && plan[j].node.id == nodes[plan[i].node.id as int].prev[k].id implies i < j by {
        let m = plan[i].node;
        let p = plan[j].node;
        assert(order.contains(m));
        let at_m = order.index_of(m);
        assert(order[at_m] == m);
        assert(order.take(at_m).contains(Value { id: nodes[m.id as int].prev[k].id }));
        let at_p = order.take(at_m).index_of(p);
        assert(order[at_p] == p);
        assert(at_p < at_m);
        if j < i {
            assert(order[at_p] == plan[j].node && order[at_m] == plan[i].node);
        }
    }
}

/// The schedule of a pass from a node that carries a rule begins with that
/// node's own rule.
pub proof fn lemma_root_fires_first(nodes: Seq<Node>, root: usize)
    requires
        root < nodes.len(),
        nodes[root as int].backward is Some,
    ensures
        schedule(nodes, root).len() > 0,
        schedule(nodes, root)[0] == (Step {
            node: Value { id: root },
            rule: nodes[root as int].backward->Some_0,
        }),
{
    lemma_walk_ends_in_node(nodes, root, 0, Seq::empty());
}

/// A walk ends in the node at which it started.
pub proof fn lemma_walk_ends_in_node(nodes: Seq<Node>, n: usize, k: nat, acc: Seq<Value>)
    ensures
        crate::topo::walk(nodes, n, k, acc).len() > 0,
        crate::topo::walk(nodes, n, k, acc).last() == (Value { id: n }),
    decreases n, (if n < nodes.len() { nodes[n as int].prev.len() - k } else { 0 }),
{
    if n >= nodes.len() || k >= nodes[n as int].prev.len() {
    } else {
        let p = nodes[n as int].prev[k as int].id;
        let seen = if p < n && !acc.contains(Value { id: p }) {
            crate::topo::walk(nodes, p, 0, acc)
        } else {
            acc
        };
        lemma_walk_ends_in_node(nodes, n, k + 1, seen);
    }
}

/// A backward pass from a leaf fires no rule: it only seeds the leaf.
pub proof fn lemma_leaf_fires_nothing(nodes: Seq<Node>, root: usize)
    requires
        well_formed(nodes),
        root < nodes.len(),
        nodes[root as int].backward is None,
    ensures
        schedule(nodes, root) == Seq::<Step>::empty(),
{
    assert(nodes[root as int].fits(root as int));
    let order = topo_order(nodes, root);
    assert(order == Seq::<Value>::empty().push(Value { id: root }));
    assert(order.drop_last() =~= Seq::<Value>::empty());
    assert(steps_back(nodes, order.drop_last()) == Seq::<Step>::empty());
}

/// Two graphs have the same shape where they have the same nodes with the
/// same predecessors and rules. Values, gradients, labels and names are
/// free.
pub open spec fn same_shape(a: Seq<Node>, b: Seq<Node>) -> bool {
    &&& a.len() == b.len()
    &&& forall|i: int|
        0 <= i < a.len() ==> (#[trigger] a[i]).prev == b[i].prev && a[i].backward == b[i].backward
}

/// The topological order depends on the shape of the graph alone.
pub proof fn lemma_walk_by_shape(a: Seq<Node>, b: Seq<Node>, n: usize, k: nat, acc: Seq<Value>)
    requires
        same_shape(a, b),
    ensures
        crate::topo::walk(a, n, k, acc) == crate::topo::walk(b, n, k, acc),
    decreases n, (if n < a.len() { a[n as int].prev.len() - k } else { 0 }),
{
    if n >= a.len() || k >= a[n as int].prev.len() {
        if n < a.len() {
            assert(a[n as int].prev == b[n as int].prev);
        }
    } else {
        assert(a[n as int].prev == b[n as int].prev);
        let p = a[n as int].prev[k as int].id;
        let seen = if p < n && !acc.contains(Value { id: p }) {
            lemma_walk_by_shape(a, b, p, 0, acc);
            crate::topo::walk(a, p, 0, acc)
        } else {
            acc
        };
        lemma_walk_by_shape(a, b, n, k + 1, seen);
    }
}

/// The steps kept of an order depend on the shape of the graph alone.
pub proof fn lemma_steps_by_shape(a: Seq<Node>, b: Seq<Node>, order: Seq<Value>)
    requires
        same_shape(a, b),
    ensures
        steps_back(a, order) == steps_back(b, order),
    decreases order.len(),
{
    if order.len() > 0 {
        let v = order.last();
        if v.id < a.len() {
            assert(a[v.id as int].backward == b[v.id as int].backward);
        }
        lemma_steps_by_shape(a, b, order.drop_last());
    }
}

/// The schedule of a backward pass depends on the shape of the graph
/// alone: whatever values and gradients the nodes hold, the same rules fire
/// in the same order.
pub proof fn lemma_schedule_by_shape(a: Seq<Node>, b: Seq<Node>, root: usize)
    requires
        same_shape(a, b),
    ensures
        schedule(a, root) == schedule(b, root),
{
    lemma_walk_by_shape(a, b, root, 0, Seq::empty());
    lemma_steps_by_shape(a, b, topo_order(a, root));
}

/// A second backward pass from the same root fires the same rules in the
/// same order as the first: the seeding changes no shape, and neither does
/// any gradient that the first pass wrote. With no reset in between, the
/// second pass therefore adds to the gradients that the first one left.
pub proof fn lemma_second_pass_repeats_first(nodes: Seq<Node>, after: Seq<Node>, root: usize)
    requires
        root < nodes.len(),
        same_shape(seeded(nodes, root), after),
    ensures
        schedule(after, root) == schedule(nodes, root),
{
    assert(same_shape(nodes, seeded(nodes, root)));
    lemma_schedule_by_shape(nodes, seeded(nodes, root), root);
    lemma_schedule_by_shape(seeded(nodes, root), after, root);
}

impl Value {
    /// Starts a backward pass from this node: sets its gradient to one and
    /// returns the pass, which stands at the start of the schedule. No other
    /// gradient is touched, and none is reset: what an earlier pass left in
    /// a gradient is what this pass adds to.
    pub fn backward(&self, g: &mut Graph) -> (pass: Pass)
        requires
            old(g).wf(),
            old(g).has(*self),
        ensures
            final(g)@ == seeded(old(g)@, self.id),
            final(g).wf(),
            pass@ == (Cursor { plan: schedule(old(g)@, self.id), step: 0, slot: 0 }),
            pass@.fits(final(g)@),
    {
        let order = self.topo_order(g);
        self.set_grad(g, ONE);
        let mut plan: Vec<Step> = Vec::new();
        let mut i: usize = order.len();
        assert(order@.take(i as int) =~= order@);
        while i > 0
            invariant
                i <= order@.len(),
                predecessors_first(old(g)@, order@),
                g@ == seeded(old(g)@, self.id),
                old(g).has(*self),
                plan@ + steps_back(old(g)@, order@.take(i as int)) == steps_back(old(g)@, order@),
            decreases i,
        {
            let ghost done = plan@;
            let ghost front = order@.take(i as int);
            i -= 1;
            let v = order[i];
            assert(front.last() == v && front.drop_last() =~= order@.take(i as int));
            assert(v.id < old(g)@.len());
            match g.inner(&v).backward {
                Some(rule) => {
                    plan.push(Step { node: v, rule });
                    assert(plan@ + steps_back(old(g)@, order@.take(i as int)) =~= done + steps_back(
                        old(g)@,
                        front,
                    ));
                },
                None => {},
            }
        }
        assert(plan@ + Seq::<Step>::empty() =~= plan@);
        proof {
            lemma_every_rule_fires_once(old(g)@, self.id);
        }
        Pass::start(plan)
    }
}

} // verus!
