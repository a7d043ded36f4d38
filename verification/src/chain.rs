//! The chain rule as a backward pass keeps it, for every graph and every
//! arithmetic.
//!
//! After a pass the gradient of a node is what its consumers made of it:
//! starting from the gradient that the node held when the pass began, each
//! rule below the root that fires has added one share for each slot in which
//! the node is its operand, and each share is made of the final gradient of
//! the rule's node and the factor of the slot.

use vstd::prelude::*;
use crate::backward::{lemma_every_rule_fires_once, same_shape, schedule, seeded, Step, Update};
use crate::laws::{lemma_gradient_is_complete_when_handed_on, lemma_run_changes_gradients_only};
use crate::pass::{
    backward_with, committed, due, lemma_changes_stay_among_operands, request_of, run, scale_of,
    Cursor, Request,
};
use crate::value::{well_formed, Node, Rule};

verus! {

/// The request of `update` when its rule's node holds the gradient
/// `upstream` and its target holds `gradient`. Values are read from `base`.
pub open spec fn slot_request(base: Seq<Node>, update: Update, upstream: u64, gradient: u64) -> Request {
    Request {
        target: update.target,
        gradient,
        upstream,
        scale: scale_of(base, update.factor),
        subtract: update.subtract,
    }
}

/// What the changes of `rule` from slot `t` on make of the gradient
/// `gradient` of node `x`: every change that is aimed at `x` is answered by
/// `kernel`, each on top of the one before; the others leave `x` alone.
pub open spec fn share(
    kernel: spec_fn(Request) -> u64,
    base: Seq<Node>,
    rule: Rule,
    upstream: u64,
    x: int,
    gradient: u64,
    t: nat,
) -> u64
    decreases rule.spec_updates().len() - t,
{
    if t >= rule.spec_updates().len() {
        gradient
    } else {
        let update = rule.spec_updates()[t as int];
        let next = if update.target.id == x {
            kernel(slot_request(base, update, upstream, gradient))
        } else {
            gradient
        };
        share(kernel, base, rule, upstream, x, next, t + 1)
    }
}

/// What one step makes of the gradient `gradient` of node `x` when the
/// step's node holds the gradient `upstream`: the shares of the rule where
/// the rule fires, and nothing where it holds back.
pub open spec fn handed_on(
    kernel: spec_fn(Request) -> u64,
    base: Seq<Node>,
    rule: Rule,
    upstream: u64,
    x: int,
    gradient: u64,
) -> u64 {
    if rule.spec_fires(upstream) {
        share(kernel, base, rule, upstream, x, gradient, 0)
    } else {
        gradient
    }
}

/// The gradient that node `x` has gathered from the first `upto` steps of
/// `plan`: it starts as the gradient that `x` holds in `base`, and each step
/// hands on to it with the gradient that the step's node holds in `after`.
pub open spec fn gathered(
    kernel: spec_fn(Request) -> u64,
    base: Seq<Node>,
    after: Seq<Node>,
    plan: Seq<Step>,
    x: int,
    upto: nat,
) -> u64
    decreases upto,
{
    if upto == 0 {
        base[x].grad
    } else {
        let step = plan[upto - 1];
        handed_on(
            kernel,
            base,
            step.rule,
            after[step.node.id as int].grad,
            x,
            gathered(kernel, base, after, plan, x, (upto - 1) as nat),
        )
    }
}

/// The graph when step `s` of a pass begins: `start` after the steps before
/// `s` were carried out, one after the other.
pub open spec fn state_at(
    kernel: spec_fn(Request) -> u64,
    start: Seq<Node>,
    plan: Seq<Step>,
    s: nat,
) -> Seq<Node>
    decreases s,
{
    if s == 0 {
        start
    } else {
        run(kernel, state_at(kernel, start, plan, (s - 1) as nat), seq![plan[s - 1]], 0, 0)
    }
}

/// The rest of a pass is the rest of the step under way and then the steps
/// behind it.
pub proof fn lemma_step_then_rest(
    kernel: spec_fn(Request) -> u64,
    nodes: Seq<Node>,
    plan: Seq<Step>,
    s: nat,
    t: nat,
)
    requires
        s < plan.len(),
    ensures
        run(kernel, nodes, plan, s, t) == run(
            kernel,
            run(kernel, nodes, seq![plan[s as int]], 0, t),
            plan,
            s + 1,
            0,
        ),
    decreases plan[s as int].rule.spec_updates().len() - t,
{
    let step = plan[s as int];
    let alone = seq![step];
    if due(nodes, plan, s, t) {
        let update = step.rule.spec_updates()[t as int];
        let next = committed(nodes, update.target, kernel(request_of(nodes, step, update)));
        assert(due(nodes, alone, 0, t));
        assert(run(kernel, nodes, plan, s, t) == run(kernel, next, plan, s, t + 1));
        assert(run(kernel, nodes, alone, 0, t) == run(kernel, next, alone, 0, t + 1));
        lemma_step_then_rest(kernel, next, plan, s, t + 1);
    } else {
        assert(!due(nodes, alone, 0, t));
        assert(run(kernel, nodes, alone, 0, t) == run(kernel, nodes, alone, 1, 0));
    }
}

/// A pass is its first `s` steps and then the rest.
pub proof fn lemma_pass_by_steps(
    kernel: spec_fn(Request) -> u64,
    start: Seq<Node>,
    plan: Seq<Step>,
    s: nat,
)
    requires
        s <= plan.len(),
    ensures
        run(kernel, start, plan, 0, 0) == run(kernel, state_at(kernel, start, plan, s), plan, s, 0),
    decreases s,
{
    if s > 0 {
        lemma_pass_by_steps(kernel, start, plan, (s - 1) as nat);
        lemma_step_then_rest(kernel, state_at(kernel, start, plan, (s - 1) as nat), plan, (s - 1) as nat, 0);
    }
}

/// Every state of a pass is the graph at its start with other gradients.
pub proof fn lemma_states_differ_in_gradients(
    kernel: spec_fn(Request) -> u64,
    start: Seq<Node>,
    plan: Seq<Step>,
    s: nat,
)
    requires
        well_formed(start),
        (Cursor { plan, step: 0, slot: 0 }).fits(start),
        s <= plan.len(),
    ensures
        state_at(kernel, start, plan, s).len() == start.len(),
        well_formed(state_at(kernel, start, plan, s)),
        forall|i: int|
            0 <= i < start.len() ==> #[trigger] state_at(kernel, start, plan, s)[i] == (Node {
                grad: state_at(kernel, start, plan, s)[i].grad,
                ..start[i]
            }),
    decreases s,
{
    if s > 0 {
        let before = state_at(kernel, start, plan, (s - 1) as nat);
        let alone = seq![plan[s - 1]];
        lemma_states_differ_in_gradients(kernel, start, plan, (s - 1) as nat);
        assert((Cursor { plan: alone, step: 0, slot: 0 }).fits(before)) by {
            assert(before[plan[s - 1].node.id as int].backward == start[plan[s - 1].node.id as int].backward);
        }
        lemma_run_changes_gradients_only(kernel, before, alone, 0, 0);
        let now = state_at(kernel, start, plan, s);
        assert forall|i: int| 0 <= i < start.len() implies #[trigger] now[i] == (Node {
            grad: now[i].grad,
            ..start[i]
        }) by {
            assert(now[i] == (Node { grad: now[i].grad, ..before[i] }));
            assert(before[i] == (Node { grad: before[i].grad, ..start[i] }));
        }
    }
}

/// What the rest of one step does to every gradient, when the step stands
/// alone: where the rule fires, each node gets the shares of the slots still
/// to come; the step's own node is none of their targets.
pub proof fn lemma_step_hands_on(
    kernel: spec_fn(Request) -> u64,
    base: Seq<Node>,
    nodes: Seq<Node>,
    step: Step,
    t: nat,
)
    requires
        well_formed(nodes),
        step.node.id < nodes.len(),
        nodes[step.node.id as int].backward == Some(step.rule),
        base.len() == nodes.len(),
        forall|i: int| 0 <= i < nodes.len() ==> (#[trigger] nodes[i]).data == base[i].data,
    ensures
        run(kernel, nodes, seq![step], 0, t).len() == nodes.len(),
        forall|x: int|
            0 <= x < nodes.len() ==> (#[trigger] run(kernel, nodes, seq![step], 0, t)[x]).grad == if step.rule.spec_fires(
                nodes[step.node.id as int].grad,
            ) {
                share(kernel, base, step.rule, nodes[step.node.id as int].grad, x, nodes[x].grad, t)
            } else {
                nodes[x].grad
            },
    decreases step.rule.spec_updates().len() - t,
{
    let alone = seq![step];
    let upstream = nodes[step.node.id as int].grad;
    assert(nodes[step.node.id as int].fits(step.node.id as int));
    lemma_changes_stay_among_operands(step.rule, step.node.id as int);
    if due(nodes, alone, 0, t) {
        let update = step.rule.spec_updates()[t as int];
        let next = committed(nodes, update.target, kernel(request_of(nodes, step, update)));
        assert(run(kernel, nodes, alone, 0, t) == run(kernel, next, alone, 0, t + 1));
        assert forall|i: int| 0 <= i < next.len() implies (#[trigger] next[i]).fits(i) by {
            assert(nodes[i].fits(i));
        }
        assert(scale_of(nodes, update.factor) == scale_of(base, update.factor)) by {
            match update.factor {
                crate::backward::Factor::One => {},
                crate::backward::Factor::ValueOf(p) => {
                    assert(nodes[p.id as int].data == base[p.id as int].data);
                },
                crate::backward::Factor::PowerSlope { base: b, exponent } => {
                    assert(nodes[b.id as int].data == base[b.id as int].data);
                    assert(nodes[exponent.id as int].data == base[exponent.id as int].data);
                },
                crate::backward::Factor::PowerLog { base: b, exponent } => {
                    assert(nodes[b.id as int].data == base[b.id as int].data);
                    assert(nodes[exponent.id as int].data == base[exponent.id as int].data);
                },
            }
        }
        assert(request_of(nodes, step, update) == slot_request(
            base,
            update,
            upstream,
            nodes[update.target.id as int].grad,
        ));
        assert forall|i: int| 0 <= i < next.len() implies (#[trigger] next[i]).data == base[i].data by {
            assert(nodes[i].data == base[i].data);
        }
        lemma_step_hands_on(kernel, base, next, step, t + 1);
        assert(next[step.node.id as int].grad == upstream);
        assert forall|x: int| 0 <= x < nodes.len() implies (#[trigger] run(kernel, nodes, alone, 0, t)[x]).grad
            == share(kernel, base, step.rule, upstream, x, nodes[x].grad, t) by {
            assert(run(kernel, next, alone, 0, t + 1)[x].grad == share(
                kernel,
                base,
                step.rule,
                upstream,
                x,
                next[x].grad,
                t + 1,
            ));
        }
    } else {
        assert(run(kernel, nodes, alone, 0, t) == run(kernel, nodes, alone, 1, 0));
        assert(run(kernel, nodes, alone, 1, 0) == nodes);
    }
}

/// The gradients at the start of step `s` are those gathered from the steps
/// before it.
pub proof fn lemma_gathered_so_far(
    kernel: spec_fn(Request) -> u64,
    nodes: Seq<Node>,
    root: usize,
    s: nat,
)
    requires
        well_formed(nodes),
        root < nodes.len(),
        s <= schedule(nodes, root).len(),
    ensures
        forall|x: int|
            0 <= x < nodes.len() ==> (#[trigger] state_at(
                kernel,
                seeded(nodes, root),
                schedule(nodes, root),
                s,
            )[x]).grad == gathered(
                kernel,
                seeded(nodes, root),
                backward_with(kernel, nodes, root),
                schedule(nodes, root),
                x,
                s,
            ),
    decreases s,
{
    let start = seeded(nodes, root);
    let plan = schedule(nodes, root);
    let after = backward_with(kernel, nodes, root);
    if s > 0 {
        let before = state_at(kernel, start, plan, (s - 1) as nat);
        let step = plan[s - 1];
        lemma_gathered_so_far(kernel, nodes, root, (s - 1) as nat);
        lemma_every_rule_fires_once(nodes, root);
        assert forall|i: int| 0 <= i < start.len() implies (#[trigger] start[i]).fits(i) by {
            assert(nodes[i].fits(i));
        }
        assert((Cursor { plan, step: 0, slot: 0 }).fits(start));
        lemma_states_differ_in_gradients(kernel, start, plan, (s - 1) as nat);
        assert(same_shape(nodes, before)) by {
            assert forall|i: int| 0 <= i < nodes.len() implies (#[trigger] nodes[i]).prev == before[i].prev
                && nodes[i].backward == before[i].backward by {
                assert(before[i] == (Node { grad: before[i].grad, ..start[i] }));
            }
        }
        lemma_gradient_is_complete_when_handed_on(kernel, nodes, root, before, (s - 1) as nat);
        lemma_pass_by_steps(kernel, start, plan, (s - 1) as nat);
        assert(after[step.node.id as int].grad == before[step.node.id as int].grad);
        assert(before[step.node.id as int].backward == Some(step.rule));
        assert forall|i: int| 0 <= i < before.len() implies (#[trigger] before[i]).data == start[i].data by {
            assert(before[i] == (Node { grad: before[i].grad, ..start[i] }));
        }
        lemma_step_hands_on(kernel, start, before, step, 0);
    }
}

/// The chain rule. After a backward pass the gradient of every node is the
/// gradient that it held at the start, the root's being the seed, with the
/// share of each rule of the schedule added in the order of the schedule;
/// and the share of a rule is made of the gradient that the rule's node
/// holds when the pass is over.
pub proof fn lemma_gradients_are_gathered(kernel: spec_fn(Request) -> u64, nodes: Seq<Node>, root: usize)
    requires
        well_formed(nodes),
        root < nodes.len(),
    ensures
        forall|x: int|
            0 <= x < nodes.len() ==> (#[trigger] backward_with(kernel, nodes, root)[x]).grad == gathered(
                kernel,
                seeded(nodes, root),
                backward_with(kernel, nodes, root),
                schedule(nodes, root),
                x,
                schedule(nodes, root).len(),
            ),
{
    let plan = schedule(nodes, root);
    lemma_gathered_so_far(kernel, nodes, root, plan.len());
    lemma_pass_by_steps(kernel, seeded(nodes, root), plan, plan.len());
}

} // verus!
