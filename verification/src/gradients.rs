//! What a backward pass leaves in the operands of its root, operation by
//! operation, for every arithmetic.
//!
//! The arithmetic is a function `kernel` from requests to new gradients.
//! Each law says which requests the pass makes of it, and so which
//! gradient it leaves: for the sum, `kernel` is asked for `gradient + 1`
//! once for each operand.

use vstd::prelude::*;
use crate::backward::{
    lemma_every_rule_fires_once, lemma_root_fires_first, lemma_schedule_by_shape, same_shape,
    schedule, seeded, Step,
};
use crate::double::{non_negative, NEG_ONE, ONE};
use crate::laws::{
    is_target_from, lemma_one_change_per_slot, lemma_pass_stays_below_root,
    lemma_reaches_predecessor, lemma_recorded_is_well_formed, lemma_run_by_numbers,
    lemma_run_touches_targets_only, same_numbers,
};
use crate::math_cal::{power_recorded, quotient_recorded};
use crate::pass::{
    backward_with, committed, due, lemma_changes_stay_among_operands, request_of, run, scale_of,
    Cursor, Request, Scale,
};
use crate::topo::{lemma_prev_older, lemma_reaches_older, reaches};
use crate::value::{well_formed, Node, Prev, Rule};

verus! {

/// The request that change `t` of `rule` makes when its node holds the
/// seed and its target holds `gradient`.
pub open spec fn seeded_request(nodes: Seq<Node>, rule: Rule, t: int, gradient: u64) -> Request {
    Request {
        target: rule.spec_updates()[t].target,
        gradient,
        upstream: ONE,
        scale: scale_of(nodes, rule.spec_updates()[t].factor),
        subtract: rule.spec_updates()[t].subtract,
    }
}

/// One step of a rule with two operand slots makes two changes, the second
/// on the graph that the first one left, whatever gradient its node holds.
pub proof fn lemma_two_slot_step(
    kernel: spec_fn(Request) -> u64,
    nodes: Seq<Node>,
    plan: Seq<Step>,
    i: nat,
)
    requires
        i < plan.len(),
        !(plan[i as int].rule is Relu),
    ensures
        ({
            let step = plan[i as int];
            let first = step.rule.spec_updates()[0];
            let second = step.rule.spec_updates()[1];
            let between = committed(nodes, first.target, kernel(request_of(nodes, step, first)));
            run(kernel, nodes, plan, i, 0) == run(
                kernel,
                committed(between, second.target, kernel(request_of(between, step, second))),
                plan,
                i + 1,
                0,
            )
        }),
{
    let step = plan[i as int];
    let first = step.rule.spec_updates()[0];
    let second = step.rule.spec_updates()[1];
    let between = committed(nodes, first.target, kernel(request_of(nodes, step, first)));
    let last = committed(between, second.target, kernel(request_of(between, step, second)));
    assert(step.rule.spec_updates().len() == 2);
    assert(due(nodes, plan, i, 0));
    assert(run(kernel, nodes, plan, i, 0) == run(kernel, between, plan, i, 1));
    assert(due(between, plan, i, 1));
    assert(run(kernel, between, plan, i, 1) == run(kernel, last, plan, i, 2));
    assert(!due(last, plan, i, 2));
    assert(run(kernel, last, plan, i, 2) == run(kernel, last, plan, i + 1, 0));
}

/// The rectifier's gate. The step of a rectifier changes the gradient of
/// the input where the gradient that the rectifier's node holds is greater
/// than or equal to zero, and changes nothing where it is not. The value of
/// the input has no part in it.
pub proof fn lemma_rectifier_step(
    kernel: spec_fn(Request) -> u64,
    nodes: Seq<Node>,
    plan: Seq<Step>,
    i: nat,
)
    requires
        i < plan.len(),
        plan[i as int].rule is Relu,
    ensures
        ({
            let input = plan[i as int].rule->Relu_input;
            let upstream = nodes[plan[i as int].node.id as int].grad;
            run(kernel, nodes, plan, i, 0) == run(
                kernel,
                if non_negative(upstream) {
                    committed(
                        nodes,
                        input,
                        kernel(
                            Request {
                                target: input,
                                gradient: nodes[input.id as int].grad,
                                upstream,
                                scale: Scale::One,
                                subtract: false,
                            },
                        ),
                    )
                } else {
                    nodes
                },
                plan,
                i + 1,
                0,
            )
        }),
{
    let step = plan[i as int];
    let update = step.rule.spec_updates()[0];
    assert(step.rule.spec_updates().len() == 1);
    if non_negative(nodes[step.node.id as int].grad) {
        let last = committed(nodes, update.target, kernel(request_of(nodes, step, update)));
        assert(due(nodes, plan, i, 0));
        assert(run(kernel, nodes, plan, i, 0) == run(kernel, last, plan, i, 1));
        assert(!due(last, plan, i, 1));
        assert(run(kernel, last, plan, i, 1) == run(kernel, last, plan, i + 1, 0));
    } else {
        assert(!due(nodes, plan, i, 0));
    }
}

/// Reachability depends on the shape of the graph alone.
pub proof fn lemma_reaches_by_shape(a: Seq<Node>, b: Seq<Node>, from: usize, to: usize)
    requires
        same_shape(a, b),
    ensures
        reaches(a, from, to) == reaches(b, from, to),
    decreases from,
{
    if from != to && from < a.len() {
        assert(a[from as int].prev == b[from as int].prev);
        if reaches(a, from, to) {
            let k = choose|k: int|
                0 <= k < a[from as int].prev.len() && (#[trigger] a[from as int].prev[k]).id < from
                    && reaches(a, a[from as int].prev[k].id, to);
            lemma_reaches_by_shape(a, b, a[from as int].prev[k].id, to);
            assert(b[from as int].prev[k].id < from && reaches(b, b[from as int].prev[k].id, to));
        }
        if reaches(b, from, to) {
            let k = choose|k: int|
                0 <= k < b[from as int].prev.len() && (#[trigger] b[from as int].prev[k]).id < from
                    && reaches(b, b[from as int].prev[k].id, to);
            lemma_reaches_by_shape(a, b, b[from as int].prev[k].id, to);
            assert(a[from as int].prev[k].id < from && reaches(a, a[from as int].prev[k].id, to));
        }
    }
}

/// A predecessor of the root that no other predecessor of the root reaches
/// is changed by the root's own rule only: no later step of the pass is
/// aimed at it.
pub proof fn lemma_no_later_change(nodes: Seq<Node>, out: usize, k: int)
    requires
        well_formed(nodes),
        out < nodes.len(),
        0 <= k < nodes[out as int].prev.len(),
        forall|j: int|
            0 <= j < nodes[out as int].prev.len() && j != k ==> !reaches(
                nodes,
                (#[trigger] nodes[out as int].prev[j]).id,
                nodes[out as int].prev[k].id,
            ),
    ensures
        !is_target_from(schedule(nodes, out), 1, nodes[out as int].prev[k].id as int),
{
    let plan = schedule(nodes, out);
    let x = nodes[out as int].prev[k].id;
    assert(nodes[out as int].fits(out as int));
    lemma_root_fires_first(nodes, out);
    lemma_every_rule_fires_once(nodes, out);
    if is_target_from(plan, 1, x as int) {
        let (s, t) = choose|s: int, t: int|
            1 <= s < plan.len() && 0 <= t < plan[s].rule.spec_updates().len()
                && (#[trigger] plan[s].rule.spec_updates()[t]).target.id == x;
        let m = plan[s].node.id;
        let target = plan[s].rule.spec_updates()[t].target;
        assert(plan[0].node != plan[s].node);
        assert(reaches(nodes, out, m));
        let j = choose|j: int|
            0 <= j < nodes[out as int].prev.len() && (#[trigger] nodes[out as int].prev[j]).id < out
                && reaches(nodes, nodes[out as int].prev[j].id, m);
        assert(nodes[m as int].fits(m as int));
        lemma_one_change_per_slot(plan[s].rule);
        assert(plan[s].rule.operands()[t] == target);
        assert(plan[s].rule.operands().contains(target));
        assert(plan[s].rule.prev().contains(target));
        let at = plan[s].rule.prev().index_of(target);
        assert(nodes[m as int].prev[at].id == x);
        lemma_prev_older(nodes, m, at);
        if j == k {
            lemma_reaches_older(nodes, x, m);
        } else {
            lemma_reaches_predecessor(nodes, nodes[out as int].prev[j].id, m, at);
        }
    }
}

/// One operand of two. After a pass from a node whose rule has two distinct
/// operands, an operand that the other operand does not reach has received
/// one change: its gradient is what the arithmetic makes of the gradient
/// that it held before the pass, the seed, and the factor of its slot.
pub proof fn lemma_operand_gradient(kernel: spec_fn(Request) -> u64, nodes: Seq<Node>, out: usize, t: int)
    requires
        well_formed(nodes),
        out < nodes.len(),
        nodes[out as int].backward is Some,
        !(nodes[out as int].backward->Some_0 is Relu),
        0 <= t < 2,
        nodes[out as int].backward->Some_0.operands()[0] != nodes[out as int].backward->Some_0.operands()[1],
        !reaches(
            nodes,
            nodes[out as int].backward->Some_0.operands()[1 - t].id,
            nodes[out as int].backward->Some_0.operands()[t].id,
        ),
    ensures
        ({
            let rule = nodes[out as int].backward->Some_0;
            let x = rule.operands()[t].id as int;
            backward_with(kernel, nodes, out)[x] == (Node {
                grad: kernel(seeded_request(nodes, rule, t, nodes[x].grad)),
                ..nodes[x]
            })
        }),
{
    let rule = nodes[out as int].backward->Some_0;
    let plan = schedule(nodes, out);
    let step = Step { node: crate::value::Value { id: out }, rule };
    let x = rule.operands()[t];
    let start = seeded(nodes, out);
    let first = rule.spec_updates()[0];
    let second = rule.spec_updates()[1];
    let between = committed(start, first.target, kernel(request_of(start, step, first)));
    let last = committed(between, second.target, kernel(request_of(between, step, second)));
    assert(nodes[out as int].fits(out as int));
    assert(rule.operands()[0].id < out && rule.operands()[1].id < out);
    assert(first.target == rule.operands()[0] && second.target == rule.operands()[1]);
    lemma_changes_stay_among_operands(rule, out as int);
    assert(nodes[out as int].prev[t] == x);
    assert forall|j: int| 0 <= j < nodes[out as int].prev.len() && j != t implies !reaches(
        nodes,
        (#[trigger] nodes[out as int].prev[j]).id,
        nodes[out as int].prev[t].id,
    ) by {
        assert(nodes[out as int].prev[j] == rule.operands()[1 - t]);
    }
    lemma_no_later_change(nodes, out, t);
    lemma_root_fires_first(nodes, out);
    lemma_every_rule_fires_once(nodes, out);
    lemma_two_slot_step(kernel, start, plan, 0);
    assert forall|i: int| 0 <= i < last.len() implies (#[trigger] last[i]).fits(i) by {
        assert(nodes[i].fits(i));
    }
    assert((Cursor { plan, step: 1, slot: 0 }).fits(last));
    lemma_run_touches_targets_only(kernel, last, plan, 1, 0);
    assert(backward_with(kernel, nodes, out)[x.id as int] == last[x.id as int]);
    assert(scale_of(start, first.factor) == scale_of(nodes, first.factor));
    assert(scale_of(between, second.factor) == scale_of(nodes, second.factor));
}

/// One operand in both slots. After a pass from a node whose rule has the
/// same operand in both slots, the operand has received two changes, one
/// for each slot, the second on top of the first.
pub proof fn lemma_doubled_operand_gradient(kernel: spec_fn(Request) -> u64, nodes: Seq<Node>, out: usize)
    requires
        well_formed(nodes),
        out < nodes.len(),
        nodes[out as int].backward is Some,
        !(nodes[out as int].backward->Some_0 is Relu),
        nodes[out as int].backward->Some_0.operands()[0] == nodes[out as int].backward->Some_0.operands()[1],
    ensures
        ({
            let rule = nodes[out as int].backward->Some_0;
            let x = rule.operands()[0].id as int;
            let once = kernel(seeded_request(nodes, rule, 0, nodes[x].grad));
            &&& nodes[out as int].prev == seq![rule.operands()[0]]
            &&& backward_with(kernel, nodes, out)[x] == (Node {
                grad: kernel(seeded_request(nodes, rule, 1, once)),
                ..nodes[x]
            })
        }),
{
    let rule = nodes[out as int].backward->Some_0;
    let plan = schedule(nodes, out);
    let step = Step { node: crate::value::Value { id: out }, rule };
    let x = rule.operands()[0];
    let start = seeded(nodes, out);
    let first = rule.spec_updates()[0];
    let second = rule.spec_updates()[1];
    let between = committed(start, first.target, kernel(request_of(start, step, first)));
    let last = committed(between, second.target, kernel(request_of(between, step, second)));
    assert(nodes[out as int].fits(out as int));
    assert(rule.operands()[0].id < out);
    assert(first.target == x && second.target == x);
    lemma_changes_stay_among_operands(rule, out as int);
    assert(nodes[out as int].prev =~= seq![x]);
    lemma_no_later_change(nodes, out, 0);
    lemma_root_fires_first(nodes, out);
    lemma_every_rule_fires_once(nodes, out);
    lemma_two_slot_step(kernel, start, plan, 0);
    assert forall|i: int| 0 <= i < last.len() implies (#[trigger] last[i]).fits(i) by {
        assert(nodes[i].fits(i));
    }
    assert((Cursor { plan, step: 1, slot: 0 }).fits(last));
    lemma_run_touches_targets_only(kernel, last, plan, 1, 0);
    assert(backward_with(kernel, nodes, out)[x.id as int] == last[x.id as int]);
    assert(scale_of(start, first.factor) == scale_of(nodes, first.factor));
    assert(scale_of(between, second.factor) == scale_of(nodes, second.factor));
}

/// Rectifier. After a pass from `out = relu(a)` the gradient of `a` is what
/// the arithmetic makes of `gradient + 1`, whatever value `a` holds: the
/// gate looks at the gradient of `out`, which is the seed.
pub proof fn lemma_rectifier_gradient(kernel: spec_fn(Request) -> u64, nodes: Seq<Node>, out: usize)
    requires
        well_formed(nodes),
        out < nodes.len(),
        nodes[out as int].backward is Some,
        nodes[out as int].backward->Some_0 is Relu,
    ensures
        ({
            let a = nodes[out as int].backward->Some_0->Relu_input;
            backward_with(kernel, nodes, out)[a.id as int] == (Node {
                grad: kernel(
                    Request {
                        target: a,
                        gradient: nodes[a.id as int].grad,
                        upstream: ONE,
                        scale: Scale::One,
                        subtract: false,
                    },
                ),
                ..nodes[a.id as int]
            })
        }),
{
    let rule = nodes[out as int].backward->Some_0;
    let plan = schedule(nodes, out);
    let a = rule->Relu_input;
    let start = seeded(nodes, out);
    let last = committed(
        start,
        a,
        kernel(
            Request {
                target: a,
                gradient: start[a.id as int].grad,
                upstream: ONE,
                scale: Scale::One,
                subtract: false,
            },
        ),
    );
    assert(nodes[out as int].fits(out as int));
    assert(rule.operands()[0].id < out);
    assert(nodes[out as int].prev =~= seq![a]);
    lemma_no_later_change(nodes, out, 0);
    lemma_root_fires_first(nodes, out);
    lemma_every_rule_fires_once(nodes, out);
    lemma_rectifier_step(kernel, start, plan, 0);
    assert(non_negative(ONE));
    assert forall|i: int| 0 <= i < last.len() implies (#[trigger] last[i]).fits(i) by {
        assert(nodes[i].fits(i));
    }
    assert((Cursor { plan, step: 1, slot: 0 }).fits(last));
    lemma_run_touches_targets_only(kernel, last, plan, 1, 0);
    assert(backward_with(kernel, nodes, out)[a.id as int] == last[a.id as int]);
}

/// Sum. After a pass from `out = a + b` with `a` and `b` distinct, the
/// gradient of `out` is one, and the gradient of `a` is what the arithmetic
/// makes of `gradient + 1`, from the gradient that `a` held before the
/// pass, unless `b` is built from `a`. The same holds of `b`.
pub proof fn lemma_sum_gradients(kernel: spec_fn(Request) -> u64, nodes: Seq<Node>, out: usize)
    requires
        well_formed(nodes),
        out < nodes.len(),
        nodes[out as int].backward is Some,
        nodes[out as int].backward->Some_0 is Add,
        nodes[out as int].backward->Some_0->Add_lhs != nodes[out as int].backward->Some_0->Add_rhs,
    ensures
        ({
            let a = nodes[out as int].backward->Some_0->Add_lhs;
            let b = nodes[out as int].backward->Some_0->Add_rhs;
            let after = backward_with(kernel, nodes, out);
            &&& after[out as int].grad == ONE
            &&& !reaches(nodes, b.id, a.id) ==> after[a.id as int].grad == kernel(
                Request {
                    target: a,
                    gradient: nodes[a.id as int].grad,
                    upstream: ONE,
                    scale: Scale::One,
                    subtract: false,
                },
            )
            &&& !reaches(nodes, a.id, b.id) ==> after[b.id as int].grad == kernel(
                Request {
                    target: b,
                    gradient: nodes[b.id as int].grad,
                    upstream: ONE,
                    scale: Scale::One,
                    subtract: false,
                },
            )
        }),
{
    let rule = nodes[out as int].backward->Some_0;
    let a = rule->Add_lhs;
    let b = rule->Add_rhs;
    assert(rule.operands()[0] == a && rule.operands()[1] == b);
    lemma_pass_stays_below_root(kernel, nodes, out);
    if !reaches(nodes, b.id, a.id) {
        lemma_operand_gradient(kernel, nodes, out, 0);
    }
    if !reaches(nodes, a.id, b.id) {
        lemma_operand_gradient(kernel, nodes, out, 1);
    }
}

/// Product. After a pass from `out = a * b` with `a` and `b` distinct, the
/// gradient of `a` is what the arithmetic makes of `gradient + 1 * b`, for
/// the value that `b` holds and from the gradient that `a` held before the
/// pass, unless `b` is built from `a`. The same holds of `b`, with the
/// value of `a`.
pub proof fn lemma_product_gradients(kernel: spec_fn(Request) -> u64, nodes: Seq<Node>, out: usize)
    requires
        well_formed(nodes),
        out < nodes.len(),
        nodes[out as int].backward is Some,
        nodes[out as int].backward->Some_0 is Mul,
        nodes[out as int].backward->Some_0->Mul_lhs != nodes[out as int].backward->Some_0->Mul_rhs,
    ensures
        ({
            let a = nodes[out as int].backward->Some_0->Mul_lhs;
            let b = nodes[out as int].backward->Some_0->Mul_rhs;
            let after = backward_with(kernel, nodes, out);
            &&& after[out as int].grad == ONE
            &&& !reaches(nodes, b.id, a.id) ==> after[a.id as int].grad == kernel(
                Request {
                    target: a,
                    gradient: nodes[a.id as int].grad,
                    upstream: ONE,
                    scale: Scale::By(nodes[b.id as int].data),
                    subtract: false,
                },
            )
            &&& !reaches(nodes, a.id, b.id) ==> after[b.id as int].grad == kernel(
                Request {
                    target: b,
                    gradient: nodes[b.id as int].grad,
                    upstream: ONE,
                    scale: Scale::By(nodes[a.id as int].data),
                    subtract: false,
                },
            )
        }),
{
    let rule = nodes[out as int].backward->Some_0;
    let a = rule->Mul_lhs;
    let b = rule->Mul_rhs;
    assert(rule.operands()[0] == a && rule.operands()[1] == b);
    lemma_pass_stays_below_root(kernel, nodes, out);
    if !reaches(nodes, b.id, a.id) {
        lemma_operand_gradient(kernel, nodes, out, 0);
    }
    if !reaches(nodes, a.id, b.id) {
        lemma_operand_gradient(kernel, nodes, out, 1);
    }
}

/// Square. After a pass from `out = a * a`, the node `a` stands once in the
/// predecessor list of `out` and has received two changes, one for each
/// operand slot: its gradient is what the arithmetic makes of
/// `(gradient + 1 * a) + 1 * a`.
pub proof fn lemma_square_gradient(kernel: spec_fn(Request) -> u64, nodes: Seq<Node>, out: usize)
    requires
        well_formed(nodes),
        out < nodes.len(),
        nodes[out as int].backward is Some,
        nodes[out as int].backward->Some_0 is Mul,
        nodes[out as int].backward->Some_0->Mul_lhs == nodes[out as int].backward->Some_0->Mul_rhs,
    ensures
        ({
            let a = nodes[out as int].backward->Some_0->Mul_lhs;
            let once = kernel(
                Request {
                    target: a,
                    gradient: nodes[a.id as int].grad,
                    upstream: ONE,
                    scale: Scale::By(nodes[a.id as int].data),
                    subtract: false,
                },
            );
            let after = backward_with(kernel, nodes, out);
            &&& nodes[out as int].prev == seq![a]
            &&& after[out as int].grad == ONE
            &&& after[a.id as int].grad == kernel(
                Request {
                    target: a,
                    gradient: once,
                    upstream: ONE,
                    scale: Scale::By(nodes[a.id as int].data),
                    subtract: false,
                },
            )
        }),
{
    let rule = nodes[out as int].backward->Some_0;
    assert(rule.operands()[0] == rule->Mul_lhs && rule.operands()[1] == rule->Mul_rhs);
    lemma_pass_stays_below_root(kernel, nodes, out);
    lemma_doubled_operand_gradient(kernel, nodes, out);
}

/// Accumulation. A second pass from the same node, with no gradient reset
/// in between, adds to what the first pass left: under the conditions of
/// `lemma_operand_gradient`, the operand's gradient after the second pass is
/// what the arithmetic makes of its gradient after the first pass, the
/// seed, and the same factor. The root is seeded anew and holds one after
/// either pass.
pub proof fn lemma_second_pass_accumulates(
    kernel: spec_fn(Request) -> u64,
    nodes: Seq<Node>,
    out: usize,
    t: int,
)
    requires
        well_formed(nodes),
        out < nodes.len(),
        nodes[out as int].backward is Some,
        !(nodes[out as int].backward->Some_0 is Relu),
        0 <= t < 2,
        nodes[out as int].backward->Some_0.operands()[0] != nodes[out as int].backward->Some_0.operands()[1],
        !reaches(
            nodes,
            nodes[out as int].backward->Some_0.operands()[1 - t].id,
            nodes[out as int].backward->Some_0.operands()[t].id,
        ),
    ensures
        ({
            let rule = nodes[out as int].backward->Some_0;
            let x = rule.operands()[t].id as int;
            let once = backward_with(kernel, nodes, out);
            let twice = backward_with(kernel, once, out);
            &&& once[out as int].grad == ONE
            &&& twice[out as int].grad == ONE
            &&& once[x].grad == kernel(seeded_request(nodes, rule, t, nodes[x].grad))
            &&& twice[x].grad == kernel(seeded_request(nodes, rule, t, once[x].grad))
        }),
{
    let rule = nodes[out as int].backward->Some_0;
    let once = backward_with(kernel, nodes, out);
    assert(nodes[out as int].fits(out as int));
    assert(rule.operands()[0].id < out && rule.operands()[1].id < out);
    lemma_changes_stay_among_operands(rule, out as int);
    lemma_pass_stays_below_root(kernel, nodes, out);
    lemma_operand_gradient(kernel, nodes, out, t);
    assert(same_shape(nodes, once)) by {
        assert forall|i: int| 0 <= i < nodes.len() implies (#[trigger] nodes[i]).prev == once[i].prev
            && nodes[i].backward == once[i].backward by {
            assert(once[i] == (Node { grad: once[i].grad, ..nodes[i] }));
        }
    }
    lemma_reaches_by_shape(nodes, once, rule.operands()[1 - t].id, rule.operands()[t].id);
    assert(once[out as int].backward == nodes[out as int].backward);
    lemma_pass_stays_below_root(kernel, once, out);
    lemma_operand_gradient(kernel, once, out, t);
    let factor = rule.spec_updates()[t].factor;
    assert(factor.below(out as int));
    assert(scale_of(once, factor) == scale_of(nodes, factor)) by {
        match factor {
            crate::backward::Factor::One => {},
            crate::backward::Factor::ValueOf(p) => {
                assert(once[p.id as int].data == nodes[p.id as int].data);
            },
            crate::backward::Factor::PowerSlope { base, exponent } => {
                assert(once[base.id as int].data == nodes[base.id as int].data);
                assert(once[exponent.id as int].data == nodes[exponent.id as int].data);
            },
            crate::backward::Factor::PowerLog { base, exponent } => {
                assert(once[base.id as int].data == nodes[base.id as int].data);
                assert(once[exponent.id as int].data == nodes[exponent.id as int].data);
            },
        }
    }
}

/// Quotient. Dividing `a` by `b` records what raising `b` to the constant
/// minus one and multiplying `a` by the result records: the same nodes with
/// the same values, gradients, rules, predecessors and labels. Only the
/// display name of the constant differs. A backward pass from either result
/// fires the same rules in the same order and, with the same arithmetic,
/// leaves the same gradients.
pub proof fn lemma_quotient_is_product_with_reciprocal(
    kernel: spec_fn(Request) -> u64,
    nodes: Seq<Node>,
    a: usize,
    b: usize,
    inverse: u64,
    quotient: u64,
    out: usize,
)
    requires
        well_formed(nodes),
        a < nodes.len(),
        b < nodes.len(),
        out == nodes.len() + 2,
    ensures
        ({
            let divided = quotient_recorded(nodes, a, b, inverse, quotient);
            let composed = power_recorded(nodes, b, NEG_ONE, inverse).push(
                Node::derived(
                    quotient,
                    (Rule::Mul { lhs: Prev { id: a }, rhs: Prev { id: (out - 1) as usize } }),
                ),
            );
            &&& divided.len() == composed.len()
            &&& forall|i: int|
                0 <= i < divided.len() && i != nodes.len() ==> #[trigger] divided[i] == composed[i]
            &&& divided[nodes.len() as int] == (Node {
                name: divided[nodes.len() as int].name,
                ..composed[nodes.len() as int]
            })
            &&& schedule(divided, out) == schedule(composed, out)
            &&& same_numbers(
                backward_with(kernel, divided, out),
                backward_with(kernel, composed, out),
            )
        }),
{
    let divided = quotient_recorded(nodes, a, b, inverse, quotient);
    let composed = power_recorded(nodes, b, NEG_ONE, inverse).push(
        Node::derived(quotient, (Rule::Mul { lhs: Prev { id: a }, rhs: Prev { id: (out - 1) as usize } })),
    );
    assert(same_shape(divided, composed));
    lemma_schedule_by_shape(divided, composed, out);
    let leaf = Node::leaf(NEG_ONE, "pow -1.0"@);
    let reciprocal = Rule::Pow { base: Prev { id: b }, exponent: Prev { id: nodes.len() as usize } };
    let product = Rule::Mul { lhs: Prev { id: a }, rhs: Prev { id: (out - 1) as usize } };
    let with_leaf = nodes.push(leaf);
    assert forall|i: int| 0 <= i < with_leaf.len() implies (#[trigger] with_leaf[i]).fits(i) by {
        if i < nodes.len() {
            assert(with_leaf[i] == nodes[i]);
            assert(nodes[i].fits(i));
        }
    }
    assert(reciprocal.operands()[0].id == b && reciprocal.operands()[1].id == nodes.len());
    lemma_recorded_is_well_formed(with_leaf, inverse, reciprocal);
    let with_reciprocal = with_leaf.push(Node::derived(inverse, reciprocal));
    assert(product.operands()[0].id == a && product.operands()[1].id == nodes.len() + 1);
    lemma_recorded_is_well_formed(with_reciprocal, quotient, product);
    assert(divided == with_reciprocal.push(Node::derived(quotient, product)));
    let start_d = seeded(divided, out);
    let start_c = seeded(composed, out);
    assert forall|i: int| 0 <= i < start_d.len() implies (#[trigger] start_d[i]).fits(i) by {
        assert(divided[i].fits(i));
    }
    assert(same_numbers(start_d, start_c)) by {
        assert forall|i: int| 0 <= i < start_d.len() implies (#[trigger] start_d[i]).prev == start_c[i].prev
            && start_d[i].backward == start_c[i].backward by {
            assert(divided[i].prev == composed[i].prev);
        }
    }
    lemma_every_rule_fires_once(divided, out);
    lemma_run_by_numbers(kernel, start_d, start_c, schedule(divided, out), 0, 0);
}

} // verus!
