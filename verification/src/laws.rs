//! Laws of a backward pass that hold of every graph and every arithmetic.

use vstd::prelude::*;
use crate::backward::{same_shape, schedule, seeded, Step};
use crate::double::ONE;
use crate::pass::{backward_with, committed, due, request_of, run, scale_of, Cursor, Request};
use crate::topo::reaches;
use crate::value::{well_formed, Node, Prev, Rule};

verus! {

/// Recording a node over operands of a well-formed graph keeps the graph
/// well formed.
pub proof fn lemma_recorded_is_well_formed(nodes: Seq<Node>, value: u64, rule: Rule)
    requires
        well_formed(nodes),
        forall|k: int| 0 <= k < rule.operands().len() ==> (#[trigger] rule.operands()[k]).id < nodes.len(),
    ensures
        well_formed(nodes.push(Node::derived(value, rule))),
{
    let after = nodes.push(Node::derived(value, rule));
    assert forall|i: int| 0 <= i < after.len() implies (#[trigger] after[i]).fits(i) by {
        if i < nodes.len() {
            assert(after[i] == nodes[i]);
        }
    }
}

/// A pass changes gradients and nothing else: it creates no node and
/// removes none, and every node keeps its value, name, label, rule and
/// predecessors.
pub proof fn lemma_run_changes_gradients_only(
    kernel: spec_fn(Request) -> u64,
    nodes: Seq<Node>,
    plan: Seq<Step>,
    step: nat,
    slot: nat,
)
    requires
        well_formed(nodes),
        (Cursor { plan, step, slot }).fits(nodes),
    ensures
        run(kernel, nodes, plan, step, slot).len() == nodes.len(),
        forall|i: int|
            0 <= i < nodes.len() ==> #[trigger] run(kernel, nodes, plan, step, slot)[i] == (Node {
                grad: run(kernel, nodes, plan, step, slot)[i].grad,
                ..nodes[i]
            }),
        well_formed(run(kernel, nodes, plan, step, slot)),
    decreases plan.len() - step,
        (if step < plan.len() {
            plan[step as int].rule.spec_updates().len() - slot
        } else {
            0
        }),
{
    if step >= plan.len() {
    } else if due(nodes, plan, step, slot) {
        let st = plan[step as int];
        let update = st.rule.spec_updates()[slot as int];
        let next = committed(nodes, update.target, kernel(request_of(nodes, st, update)));
        assert(nodes[st.node.id as int].fits(st.node.id as int));
        crate::pass::lemma_changes_stay_among_operands(st.rule, st.node.id as int);
        assert forall|i: int| 0 <= i < next.len() implies (#[trigger] next[i]).fits(i) by {
            assert(nodes[i].fits(i));
        }
        lemma_run_changes_gradients_only(kernel, next, plan, step, slot + 1);
    } else {
        lemma_run_changes_gradients_only(kernel, nodes, plan, step + 1, 0);
    }
}

/// Whether some change of step `from` of `plan`, or of a later step, is
/// aimed at node `i`.
pub open spec fn is_target_from(plan: Seq<Step>, from: nat, i: int) -> bool {
    exists|s: int, t: int|
        from <= s < plan.len() && 0 <= t < plan[s].rule.spec_updates().len()
            && (#[trigger] plan[s].rule.spec_updates()[t]).target.id == i
}

/// The rest of a pass leaves alone every node that none of the changes
/// still to come is aimed at.
pub proof fn lemma_run_touches_targets_only(
    kernel: spec_fn(Request) -> u64,
    nodes: Seq<Node>,
    plan: Seq<Step>,
    step: nat,
    slot: nat,
)
    requires
        well_formed(nodes),
        (Cursor { plan, step, slot }).fits(nodes),
    ensures
        forall|i: int|
            0 <= i < nodes.len() && !is_target_from(plan, step, i) ==> #[trigger] run(
                kernel,
                nodes,
                plan,
                step,
                slot,
            )[i] == nodes[i],
    decreases plan.len() - step,
        (if step < plan.len() {
            plan[step as int].rule.spec_updates().len() - slot
        } else {
            0
        }),
{
    if step >= plan.len() {
    } else if due(nodes, plan, step, slot) {
        let st = plan[step as int];
        let update = st.rule.spec_updates()[slot as int];
        let next = committed(nodes, update.target, kernel(request_of(nodes, st, update)));
        assert(nodes[st.node.id as int].fits(st.node.id as int));
        crate::pass::lemma_changes_stay_among_operands(st.rule, st.node.id as int);
        assert forall|i: int| 0 <= i < next.len() implies (#[trigger] next[i]).fits(i) by {
            assert(nodes[i].fits(i));
        }
        lemma_run_touches_targets_only(kernel, next, plan, step, slot + 1);
        assert(is_target_from(plan, step, update.target.id as int)) by {
            assert(plan[step as int].rule.spec_updates()[slot as int].target.id == update.target.id);
        }
        assert(run(kernel, nodes, plan, step, slot) == run(kernel, next, plan, step, slot + 1));
        assert forall|i: int| 0 <= i < nodes.len() && !is_target_from(plan, step, i) implies #[trigger] run(
            kernel,
            nodes,
            plan,
            step,
            slot,
        )[i] == nodes[i] by {
            assert(run(kernel, next, plan, step, slot + 1)[i] == next[i]);
            assert(next[i] == nodes[i]);
        }
    } else {
        lemma_run_touches_targets_only(kernel, nodes, plan, step + 1, 0);
        assert(run(kernel, nodes, plan, step, slot) == run(kernel, nodes, plan, step + 1, 0));
        assert forall|i: int| 0 <= i < nodes.len() && !is_target_from(plan, step, i) implies #[trigger] run(
            kernel,
            nodes,
            plan,
            step,
            slot,
        )[i] == nodes[i] by {
            if is_target_from(plan, step + 1, i) {
                let (s, t) = choose|s: int, t: int|
                    step + 1 <= s < plan.len() && 0 <= t < plan[s].rule.spec_updates().len()
                        && (#[trigger] plan[s].rule.spec_updates()[t]).target.id == i;
                assert(is_target_from(plan, step, i));
            }
        }
    }
}

/// A gradient is complete when it is handed on. Once the rule of a node
/// has its turn, no change of that step or of a later one is aimed at the
/// node: carrying out the rest of the pass leaves the node as it is, so the
/// upstream gradient of every request of the step is the final gradient of
/// the node.
pub proof fn lemma_gradient_is_complete_when_handed_on(
    kernel: spec_fn(Request) -> u64,
    nodes: Seq<Node>,
    root: usize,
    at: Seq<Node>,
    i: nat,
)
    requires
        well_formed(nodes),
        root < nodes.len(),
        i < schedule(nodes, root).len(),
        well_formed(at),
        same_shape(nodes, at),
    ensures
        !is_target_from(schedule(nodes, root), i, schedule(nodes, root)[i as int].node.id as int),
        run(kernel, at, schedule(nodes, root), i, 0)[schedule(nodes, root)[i as int].node.id as int]
            == at[schedule(nodes, root)[i as int].node.id as int],
{
    let plan = schedule(nodes, root);
    let me = plan[i as int].node;
    crate::backward::lemma_every_rule_fires_once(nodes, root);
    crate::backward::lemma_rule_fires_before_predecessors(nodes, root);
    if is_target_from(plan, i, me.id as int) {
        let (s, t) = choose|s: int, t: int|
            i <= s < plan.len() && 0 <= t < plan[s].rule.spec_updates().len()
                && (#[trigger] plan[s].rule.spec_updates()[t]).target.id == me.id;
        let st = plan[s];
        let target = st.rule.spec_updates()[t].target;
        assert(nodes[st.node.id as int].fits(st.node.id as int));
        lemma_one_change_per_slot(st.rule);
        assert(st.rule.operands()[t] == target);
        assert(st.rule.operands().contains(target));
        assert(st.rule.prev().contains(target));
        let k = st.rule.prev().index_of(target);
        assert(nodes[st.node.id as int].prev[k].id == plan[i as int].node.id);
        assert(s < i);
    }
    let cursor = Cursor { plan, step: i, slot: 0 };
    assert(cursor.fits(at)) by {
        assert forall|j: int| 0 <= j < plan.len() implies (#[trigger] plan[j]).node.id < at.len()
            && at[plan[j].node.id as int].backward == Some(plan[j].rule) by {
            assert(nodes[plan[j].node.id as int].backward == at[plan[j].node.id as int].backward);
        }
    }
    lemma_run_touches_targets_only(kernel, at, plan, i, 0);
}

/// What a node reaches, it reaches with all predecessors of it.
pub proof fn lemma_reaches_predecessor(nodes: Seq<Node>, from: usize, n: usize, k: int)
    requires
        well_formed(nodes),
        from < nodes.len(),
        reaches(nodes, from, n),
        0 <= k < nodes[n as int].prev.len(),
    ensures
        reaches(nodes, from, nodes[n as int].prev[k].id),
    decreases from,
{
    let p = nodes[n as int].prev[k].id;
    crate::topo::lemma_reaches_older(nodes, from, n);
    if from == n {
        crate::topo::lemma_reaches_through(nodes, n, k, p);
    } else {
        let j = choose|j: int|
            0 <= j < nodes[from as int].prev.len() && (#[trigger] nodes[from as int].prev[j]).id < from
                && reaches(nodes, nodes[from as int].prev[j].id, n);
        lemma_reaches_predecessor(nodes, nodes[from as int].prev[j].id, n, k);
        crate::topo::lemma_reaches_through(nodes, from, j, p);
    }
}

/// Every change of a backward pass is aimed at a node that lies strictly
/// below the root.
pub proof fn lemma_targets_lie_below_root(nodes: Seq<Node>, root: usize, i: int)
    requires
        well_formed(nodes),
        root < nodes.len(),
        is_target_from(schedule(nodes, root), 0, i),
    ensures
        0 <= i < root,
        reaches(nodes, root, i as usize),
{
    let plan = schedule(nodes, root);
    let (s, t) = choose|s: int, t: int|
        0 <= s < plan.len() && 0 <= t < plan[s].rule.spec_updates().len()
            && (#[trigger] plan[s].rule.spec_updates()[t]).target.id == i;
    let st = plan[s];
    crate::backward::lemma_every_rule_fires_once(nodes, root);
    assert(nodes[st.node.id as int].fits(st.node.id as int));
    crate::pass::lemma_changes_stay_among_operands(st.rule, st.node.id as int);
    crate::topo::lemma_reaches_older(nodes, root, st.node.id);
    lemma_one_change_per_slot(st.rule);
    let target = st.rule.spec_updates()[t].target;
    assert(st.rule.operands()[t] == target);
    assert(st.rule.operands().contains(target));
    assert(st.rule.prev().contains(target));
    let k = st.rule.prev().index_of(target);
    assert(nodes[st.node.id as int].prev[k] == target);
    lemma_reaches_predecessor(nodes, root, st.node.id, k);
}

/// A backward pass changes gradients, and only below its root. It creates
/// and removes no node; every node keeps its value, name, label, rule and
/// predecessors; the root holds the seed, one, when the pass is over; and a
/// node that the root does not reach is left as it was.
pub proof fn lemma_pass_stays_below_root(kernel: spec_fn(Request) -> u64, nodes: Seq<Node>, root: usize)
    requires
        well_formed(nodes),
        root < nodes.len(),
    ensures
        backward_with(kernel, nodes, root).len() == nodes.len(),
        well_formed(backward_with(kernel, nodes, root)),
        forall|i: int|
            0 <= i < nodes.len() ==> #[trigger] backward_with(kernel, nodes, root)[i] == (Node {
                grad: backward_with(kernel, nodes, root)[i].grad,
                ..nodes[i]
            }),
        backward_with(kernel, nodes, root)[root as int].grad == ONE,
        forall|i: int|
            0 <= i < nodes.len() && !reaches(nodes, root, i as usize) ==> #[trigger] backward_with(
                kernel,
                nodes,
                root,
            )[i] == nodes[i],
{
    let start = seeded(nodes, root);
    let plan = schedule(nodes, root);
    let after = backward_with(kernel, nodes, root);
    crate::backward::lemma_every_rule_fires_once(nodes, root);
    assert forall|i: int| 0 <= i < start.len() implies (#[trigger] start[i]).fits(i) by {
        assert(nodes[i].fits(i));
    }
    lemma_run_changes_gradients_only(kernel, start, plan, 0, 0);
    lemma_run_touches_targets_only(kernel, start, plan, 0, 0);
    assert(!is_target_from(plan, 0, root as int)) by {
        if is_target_from(plan, 0, root as int) {
            lemma_targets_lie_below_root(nodes, root, root as int);
        }
    }
    assert forall|i: int| 0 <= i < nodes.len() implies #[trigger] after[i] == (Node {
        grad: after[i].grad,
        ..nodes[i]
    }) by {
        assert(after[i] == (Node { grad: after[i].grad, ..start[i] }));
    }
    assert forall|i: int| 0 <= i < nodes.len() && !reaches(nodes, root, i as usize) implies #[trigger] after[i]
        == nodes[i] by {
        if is_target_from(plan, 0, i) {
            lemma_targets_lie_below_root(nodes, root, i);
        }
    }
}

/// Every rule holds one change for each of its operand slots, in the order
/// of the slots, whether or not two slots hold the same node; and its
/// predecessor list holds each operand, once.
pub proof fn lemma_one_change_per_slot(rule: Rule)
    ensures
        rule.spec_updates().len() == rule.operands().len(),
        forall|k: int|
            0 <= k < rule.operands().len() ==> (#[trigger] rule.spec_updates()[k]).target
                == rule.operands()[k],
        rule.prev().no_duplicates(),
        forall|p: Prev| rule.prev().contains(p) <==> rule.operands().contains(p),
{
    let ops = rule.operands();
    let prev = rule.prev();
    assert(ops[0] == prev[0]);
    assert forall|p: Prev| prev.contains(p) <==> ops.contains(p) by {
        if prev.contains(p) {
            let i = prev.index_of(p);
            if i == 0 {
                assert(ops[0] == p);
            } else {
                assert(ops[1] == p);
            }
        }
        if ops.contains(p) {
            let i = ops.index_of(p);
            if i == 0 || ops[1] == ops[0] {
                assert(prev[0] == p);
            } else {
                assert(prev[1] == p);
            }
        }
    }
}

/// Two graphs hold the same numbers where they have the same shape and
/// every node holds the same value and the same gradient in both. Names and
/// labels are free.
pub open spec fn same_numbers(a: Seq<Node>, b: Seq<Node>) -> bool {
    &&& same_shape(a, b)
    &&& forall|i: int| 0 <= i < a.len() ==> (#[trigger] a[i]).data == b[i].data && a[i].grad == b[i].grad
}

/// A pass looks at shape, values and gradients only: on two graphs that
/// hold the same numbers it makes the same changes.
pub proof fn lemma_run_by_numbers(
    kernel: spec_fn(Request) -> u64,
    a: Seq<Node>,
    b: Seq<Node>,
    plan: Seq<Step>,
    step: nat,
    slot: nat,
)
    requires
        well_formed(a),
        same_numbers(a, b),
        (Cursor { plan, step, slot }).fits(a),
    ensures
        same_numbers(run(kernel, a, plan, step, slot), run(kernel, b, plan, step, slot)),
    decreases plan.len() - step,
        (if step < plan.len() {
            plan[step as int].rule.spec_updates().len() - slot
        } else {
            0
        }),
{
    if step >= plan.len() {
    } else {
        let st = plan[step as int];
        assert(a[st.node.id as int].grad == b[st.node.id as int].grad);
        if due(a, plan, step, slot) {
            let update = st.rule.spec_updates()[slot as int];
            assert(a[st.node.id as int].fits(st.node.id as int));
            crate::pass::lemma_changes_stay_among_operands(st.rule, st.node.id as int);
            assert(update.target.id < a.len() && update.factor.below(a.len() as int));
            assert(a[update.target.id as int].grad == b[update.target.id as int].grad);
            assert(scale_of(a, update.factor) == scale_of(b, update.factor)) by {
                match update.factor {
                    crate::backward::Factor::One => {},
                    crate::backward::Factor::ValueOf(p) => {
                        assert(a[p.id as int].data == b[p.id as int].data);
                    },
                    crate::backward::Factor::PowerSlope { base, exponent } => {
                        assert(a[base.id as int].data == b[base.id as int].data);
                        assert(a[exponent.id as int].data == b[exponent.id as int].data);
                    },
                    crate::backward::Factor::PowerLog { base, exponent } => {
                        assert(a[base.id as int].data == b[base.id as int].data);
                        assert(a[exponent.id as int].data == b[exponent.id as int].data);
                    },
                }
            }
            let answer = kernel(request_of(a, st, update));
            assert(request_of(a, st, update) == request_of(b, st, update));
            let a_next = committed(a, update.target, answer);
            let b_next = committed(b, update.target, answer);
            assert forall|i: int| 0 <= i < a_next.len() implies (#[trigger] a_next[i]).fits(i) by {
                assert(a[i].fits(i));
            }
            assert(same_numbers(a_next, b_next)) by {
                assert forall|i: int| 0 <= i < a_next.len() implies (#[trigger] a_next[i]).prev
                    == b_next[i].prev && a_next[i].backward == b_next[i].backward by {
                    assert(a[i].prev == b[i].prev);
                }
                assert forall|i: int| 0 <= i < a_next.len() implies (#[trigger] a_next[i]).data
                    == b_next[i].data && a_next[i].grad == b_next[i].grad by {
                    assert(a[i].data == b[i].data);
                }
            }
            lemma_run_by_numbers(kernel, a_next, b_next, plan, step, slot + 1);
        } else {
            assert(!due(b, plan, step, slot));
            lemma_run_by_numbers(kernel, a, b, plan, step + 1, 0);
        }
    }
}

} // verus!
