//! Carrying out a backward pass.
//!
//! A pass is a cursor over its schedule. It names the next gradient to
//! change and the numbers that the change is made of; the caller does the
//! arithmetic and hands the new gradient back, and the pass stores it and
//! moves on. What a pass computes with a given arithmetic is `run`.

use vstd::prelude::*;
use crate::backward::{schedule, seeded, Factor, Step, Update};
use crate::value::{well_formed, Graph, Node, Prev, Rule, Value};

verus! {

/// What the upstream gradient is multiplied by, with the values that the
/// factor is made of.
#[derive(Clone, Copy, Debug, PartialEq, Eq, Structural)]
pub enum Scale {
    /// Nothing: the gradient passes as it is.
    One,
    /// The number `v`.
    By(u64),
    /// `e * b^(e - 1)` for `b = base` and `e = exponent`.
    PowerSlope { base: u64, exponent: u64 },
    /// `b^e * ln(b)` for `b = base` and `e = exponent`.
    PowerLog { base: u64, exponent: u64 },
}

/// One piece of arithmetic that a pass asks for: the new gradient of
/// `target`, which is `gradient + upstream * scale`, or
/// `gradient - upstream * scale` where `subtract` is set.
#[derive(Clone, Copy, Debug, PartialEq, Eq, Structural)]
pub struct Request {
    pub target: Prev,
    pub gradient: u64,
    pub upstream: u64,
    pub scale: Scale,
    pub subtract: bool,
}

/// The state of a pass: its schedule, the step that is being carried out,
/// and the number of changes of that step that were made.
pub ghost struct Cursor {
    pub plan: Seq<Step>,
    pub step: nat,
    pub slot: nat,
}

/// A backward pass under way.
pub struct Pass {
    plan: Vec<Step>,
    step: usize,
    slot: usize,
}

/// The factor with the values that its links point to.
pub open spec fn scale_of(nodes: Seq<Node>, factor: Factor) -> Scale {
    match factor {
        Factor::One => Scale::One,
        Factor::ValueOf(p) => Scale::By(nodes[p.id as int].data),
        Factor::PowerSlope { base, exponent } => Scale::PowerSlope {
            base: nodes[base.id as int].data,
            exponent: nodes[exponent.id as int].data,
        },
        Factor::PowerLog { base, exponent } => Scale::PowerLog {
            base: nodes[base.id as int].data,
            exponent: nodes[exponent.id as int].data,
        },
    }
}

/// The arithmetic that `update` of `step` asks for in the graph `nodes`:
/// the gradients are those that the nodes hold now.
pub open spec fn request_of(nodes: Seq<Node>, step: Step, update: Update) -> Request {
    Request {
        target: update.target,
        gradient: nodes[update.target.id as int].grad,
        upstream: nodes[step.node.id as int].grad,
        scale: scale_of(nodes, update.factor),
        subtract: update.subtract,
    }
}

/// The graph `nodes` with the gradient of `target` replaced by `gradient`.
pub open spec fn committed(nodes: Seq<Node>, target: Prev, gradient: u64) -> Seq<Node> {
    nodes.update(target.id as int, (Node { grad: gradient, ..nodes[target.id as int] }))
}

/// Whether change `slot` of step `step` is to be made: there is such a
/// change, and the rule fires on the gradient that its node holds now.
pub open spec fn due(nodes: Seq<Node>, plan: Seq<Step>, step: nat, slot: nat) -> bool {
    &&& step < plan.len()
    &&& slot < plan[step as int].rule.spec_updates().len()
    &&& plan[step as int].rule.spec_fires(nodes[plan[step as int].node.id as int].grad)
}

/// The first change at or after `(step, slot)` that is to be made, if any.
pub open spec fn pending(nodes: Seq<Node>, plan: Seq<Step>, step: nat, slot: nat) -> Option<(nat, nat)>
    decreases plan.len() - step,
{
    if step >= plan.len() {
        None
    } else if due(nodes, plan, step, slot) {
        Some((step, slot))
    } else {
        pending(nodes, plan, step + 1, 0)
    }
}

/// What a pass yields when every request `r` is answered by `kernel(r)`:
/// the changes that are due are made one by one, each on the graph that the
/// changes before it left.
pub open spec fn run(
    kernel: spec_fn(Request) -> u64,
    nodes: Seq<Node>,
    plan: Seq<Step>,
    step: nat,
    slot: nat,
) -> Seq<Node>
    decreases plan.len() - step,
        (if step < plan.len() {
            plan[step as int].rule.spec_updates().len() - slot
        } else {
            0
        }),
{
    if step >= plan.len() {
        nodes
    } else if due(nodes, plan, step, slot) {
        let update = plan[step as int].rule.spec_updates()[slot as int];
        let answer = kernel(request_of(nodes, plan[step as int], update));
        run(kernel, committed(nodes, update.target, answer), plan, step, slot + 1)
    } else {
        run(kernel, nodes, plan, step + 1, 0)
    }
}

/// What a backward pass from `root` leaves when every request `r` is answered
/// by `kernel(r)`: the root is seeded, and the schedule is run from its
/// start.
pub open spec fn backward_with(kernel: spec_fn(Request) -> u64, nodes: Seq<Node>, root: usize) -> Seq<
    Node,
> {
    run(kernel, seeded(nodes, root), schedule(nodes, root), 0, 0)
}

impl Factor {
    /// Whether every link of the factor points below `n`.
    pub open spec fn below(self, n: int) -> bool {
        match self {
            Factor::One => true,
            Factor::ValueOf(p) => p.id < n,
            Factor::PowerSlope { base, exponent } => base.id < n && exponent.id < n,
            Factor::PowerLog { base, exponent } => base.id < n && exponent.id < n,
        }
    }
}

/// The changes of a rule name its operands and no other node.
pub proof fn lemma_changes_stay_among_operands(rule: Rule, n: int)
    requires
        forall|k: int| 0 <= k < rule.operands().len() ==> (#[trigger] rule.operands()[k]).id < n,
    ensures
        forall|t: int|
            0 <= t < rule.spec_updates().len() ==> (#[trigger] rule.spec_updates()[t]).target.id < n
                && rule.spec_updates()[t].factor.below(n),
{
    assert(rule.operands()[0].id < n);
    if rule.operands().len() > 1 {
        assert(rule.operands()[1].id < n);
    }
}

impl Cursor {
    /// Whether the schedule belongs to the graph `nodes`: every step names a
    /// node of the graph, with that node's rule.
    pub open spec fn fits(self, nodes: Seq<Node>) -> bool {
        forall|i: int|
            0 <= i < self.plan.len() ==> (#[trigger] self.plan[i]).node.id < nodes.len()
                && nodes[self.plan[i].node.id as int].backward == Some(self.plan[i].rule)
    }

    /// The request that is pending, if any.
    pub open spec fn request(self, nodes: Seq<Node>) -> Option<Request> {
        match pending(nodes, self.plan, self.step, self.slot) {
            None => None,
            Some((s, t)) => Some(
                request_of(nodes, self.plan[s as int], self.plan[s as int].rule.spec_updates()[t as int]),
            ),
        }
    }

    /// The graph after the pending request was answered by `gradient`. With
    /// no request pending the graph stays as it is.
    pub open spec fn graph_after(self, nodes: Seq<Node>, gradient: u64) -> Seq<Node> {
        match pending(nodes, self.plan, self.step, self.slot) {
            None => nodes,
            Some((s, t)) => committed(
                nodes,
                self.plan[s as int].rule.spec_updates()[t as int].target,
                gradient,
            ),
        }
    }

    /// The cursor after the pending request was answered: just behind the
    /// change that was made, or at the end where none was pending.
    pub open spec fn moved_on(self, nodes: Seq<Node>) -> Cursor {
        match pending(nodes, self.plan, self.step, self.slot) {
            None => Cursor { plan: self.plan, step: self.plan.len(), slot: 0 },
            Some((s, t)) => Cursor { plan: self.plan, step: s, slot: t + 1 },
        }
    }
}

/// The pass that answers every request by `kernel` is the loop that asks
/// for the pending request, answers it, and commits the answer, until no
/// request is pending.
pub proof fn lemma_run_is_request_and_commit(
    kernel: spec_fn(Request) -> u64,
    nodes: Seq<Node>,
    cursor: Cursor,
)
    ensures
        run(kernel, nodes, cursor.plan, cursor.step, cursor.slot) == (match cursor.request(nodes) {
            None => nodes,
            Some(r) => run(
                kernel,
                cursor.graph_after(nodes, kernel(r)),
                cursor.plan,
                cursor.moved_on(nodes).step,
                cursor.moved_on(nodes).slot,
            ),
        }),
    decreases cursor.plan.len() - cursor.step,
{
    if cursor.step < cursor.plan.len() && !due(nodes, cursor.plan, cursor.step, cursor.slot) {
        lemma_run_is_request_and_commit(
            kernel,
            nodes,
            Cursor { plan: cursor.plan, step: cursor.step + 1, slot: 0 },
        );
    }
}

impl View for Pass {
    type V = Cursor;

    closed spec fn view(&self) -> Cursor {
        Cursor { plan: self.plan@, step: self.step as nat, slot: self.slot as nat }
    }
}

impl Pass {
    /// A pass at the start of `plan`.
    pub(crate) fn start(plan: Vec<Step>) -> (pass: Pass)
        ensures
            pass@ == (Cursor { plan: plan@, step: 0, slot: 0 }),
    {
        Pass { plan, step: 0, slot: 0 }
    }

    /// The schedule of the pass.
    pub fn plan(&self) -> (plan: &Vec<Step>)
        ensures
            plan@ == self@.plan,
    {
        &self.plan
    }

    /// The position of the pending change, or the end of the schedule.
    fn seek(&self, g: &Graph) -> (at: (usize, usize))
        requires
            self@.fits(g@),
        ensures
            at.0 <= self@.plan.len(),
            at.0 < self@.plan.len() ==> pending(g@, self@.plan, self@.step, self@.slot) == Some(
                (at.0 as nat, at.1 as nat),
            ) && due(g@, self@.plan, at.0 as nat, at.1 as nat),
            at.0 == self@.plan.len() ==> pending(g@, self@.plan, self@.step, self@.slot) is None,
    {
        let mut s: usize = self.step;
        let mut t: usize = self.slot;
        while s < self.plan.len()
            invariant
                self@.fits(g@),
                pending(g@, self@.plan, s as nat, t as nat) == pending(
                    g@,
                    self@.plan,
                    self@.step,
                    self@.slot,
                ),
            decreases self.plan.len() - s,
        {
            let step = self.plan[s];
            if t < step.rule.updates().len() && step.rule.fires(step.node.grad(g)) {
                return (s, t);
            }
            s += 1;
            t = 0;
        }
        (self.plan.len(), 0)
    }

    /// The arithmetic that the pass asks for next, or `None` when the pass
    /// is over. Steps whose rule does not fire are passed over.
    pub fn request(&self, g: &Graph) -> (r: Option<Request>)
        requires
            g.wf(),
            self@.fits(g@),
        ensures
            r == self@.request(g@),
    {
        let (s, t) = self.seek(g);
        if s >= self.plan.len() {
            return None;
        }
        let step = self.plan[s];
        let update = step.rule.updates()[t];
        proof {
            assert(g@[step.node.id as int].fits(step.node.id as int));
            lemma_changes_stay_among_operands(step.rule, step.node.id as int);
        }
        let scale = match update.factor {
            Factor::One => Scale::One,
            Factor::ValueOf(p) => Scale::By(p.value().data(g)),
            Factor::PowerSlope { base, exponent } => Scale::PowerSlope {
                base: base.value().data(g),
                exponent: exponent.value().data(g),
            },
            Factor::PowerLog { base, exponent } => Scale::PowerLog {
                base: base.value().data(g),
                exponent: exponent.value().data(g),
            },
        };
        Some(
            Request {
                target: update.target,
                gradient: update.target.value().grad(g),
                upstream: step.node.grad(g),
                scale,
                subtract: update.subtract,
            },
        )
    }

    /// Answers the pending request: stores `gradient` as the new gradient of
    /// the request's target and moves behind that change. With no request
    /// pending nothing is stored.
    pub fn commit(&mut self, g: &mut Graph, gradient: u64)
        requires
            old(g).wf(),
            old(self)@.fits(old(g)@),
        ensures
            final(g)@ == old(self)@.graph_after(old(g)@, gradient),
            final(self)@ == old(self)@.moved_on(old(g)@),
            final(g).wf(),
            final(self)@.fits(final(g)@),
    {
        let (s, t) = self.seek(g);
        if s >= self.plan.len() {
            self.step = self.plan.len();
            self.slot = 0;
            return ;
        }
        let step = self.plan[s];
        let update = step.rule.updates()[t];
        proof {
            assert(g@[step.node.id as int].fits(step.node.id as int));
            lemma_changes_stay_among_operands(step.rule, step.node.id as int);
        }
        update.target.value().set_grad(g, gradient);
        self.step = s;
        self.slot = t + 1;
    }
}

} // verus!
