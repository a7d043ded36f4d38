//! The operations that record a derived node: sum, difference, product,
//! quotient, power and rectifier.
//!
//! Each takes the operands' handles and appends one node that remembers the
//! operands and the rule by which a backward pass will reach them. The
//! value of a sum, difference, product or power is computed by the caller
//! from the operands' current values and handed in; the value of the
//! rectifier takes no arithmetic and is found here.

use vstd::prelude::*;
use crate::double::{rectified, rectify, NEG_ONE, ZERO};
use crate::value::{Graph, Node, Prev, Rule, Value, ValueInner};

verus! {

impl Rule {
    /// The operator label of the rule, as stored in the node.
    pub fn label_text(&self) -> (text: String)
        ensures
            text@ == self.label(),
    {
        match self {
            Rule::Add { .. } => "+".to_owned(),
            Rule::Sub { .. } => "-".to_owned(),
            Rule::Mul { .. } => "*".to_owned(),
            Rule::Pow { .. } => "pow".to_owned(),
            Rule::Relu { .. } => "relu".to_owned(),
        }
    }

    /// The predecessor list of the rule, as stored in the node: a node that
    /// fills both operand slots is recorded once.
    pub fn links(&self) -> (links: Vec<Prev>)
        ensures
            links@ == self.prev(),
    {
        let (first, second) = match self {
            Rule::Add { lhs, rhs } => (*lhs, *rhs),
            Rule::Sub { lhs, rhs } => (*lhs, *rhs),
            Rule::Mul { lhs, rhs } => (*lhs, *rhs),
            Rule::Pow { base, exponent } => (*base, *exponent),
            Rule::Relu { input } => (*input, *input),
        };
        let mut links: Vec<Prev> = Vec::new();
        links.push(first);
        if second.id != first.id {
            links.push(second);
        }
        assert(links@ =~= self.prev());
        links
    }
}

/// The graph after `base` was raised to the constant `exponent`: the
/// constant as an unnamed leaf, then the power node with value `value`.
pub open spec fn power_recorded(nodes: Seq<Node>, base: usize, exponent: u64, value: u64) -> Seq<Node> {
    nodes.push(Node::leaf(exponent, Seq::empty())).push(
        Node::derived(
            value,
            (Rule::Pow { base: Prev { id: base }, exponent: Prev { id: nodes.len() as usize } }),
        ),
    )
}

/// The graph after `lhs` was divided by `rhs`: a leaf named `pow -1.0` that
/// holds minus one, the reciprocal of `rhs` with value `inverse`, and the
/// product of `lhs` and the reciprocal with value `quotient`.
pub open spec fn quotient_recorded(
    nodes: Seq<Node>,
    lhs: usize,
    rhs: usize,
    inverse: u64,
    quotient: u64,
) -> Seq<Node> {
    nodes.push(Node::leaf(NEG_ONE, "pow -1.0"@)).push(
        Node::derived(
            inverse,
            (Rule::Pow { base: Prev { id: rhs }, exponent: Prev { id: nodes.len() as usize } }),
        ),
    ).push(
        Node::derived(
            quotient,
            (Rule::Mul { lhs: Prev { id: lhs }, rhs: Prev { id: (nodes.len() + 1) as usize } }),
        ),
    )
}

impl Value {
    /// The link by which a derived node refers to this one.
    pub fn link(&self) -> (p: Prev)
        ensures
            p.id == self.id,
    {
        Prev { id: self.id }
    }

    /// Appends the node that `rule` produces with value `value`.
    fn record(g: &mut Graph, rule: Rule, value: u64) -> (out: Value)
        requires
            old(g).wf(),
            forall|k: int|
                0 <= k < rule.operands().len() ==> (#[trigger] rule.operands()[k]).id < old(g)@.len(),
        ensures
            final(g)@ == old(g)@.push(Node::derived(value, rule)),
            final(g).wf(),
            out.id == old(g)@.len(),
    {
        let inner = ValueInner {
            name: String::new(),
            data: value,
            grad: ZERO,
            backward: Some(rule),
            prev: rule.links(),
            op: rule.label_text(),
        };
        g.push(inner)
    }

    /// Records `self + rhs`, whose value the caller computed as `value`.
    pub fn add(&self, g: &mut Graph, rhs: &Value, value: u64) -> (out: Value)
        requires
            old(g).wf(),
            old(g).has(*self),
            old(g).has(*rhs),
        ensures
            final(g)@ == old(g)@.push(
                Node::derived(value, (Rule::Add { lhs: Prev { id: self.id }, rhs: Prev { id: rhs.id } })),
            ),
            final(g).wf(),
            out.id == old(g)@.len(),
    {
        Value::record(g, Rule::Add { lhs: self.link(), rhs: rhs.link() }, value)
    }

    /// Records `self - rhs`, whose value the caller computed as `value`.
    pub fn sub(&self, g: &mut Graph, rhs: &Value, value: u64) -> (out: Value)
        requires
            old(g).wf(),
            old(g).has(*self),
            old(g).has(*rhs),
        ensures
            final(g)@ == old(g)@.push(
                Node::derived(value, (Rule::Sub { lhs: Prev { id: self.id }, rhs: Prev { id: rhs.id } })),
            ),
            final(g).wf(),
            out.id == old(g)@.len(),
    {
        Value::record(g, Rule::Sub { lhs: self.link(), rhs: rhs.link() }, value)
    }

    /// Records `self * rhs`, whose value the caller computed as `value`.
    pub fn mul(&self, g: &mut Graph, rhs: &Value, value: u64) -> (out: Value)
        requires
            old(g).wf(),
            old(g).has(*self),
            old(g).has(*rhs),
        ensures
            final(g)@ == old(g)@.push(
                Node::derived(value, (Rule::Mul { lhs: Prev { id: self.id }, rhs: Prev { id: rhs.id } })),
            ),
            final(g).wf(),
            out.id == old(g)@.len(),
    {
        Value::record(g, Rule::Mul { lhs: self.link(), rhs: rhs.link() }, value)
    }

    /// Records `self` raised to the power `rhs`, whose value the caller
    /// computed as `value`.
    pub fn pow_i(&self, g: &mut Graph, rhs: &Value, value: u64) -> (out: Value)
        requires
            old(g).wf(),
            old(g).has(*self),
            old(g).has(*rhs),
        ensures
            final(g)@ == old(g)@.push(
                Node::derived(
                    value,
                    (Rule::Pow { base: Prev { id: self.id }, exponent: Prev { id: rhs.id } }),
                ),
            ),
            final(g).wf(),
            out.id == old(g)@.len(),
    {
        Value::record(g, Rule::Pow { base: self.link(), exponent: rhs.link() }, value)
    }

    /// Records the rectifier of `self`: the greater of the value of `self`
    /// and zero.
    pub fn relu(&self, g: &mut Graph) -> (out: Value)
        requires
            old(g).wf(),
            old(g).has(*self),
        ensures
            final(g)@ == old(g)@.push(
                Node::derived(
                    rectified(old(g)@[self.id as int].data),
                    (Rule::Relu { input: Prev { id: self.id } }),
                ),
            ),
            final(g).wf(),
            out.id == old(g)@.len(),
    {
        let value = rectify(self.data(g));
        Value::record(g, Rule::Relu { input: self.link() }, value)
    }

    /// Records `self` raised to the constant `rhs`: the constant becomes an
    /// unnamed leaf, and the power node is recorded as by [`Value::pow_i`].
    pub fn pow(&self, g: &mut Graph, rhs: u64, value: u64) -> (out: Value)
        requires
            old(g).wf(),
            old(g).has(*self),
        ensures
            final(g)@ == power_recorded(old(g)@, self.id, rhs, value),
            final(g).wf(),
            out.id == old(g)@.len() + 1,
    {
        let exponent = Value::new(g, rhs);
        self.pow_i(g, &exponent, value)
    }

    /// Records `self / rhs` as `self * rhs^(-1)`. Three nodes are appended: a
    /// leaf that holds minus one, the reciprocal of `rhs` with value
    /// `inverse`, and the product with value `quotient`. There is no rule of
    /// its own for a quotient.
    pub fn div(&self, g: &mut Graph, rhs: &Value, inverse: u64, quotient: u64) -> (out: Value)
        requires
            old(g).wf(),
            old(g).has(*self),
            old(g).has(*rhs),
        ensures
            final(g)@ == quotient_recorded(old(g)@, self.id, rhs.id, inverse, quotient),
            final(g).wf(),
            out.id == old(g)@.len() + 2,
    {
        let minus_one = Value::new_with_name(g, NEG_ONE, "pow -1.0".to_owned());
        let reciprocal = rhs.pow_i(g, &minus_one, inverse);
        self.mul(g, &reciprocal, quotient)
    }
}

} // verus!
