//! Nodes of the computation graph and the arena that owns them.
//!
//! A node holds its value and its gradient as bit patterns of doubles. The
//! library stores and moves them; the embedding program computes them.

use vstd::prelude::*;
use crate::double::ZERO;

verus! {

/// A non-owning link to a node, compared by identity.
#[derive(Clone, Copy, Debug, PartialEq, Eq, Structural)]
pub struct Prev {
    pub id: usize,
}

/// A handle to a node of a [`Graph`]. Two handles with the same `id` denote
/// the same node and see each other's writes.
#[derive(Clone, Copy, Debug, PartialEq, Eq, Structural)]
pub struct Value {
    pub id: usize,
}

/// How a derived node was produced, and from which operands. This record is
/// what a backward pass dispatches on.
#[derive(Clone, Copy, Debug, PartialEq, Eq, Structural)]
pub enum Rule {
    Add { lhs: Prev, rhs: Prev },
    Sub { lhs: Prev, rhs: Prev },
    Mul { lhs: Prev, rhs: Prev },
    Pow { base: Prev, exponent: Prev },
    Relu { input: Prev },
}

/// The mathematical content of one node.
pub ghost struct Node {
    pub name: Seq<char>,
    pub data: u64,
    pub grad: u64,
    pub backward: Option<Rule>,
    pub prev: Seq<Prev>,
    pub op: Seq<char>,
}

/// The stored form of one node.
pub struct ValueInner {
    pub name: String,
    pub data: u64,
    pub grad: u64,
    pub backward: Option<Rule>,
    pub prev: Vec<Prev>,
    pub op: String,
}

/// The arena: nodes in the order of their creation. A node's `id` is its
/// position, and never changes.
pub struct Graph {
    nodes: Vec<ValueInner>,
}

/// The operands of `first` and `second` as a predecessor list: each distinct
/// node once, in the order of first use.
pub open spec fn distinct_pair(first: Prev, second: Prev) -> Seq<Prev> {
    if first == second {
        seq![first]
    } else {
        seq![first, second]
    }
}

impl Prev {
    /// The handle of the node that this link points to.
    pub fn value(&self) -> (v: Value)
        ensures
            v.id == self.id,
    {
        Value { id: self.id }
    }
}

impl Rule {
    /// The operand slots of the rule, left to right. A node that fills two
    /// slots is listed twice.
    pub open spec fn operands(self) -> Seq<Prev> {
        match self {
            Rule::Add { lhs, rhs } => seq![lhs, rhs],
            Rule::Sub { lhs, rhs } => seq![lhs, rhs],
            Rule::Mul { lhs, rhs } => seq![lhs, rhs],
            Rule::Pow { base, exponent } => seq![base, exponent],
            Rule::Relu { input } => seq![input],
        }
    }

    /// The predecessor list that goes with the rule: its operands, each
    /// distinct node once.
    pub open spec fn prev(self) -> Seq<Prev> {
        match self {
            Rule::Add { lhs, rhs } => distinct_pair(lhs, rhs),
            Rule::Sub { lhs, rhs } => distinct_pair(lhs, rhs),
            Rule::Mul { lhs, rhs } => distinct_pair(lhs, rhs),
            Rule::Pow { base, exponent } => distinct_pair(base, exponent),
            Rule::Relu { input } => seq![input],
        }
    }

    /// The operator label that goes with the rule.
    pub open spec fn label(self) -> Seq<char> {
        match self {
            Rule::Add { .. } => "+"@,
            Rule::Sub { .. } => "-"@,
            Rule::Mul { .. } => "*"@,
            Rule::Pow { .. } => "pow"@,
            Rule::Relu { .. } => "relu"@,
        }
    }
}

impl Node {
    /// A leaf: no rule, no predecessors, no operator label, gradient zero.
    pub open spec fn leaf(data: u64, name: Seq<char>) -> Node {
        Node { name, data, grad: ZERO, backward: None, prev: Seq::empty(), op: Seq::empty() }
    }

    /// The unnamed node that `rule` produces with value `data`.
    pub open spec fn derived(data: u64, rule: Rule) -> Node {
        Node {
            name: Seq::empty(),
            data,
            grad: ZERO,
            backward: Some(rule),
            prev: rule.prev(),
            op: rule.label(),
        }
    }

    /// Whether the node may stand at position `at`: its links point to older
    /// nodes only, and its predecessor list and label are those of its rule.
    pub open spec fn fits(self, at: int) -> bool {
        match self.backward {
            None => self.prev.len() == 0 && self.op.len() == 0,
            Some(rule) => {
                &&& self.prev == rule.prev()
                &&& self.op == rule.label()
                &&& forall|k: int|
                    0 <= k < rule.operands().len() ==> (#[trigger] rule.operands()[k]).id < at
            },
        }
    }
}

/// Every node links to older nodes only, so the links form no cycle.
pub open spec fn well_formed(nodes: Seq<Node>) -> bool {
    forall|i: int| 0 <= i < nodes.len() ==> (#[trigger] nodes[i]).fits(i)
}

impl View for ValueInner {
    type V = Node;

    open spec fn view(&self) -> Node {
        Node {
            name: self.name@,
            data: self.data,
            grad: self.grad,
            backward: self.backward,
            prev: self.prev@,
            op: self.op@,
        }
    }
}

impl ValueInner {
    /// An unnamed leaf that holds `val`.
    pub fn new(val: u64) -> (inner: ValueInner)
        ensures
            inner@ == Node::leaf(val, Seq::empty()),
    {
        ValueInner {
            name: String::new(),
            data: val,
            grad: ZERO,
            backward: None,
            prev: Vec::new(),
            op: String::new(),
        }
    }

    /// A leaf that holds `val` under the display name `name`.
    pub fn new_with_name(val: u64, name: String) -> (inner: ValueInner)
        ensures
            inner@ == Node::leaf(val, name@),
    {
        ValueInner {
            name,
            data: val,
            grad: ZERO,
            backward: None,
            prev: Vec::new(),
            op: String::new(),
        }
    }
}

impl View for Graph {
    type V = Seq<Node>;

    closed spec fn view(&self) -> Seq<Node> {
        Seq::new(self.nodes@.len(), |i: int| self.nodes@[i]@)
    }
}

impl Graph {
    /// Whether the arena is well formed. Every graph that this library hands
    /// out is.
    pub open spec fn wf(&self) -> bool {
        well_formed(self@)
    }

    /// Whether `v` denotes a node of this graph.
    pub open spec fn has(&self, v: Value) -> bool {
        v.id < self@.len()
    }

    /// The empty graph.
    pub fn new() -> (g: Graph)
        ensures
            g@ == Seq::<Node>::empty(),
            g.wf(),
    {
        let g = Graph { nodes: Vec::new() };
        assert(g@ =~= Seq::<Node>::empty());
        g
    }

    /// The number of nodes.
    pub fn len(&self) -> (n: usize)
        ensures
            n == self@.len(),
    {
        self.nodes.len()
    }

    /// The stored record of `v`.
    pub fn inner(&self, v: &Value) -> (inner: &ValueInner)
        requires
            self.has(*v),
        ensures
            inner@ == self@[v.id as int],
    {
        &self.nodes[v.id]
    }

    /// Appends `inner` and returns its handle.
    pub(crate) fn push(&mut self, inner: ValueInner) -> (v: Value)
        requires
            old(self).wf(),
            inner@.fits(old(self)@.len() as int),
        ensures
            final(self)@ == old(self)@.push(inner@),
            final(self).wf(),
            v.id == old(self)@.len(),
    {
        let id = self.nodes.len();
        self.nodes.push(inner);
        assert(self@ =~= old(self)@.push(inner@));
        Value { id }
    }

    /// Forgets every node from position `len` on. The nodes before it are
    /// untouched: none of them links to a node that is forgotten. Handles to
    /// forgotten nodes must not be used again.
    pub fn truncate(&mut self, len: usize)
        requires
            old(self).wf(),
        ensures
            final(self)@ == if len <= old(self)@.len() {
                old(self)@.take(len as int)
            } else {
                old(self)@
            },
            final(self).wf(),
    {
        self.nodes.truncate(len);
        assert(self@ =~= if len <= old(self)@.len() {
            old(self)@.take(len as int)
        } else {
            old(self)@
        });
        assert forall|i: int| 0 <= i < self@.len() implies (#[trigger] self@[i]).fits(i) by {
            assert(old(self)@[i].fits(i));
        }
    }
}

impl Value {
    /// Creates an unnamed leaf that holds `data`.
    pub fn new(g: &mut Graph, data: u64) -> (v: Value)
        requires
            old(g).wf(),
        ensures
            final(g)@ == old(g)@.push(Node::leaf(data, Seq::empty())),
            final(g).wf(),
            v.id == old(g)@.len(),
    {
        g.push(ValueInner::new(data))
    }

    /// Creates a leaf that holds `data` under the display name `name`.
    pub fn new_with_name(g: &mut Graph, data: u64, name: String) -> (v: Value)
        requires
            old(g).wf(),
        ensures
            final(g)@ == old(g)@.push(Node::leaf(data, name@)),
            final(g).wf(),
            v.id == old(g)@.len(),
    {
        g.push(ValueInner::new_with_name(data, name))
    }

    /// The node's current value.
    pub fn data(&self, g: &Graph) -> (data: u64)
        requires
            g.has(*self),
        ensures
            data == g@[self.id as int].data,
    {
        g.inner(self).data
    }

    /// Overwrites the node's value; nothing else in the graph changes. Nodes
    /// derived from this one keep the values they were created with.
    pub fn set_data(&self, g: &mut Graph, data: u64)
        requires
            old(g).has(*self),
        ensures
            final(g)@ == old(g)@.update(self.id as int, (Node { data, ..old(g)@[self.id as int] })),
            old(g).wf() ==> final(g).wf(),
    {
        g.nodes[self.id].data = data;
        assert(g@ =~= old(g)@.update(self.id as int, (Node { data, ..old(g)@[self.id as int] })));
        assert(old(g).wf() ==> g.wf()) by {
            if old(g).wf() {
                assert forall|i: int| 0 <= i < g@.len() implies (#[trigger] g@[i]).fits(i) by {
                    assert(old(g)@[i].fits(i));
                }
            }
        }
    }

    /// The node's current gradient.
    pub fn grad(&self, g: &Graph) -> (grad: u64)
        requires
            g.has(*self),
        ensures
            grad == g@[self.id as int].grad,
    {
        g.inner(self).grad
    }

    /// Overwrites the node's gradient; nothing else in the graph changes.
    pub fn set_grad(&self, g: &mut Graph, grad: u64)
        requires
            old(g).has(*self),
        ensures
            final(g)@ == old(g)@.update(self.id as int, (Node { grad, ..old(g)@[self.id as int] })),
            old(g).wf() ==> final(g).wf(),
    {
        g.nodes[self.id].grad = grad;
        assert(g@ =~= old(g)@.update(self.id as int, (Node { grad, ..old(g)@[self.id as int] })));
        assert(old(g).wf() ==> g.wf()) by {
            if old(g).wf() {
                assert forall|i: int| 0 <= i < g@.len() implies (#[trigger] g@[i]).fits(i) by {
                    assert(old(g)@[i].fits(i));
                }
            }
        }
    }
}

} // verus!
