//! Topological ordering of the graph below a node.
//!
//! The order is that of a depth-first walk along predecessor links: a node
//! is emitted once all its predecessors have been, so the sequence runs from
//! the leaves to the root.

use vstd::prelude::*;
use crate::value::{well_formed, Graph, Node, Value};

verus! {

/// Whether `to` can be reached from `from` along predecessor links, in zero
/// or more steps.
pub open spec fn reaches(nodes: Seq<Node>, from: usize, to: usize) -> bool
    decreases from,
{
    from == to || (from < nodes.len() && exists|k: int|
        0 <= k < nodes[from as int].prev.len() && (#[trigger] nodes[from as int].prev[k]).id < from
            && reaches(nodes, nodes[from as int].prev[k].id, to))
}

/// The walk at node `n`, with its first `k` predecessors done and `acc`
/// emitted so far: the remaining predecessors are walked in the order of the
/// predecessor list, each unless it was emitted already, and then `n` is
/// emitted.
pub open spec fn walk(nodes: Seq<Node>, n: usize, k: nat, acc: Seq<Value>) -> Seq<Value>
    decreases n, (if n < nodes.len() { nodes[n as int].prev.len() - k } else { 0 }),
{
    if n >= nodes.len() || k >= nodes[n as int].prev.len() {
        acc.push(Value { id: n })
    } else {
        let p = nodes[n as int].prev[k as int].id;
        let seen = if p < n && !acc.contains(Value { id: p }) {
            walk(nodes, p, 0, acc)
        } else {
            acc
        };
        walk(nodes, n, k + 1, seen)
    }
}

/// The walk that starts at `n` unless `n` was emitted already.
pub open spec fn visit(nodes: Seq<Node>, n: usize, acc: Seq<Value>) -> Seq<Value> {
    if acc.contains(Value { id: n }) {
        acc
    } else {
        walk(nodes, n, 0, acc)
    }
}

/// The topological order of the graph below `root`.
pub open spec fn topo_order(nodes: Seq<Node>, root: usize) -> Seq<Value> {
    walk(nodes, root, 0, Seq::empty())
}

/// Every entry of `order` is a node of the graph, and each of its
/// predecessors stands at an earlier position.
pub open spec fn predecessors_first(nodes: Seq<Node>, order: Seq<Value>) -> bool {
    forall|i: int|
        0 <= i < order.len() ==> {
            &&& (#[trigger] order[i]).id < nodes.len()
            &&& forall|k: int|
                0 <= k < nodes[order[i].id as int].prev.len() ==> order.take(i).contains(
                    Value { id: (#[trigger] nodes[order[i].id as int].prev[k]).id },
                )
        }
}

/// `marks[i]` says whether node `i` was emitted.
pub open spec fn marks_match(marks: Seq<bool>, order: Seq<Value>) -> bool {
    forall|i: int| 0 <= i < marks.len() ==> (#[trigger] marks[i] <==> order.contains(Value { id: i as usize }))
}

/// In a well-formed graph every predecessor is older than the node.
pub proof fn lemma_prev_older(nodes: Seq<Node>, n: usize, k: int)
    requires
        well_formed(nodes),
        n < nodes.len(),
        0 <= k < nodes[n as int].prev.len(),
    ensures
        nodes[n as int].prev[k].id < n,
{
    let node = nodes[n as int];
    assert(node.fits(n as int));
    let rule = node.backward->Some_0;
    assert(node.prev == rule.prev());
    assert(forall|j: int| 0 <= j < rule.operands().len() ==> (#[trigger] rule.operands()[j]).id < n);
    match rule {
        crate::value::Rule::Add { lhs, rhs } => {
            assert(rule.operands()[0] == lhs && rule.operands()[1] == rhs);
        },
        crate::value::Rule::Sub { lhs, rhs } => {
            assert(rule.operands()[0] == lhs && rule.operands()[1] == rhs);
        },
        crate::value::Rule::Mul { lhs, rhs } => {
            assert(rule.operands()[0] == lhs && rule.operands()[1] == rhs);
        },
        crate::value::Rule::Pow { base, exponent } => {
            assert(rule.operands()[0] == base && rule.operands()[1] == exponent);
        },
        crate::value::Rule::Relu { input } => {
            assert(rule.operands()[0] == input);
        },
    }
}

/// A node reaches only itself and older nodes.
pub proof fn lemma_reaches_older(nodes: Seq<Node>, from: usize, to: usize)
    requires
        reaches(nodes, from, to),
    ensures
        to <= from,
    decreases from,
{
    if from != to {
        let k = choose|k: int|
            0 <= k < nodes[from as int].prev.len() && (#[trigger] nodes[from as int].prev[k]).id < from
                && reaches(nodes, nodes[from as int].prev[k].id, to);
        lemma_reaches_older(nodes, nodes[from as int].prev[k].id, to);
    }
}

/// What a predecessor reaches, the node reaches.
pub proof fn lemma_reaches_through(nodes: Seq<Node>, n: usize, k: int, to: usize)
    requires
        well_formed(nodes),
        n < nodes.len(),
        0 <= k < nodes[n as int].prev.len(),
        reaches(nodes, nodes[n as int].prev[k].id, to),
    ensures
        reaches(nodes, n, to),
{
    lemma_prev_older(nodes, n, k);
}

/// An order in which predecessors come first holds, with a node, everything
/// that the node reaches.
pub proof fn lemma_closed(nodes: Seq<Node>, order: Seq<Value>, n: usize, to: usize)
    requires
        predecessors_first(nodes, order),
        order.contains(Value { id: n }),
        reaches(nodes, n, to),
    ensures
        order.contains(Value { id: to }),
    decreases n,
{
    if n != to {
        let k = choose|k: int|
            0 <= k < nodes[n as int].prev.len() && (#[trigger] nodes[n as int].prev[k]).id < n
                && reaches(nodes, nodes[n as int].prev[k].id, to);
        let p = nodes[n as int].prev[k].id;
        let i = order.index_of(Value { id: n });
        assert(order[i] == Value { id: n });
        assert(order.take(i).contains(Value { id: p }));
        let j = order.take(i).index_of(Value { id: p });
        assert(order[j] == Value { id: p });
        lemma_closed(nodes, order, p, to);
    }
}

/// What the walk at `n` yields when it starts from a sound list `acc` that
/// holds the first `k` predecessors of `n` but not `n`: a sound list that
/// extends `acc`, ends in `n`, and has gained only nodes that `n` reaches.
pub proof fn lemma_walk(nodes: Seq<Node>, n: usize, k: nat, acc: Seq<Value>)
    requires
        well_formed(nodes),
        n < nodes.len(),
        k <= nodes[n as int].prev.len(),
        predecessors_first(nodes, acc),
        acc.no_duplicates(),
        !acc.contains(Value { id: n }),
        forall|j: int| 0 <= j < k ==> acc.contains(Value { id: (#[trigger] nodes[n as int].prev[j]).id }),
    ensures
        predecessors_first(nodes, walk(nodes, n, k, acc)),
        walk(nodes, n, k, acc).no_duplicates(),
        acc.is_prefix_of(walk(nodes, n, k, acc)),
        walk(nodes, n, k, acc).len() > acc.len(),
        walk(nodes, n, k, acc).last() == (Value { id: n }),
        forall|x: Value| #[trigger]
            walk(nodes, n, k, acc).contains(x) ==> acc.contains(x) || reaches(nodes, n, x.id),
    decreases n, nodes[n as int].prev.len() - k,
{
    let out = walk(nodes, n, k, acc);
    let me = Value { id: n };
    if k >= nodes[n as int].prev.len() {
        assert(out == acc.push(me));
        assert forall|i: int| 0 <= i < out.len() implies {
            &&& (#[trigger] out[i]).id < nodes.len()
            &&& forall|j: int|
                0 <= j < nodes[out[i].id as int].prev.len() ==> out.take(i).contains(
                    Value { id: (#[trigger] nodes[out[i].id as int].prev[j]).id },
                )
        } by {
            if i < acc.len() {
                assert(out[i] == acc[i]);
                assert(out.take(i) =~= acc.take(i));
            } else {
                assert(out.take(i) =~= acc);
            }
        }
        assert forall|x: Value| #[trigger] out.contains(x) implies acc.contains(x) || reaches(
            nodes,
            n,
            x.id,
        ) by {
            let i = out.index_of(x);
            if i < acc.len() {
                assert(acc[i] == x);
            }
        }
    } else {
        let p = nodes[n as int].prev[k as int].id;
        lemma_prev_older(nodes, n, k as int);
        let seen = if !acc.contains(Value { id: p }) {
            walk(nodes, p, 0, acc)
        } else {
            acc
        };
        assert(out == walk(nodes, n, k + 1, seen));
        if !acc.contains(Value { id: p }) {
            lemma_walk(nodes, p, 0, acc);
            assert(seen.contains(Value { id: p })) by {
                assert(seen[seen.len() - 1] == Value { id: p });
            }
            assert(!seen.contains(me)) by {
                if seen.contains(me) {
                    lemma_reaches_older(nodes, p, n);
                }
            }
        }
        assert forall|j: int| 0 <= j < k + 1 implies seen.contains(
            Value { id: (#[trigger] nodes[n as int].prev[j]).id },
        ) by {
            if j < k {
                let q = Value { id: nodes[n as int].prev[j].id };
                let i = acc.index_of(q);
                assert(seen[i] == q);
            }
        }
        lemma_walk(nodes, n, (k + 1) as nat, seen);
        assert forall|x: Value| #[trigger] out.contains(x) implies acc.contains(x) || reaches(
            nodes,
            n,
            x.id,
        ) by {
            if !acc.contains(x) && seen.contains(x) {
                lemma_reaches_through(nodes, n, k as int, x.id);
            }
        }
    }
}

/// The topological order below a node of a well-formed graph lists each node
/// once and every predecessor before its node, ends in the root, and holds
/// exactly the nodes that the root reaches.
pub proof fn lemma_topo_order(nodes: Seq<Node>, root: usize)
    requires
        well_formed(nodes),
        root < nodes.len(),
    ensures
        topo_order(nodes, root).no_duplicates(),
        predecessors_first(nodes, topo_order(nodes, root)),
        topo_order(nodes, root).len() > 0,
        topo_order(nodes, root).last() == (Value { id: root }),
        forall|x: Value| #[trigger]
            topo_order(nodes, root).contains(x) <==> reaches(nodes, root, x.id),
{
    let order = topo_order(nodes, root);
    lemma_walk(nodes, root, 0, Seq::empty());
    assert(order.contains(Value { id: root })) by {
        assert(order[order.len() - 1] == Value { id: root });
    }
    assert forall|x: Value| #[trigger] order.contains(x) <==> reaches(nodes, root, x.id) by {
        if reaches(nodes, root, x.id) {
            lemma_closed(nodes, order, root, x.id);
        }
    }
}

impl Value {
    /// Extends `topo` by the walk from this node: nothing if the node is
    /// marked as emitted, else its predecessors that are not yet emitted,
    /// each with all that lies below it, and then the node.
    fn build_topo(&self, g: &Graph, topo: &mut Vec<Value>, visited: &mut Vec<bool>)
        requires
            g.wf(),
            g.has(*self),
            old(visited)@.len() == g@.len(),
            marks_match(old(visited)@, old(topo)@),
        ensures
            final(topo)@ == visit(g@, self.id, old(topo)@),
            final(visited)@.len() == g@.len(),
            marks_match(final(visited)@, final(topo)@),
        decreases self.id,
    {
        if visited[self.id] {
            return ;
        }
        let inner = g.inner(self);
        let count = inner.prev.len();
        let mut k: usize = 0;
        while k < count
            invariant
                g.wf(),
                g.has(*self),
                inner@ == g@[self.id as int],
                count == inner.prev@.len(),
                k <= count,
                visited@.len() == g@.len(),
                marks_match(visited@, topo@),
                walk(g@, self.id, k as nat, topo@) == walk(g@, self.id, 0, old(topo)@),
            decreases count - k,
        {
            let p = inner.prev[k].value();
            proof {
                lemma_prev_older(g@, self.id, k as int);
            }
            p.build_topo(g, topo, visited);
            k += 1;
        }
        let ghost emitted = topo@;
        let ghost marks = visited@;
        assert(visited@.len() == visited.len());
        topo.push(*self);
        visited[self.id] = true;
        proof {
            assert forall|i: int| 0 <= i < visited@.len() implies (#[trigger] visited@[i]
                <==> topo@.contains(Value { id: i as usize })) by {
                let v = Value { id: i as usize };
                if i == self.id {
                    assert(topo@[topo@.len() - 1] == v);
                } else {
                    assert(visited@[i] == marks[i]);
                    if emitted.contains(v) {
                        let j = emitted.index_of(v);
                        assert(topo@[j] == v);
                    }
                    if topo@.contains(v) {
                        let j = topo@.index_of(v);
                        assert(topo@[j] == v);
                        assert(topo@[emitted.len() as int] == *self);
                        assert(emitted[j] == v);
                    }
                }
            }
        }
    }

    /// The topological order of the graph below this node: every node that
    /// this one reaches, once, after all its predecessors; this node is last.
    pub fn topo_order(&self, g: &Graph) -> (order: Vec<Value>)
        requires
            g.wf(),
            g.has(*self),
        ensures
            order@ == topo_order(g@, self.id),
            order@.no_duplicates(),
            predecessors_first(g@, order@),
            order@.len() > 0,
            order@.last() == *self,
            forall|x: Value| #[trigger] order@.contains(x) <==> reaches(g@, self.id, x.id),
    {
        let mut topo: Vec<Value> = Vec::new();
        let mut visited: Vec<bool> = vec![false; g.len()];
        self.build_topo(g, &mut topo, &mut visited);
        proof {
            lemma_topo_order(g@, self.id);
        }
        topo
    }
}

} // verus!
