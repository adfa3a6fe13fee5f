//! The computation graph: scalar nodes held in an append-only arena,
//! the topological builder, and the reverse-mode backward driver.
//!
//! A node's children always sit at strictly smaller arena indices, so the
//! graph is acyclic by construction and the arena index itself serves as
//! the node's identity.

use vstd::prelude::*;
use crate::scalar::Scalar;
use crate::scalar::SCALE;
use crate::scalar::add_s;
use crate::scalar::sub_s;
use crate::scalar::mul_s;
use crate::scalar::div_s;
use crate::scalar::relu_s;
use crate::scalar::pow_s;
use crate::scalar::tanh_s;
use crate::scalar::is_pos;

verus! {

/// The primitive operation that produced a node; `Leaf` marks an
/// externally supplied value. The tag also carries the dispatch of the
/// local gradient rule in the backward driver.
#[derive(Clone, Copy, Debug, PartialEq, Eq, Structural)]
pub enum Op {
    /// An externally supplied value with no children.
    Leaf,
    /// Addition of the two children.
    Add,
    /// Subtraction: first child minus second child.
    Sub,
    /// Multiplication of the two children.
    Mul,
    /// Division: first child over second child.
    Div,
    /// First child raised to the constant exponent held by the second child.
    Pow,
    /// Rectification of the single child.
    Relu,
    /// Hyperbolic tangent of the single child.
    Tanh,
    /// Sum over all children.
    Sum,
}

/// A handle to a node: its index in the graph's arena. Two handles are
/// the same node exactly when the indices are equal, regardless of the
/// scalar data the nodes hold.
#[derive(Clone, Copy, Debug, PartialEq, Eq, Hash, Structural)]
pub struct Val(pub usize);

/// One node: its scalar result, its accumulated gradient, the operation
/// that produced it, and the operands it consumed, in rule order.
pub struct Value {
    /// The scalar result of this node's operation.
    pub data: Scalar,
    /// The accumulated partial derivative of the backward root with
    /// respect to `data`; zero until a backward pass reaches the node.
    pub grad: Scalar,
    /// The operation that produced this node.
    pub operation: Op,
    /// The operand nodes, each constructed strictly before this one.
    pub previous: Vec<Val>,
}

/// How many operands each operation consumes; the fold over a list may
/// consume any number.
pub open spec fn arity_ok(v: Value) -> bool {
    match v.operation {
        Op::Leaf => v.previous@.len() == 0,
        Op::Add | Op::Sub | Op::Mul | Op::Div | Op::Pow => v.previous@.len() == 2,
        Op::Relu | Op::Tanh => v.previous@.len() == 1,
        Op::Sum => true,
    }
}

/// Node `i` is well formed: its children were constructed strictly
/// before it, and their count fits its operation.
pub open spec fn node_wf(nodes: Seq<Value>, i: int) -> bool {
    &&& arity_ok(nodes[i])
    &&& forall|k: int| 0 <= k < nodes[i].previous@.len()
            ==> (#[trigger] nodes[i].previous@[k]).0 < i
}

/// Every node of the arena is well formed.
pub open spec fn wf(nodes: Seq<Value>) -> bool {
    forall|i: int| 0 <= i < nodes.len() ==> #[trigger] node_wf(nodes, i)
}

/// The set of nodes reachable from `v` along child edges, `v` included.
pub open spec fn reach(nodes: Seq<Value>, v: Val) -> Set<Val>
    decreases v.0 as int, 1int, 0int,
{
    reach_children(nodes, v, nodes[v.0 as int].previous@.len() as int).insert(v)
}

/// The union of the sets reachable from the first `k` children of `v`.
pub open spec fn reach_children(nodes: Seq<Value>, v: Val, k: int) -> Set<Val>
    decreases v.0 as int, 0int, k,
{
    if k <= 0 {
        Set::empty()
    } else {
        let c = nodes[v.0 as int].previous@[k - 1];
        reach_children(nodes, v, k - 1).union(
            if c.0 < v.0 { reach(nodes, c) } else { Set::empty() },
        )
    }
}

/// The topological builder as a fold: visiting `v` appends, after all of
/// `v`'s children have been visited, the node `v` itself, unless it is
/// already present.
pub open spec fn build_s(nodes: Seq<Value>, v: Val, acc: Seq<Val>) -> Seq<Val>
    decreases v.0 as int, 1int, 0int,
{
    if acc.contains(v) {
        acc
    } else {
        build_children(nodes, v, nodes[v.0 as int].previous@.len() as int, acc).push(v)
    }
}

/// Visit the first `k` children of `v`, in their listed order.
pub open spec fn build_children(nodes: Seq<Value>, v: Val, k: int, acc: Seq<Val>) -> Seq<Val>
    decreases v.0 as int, 0int, k,
{
    if k <= 0 {
        acc
    } else {
        let prev = build_children(nodes, v, k - 1, acc);
        let c = nodes[v.0 as int].previous@[k - 1];
        if c.0 < v.0 { build_s(nodes, c, prev) } else { prev }
    }
}

/// Every order entry is preceded by all children of its node: the
/// defining property of a topological order of the graph.
pub open spec fn ordered(nodes: Seq<Value>, topo: Seq<Val>) -> bool {
    forall|t: int, k: int|
        0 <= t < topo.len() && 0 <= k < nodes[topo[t].0 as int].previous@.len()
            ==> topo.take(t).contains(#[trigger] nodes[topo[t].0 as int].previous@[k])
}

/// Every member's children are members too.
pub open spec fn closed(nodes: Seq<Value>, topo: Seq<Val>) -> bool {
    forall|t: int, k: int|
        0 <= t < topo.len() && 0 <= k < nodes[topo[t].0 as int].previous@.len()
            ==> topo.contains(#[trigger] nodes[topo[t].0 as int].previous@[k])
}

/// The mark array mirrors membership in the order.
pub open spec fn vis_inv(vis: Seq<bool>, topo: Seq<Val>) -> bool {
    &&& forall|j: usize| (j as int) < vis.len()
            ==> ((#[trigger] vis[j as int]) <==> topo.contains(Val(j)))
    &&& forall|t: int| 0 <= t < topo.len() ==> (#[trigger] topo[t]).0 < vis.len()
}

/// Visiting extends the order: the accumulator stays a prefix.
proof fn lemma_build_extends(nodes: Seq<Value>, v: Val, acc: Seq<Val>)
    ensures
        acc.is_prefix_of(build_s(nodes, v, acc)),
    decreases v.0 as int, 1int, 0int,
{
    if !acc.contains(v) {
        lemma_build_children_extends(nodes, v, nodes[v.0 as int].previous@.len() as int, acc);
        assert(build_children(nodes, v, nodes[v.0 as int].previous@.len() as int, acc)
            .is_prefix_of(build_s(nodes, v, acc)));
        lemma_prefix_trans(
            acc,
            build_children(nodes, v, nodes[v.0 as int].previous@.len() as int, acc),
            build_s(nodes, v, acc),
        );
    }
}

/// Visiting children extends the order likewise.
proof fn lemma_build_children_extends(nodes: Seq<Value>, v: Val, k: int, acc: Seq<Val>)
    ensures
        acc.is_prefix_of(build_children(nodes, v, k, acc)),
    decreases v.0 as int, 0int, k,
{
    if k > 0 {
        let prev = build_children(nodes, v, k - 1, acc);
        lemma_build_children_extends(nodes, v, k - 1, acc);
        let c = nodes[v.0 as int].previous@[k - 1];
        if c.0 < v.0 {
            lemma_build_extends(nodes, c, prev);
            lemma_prefix_trans(acc, prev, build_s(nodes, c, prev));
        }
    }
}

/// Prefixes compose.
proof fn lemma_prefix_trans(a: Seq<Val>, b: Seq<Val>, c: Seq<Val>)
    requires
        a.is_prefix_of(b),
        b.is_prefix_of(c),
    ensures
        a.is_prefix_of(c),
{
    assert(a =~= c.take(a.len() as int));
}

/// A prefix keeps membership.
proof fn lemma_prefix_contains(a: Seq<Val>, b: Seq<Val>, x: Val)
    requires
        a.is_prefix_of(b),
        a.contains(x),
    ensures
        b.contains(x),
{
    let t = choose|t: int| 0 <= t < a.len() && a[t] == x;
    assert(b[t] == x);
}

/// Everything reachable from `v` sits at an index no larger than `v`'s.
pub proof fn lemma_reach_bound(nodes: Seq<Value>, v: Val, x: Val)
    requires
        reach(nodes, v).contains(x),
    ensures
        x.0 <= v.0,
    decreases v.0 as int, 1int, 0int,
{
    if x != v {
        lemma_reach_children_bound(nodes, v, nodes[v.0 as int].previous@.len() as int, x);
    }
}

/// The bound, for the union over the first `k` children.
proof fn lemma_reach_children_bound(nodes: Seq<Value>, v: Val, k: int, x: Val)
    requires
        reach_children(nodes, v, k).contains(x),
    ensures
        x.0 < v.0,
    decreases v.0 as int, 0int, k,
{
    if k > 0 {
        let c = nodes[v.0 as int].previous@[k - 1];
        if reach_children(nodes, v, k - 1).contains(x) {
            lemma_reach_children_bound(nodes, v, k - 1, x);
        } else {
            lemma_reach_bound(nodes, c, x);
        }
    }
}

/// What visiting adds is reachable: a new member of the order lies in
/// `reach(v)`.
pub proof fn lemma_build_within_reach(nodes: Seq<Value>, v: Val, acc: Seq<Val>, x: Val)
    requires
        wf(nodes),
        v.0 < nodes.len(),
        build_s(nodes, v, acc).contains(x),
        !acc.contains(x),
    ensures
        reach(nodes, v).contains(x),
    decreases v.0 as int, 1int, 0int,
{
    if !acc.contains(v) {
        let n = nodes[v.0 as int].previous@.len() as int;
        let body = build_children(nodes, v, n, acc);
        if x == v {
        } else {
            assert(body.push(v).contains(x));
            let t = choose|t: int| 0 <= t < body.push(v).len() && body.push(v)[t] == x;
            assert(body[t] == x);
            lemma_build_children_within_reach(nodes, v, n, acc, x);
        }
    }
}

/// The same, for the fold over the first `k` children.
proof fn lemma_build_children_within_reach(nodes: Seq<Value>, v: Val, k: int, acc: Seq<Val>, x: Val)
    requires
        wf(nodes),
        v.0 < nodes.len(),
        0 <= k <= nodes[v.0 as int].previous@.len(),
        build_children(nodes, v, k, acc).contains(x),
        !acc.contains(x),
    ensures
        reach_children(nodes, v, k).contains(x),
    decreases v.0 as int, 0int, k,
{
    if k > 0 {
        let prev = build_children(nodes, v, k - 1, acc);
        let c = nodes[v.0 as int].previous@[k - 1];
        assert(node_wf(nodes, v.0 as int));
        assert(c.0 < v.0);
        if prev.contains(x) {
            lemma_build_children_within_reach(nodes, v, k - 1, acc, x);
        } else {
            lemma_build_within_reach(nodes, c, prev, x);
        }
    }
}

/// If the accumulator is closed, every node reachable from a member is
/// itself a member.
proof fn lemma_closed_reach(nodes: Seq<Value>, topo: Seq<Val>, v: Val, x: Val)
    requires
        wf(nodes),
        v.0 < nodes.len(),
        closed(nodes, topo),
        topo.contains(v),
        reach(nodes, v).contains(x),
    ensures
        topo.contains(x),
    decreases v.0 as int, 1int, 0int,
{
    if x != v {
        lemma_closed_reach_children(nodes, topo, v, nodes[v.0 as int].previous@.len() as int, x);
    }
}

/// The same, for the union over the first `k` children.
proof fn lemma_closed_reach_children(nodes: Seq<Value>, topo: Seq<Val>, v: Val, k: int, x: Val)
    requires
        wf(nodes),
        v.0 < nodes.len(),
        0 <= k <= nodes[v.0 as int].previous@.len(),
        closed(nodes, topo),
        topo.contains(v),
        reach_children(nodes, v, k).contains(x),
    ensures
        topo.contains(x),
    decreases v.0 as int, 0int, k,
{
    if k > 0 {
        let c = nodes[v.0 as int].previous@[k - 1];
        if reach_children(nodes, v, k - 1).contains(x) {
            lemma_closed_reach_children(nodes, topo, v, k - 1, x);
        } else {
            assert(node_wf(nodes, v.0 as int));
            let t = choose|t: int| 0 <= t < topo.len() && topo[t] == v;
            assert(topo.contains(nodes[topo[t].0 as int].previous@[k - 1]));
            lemma_closed_reach(nodes, topo, c, x);
        }
    }
}

/// The builder's central invariant: starting from a closed, ordered,
/// duplicate-free accumulator, visiting keeps all three, covers
/// everything reachable from `v`, and stays within bounds.
pub proof fn lemma_build_good(nodes: Seq<Value>, v: Val, acc: Seq<Val>)
    requires
        wf(nodes),
        v.0 < nodes.len(),
        closed(nodes, acc),
        ordered(nodes, acc),
        acc.no_duplicates(),
        forall|t: int| 0 <= t < acc.len() ==> (#[trigger] acc[t]).0 < nodes.len(),
    ensures
        closed(nodes, build_s(nodes, v, acc)),
        ordered(nodes, build_s(nodes, v, acc)),
        build_s(nodes, v, acc).no_duplicates(),
        build_s(nodes, v, acc).contains(v),
        forall|x: Val| reach(nodes, v).contains(x) ==> build_s(nodes, v, acc).contains(x),
        forall|t: int| 0 <= t < build_s(nodes, v, acc).len()
            ==> (#[trigger] build_s(nodes, v, acc)[t]).0 < nodes.len(),
    decreases v.0 as int, 2int, 0int,
{
    let res = build_s(nodes, v, acc);
    if acc.contains(v) {
        assert forall|x: Val| reach(nodes, v).contains(x) implies res.contains(x) by {
            lemma_closed_reach(nodes, acc, v, x);
        }
    } else {
        let n = nodes[v.0 as int].previous@.len() as int;
        assert(node_wf(nodes, v.0 as int));
        lemma_build_children_good(nodes, v, n, acc);
        let body = build_children(nodes, v, n, acc);
        assert(res == body.push(v));
        // v is new: nothing in body is v, since old members were not v
        // and new members are reachable from a strict child.
        assert forall|t: int| 0 <= t < body.len() implies (#[trigger] body[t]) != v by {
            if acc.contains(body[t]) {
            } else {
                assert(body.contains(body[t]));
                lemma_build_children_within_reach(nodes, v, n, acc, body[t]);
                lemma_reach_children_bound(nodes, v, n, body[t]);
            }
        };
        // membership after push
        assert forall|x: Val| body.contains(x) implies res.contains(x) by {
            let t = choose|t: int| 0 <= t < body.len() && body[t] == x;
            assert(res[t] == x);
        };
        assert(res[body.len() as int] == v);
        assert(res.contains(v));
        // closed: the new entry's children are in body already
        assert forall|t: int, k: int|
            0 <= t < res.len() && 0 <= k < nodes[res[t].0 as int].previous@.len()
            implies res.contains(nodes[res[t].0 as int].previous@[k]) by {
            if t < body.len() {
                assert(body[t] == res[t]);
                assert(body.contains(nodes[body[t].0 as int].previous@[k]));
                let u = choose|u: int| 0 <= u < body.len()
                    && body[u] == nodes[body[t].0 as int].previous@[k];
                assert(res[u] == nodes[res[t].0 as int].previous@[k]);
            } else {
                assert(res[t] == v);
                let c = nodes[v.0 as int].previous@[k];
                assert(c.0 < v.0);
                assert(reach(nodes, c).contains(c));
                assert(body.contains(c));
                let u = choose|u: int| 0 <= u < body.len() && body[u] == c;
                assert(res[u] == c);
            }
        };
        // ordered: old entries keep their witnesses; v's children are in body
        assert forall|t: int, k: int|
            0 <= t < res.len() && 0 <= k < nodes[res[t].0 as int].previous@.len()
            implies res.take(t).contains(nodes[res[t].0 as int].previous@[k]) by {
            if t < body.len() {
                assert(body[t] == res[t]);
                assert(body.take(t).contains(nodes[body[t].0 as int].previous@[k]));
                let u = choose|u: int| 0 <= u < t
                    && body.take(t)[u] == nodes[body[t].0 as int].previous@[k];
                assert(res.take(t)[u] == nodes[res[t].0 as int].previous@[k]);
            } else {
                assert(res[t] == v);
                let c = nodes[v.0 as int].previous@[k];
                assert(c.0 < v.0);
                assert(body.contains(c));
                let u = choose|u: int| 0 <= u < body.len() && body[u] == c;
                assert(res.take(t)[u] == c);
            }
        };
        // no duplicates: body had none, and v is new
        assert forall|t1: int, t2: int| 0 <= t1 < t2 < res.len() implies res[t1] != res[t2] by {
            if t2 < body.len() {
                assert(body[t1] == res[t1] && body[t2] == res[t2]);
            } else {
                assert(res[t2] == v);
                assert(body[t1] != v);
            }
        };
        assert(res.no_duplicates());
        // reach coverage: each child's reach is covered, then kept by extension
        assert forall|x: Val| reach(nodes, v).contains(x) implies res.contains(x) by {
            if x == v {
            } else {
                lemma_reach_children_covered(nodes, v, n, acc, x);
                let t = choose|t: int| 0 <= t < body.len() && body[t] == x;
                assert(res[t] == x);
            }
        };
    }
}

/// The invariant, folded over the first `k` children.
proof fn lemma_build_children_good(nodes: Seq<Value>, v: Val, k: int, acc: Seq<Val>)
    requires
        wf(nodes),
        v.0 < nodes.len(),
        0 <= k <= nodes[v.0 as int].previous@.len(),
        closed(nodes, acc),
        ordered(nodes, acc),
        acc.no_duplicates(),
        forall|t: int| 0 <= t < acc.len() ==> (#[trigger] acc[t]).0 < nodes.len(),
    ensures
        closed(nodes, build_children(nodes, v, k, acc)),
        ordered(nodes, build_children(nodes, v, k, acc)),
        build_children(nodes, v, k, acc).no_duplicates(),
        forall|t: int| 0 <= t < build_children(nodes, v, k, acc).len()
            ==> (#[trigger] build_children(nodes, v, k, acc)[t]).0 < nodes.len(),
        forall|j: int, x: Val|
            0 <= j < k && reach(nodes, nodes[v.0 as int].previous@[j]).contains(x)
            ==> build_children(nodes, v, k, acc).contains(x),
    decreases v.0 as int, 0int, k,
{
    if k > 0 {
        lemma_build_children_good(nodes, v, k - 1, acc);
        let prev = build_children(nodes, v, k - 1, acc);
        let c = nodes[v.0 as int].previous@[k - 1];
        assert(node_wf(nodes, v.0 as int));
        assert(c.0 < v.0);
        lemma_build_good(nodes, c, prev);
        lemma_build_extends(nodes, c, prev);
        let res = build_children(nodes, v, k, acc);
        assert(res == build_s(nodes, c, prev));
        assert forall|j: int, x: Val|
            0 <= j < k && reach(nodes, nodes[v.0 as int].previous@[j]).contains(x)
            implies res.contains(x) by {
            if j < k - 1 {
                assert(prev.contains(x));
                lemma_prefix_contains(prev, res, x);
            }
        };
    }
}

/// Coverage restated: after all children are visited, each child's
/// reachable set is present.
proof fn lemma_reach_children_covered(nodes: Seq<Value>, v: Val, k: int, acc: Seq<Val>, x: Val)
    requires
        wf(nodes),
        v.0 < nodes.len(),
        0 <= k <= nodes[v.0 as int].previous@.len(),
        closed(nodes, acc),
        ordered(nodes, acc),
        acc.no_duplicates(),
        forall|t: int| 0 <= t < acc.len() ==> (#[trigger] acc[t]).0 < nodes.len(),
        reach_children(nodes, v, k).contains(x),
    ensures
        build_children(nodes, v, k, acc).contains(x),
    decreases v.0 as int, 1int, k,
{
    lemma_build_children_good(nodes, v, k, acc);
    lemma_reach_children_member(nodes, v, k, x);
}

/// A member of the children's union is reachable from one child.
proof fn lemma_reach_children_member(nodes: Seq<Value>, v: Val, k: int, x: Val)
    requires
        reach_children(nodes, v, k).contains(x),
    ensures
        exists|j: int| 0 <= j < k
            && #[trigger] reach(nodes, nodes[v.0 as int].previous@[j]).contains(x),
    decreases k,
{
    if k > 0 {
        if reach_children(nodes, v, k - 1).contains(x) {
            lemma_reach_children_member(nodes, v, k - 1, x);
        } else {
            assert(reach(nodes, nodes[v.0 as int].previous@[k - 1]).contains(x));
        }
    }
}

/// The fixed-point sum of the data of the first `k` listed nodes,
/// folded left from zero.
pub open spec fn sum_data(nodes: Seq<Value>, items: Seq<Val>, k: int) -> Scalar
    decreases k,
{
    if k <= 0 {
        Scalar::Finite(0)
    } else {
        add_s(sum_data(nodes, items, k - 1), nodes[items[k - 1].0 as int].data)
    }
}

/// The arena with the gradient of `c` increased by `delta`.
pub open spec fn bump(nodes: Seq<Value>, c: Val, delta: Scalar) -> Seq<Value> {
    nodes.update(c.0 as int, (Value {
        data: nodes[c.0 as int].data,
        grad: add_s(nodes[c.0 as int].grad, delta),
        operation: nodes[c.0 as int].operation,
        previous: nodes[c.0 as int].previous,
    }))
}

/// The arena with the gradient of `c` decreased by `delta`.
pub open spec fn bump_neg(nodes: Seq<Value>, c: Val, delta: Scalar) -> Seq<Value> {
    nodes.update(c.0 as int, (Value {
        data: nodes[c.0 as int].data,
        grad: sub_s(nodes[c.0 as int].grad, delta),
        operation: nodes[c.0 as int].operation,
        previous: nodes[c.0 as int].previous,
    }))
}

/// The fold rule's backward pass over the first `k` listed operands:
/// each receives the node's gradient once per occurrence.
pub open spec fn sum_back(nodes: Seq<Value>, cs: Seq<Val>, delta: Scalar, k: int) -> Seq<Value>
    decreases k,
{
    if k <= 0 {
        nodes
    } else {
        bump(sum_back(nodes, cs, delta, k - 1), cs[k - 1], delta)
    }
}

/// One backward step: node `v` distributes its accumulated gradient to
/// its children by its operation's local rule. Operand data is read
/// before any accumulation, and the two-operand rules accumulate into
/// the first operand first, so an operand used twice receives both
/// contributions.
pub open spec fn step(nodes: Seq<Value>, v: Val) -> Seq<Value> {
    let i = v.0 as int;
    let gr = nodes[i].grad;
    match nodes[i].operation {
        Op::Leaf => nodes,
        Op::Add => bump(bump(nodes, nodes[i].previous@[0], gr), nodes[i].previous@[1], gr),
        Op::Sub => bump_neg(bump(nodes, nodes[i].previous@[0], gr), nodes[i].previous@[1], gr),
        Op::Mul => {
            let d0 = nodes[nodes[i].previous@[0].0 as int].data;
            let d1 = nodes[nodes[i].previous@[1].0 as int].data;
            bump(
                bump(nodes, nodes[i].previous@[0], mul_s(gr, d1)),
                nodes[i].previous@[1],
                mul_s(gr, d0),
            )
        },
        Op::Div => {
            let d0 = nodes[nodes[i].previous@[0].0 as int].data;
            let d1 = nodes[nodes[i].previous@[1].0 as int].data;
            bump_neg(
                bump(nodes, nodes[i].previous@[0], div_s(gr, d1)),
                nodes[i].previous@[1],
                div_s(mul_s(gr, d0), mul_s(d1, d1)),
            )
        },
        Op::Pow => {
            let base = nodes[nodes[i].previous@[0].0 as int].data;
            let ex = nodes[nodes[i].previous@[1].0 as int].data;
            bump(
                nodes,
                nodes[i].previous@[0],
                mul_s(mul_s(ex, gr), pow_s(base, sub_s(ex, Scalar::Finite(SCALE)))),
            )
        },
        Op::Relu => if is_pos(nodes[i].data) {
            bump(nodes, nodes[i].previous@[0], gr)
        } else {
            nodes
        },
        Op::Tanh => bump(
            nodes,
            nodes[i].previous@[0],
            mul_s(gr, sub_s(Scalar::Finite(SCALE), mul_s(nodes[i].data, nodes[i].data))),
        ),
        Op::Sum => sum_back(nodes, nodes[i].previous@, gr, nodes[i].previous@.len() as int),
    }
}

/// The backward rules of a whole order, applied first to last.
pub open spec fn back_all(nodes: Seq<Value>, order: Seq<Val>) -> Seq<Value>
    decreases order.len(),
{
    if order.len() == 0 {
        nodes
    } else {
        back_all(step(nodes, order[0]), order.subrange(1, order.len() as int))
    }
}

/// The arena after seeding the gradient of the backward root with one.
pub open spec fn seeded(nodes: Seq<Value>, r: Val) -> Seq<Value> {
    nodes.update(r.0 as int, (Value {
        data: nodes[r.0 as int].data,
        grad: Scalar::Finite(SCALE),
        operation: nodes[r.0 as int].operation,
        previous: nodes[r.0 as int].previous,
    }))
}

/// The fold rule's pass touches only gradients of listed operands.
proof fn lemma_sum_back_frame(nodes: Seq<Value>, cs: Seq<Val>, delta: Scalar, k: int)
    requires
        0 <= k <= cs.len(),
        forall|j: int| 0 <= j < cs.len() ==> (#[trigger] cs[j]).0 < nodes.len(),
    ensures
        sum_back(nodes, cs, delta, k).len() == nodes.len(),
        forall|i: int| 0 <= i < nodes.len() ==> {
            &&& (#[trigger] sum_back(nodes, cs, delta, k)[i]).data == nodes[i].data
            &&& sum_back(nodes, cs, delta, k)[i].operation == nodes[i].operation
            &&& sum_back(nodes, cs, delta, k)[i].previous == nodes[i].previous
        },
    decreases k,
{
    if k > 0 {
        lemma_sum_back_frame(nodes, cs, delta, k - 1);
    }
}

/// A node that is not among the listed operands keeps its gradient.
proof fn lemma_sum_back_avoid(nodes: Seq<Value>, cs: Seq<Val>, delta: Scalar, k: int, x: Val)
    requires
        0 <= k <= cs.len(),
        forall|j: int| 0 <= j < cs.len() ==> (#[trigger] cs[j]).0 < nodes.len(),
        x.0 < nodes.len(),
        forall|j: int| 0 <= j < k ==> (#[trigger] cs[j]) != x,
    ensures
        sum_back(nodes, cs, delta, k)[x.0 as int].grad == nodes[x.0 as int].grad,
    decreases k,
{
    if k > 0 {
        lemma_sum_back_avoid(nodes, cs, delta, k - 1, x);
        lemma_sum_back_frame(nodes, cs, delta, k - 1);
    }
}

/// A backward step leaves lengths, data, operations and children as
/// they were, and so preserves well-formedness.
pub proof fn lemma_step_frame(nodes: Seq<Value>, v: Val)
    requires
        wf(nodes),
        v.0 < nodes.len(),
    ensures
        step(nodes, v).len() == nodes.len(),
        forall|i: int| 0 <= i < nodes.len() ==> {
            &&& (#[trigger] step(nodes, v)[i]).data == nodes[i].data
            &&& step(nodes, v)[i].operation == nodes[i].operation
            &&& step(nodes, v)[i].previous == nodes[i].previous
        },
        wf(step(nodes, v)),
{
    assert(node_wf(nodes, v.0 as int));
    match nodes[v.0 as int].operation {
        Op::Sum => {
            lemma_sum_back_frame(
                nodes,
                nodes[v.0 as int].previous@,
                nodes[v.0 as int].grad,
                nodes[v.0 as int].previous@.len() as int,
            );
        },
        _ => {},
    }
    assert forall|i: int| 0 <= i < step(nodes, v).len() implies #[trigger] node_wf(step(nodes, v), i) by {
        assert(node_wf(nodes, i));
    }
}

/// A node that is no child of `v` keeps its gradient across `v`'s step.
proof fn lemma_step_avoid(nodes: Seq<Value>, v: Val, x: Val)
    requires
        wf(nodes),
        v.0 < nodes.len(),
        x.0 < nodes.len(),
        !nodes[v.0 as int].previous@.contains(x),
    ensures
        step(nodes, v)[x.0 as int].grad == nodes[x.0 as int].grad,
{
    assert(node_wf(nodes, v.0 as int));
    let prevs = nodes[v.0 as int].previous@;
    assert forall|j: int| 0 <= j < prevs.len() implies (#[trigger] prevs[j]) != x by {
        assert(prevs.contains(prevs[j]));
    }
    match nodes[v.0 as int].operation {
        Op::Sum => {
            lemma_sum_back_avoid(nodes, prevs, nodes[v.0 as int].grad, prevs.len() as int, x);
        },
        _ => {},
    }
}

/// A whole pass leaves lengths, data, operations and children as they
/// were, and preserves well-formedness.
pub proof fn lemma_back_all_frame(nodes: Seq<Value>, order: Seq<Val>)
    requires
        wf(nodes),
        forall|t: int| 0 <= t < order.len() ==> (#[trigger] order[t]).0 < nodes.len(),
    ensures
        back_all(nodes, order).len() == nodes.len(),
        forall|i: int| 0 <= i < nodes.len() ==> {
            &&& (#[trigger] back_all(nodes, order)[i]).data == nodes[i].data
            &&& back_all(nodes, order)[i].operation == nodes[i].operation
            &&& back_all(nodes, order)[i].previous == nodes[i].previous
        },
        wf(back_all(nodes, order)),
    decreases order.len(),
{
    if order.len() > 0 {
        lemma_step_frame(nodes, order[0]);
        lemma_back_all_frame(step(nodes, order[0]), order.subrange(1, order.len() as int));
    }
}

/// A node that is no child of any order entry keeps its gradient
/// across the whole pass.
pub proof fn lemma_back_all_avoid(nodes: Seq<Value>, order: Seq<Val>, x: Val)
    requires
        wf(nodes),
        forall|t: int| 0 <= t < order.len() ==> (#[trigger] order[t]).0 < nodes.len(),
        x.0 < nodes.len(),
        forall|t: int| 0 <= t < order.len()
            ==> !nodes[(#[trigger] order[t]).0 as int].previous@.contains(x),
    ensures
        back_all(nodes, order)[x.0 as int].grad == nodes[x.0 as int].grad,
    decreases order.len(),
{
    if order.len() > 0 {
        lemma_step_frame(nodes, order[0]);
        lemma_step_avoid(nodes, order[0], x);
        lemma_back_all_avoid(step(nodes, order[0]), order.subrange(1, order.len() as int), x);
    }
}

/// Appending a node to an order appends its step to the pass.
pub proof fn lemma_back_all_push(nodes: Seq<Value>, order: Seq<Val>, x: Val)
    ensures
        back_all(nodes, order.push(x)) == step(back_all(nodes, order), x),
    decreases order.len(),
{
    if order.len() == 0 {
        assert(order.push(x)[0] == x);
        assert(order.push(x).subrange(1, order.push(x).len() as int) =~= Seq::<Val>::empty());
        assert(back_all(step(nodes, x), Seq::<Val>::empty()) == step(nodes, x));
        assert(back_all(nodes, Seq::<Val>::empty()) == nodes);
    } else {
        assert(order.push(x)[0] == order[0]);
        assert(order.push(x).subrange(1, (order.len() + 1) as int)
            =~= order.subrange(1, order.len() as int).push(x));
        lemma_back_all_push(step(nodes, order[0]), order.subrange(1, order.len() as int), x);
    }
}

/// The arena holding a computation graph. Nodes are only ever appended,
/// and a node's children precede it, so the graph cannot hold a cycle.
pub struct Graph {
    nodes: Vec<Value>,
}

impl View for Graph {
    type V = Seq<Value>;

    closed spec fn view(&self) -> Seq<Value> {
        self.nodes@
    }
}

impl Graph {
    /// The whole arena is well formed.
    pub open spec fn wf(&self) -> bool {
        wf(self@)
    }

    /// An empty graph.
    pub fn new() -> (g: Graph)
        ensures
            g@ == Seq::<Value>::empty(),
            g.wf(),
    {
        Graph { nodes: Vec::new() }
    }

    /// The number of nodes held.
    pub fn len(&self) -> (n: usize)
        ensures
            n == self@.len(),
    {
        self.nodes.len()
    }

    /// The scalar result held by `v`.
    pub fn data(&self, v: Val) -> (r: Scalar)
        requires
            v.0 < self@.len(),
        ensures
            r == self@[v.0 as int].data,
    {
        self.nodes[v.0].data
    }

    /// The accumulated gradient of `v`.
    pub fn grad(&self, v: Val) -> (r: Scalar)
        requires
            v.0 < self@.len(),
        ensures
            r == self@[v.0 as int].grad,
    {
        self.nodes[v.0].grad
    }

    /// The operation that produced `v`.
    pub fn operation(&self, v: Val) -> (r: Op)
        requires
            v.0 < self@.len(),
        ensures
            r == self@[v.0 as int].operation,
    {
        self.nodes[v.0].operation
    }

    /// How many operands `v` consumed.
    pub fn previous_len(&self, v: Val) -> (n: usize)
        requires
            v.0 < self@.len(),
        ensures
            n == self@[v.0 as int].previous@.len(),
    {
        self.nodes[v.0].previous.len()
    }

    /// The operand of `v` at position `k`.
    pub fn previous_at(&self, v: Val, k: usize) -> (c: Val)
        requires
            v.0 < self@.len(),
            k < self@[v.0 as int].previous@.len(),
        ensures
            c == self@[v.0 as int].previous@[k as int],
    {
        self.nodes[v.0].previous[k]
    }

    /// Overwrite the scalar held by `v`: the training loop's parameter
    /// update. Only a leaf may change its data after construction;
    /// derived nodes are immutable but for their gradient.
    pub fn set_data(&mut self, v: Val, d: Scalar)
        requires
            v.0 < old(self)@.len(),
            old(self)@[v.0 as int].operation == Op::Leaf,
        ensures
            final(self)@.len() == old(self)@.len(),
            forall|i: int| 0 <= i < old(self)@.len() && i != v.0 as int
                ==> final(self)@[i] == old(self)@[i],
            final(self)@[v.0 as int].data == d,
            final(self)@[v.0 as int].grad == old(self)@[v.0 as int].grad,
            final(self)@[v.0 as int].operation == old(self)@[v.0 as int].operation,
            final(self)@[v.0 as int].previous == old(self)@[v.0 as int].previous,
            old(self).wf() ==> final(self).wf(),
    {
        self.nodes[v.0].data = d;
        proof {
            if wf(old(self)@) {
                assert forall|i: int| 0 <= i < self@.len() implies #[trigger] node_wf(self@, i) by {
                    assert(node_wf(old(self)@, i));
                }
            }
        }
    }

    /// Overwrite the gradient of `v`: the backward seed and the
    /// gradient reset use this.
    pub fn set_grad(&mut self, v: Val, gr: Scalar)
        requires
            v.0 < old(self)@.len(),
        ensures
            final(self)@.len() == old(self)@.len(),
            forall|i: int| 0 <= i < old(self)@.len() && i != v.0 as int
                ==> final(self)@[i] == old(self)@[i],
            final(self)@[v.0 as int].grad == gr,
            final(self)@[v.0 as int].data == old(self)@[v.0 as int].data,
            final(self)@[v.0 as int].operation == old(self)@[v.0 as int].operation,
            final(self)@[v.0 as int].previous == old(self)@[v.0 as int].previous,
            old(self).wf() ==> final(self).wf(),
    {
        self.nodes[v.0].grad = gr;
        proof {
            if wf(old(self)@) {
                assert forall|i: int| 0 <= i < self@.len() implies #[trigger] node_wf(self@, i) by {
                    assert(node_wf(old(self)@, i));
                }
            }
        }
    }

    /// Append a freshly built node with zero gradient.
    fn push_node(&mut self, data: Scalar, operation: Op, previous: Vec<Val>) -> (r: Val)
        requires
            old(self).wf(),
            forall|k: int| 0 <= k < previous@.len()
                ==> (#[trigger] previous@[k]).0 < old(self)@.len(),
            arity_ok((Value {
                data,
                grad: Scalar::Finite(0),
                operation,
                previous,
            })),
        ensures
            final(self).wf(),
            r.0 == old(self)@.len(),
            final(self)@ == old(self)@.push((Value {
                data,
                grad: Scalar::Finite(0),
                operation,
                previous,
            })),
    {
        let r = Val(self.nodes.len());
        self.nodes.push(Value { data, grad: Scalar::Finite(0), operation, previous });
        proof {
            assert forall|i: int| 0 <= i < self@.len() implies #[trigger] node_wf(self@, i) by {
                if i < old(self)@.len() {
                    assert(node_wf(old(self)@, i));
                }
            }
        }
        r
    }

    /// A leaf node holding an externally supplied value, with zero
    /// gradient and no children.
    pub fn leaf(&mut self, data: Scalar) -> (r: Val)
        requires
            old(self).wf(),
        ensures
            final(self).wf(),
            r.0 == old(self)@.len(),
            final(self)@.len() == old(self)@.len() + 1,
            forall|i: int| 0 <= i < old(self)@.len() ==> final(self)@[i] == old(self)@[i],
            final(self)@[r.0 as int].data == data,
            final(self)@[r.0 as int].grad == Scalar::Finite(0),
            final(self)@[r.0 as int].operation == Op::Leaf,
            final(self)@[r.0 as int].previous@ == Seq::<Val>::empty(),
    {
        self.push_node(data, Op::Leaf, Vec::new())
    }

    /// Accumulate `delta` into the gradient of `c`.
    fn add_grad(&mut self, c: Val, delta: Scalar)
        requires
            c.0 < old(self)@.len(),
        ensures
            final(self)@ == bump(old(self)@, c, delta),
    {
        let cur = self.nodes[c.0].grad;
        self.nodes[c.0].grad = cur.add(delta);
        proof {
            assert(self@ =~= bump(old(self)@, c, delta));
        }
    }

    /// Take `delta` out of the gradient of `c`.
    fn sub_grad(&mut self, c: Val, delta: Scalar)
        requires
            c.0 < old(self)@.len(),
        ensures
            final(self)@ == bump_neg(old(self)@, c, delta),
    {
        let cur = self.nodes[c.0].grad;
        self.nodes[c.0].grad = cur.sub(delta);
        proof {
            assert(self@ =~= bump_neg(old(self)@, c, delta));
        }
    }

    /// Run one node's local gradient rule.
    fn apply_rule(&mut self, v: Val)
        requires
            old(self).wf(),
            v.0 < old(self)@.len(),
        ensures
            final(self)@ == step(old(self)@, v),
            final(self).wf(),
            final(self)@.len() == old(self)@.len(),
    {
        proof {
            assert(node_wf(self@, v.0 as int));
            lemma_step_frame(old(self)@, v);
        }
        let op = self.nodes[v.0].operation;
        let gr = self.nodes[v.0].grad;
        match op {
            Op::Leaf => {},
            Op::Add => {
                let c0 = self.nodes[v.0].previous[0];
                let c1 = self.nodes[v.0].previous[1];
                self.add_grad(c0, gr);
                self.add_grad(c1, gr);
            },
            Op::Sub => {
                let c0 = self.nodes[v.0].previous[0];
                let c1 = self.nodes[v.0].previous[1];
                self.add_grad(c0, gr);
                self.sub_grad(c1, gr);
            },
            Op::Mul => {
                let c0 = self.nodes[v.0].previous[0];
                let c1 = self.nodes[v.0].previous[1];
                let d0 = self.nodes[c0.0].data;
                let d1 = self.nodes[c1.0].data;
                self.add_grad(c0, gr.mul(d1));
                self.add_grad(c1, gr.mul(d0));
            },
            Op::Div => {
                let c0 = self.nodes[v.0].previous[0];
                let c1 = self.nodes[v.0].previous[1];
                let d0 = self.nodes[c0.0].data;
                let d1 = self.nodes[c1.0].data;
                self.add_grad(c0, gr.div(d1));
                self.sub_grad(c1, gr.mul(d0).div(d1.mul(d1)));
            },
            Op::Pow => {
                let c0 = self.nodes[v.0].previous[0];
                let c1 = self.nodes[v.0].previous[1];
                let base = self.nodes[c0.0].data;
                let ex = self.nodes[c1.0].data;
                self.add_grad(c0, ex.mul(gr).mul(base.pow(ex.sub(Scalar::one()))));
            },
            Op::Relu => {
                let c0 = self.nodes[v.0].previous[0];
                let d = self.nodes[v.0].data;
                if d.is_positive() {
                    self.add_grad(c0, gr);
                }
            },
            Op::Tanh => {
                let c0 = self.nodes[v.0].previous[0];
                let t = self.nodes[v.0].data;
                self.add_grad(c0, gr.mul(Scalar::one().sub(t.mul(t))));
            },
            Op::Sum => {
                let ghost nodes0 = self@;
                let ghost cs = self@[v.0 as int].previous@;
                let n = self.nodes[v.0].previous.len();
                let mut k: usize = 0;
                while k < n
                    invariant
                        v.0 < nodes0.len(),
                        k <= n,
                        n == cs.len(),
                        cs == nodes0[v.0 as int].previous@,
                        forall|j: int| 0 <= j < cs.len()
                            ==> (#[trigger] cs[j]).0 < nodes0.len(),
                        self@ == sum_back(nodes0, cs, gr, k as int),
                    decreases n - k,
                {
                    proof {
                        lemma_sum_back_frame(nodes0, cs, gr, k as int);
                    }
                    let c = self.nodes[v.0].previous[k];
                    self.add_grad(c, gr);
                    proof {
                        assert(self@ =~= sum_back(nodes0, cs, gr, (k + 1) as int));
                    }
                    k = k + 1;
                }
            },
        }
    }
}

impl Val {
    /// Depth-first visit: after all of this node's children are in the
    /// order, append the node itself, unless it is already present.
    fn build_into(self, g: &Graph, visited: &mut Vec<bool>, topo: &mut Vec<Val>)
        requires
            g.wf(),
            self.0 < g@.len(),
            old(visited)@.len() == g@.len(),
            vis_inv(old(visited)@, old(topo)@),
        ensures
            final(visited)@.len() == g@.len(),
            vis_inv(final(visited)@, final(topo)@),
            final(topo)@ == build_s(g@, self, old(topo)@),
        decreases self.0,
    {
        let i = self.0;
        if !visited[i] {
            let ghost t0 = topo@;
            let n = self.children_count(g);
            let mut k: usize = 0;
            while k < n
                invariant
                    g.wf(),
                    self.0 < g@.len(),
                    i == self.0,
                    n == g@[i as int].previous@.len(),
                    k <= n,
                    visited@.len() == g@.len(),
                    vis_inv(visited@, topo@),
                    topo@ == build_children(g@, self, k as int, t0),
                decreases n - k,
            {
                let c = g.previous_at(self, k);
                proof {
                    assert(node_wf(g@, i as int));
                }
                c.build_into(g, visited, topo);
                k = k + 1;
            }
            visited.set(i, true);
            topo.push(self);
            proof {
                assert(!t0.contains(self));
                assert(topo@ == build_children(g@, self, n as int, t0).push(self));
                assert forall|j: usize| (j as int) < visited@.len()
                    implies ((#[trigger] visited@[j as int]) <==> topo@.contains(Val(j))) by {
                    let body = build_children(g@, self, n as int, t0);
                    if j == i {
                        assert(topo@[body.len() as int] == self);
                        assert(topo@.contains(self));
                    } else {
                        if body.contains(Val(j)) {
                            let u = choose|u: int| 0 <= u < body.len()
                                && body[u] == Val(j);
                            assert(topo@[u] == Val(j));
                        }
                        if topo@.contains(Val(j)) {
                            let u = choose|u: int| 0 <= u < topo@.len()
                                && topo@[u] == Val(j);
                            assert(topo@.len() == body.len() + 1);
                            if u == body.len() as int {
                                assert(topo@[u] == self);
                                assert(false);
                            }
                            assert(u < body.len());
                            assert(body[u] == Val(j));
                        }
                    }
                }
            }
        }
    }

    /// How many operands this node consumed.
    fn children_count(self, g: &Graph) -> (n: usize)
        requires
            self.0 < g@.len(),
        ensures
            n == g@[self.0 as int].previous@.len(),
    {
        g.previous_len(self)
    }

    /// The topological order of the subgraph reachable from `self`:
    /// every node's children appear strictly before it, and the order
    /// holds exactly the reachable nodes, each once.
    pub fn build_topology(self, g: &Graph) -> (topo: Vec<Val>)
        requires
            g.wf(),
            self.0 < g@.len(),
        ensures
            topo@ == build_s(g@, self, Seq::<Val>::empty()),
            topo@.no_duplicates(),
            ordered(g@, topo@),
            forall|x: Val| topo@.contains(x) <==> reach(g@, self).contains(x),
            forall|t: int| 0 <= t < topo@.len() ==> (#[trigger] topo@[t]).0 < g@.len(),
            topo@.len() > 0 && topo@.last() == self,
    {
        let n = g.len();
        let mut visited: Vec<bool> = Vec::new();
        let mut j: usize = 0;
        while j < n
            invariant
                j <= n,
                visited@.len() == j,
                forall|t: int| 0 <= t < j ==> !(#[trigger] visited@[t]),
            decreases n - j,
        {
            visited.push(false);
            j = j + 1;
        }
        let mut topo: Vec<Val> = Vec::new();
        self.build_into(g, &mut visited, &mut topo);
        proof {
            lemma_build_good(g@, self, Seq::<Val>::empty());
            assert forall|x: Val| topo@.contains(x) implies reach(g@, self).contains(x) by {
                lemma_build_within_reach(g@, self, Seq::<Val>::empty(), x);
            }
            assert(reach(g@, self).contains(self));
            let body = build_children(g@, self, g@[self.0 as int].previous@.len() as int,
                Seq::<Val>::empty());
            assert(topo@ == body.push(self));
            assert(topo@.last() == self);
        }
        topo
    }

    /// Reverse-mode pass: build the topological order from `self`, seed
    /// this root's gradient with one, and run each node's local rule in
    /// reverse order, so a node's own gradient is final before it
    /// propagates to its children. Data, operations and children are
    /// untouched; the root's gradient ends at exactly one.
    pub fn backward(self, g: &mut Graph)
        requires
            old(g).wf(),
            self.0 < old(g)@.len(),
        ensures
            final(g).wf(),
            final(g)@ == back_all(
                seeded(old(g)@, self),
                build_s(old(g)@, self, Seq::<Val>::empty()).reverse(),
            ),
            final(g)@.len() == old(g)@.len(),
            forall|i: int| 0 <= i < old(g)@.len() ==> {
                &&& (#[trigger] final(g)@[i]).data == old(g)@[i].data
                &&& final(g)@[i].operation == old(g)@[i].operation
                &&& final(g)@[i].previous == old(g)@[i].previous
            },
            final(g)@[self.0 as int].grad == Scalar::Finite(SCALE),
    {
        let topo = self.build_topology(g);
        g.set_grad(self, Scalar::one());
        let ghost s0 = g@;
        proof {
            assert(s0 =~= seeded(old(g)@, self));
            assert forall|i: int| 0 <= i < s0.len() implies #[trigger] node_wf(s0, i) by {
                assert(node_wf(old(g)@, i));
            }
        }
        let mut t: usize = topo.len();
        while t > 0
            invariant
                g.wf(),
                t <= topo@.len(),
                s0.len() == old(g)@.len(),
                wf(s0),
                forall|u: int| 0 <= u < topo@.len() ==> (#[trigger] topo@[u]).0 < s0.len(),
                g@ == back_all(s0, topo@.subrange(t as int, topo@.len() as int).reverse()),
                g@.len() == s0.len(),
            decreases t,
        {
            let v = topo[t - 1];
            proof {
                let done = topo@.subrange(t as int, topo@.len() as int).reverse();
                let more = topo@.subrange(t - 1, topo@.len() as int).reverse();
                assert(more =~= done.push(v));
                lemma_back_all_push(s0, done, v);
                assert forall|u: int| 0 <= u < done.len()
                    implies (#[trigger] done[u]).0 < s0.len() by {
                }
                lemma_back_all_frame(s0, done);
            }
            g.apply_rule(v);
            t = t - 1;
        }
        proof {
            assert(topo@.subrange(0, topo@.len() as int) =~= topo@);
            let ord = topo@.reverse();
            assert forall|u: int| 0 <= u < ord.len()
                implies (#[trigger] ord[u]).0 < s0.len() by {
            }
            lemma_back_all_frame(s0, ord);
            assert forall|u: int| 0 <= u < ord.len()
                implies !s0[(#[trigger] ord[u]).0 as int].previous@.contains(self) by {
                let w = ord[u];
                assert(node_wf(s0, w.0 as int));
                assert(topo@.contains(w));
                lemma_build_within_reach(old(g)@, self, Seq::<Val>::empty(), w);
                lemma_reach_bound(old(g)@, self, w);
                if s0[w.0 as int].previous@.contains(self) {
                    let k = choose|k: int| 0 <= k < s0[w.0 as int].previous@.len()
                        && s0[w.0 as int].previous@[k] == self;
                    assert(s0[w.0 as int].previous@[k].0 < w.0);
                    assert(false);
                }
            }
            lemma_back_all_avoid(s0, ord, self);
        }
    }

    /// The addition node: data is the fixed-point sum; backward sends
    /// the gradient to both operands unchanged.
    pub fn add(self, g: &mut Graph, other: Val) -> (r: Val)
        requires
            old(g).wf(),
            self.0 < old(g)@.len(),
            other.0 < old(g)@.len(),
        ensures
            final(g).wf(),
            r.0 == old(g)@.len(),
            final(g)@.len() == old(g)@.len() + 1,
            forall|i: int| 0 <= i < old(g)@.len() ==> final(g)@[i] == old(g)@[i],
            final(g)@[r.0 as int].data
                == add_s(old(g)@[self.0 as int].data, old(g)@[other.0 as int].data),
            final(g)@[r.0 as int].grad == Scalar::Finite(0),
            final(g)@[r.0 as int].operation == Op::Add,
            final(g)@[r.0 as int].previous@ == seq![self, other],
    {
        let d = g.data(self).add(g.data(other));
        let mut prev: Vec<Val> = Vec::new();
        prev.push(self);
        prev.push(other);
        let r = g.push_node(d, Op::Add, prev);
        proof {
            assert(g@[r.0 as int].previous@ =~= seq![self, other]);
        }
        r
    }

    /// The subtraction node: `self` minus `other`; backward adds the
    /// gradient into the first operand and takes it out of the second.
    pub fn sub(self, g: &mut Graph, other: Val) -> (r: Val)
        requires
            old(g).wf(),
            self.0 < old(g)@.len(),
            other.0 < old(g)@.len(),
        ensures
            final(g).wf(),
            r.0 == old(g)@.len(),
            final(g)@.len() == old(g)@.len() + 1,
            forall|i: int| 0 <= i < old(g)@.len() ==> final(g)@[i] == old(g)@[i],
            final(g)@[r.0 as int].data
                == sub_s(old(g)@[self.0 as int].data, old(g)@[other.0 as int].data),
            final(g)@[r.0 as int].grad == Scalar::Finite(0),
            final(g)@[r.0 as int].operation == Op::Sub,
            final(g)@[r.0 as int].previous@ == seq![self, other],
    {
        let d = g.data(self).sub(g.data(other));
        let mut prev: Vec<Val> = Vec::new();
        prev.push(self);
        prev.push(other);
        let r = g.push_node(d, Op::Sub, prev);
        proof {
            assert(g@[r.0 as int].previous@ =~= seq![self, other]);
        }
        r
    }

    /// The multiplication node; backward gives each operand the
    /// gradient times the other operand's data.
    pub fn mul(self, g: &mut Graph, other: Val) -> (r: Val)
        requires
            old(g).wf(),
            self.0 < old(g)@.len(),
            other.0 < old(g)@.len(),
        ensures
            final(g).wf(),
            r.0 == old(g)@.len(),
            final(g)@.len() == old(g)@.len() + 1,
            forall|i: int| 0 <= i < old(g)@.len() ==> final(g)@[i] == old(g)@[i],
            final(g)@[r.0 as int].data
                == mul_s(old(g)@[self.0 as int].data, old(g)@[other.0 as int].data),
            final(g)@[r.0 as int].grad == Scalar::Finite(0),
            final(g)@[r.0 as int].operation == Op::Mul,
            final(g)@[r.0 as int].previous@ == seq![self, other],
    {
        let d = g.data(self).mul(g.data(other));
        let mut prev: Vec<Val> = Vec::new();
        prev.push(self);
        prev.push(other);
        let r = g.push_node(d, Op::Mul, prev);
        proof {
            assert(g@[r.0 as int].previous@ =~= seq![self, other]);
        }
        r
    }

    /// The division node: `self` over `other`; backward follows the
    /// quotient rule.
    pub fn div(self, g: &mut Graph, other: Val) -> (r: Val)
        requires
            old(g).wf(),
            self.0 < old(g)@.len(),
            other.0 < old(g)@.len(),
        ensures
            final(g).wf(),
            r.0 == old(g)@.len(),
            final(g)@.len() == old(g)@.len() + 1,
            forall|i: int| 0 <= i < old(g)@.len() ==> final(g)@[i] == old(g)@[i],
            final(g)@[r.0 as int].data
                == div_s(old(g)@[self.0 as int].data, old(g)@[other.0 as int].data),
            final(g)@[r.0 as int].grad == Scalar::Finite(0),
            final(g)@[r.0 as int].operation == Op::Div,
            final(g)@[r.0 as int].previous@ == seq![self, other],
    {
        let d = g.data(self).div(g.data(other));
        let mut prev: Vec<Val> = Vec::new();
        prev.push(self);
        prev.push(other);
        let r = g.push_node(d, Op::Div, prev);
        proof {
            assert(g@[r.0 as int].previous@ =~= seq![self, other]);
        }
        r
    }

    /// The power node: `self` raised to the constant exponent `n`,
    /// which is recorded as a second, non-trainable leaf child; the
    /// backward rule reads it back from there.
    pub fn pow(self, g: &mut Graph, n: Scalar) -> (r: Val)
        requires
            old(g).wf(),
            self.0 < old(g)@.len(),
        ensures
            final(g).wf(),
            final(g)@.len() == old(g)@.len() + 2,
            forall|i: int| 0 <= i < old(g)@.len() ==> final(g)@[i] == old(g)@[i],
            final(g)@[old(g)@.len() as int].data == n,
            final(g)@[old(g)@.len() as int].grad == Scalar::Finite(0),
            final(g)@[old(g)@.len() as int].operation == Op::Leaf,
            r.0 == old(g)@.len() + 1,
            final(g)@[r.0 as int].data == pow_s(old(g)@[self.0 as int].data, n),
            final(g)@[r.0 as int].grad == Scalar::Finite(0),
            final(g)@[r.0 as int].operation == Op::Pow,
            final(g)@[r.0 as int].previous@
                == seq![self, Val(old(g)@.len() as usize)],
    {
        let e = g.leaf(n);
        let d = g.data(self).pow(n);
        let mut prev: Vec<Val> = Vec::new();
        prev.push(self);
        prev.push(e);
        let r = g.push_node(d, Op::Pow, prev);
        proof {
            assert(g@[r.0 as int].previous@ =~= seq![self, Val(old(g)@.len() as usize)]);
        }
        r
    }

    /// The rectification node; backward passes the gradient through
    /// exactly when the rectified output is positive.
    pub fn relu(self, g: &mut Graph) -> (r: Val)
        requires
            old(g).wf(),
            self.0 < old(g)@.len(),
        ensures
            final(g).wf(),
            r.0 == old(g)@.len(),
            final(g)@.len() == old(g)@.len() + 1,
            forall|i: int| 0 <= i < old(g)@.len() ==> final(g)@[i] == old(g)@[i],
            final(g)@[r.0 as int].data == relu_s(old(g)@[self.0 as int].data),
            final(g)@[r.0 as int].grad == Scalar::Finite(0),
            final(g)@[r.0 as int].operation == Op::Relu,
            final(g)@[r.0 as int].previous@ == seq![self],
    {
        let d = g.data(self).relu();
        let mut prev: Vec<Val> = Vec::new();
        prev.push(self);
        let r = g.push_node(d, Op::Relu, prev);
        proof {
            assert(g@[r.0 as int].previous@ =~= seq![self]);
        }
        r
    }

    /// The hyperbolic tangent node; backward multiplies the gradient
    /// by one minus the square of the stored output.
    pub fn tanh(self, g: &mut Graph) -> (r: Val)
        requires
            old(g).wf(),
            self.0 < old(g)@.len(),
        ensures
            final(g).wf(),
            r.0 == old(g)@.len(),
            final(g)@.len() == old(g)@.len() + 1,
            forall|i: int| 0 <= i < old(g)@.len() ==> final(g)@[i] == old(g)@[i],
            final(g)@[r.0 as int].data == tanh_s(old(g)@[self.0 as int].data),
            final(g)@[r.0 as int].grad == Scalar::Finite(0),
            final(g)@[r.0 as int].operation == Op::Tanh,
            final(g)@[r.0 as int].previous@ == seq![self],
    {
        let d = g.data(self).tanh();
        let mut prev: Vec<Val> = Vec::new();
        prev.push(self);
        let r = g.push_node(d, Op::Tanh, prev);
        proof {
            assert(g@[r.0 as int].previous@ =~= seq![self]);
        }
        r
    }

    /// The fold node: the fixed-point sum over all listed nodes, each
    /// of which receives the gradient once per occurrence in backward.
    /// An empty list gives a childless node holding zero.
    pub fn sum(g: &mut Graph, items: &Vec<Val>) -> (r: Val)
        requires
            old(g).wf(),
            forall|j: int| 0 <= j < items@.len()
                ==> (#[trigger] items@[j]).0 < old(g)@.len(),
        ensures
            final(g).wf(),
            r.0 == old(g)@.len(),
            final(g)@.len() == old(g)@.len() + 1,
            forall|i: int| 0 <= i < old(g)@.len() ==> final(g)@[i] == old(g)@[i],
            final(g)@[r.0 as int].data
                == sum_data(old(g)@, items@, items@.len() as int),
            final(g)@[r.0 as int].grad == Scalar::Finite(0),
            final(g)@[r.0 as int].operation == Op::Sum,
            final(g)@[r.0 as int].previous@ == items@,
    {
        let n = items.len();
        let mut acc = Scalar::Finite(0);
        let mut prev: Vec<Val> = Vec::new();
        let mut k: usize = 0;
        while k < n
            invariant
                k <= n,
                n == items@.len(),
                g.wf(),
                g@ == old(g)@,
                forall|j: int| 0 <= j < items@.len()
                    ==> (#[trigger] items@[j]).0 < g@.len(),
                acc == sum_data(g@, items@, k as int),
                prev@ == items@.take(k as int),
            decreases n - k,
        {
            let it = items[k];
            acc = acc.add(g.data(it));
            prev.push(it);
            proof {
                assert(prev@ =~= items@.take((k + 1) as int));
            }
            k = k + 1;
        }
        proof {
            assert(prev@ =~= items@);
        }
        let r = g.push_node(acc, Op::Sum, prev);
        r
    }
}

} // verus!
