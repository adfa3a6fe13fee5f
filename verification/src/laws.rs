//! The engine's headline guarantees, stated over the graph model and
//! proved from the contracts of the scalar operations, the topological
//! builder and the backward driver.

use vstd::prelude::*;
use crate::scalar::Scalar;
use crate::scalar::SCALE;
use crate::scalar::add_s;
use crate::scalar::sub_s;
use crate::scalar::mul_s;
use crate::scalar::relu_s;
use crate::scalar::tanh_s;
use crate::scalar::is_pos;
use crate::scalar::lemma_mul_one;
use crate::value::Op;
use crate::value::Val;
use crate::value::Value;
use crate::value::wf;
use crate::value::node_wf;
use crate::value::build_s;
use crate::value::build_children;
use crate::value::bump;
use crate::value::step;
use crate::value::back_all;
use crate::value::seeded;
use crate::value::lemma_build_good;
use crate::value::lemma_build_within_reach;
use crate::value::lemma_reach_bound;
use crate::value::lemma_step_frame;
use crate::value::lemma_back_all_avoid;

verus! {

/// Gradient accumulation across shared operands: when the backward
/// root is a product whose two operands are the same node `a`, holding
/// finite data `d` and gradient zero, the whole pass leaves `a` with
/// gradient exactly `2 d` — each use of `a` contributes once, instead
/// of one contribution overwriting the other.
pub proof fn lemma_shared_operand_accumulation(nodes: Seq<Value>, c: Val, a: Val, d: i64)
    requires
        wf(nodes),
        c.0 < nodes.len(),
        nodes[c.0 as int].operation == Op::Mul,
        nodes[c.0 as int].previous@ == seq![a, a],
        nodes[a.0 as int].data == Scalar::Finite(d),
        nodes[a.0 as int].grad == Scalar::Finite(0),
        i64::MIN <= 2 * (d as int) <= i64::MAX,
    ensures
        back_all(
            seeded(nodes, c),
            build_s(nodes, c, Seq::<Val>::empty()).reverse(),
        )[a.0 as int].grad == Scalar::Finite((2 * d) as i64),
{
    let e = Seq::<Val>::empty();
    assert(node_wf(nodes, c.0 as int));
    assert(nodes[c.0 as int].previous@[0] == a);
    assert(nodes[c.0 as int].previous@[1] == a);
    assert(a.0 < c.0);

    // The order is the subtree below `a`, then `c` itself.
    let ta = build_s(nodes, a, e);
    lemma_build_good(nodes, a, e);
    assert(!e.contains(c));
    assert(build_children(nodes, c, 0, e) == e);
    assert(build_children(nodes, c, 1, e) == ta);
    assert(build_children(nodes, c, 2, e) == build_s(nodes, a, ta));
    assert(ta.contains(a));
    assert(build_s(nodes, a, ta) == ta);
    let topo = build_s(nodes, c, e);
    assert(topo == ta.push(c));

    // Reversed, `c` comes first and the subtree follows.
    let rev = topo.reverse();
    let rest = ta.reverse();
    assert(rev.len() == ta.len() + 1);
    assert(rev[0] == c);
    assert(rev.subrange(1, rev.len() as int) =~= rest);

    // Seeding touches only `c`.
    let s0 = seeded(nodes, c);
    assert(s0[a.0 as int] == nodes[a.0 as int]);
    assert(s0[c.0 as int].grad == Scalar::Finite(SCALE));
    assert forall|i: int| 0 <= i < s0.len() implies #[trigger] node_wf(s0, i) by {
        assert(node_wf(nodes, i));
    }

    // The root's step contributes `1 * d` twice into `a`.
    let delta = mul_s(Scalar::Finite(SCALE), Scalar::Finite(d));
    lemma_mul_one(d);
    assert(delta == Scalar::Finite(d));
    let s1 = step(s0, c);
    assert(s1 == bump(bump(s0, a, delta), a, delta));
    assert(bump(s0, a, delta)[a.0 as int].grad
        == add_s(Scalar::Finite(0), Scalar::Finite(d)));
    assert(add_s(Scalar::Finite(0), Scalar::Finite(d)) == Scalar::Finite(d));
    assert(s1[a.0 as int].grad == add_s(Scalar::Finite(d), Scalar::Finite(d)));
    assert(s1[a.0 as int].grad == Scalar::Finite((2 * d) as i64));

    // No node below `a` has `a` among its children, so the rest of the
    // pass leaves `a`'s gradient alone.
    lemma_step_frame(s0, c);
    assert(back_all(s0, rev) == back_all(s1, rest));
    assert forall|u: int| 0 <= u < rest.len()
        implies (#[trigger] rest[u]).0 < s1.len() by {
        assert(ta.contains(rest[u]));
        lemma_build_within_reach(nodes, a, e, rest[u]);
        lemma_reach_bound(nodes, a, rest[u]);
    }
    assert forall|u: int| 0 <= u < rest.len()
        implies !s1[(#[trigger] rest[u]).0 as int].previous@.contains(a) by {
        let w = rest[u];
        assert(ta.contains(w));
        lemma_build_within_reach(nodes, a, e, w);
        lemma_reach_bound(nodes, a, w);
        assert(node_wf(s1, w.0 as int));
        if s1[w.0 as int].previous@.contains(a) {
            let k = choose|k: int| 0 <= k < s1[w.0 as int].previous@.len()
                && s1[w.0 as int].previous@[k] == a;
            assert(s1[w.0 as int].previous@[k].0 < w.0);
            assert(false);
        }
    }
    lemma_back_all_avoid(s1, rest, a);
}

/// The rectification gate: a non-positive operand makes the rectified
/// output exactly zero and its backward step propagates nothing, while
/// a positive operand passes both the data and the gradient through
/// unchanged.
pub proof fn lemma_relu_gate(nodes: Seq<Value>, v: Val)
    requires
        wf(nodes),
        v.0 < nodes.len(),
        nodes[v.0 as int].operation == Op::Relu,
        nodes[v.0 as int].data
            == relu_s(nodes[nodes[v.0 as int].previous@[0].0 as int].data),
    ensures
        !is_pos(nodes[nodes[v.0 as int].previous@[0].0 as int].data) ==> {
            &&& nodes[v.0 as int].data == Scalar::Finite(0)
            &&& step(nodes, v) == nodes
        },
        is_pos(nodes[nodes[v.0 as int].previous@[0].0 as int].data) ==> {
            &&& nodes[v.0 as int].data
                == nodes[nodes[v.0 as int].previous@[0].0 as int].data
            &&& step(nodes, v)
                == bump(nodes, nodes[v.0 as int].previous@[0], nodes[v.0 as int].grad)
        },
{
    assert(node_wf(nodes, v.0 as int));
    let xd = nodes[nodes[v.0 as int].previous@[0].0 as int].data;
    match xd {
        Scalar::Nan => {},
        Scalar::Inf(_) => {},
        Scalar::Finite(_) => {},
    }
}

/// The tangent rule: the backward step of a tangent node multiplies
/// the gradient by one minus the square of the evaluated tangent, read
/// back from the node's stored output.
pub proof fn lemma_tanh_derivative(nodes: Seq<Value>, v: Val, xd: Scalar)
    requires
        wf(nodes),
        v.0 < nodes.len(),
        nodes[v.0 as int].operation == Op::Tanh,
        xd == nodes[nodes[v.0 as int].previous@[0].0 as int].data,
        nodes[v.0 as int].data == tanh_s(xd),
    ensures
        step(nodes, v) == bump(
            nodes,
            nodes[v.0 as int].previous@[0],
            mul_s(
                nodes[v.0 as int].grad,
                sub_s(Scalar::Finite(SCALE), mul_s(tanh_s(xd), tanh_s(xd))),
            ),
        ),
{
    assert(node_wf(nodes, v.0 as int));
}

/// Rectification is positive exactly when its operand is.
proof fn lemma_relu_keeps_sign(d: Scalar)
    ensures
        is_pos(relu_s(d)) == is_pos(d),
{
}

/// One is neutral for multiplication on every scalar.
proof fn lemma_mul_one_total(f: Scalar)
    ensures
        mul_s(Scalar::Finite(SCALE), f) == f,
{
    match f {
        Scalar::Finite(v) => lemma_mul_one(v),
        Scalar::Inf(_) => {},
        Scalar::Nan => {},
    }
}

/// A full backward pass through a rectification of a leaf: the leaf's
/// gradient becomes one when its data is positive and stays zero
/// otherwise, so no gradient flows into the non-positive side.
pub proof fn lemma_relu_backward_pass(nodes: Seq<Value>, x: Val, y: Val)
    requires
        wf(nodes),
        y.0 < nodes.len(),
        nodes[y.0 as int].operation == Op::Relu,
        nodes[y.0 as int].previous@ == seq![x],
        nodes[x.0 as int].operation == Op::Leaf,
        nodes[x.0 as int].grad == Scalar::Finite(0),
        nodes[y.0 as int].data == relu_s(nodes[x.0 as int].data),
    ensures
        back_all(
            seeded(nodes, y),
            build_s(nodes, y, Seq::<Val>::empty()).reverse(),
        )[x.0 as int].grad == (if is_pos(nodes[x.0 as int].data) {
            Scalar::Finite(SCALE)
        } else {
            Scalar::Finite(0)
        }),
{
    lemma_unary_of_leaf_order(nodes, x, y);
    assert(node_wf(nodes, y.0 as int));
    assert(nodes[y.0 as int].previous@[0] == x);
    assert(x.0 < y.0);
    let topo = build_s(nodes, y, Seq::<Val>::empty());
    let rev = topo.reverse();
    assert(rev =~= seq![y, x]);
    let s0 = seeded(nodes, y);
    assert(s0[x.0 as int] == nodes[x.0 as int]);
    let s1 = step(s0, y);
    lemma_relu_keeps_sign(nodes[x.0 as int].data);
    if is_pos(nodes[x.0 as int].data) {
        assert(s1 == bump(s0, x, Scalar::Finite(SCALE)));
        assert(s1[x.0 as int].grad
            == add_s(Scalar::Finite(0), Scalar::Finite(SCALE)));
    } else {
        assert(s1 == s0);
    }
    let s2 = step(s1, x);
    assert(s2 == s1);
    lemma_back_all_pair(s0, y, x);
}

/// A full backward pass through a tangent of a leaf: the leaf's
/// gradient becomes exactly one minus the square of the evaluated
/// tangent.
pub proof fn lemma_tanh_backward_pass(nodes: Seq<Value>, x: Val, y: Val)
    requires
        wf(nodes),
        y.0 < nodes.len(),
        nodes[y.0 as int].operation == Op::Tanh,
        nodes[y.0 as int].previous@ == seq![x],
        nodes[x.0 as int].operation == Op::Leaf,
        nodes[x.0 as int].grad == Scalar::Finite(0),
        nodes[y.0 as int].data == tanh_s(nodes[x.0 as int].data),
    ensures
        back_all(
            seeded(nodes, y),
            build_s(nodes, y, Seq::<Val>::empty()).reverse(),
        )[x.0 as int].grad == sub_s(
            Scalar::Finite(SCALE),
            mul_s(tanh_s(nodes[x.0 as int].data), tanh_s(nodes[x.0 as int].data)),
        ),
{
    lemma_unary_of_leaf_order(nodes, x, y);
    assert(node_wf(nodes, y.0 as int));
    assert(nodes[y.0 as int].previous@[0] == x);
    assert(x.0 < y.0);
    let topo = build_s(nodes, y, Seq::<Val>::empty());
    let rev = topo.reverse();
    assert(rev =~= seq![y, x]);
    let s0 = seeded(nodes, y);
    assert(s0[x.0 as int] == nodes[x.0 as int]);
    let t = tanh_s(nodes[x.0 as int].data);
    let factor = sub_s(Scalar::Finite(SCALE), mul_s(t, t));
    let s1 = step(s0, y);
    lemma_mul_one_total(factor);
    assert(s1 == bump(s0, x, factor));
    assert(s1[x.0 as int].grad == add_s(Scalar::Finite(0), factor));
    assert(add_s(Scalar::Finite(0), factor) == factor) by {
        match factor {
            Scalar::Finite(_) => {},
            Scalar::Inf(_) => {},
            Scalar::Nan => {},
        }
    }
    let s2 = step(s1, x);
    assert(s2 == s1);
    lemma_back_all_pair(s0, y, x);
}

/// The topological order of a single-operand node over a leaf is the
/// leaf, then the node.
proof fn lemma_unary_of_leaf_order(nodes: Seq<Value>, x: Val, y: Val)
    requires
        wf(nodes),
        y.0 < nodes.len(),
        nodes[y.0 as int].previous@ == seq![x],
        nodes[y.0 as int].previous@.len() == 1,
        nodes[x.0 as int].operation == Op::Leaf,
    ensures
        build_s(nodes, y, Seq::<Val>::empty()) == seq![x, y],
{
    let e = Seq::<Val>::empty();
    assert(node_wf(nodes, y.0 as int));
    assert(nodes[y.0 as int].previous@[0] == x);
    assert(x.0 < y.0);
    assert(node_wf(nodes, x.0 as int));
    assert(nodes[x.0 as int].previous@.len() == 0);
    assert(build_children(nodes, x, 0, e) == e);
    assert(build_s(nodes, x, e) == e.push(x));
    assert(build_children(nodes, y, 0, e) == e);
    assert(build_children(nodes, y, 1, e) == build_s(nodes, x, e));
    assert(build_s(nodes, y, e) == e.push(x).push(y));
    assert(e.push(x).push(y) =~= seq![x, y]);
}

/// Running a two-entry order is the two steps in sequence.
proof fn lemma_back_all_pair(nodes: Seq<Value>, first: Val, second: Val)
    ensures
        back_all(nodes, seq![first, second]) == step(step(nodes, first), second),
{
    let ord = seq![first, second];
    assert(ord.subrange(1, 2) =~= seq![second]);
    assert(seq![second].subrange(1, 1) =~= Seq::<Val>::empty());
    assert(back_all(step(step(nodes, first), second), Seq::<Val>::empty())
        == step(step(nodes, first), second));
    assert(back_all(step(nodes, first), seq![second])
        == back_all(step(step(nodes, first), second), seq![second].subrange(1, 1)));
    assert(back_all(nodes, ord) == back_all(step(nodes, first), ord.subrange(1, 2)));
}

} // verus!
