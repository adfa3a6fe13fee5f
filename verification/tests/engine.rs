use scalargrad::Graph;
use scalargrad::Scalar;
use scalargrad::Val;
use scalargrad::SCALE;

fn to_f64(s: Scalar) -> f64 {
    match s {
        Scalar::Finite(v) => v as f64 / SCALE as f64,
        Scalar::Inf(neg) => {
            if neg {
                f64::NEG_INFINITY
            } else {
                f64::INFINITY
            }
        }
        Scalar::Nan => f64::NAN,
    }
}

fn fin(num: i64, den: i64) -> Scalar {
    Scalar::Finite(num * SCALE / den)
}

/// The classical chain-rule example: every data and gradient value is
/// exact in the fixed-point grid.
#[test]
fn chain_rule_example() {
    let mut g = Graph::new();
    let a = g.leaf(fin(2, 1));
    let b = g.leaf(fin(-3, 1));
    let c = g.leaf(fin(10, 1));
    let f = g.leaf(fin(-2, 1));
    let e = a.mul(&mut g, b);
    let d = e.add(&mut g, c);
    let l = d.mul(&mut g, f);
    assert_eq!(g.data(e), fin(-6, 1));
    assert_eq!(g.data(d), fin(4, 1));
    assert_eq!(g.data(l), fin(-8, 1));
    l.backward(&mut g);
    assert_eq!(g.grad(l), fin(1, 1));
    assert_eq!(g.grad(d), fin(-2, 1));
    assert_eq!(g.grad(f), fin(4, 1));
    assert_eq!(g.grad(e), fin(-2, 1));
    assert_eq!(g.grad(c), fin(-2, 1));
    // dL/da = dL/de * b = (-2) * (-3)
    assert_eq!(g.grad(a), fin(6, 1));
    assert_eq!(g.grad(b), fin(-4, 1));
}

/// A node used twice accumulates both contributions.
#[test]
fn shared_node_diamond_accumulation() {
    let mut g = Graph::new();
    let a = g.leaf(fin(3, 1));
    let c = a.mul(&mut g, a);
    assert_eq!(g.data(c), fin(9, 1));
    c.backward(&mut g);
    assert_eq!(g.grad(a), fin(6, 1));
}

#[test]
fn shared_node_addition_accumulation() {
    let mut g = Graph::new();
    let a = g.leaf(fin(5, 4));
    let c = a.add(&mut g, a);
    c.backward(&mut g);
    assert_eq!(g.grad(a), fin(2, 1));
}

#[test]
fn relu_blocks_negative_input() {
    let mut g = Graph::new();
    let x = g.leaf(fin(-3, 2));
    let y = x.relu(&mut g);
    assert_eq!(g.data(y), Scalar::Finite(0));
    y.backward(&mut g);
    assert_eq!(g.grad(x), Scalar::Finite(0));
}

#[test]
fn relu_passes_positive_input() {
    let mut g = Graph::new();
    let x = g.leaf(fin(3, 2));
    let y = x.relu(&mut g);
    assert_eq!(g.data(y), fin(3, 2));
    y.backward(&mut g);
    assert_eq!(g.grad(x), fin(1, 1));
}

/// The tangent's backward factor is exactly one minus the square of
/// the stored output, and numerically close to the real derivative.
#[test]
fn tanh_derivative_at_point() {
    let mut g = Graph::new();
    let x = g.leaf(fin(1, 2));
    let y = x.tanh(&mut g);
    let t = g.data(y);
    y.backward(&mut g);
    let expected = Scalar::Finite(SCALE).sub(t.mul(t));
    assert_eq!(g.grad(x), expected);
    let want = 1.0 - 0.5f64.tanh().powi(2);
    assert!((to_f64(g.grad(x)) - want).abs() < 1e-4);
}

/// The topological order of a diamond: children strictly before
/// parents, every reachable node exactly once.
#[test]
fn topological_order_diamond() {
    let mut g = Graph::new();
    let a = g.leaf(fin(1, 1));
    let b = a.mul(&mut g, a);
    let c = b.add(&mut g, a);
    let topo = c.build_topology(&g);
    assert_eq!(topo, vec![a, b, c]);
}

#[test]
fn topological_order_skips_unreachable_nodes() {
    let mut g = Graph::new();
    let a = g.leaf(fin(1, 1));
    let _unused = g.leaf(fin(7, 1));
    let b = g.leaf(fin(2, 1));
    let c = a.add(&mut g, b);
    let topo = c.build_topology(&g);
    assert_eq!(topo, vec![a, b, c]);
}

/// Backward on a childless node only seeds its own gradient.
#[test]
fn backward_on_leaf_sets_seed() {
    let mut g = Graph::new();
    let a = g.leaf(fin(4, 1));
    a.backward(&mut g);
    assert_eq!(g.grad(a), fin(1, 1));
    assert_eq!(g.data(a), fin(4, 1));
}

/// Gradients accumulate across backward passes unless reset.
#[test]
fn backward_accumulates_without_reset() {
    let mut g = Graph::new();
    let a = g.leaf(fin(2, 1));
    let b = g.leaf(fin(3, 1));
    let c = a.mul(&mut g, b);
    c.backward(&mut g);
    assert_eq!(g.grad(a), fin(3, 1));
    c.backward(&mut g);
    assert_eq!(g.grad(a), fin(6, 1));
}

#[test]
fn sum_of_list() {
    let mut g = Graph::new();
    let a = g.leaf(fin(1, 1));
    let b = g.leaf(fin(2, 1));
    let c = g.leaf(fin(3, 1));
    let s = Val::sum(&mut g, &vec![a, b, c]);
    assert_eq!(g.data(s), fin(6, 1));
    s.backward(&mut g);
    assert_eq!(g.grad(a), fin(1, 1));
    assert_eq!(g.grad(b), fin(1, 1));
    assert_eq!(g.grad(c), fin(1, 1));
}

#[test]
fn sum_of_empty_list_is_zero_leaf() {
    let mut g = Graph::new();
    let s = Val::sum(&mut g, &vec![]);
    assert_eq!(g.data(s), Scalar::Finite(0));
    assert_eq!(g.previous_len(s), 0);
}

#[test]
fn sum_with_repeated_item_accumulates() {
    let mut g = Graph::new();
    let a = g.leaf(fin(5, 1));
    let s = Val::sum(&mut g, &vec![a, a]);
    assert_eq!(g.data(s), fin(10, 1));
    s.backward(&mut g);
    assert_eq!(g.grad(a), fin(2, 1));
}

#[test]
fn pow_records_exponent_as_leaf_child() {
    let mut g = Graph::new();
    let a = g.leaf(fin(3, 1));
    let p = a.pow(&mut g, fin(2, 1));
    assert_eq!(g.data(p), fin(9, 1));
    assert_eq!(g.previous_len(p), 2);
    let exponent = g.previous_at(p, 1);
    assert_eq!(g.data(exponent), fin(2, 1));
    p.backward(&mut g);
    // d(a^2)/da = 2 a = 6
    assert_eq!(g.grad(a), fin(6, 1));
}

#[test]
fn div_backward_quotient_rule() {
    let mut g = Graph::new();
    let a = g.leaf(fin(3, 1));
    let b = g.leaf(fin(2, 1));
    let q = a.div(&mut g, b);
    assert_eq!(g.data(q), fin(3, 2));
    q.backward(&mut g);
    // dq/da = 1/b = 0.5; dq/db = -a/b^2 = -0.75
    assert_eq!(g.grad(a), fin(1, 2));
    assert_eq!(g.grad(b), fin(-3, 4));
}

#[test]
fn division_by_zero_node_propagates_infinity() {
    let mut g = Graph::new();
    let a = g.leaf(fin(1, 1));
    let z = g.leaf(Scalar::Finite(0));
    let q = a.div(&mut g, z);
    assert_eq!(g.data(q), Scalar::Inf(false));
}

/// Central finite differences agree with the analytic backward
/// gradients for every differentiable operator, away from
/// singularities.
#[test]
fn finite_difference_matches_analytic_gradients() {
    let h = SCALE / 1024;
    let xs: i64 = (1.5 * SCALE as f64) as i64;
    let ys: i64 = (-2.25 * SCALE as f64) as i64;

    // (forward value, analytic gradient with respect to x)
    let cases: Vec<(&str, Box<dyn Fn(&mut Graph, Val, Val) -> Val>)> = vec![
        ("add", Box::new(|g: &mut Graph, x: Val, y: Val| x.add(g, y))),
        ("sub", Box::new(|g: &mut Graph, x: Val, y: Val| x.sub(g, y))),
        ("mul", Box::new(|g: &mut Graph, x: Val, y: Val| x.mul(g, y))),
        ("div", Box::new(|g: &mut Graph, x: Val, y: Val| x.div(g, y))),
        ("pow", Box::new(|g: &mut Graph, x: Val, _y: Val| x.pow(g, Scalar::Finite(2 * SCALE)))),
        ("relu", Box::new(|g: &mut Graph, x: Val, _y: Val| x.relu(g))),
        ("tanh", Box::new(|g: &mut Graph, x: Val, _y: Val| x.tanh(g))),
    ];

    for (name, build) in cases.iter() {
        // analytic gradient at (xs, ys)
        let mut g = Graph::new();
        let x = g.leaf(Scalar::Finite(xs));
        let y = g.leaf(Scalar::Finite(ys));
        let out = build(&mut g, x, y);
        out.backward(&mut g);
        let analytic = to_f64(g.grad(x));

        // central finite difference in x
        let mut gp = Graph::new();
        let xp = gp.leaf(Scalar::Finite(xs + h));
        let yp = gp.leaf(Scalar::Finite(ys));
        let op = build(&mut gp, xp, yp);
        let fp = to_f64(gp.data(op));

        let mut gm = Graph::new();
        let xm = gm.leaf(Scalar::Finite(xs - h));
        let ym = gm.leaf(Scalar::Finite(ys));
        let om = build(&mut gm, xm, ym);
        let fm = to_f64(gm.data(om));

        let estimate = (fp - fm) / (2.0 * h as f64 / SCALE as f64);
        assert!(
            (analytic - estimate).abs() < 1e-2,
            "{name}: analytic {analytic}, finite difference {estimate}"
        );
    }
}
