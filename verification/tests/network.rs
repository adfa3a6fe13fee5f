use scalargrad::Graph;
use scalargrad::Neuron;
use scalargrad::Layer;
use scalargrad::MLP;
use scalargrad::Scalar;
use scalargrad::SCALE;

fn fin(num: i64, den: i64) -> Scalar {
    Scalar::Finite(num * SCALE / den)
}

/// One neuron, one input, identity activation: weight one half, bias
/// zero, input three. Forward is 1.5; backward gives the weight the
/// input's data and the input the weight's data.
#[test]
fn single_neuron_identity_forward_backward() {
    let mut g = Graph::new();
    let n = Neuron::new(&mut g, 1, false, false);
    let params = n.parameters();
    assert_eq!(params.len(), 2);
    g.set_data(params[0], fin(1, 2)); // the weight
    g.set_data(params[1], Scalar::Finite(0)); // the bias
    let x = g.leaf(fin(3, 1));
    let out = n.forward(&mut g, &vec![x]).expect("widths match");
    assert_eq!(g.data(out), fin(3, 2));
    out.backward(&mut g);
    assert_eq!(g.grad(params[0]), fin(3, 1));
    assert_eq!(g.grad(x), fin(1, 2));
}

#[test]
fn neuron_rejects_mismatched_input_width() {
    let mut g = Graph::new();
    let n = Neuron::new(&mut g, 2, false, false);
    let x = g.leaf(fin(1, 1));
    assert!(n.forward(&mut g, &vec![x]).is_none());
    assert!(n.forward(&mut g, &vec![x, x, x]).is_none());
}

#[test]
fn neuron_initialization_is_in_unit_range() {
    let mut g = Graph::new();
    let n = Neuron::new(&mut g, 50, false, false);
    for p in n.parameters() {
        match g.data(p) {
            Scalar::Finite(v) => assert!(-SCALE <= v && v < SCALE),
            _ => panic!("parameters must be finite"),
        }
        assert_eq!(g.grad(p), Scalar::Finite(0));
    }
}

#[test]
fn layer_maps_every_neuron_over_the_input() {
    let mut g = Graph::new();
    let l = Layer::new(&mut g, 1, 3, false, false);
    for n in l.neurons.iter() {
        let ps = n.parameters();
        g.set_data(ps[0], fin(2, 1));
        g.set_data(ps[1], fin(1, 1));
    }
    let x = g.leaf(fin(3, 1));
    let outs = l.forward(&mut g, &vec![x]).expect("widths match");
    assert_eq!(outs.len(), 3);
    for o in outs.iter() {
        assert_eq!(g.data(*o), fin(7, 1));
    }
}

#[test]
fn layer_rejects_mismatched_input_width() {
    let mut g = Graph::new();
    let l = Layer::new(&mut g, 2, 3, false, false);
    let x = g.leaf(fin(1, 1));
    assert!(l.forward(&mut g, &vec![x]).is_none());
}

#[test]
fn mlp_threads_layers_and_bounds_output() {
    let mut g = Graph::new();
    let m = MLP::new(&mut g, 2, &vec![3, 1], true);
    let x0 = g.leaf(fin(1, 2));
    let x1 = g.leaf(fin(-1, 4));
    let outs = m.forward(&mut g, &vec![x0, x1]).expect("widths match");
    assert_eq!(outs.len(), 1);
    // the final layer applies the hyperbolic tangent: output in [-1, 1]
    match g.data(outs[0]) {
        Scalar::Finite(v) => assert!(-SCALE <= v && v <= SCALE),
        _ => panic!("output must be finite"),
    }
}

#[test]
fn mlp_rejects_mismatched_input_width() {
    let mut g = Graph::new();
    let m = MLP::new(&mut g, 3, &vec![2, 1], false);
    let x = g.leaf(fin(1, 1));
    assert!(m.forward(&mut g, &vec![x]).is_none());
}

/// Resetting gradients zeroes every parameter leaf, whatever each
/// held, and leaves data alone.
#[test]
fn zero_grad_resets_every_parameter() {
    let mut g = Graph::new();
    let m = MLP::new(&mut g, 2, &vec![4, 4, 1], false);
    let x0 = g.leaf(fin(1, 1));
    let x1 = g.leaf(fin(-2, 1));
    let outs = m.forward(&mut g, &vec![x0, x1]).expect("widths match");
    outs[0].backward(&mut g);
    let datas: Vec<Scalar> = m.parameters().iter().map(|p| g.data(*p)).collect();
    m.zero_grad(&mut g);
    for (i, p) in m.parameters().iter().enumerate() {
        assert_eq!(g.grad(*p), Scalar::Finite(0));
        assert_eq!(g.data(*p), datas[i]);
    }
}

#[test]
fn mlp_parameter_count() {
    let mut g = Graph::new();
    let m = MLP::new(&mut g, 3, &vec![4, 4, 1], false);
    // (3+1)*4 + (4+1)*4 + (4+1)*1 = 41
    assert_eq!(m.parameters().len(), 41);
}

/// One full training step on a single neuron reduces the squared
/// error of its prediction.
#[test]
fn gradient_step_reduces_loss() {
    let mut g = Graph::new();
    let n = Neuron::new(&mut g, 1, false, false);
    let params = n.parameters();
    g.set_data(params[0], fin(1, 4));
    g.set_data(params[1], Scalar::Finite(0));
    let x = g.leaf(fin(1, 1));
    let target = g.leaf(fin(1, 1));

    let pred = n.forward(&mut g, &vec![x]).expect("widths match");
    let err = pred.sub(&mut g, target);
    let loss = err.pow(&mut g, fin(2, 1));
    let before = g.data(loss);
    loss.backward(&mut g);

    let lr = fin(1, 10);
    for p in n.parameters() {
        let d = g.data(p);
        let gr = g.grad(p);
        g.set_data(p, d.sub(lr.mul(gr)));
    }

    let pred2 = n.forward(&mut g, &vec![x]).expect("widths match");
    let err2 = pred2.sub(&mut g, target);
    let loss2 = err2.pow(&mut g, fin(2, 1));
    let after = g.data(loss2);
    match (before, after) {
        (Scalar::Finite(b), Scalar::Finite(a)) => assert!(a < b),
        _ => panic!("losses must be finite"),
    }
}
