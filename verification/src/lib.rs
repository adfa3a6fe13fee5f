//! A reverse-mode automatic-differentiation engine over scalar values,
//! together with a small multilayer perceptron built on top of it.
//!
//! Scalars live in a fixed-point numeric domain with IEEE-style signed
//! infinities and a not-a-number marker (`scalar`). Computation graphs are
//! held in an append-only arena (`value`): a node's children always sit at
//! strictly smaller indices, which makes the graph acyclic by construction
//! and lets the index serve as the node's identity. The backward driver
//! walks a proved topological order in reverse, so every node's gradient
//! is final before it propagates to the node's children.

mod scalar;
mod value;
mod laws;
mod nn;

pub use scalar::Scalar;
pub use scalar::SCALE;
pub use scalar::TANH_SAT;
pub use scalar::add_s;
pub use scalar::sub_s;
pub use scalar::mul_s;
pub use scalar::div_s;
pub use scalar::relu_s;
pub use scalar::pow_s;
pub use scalar::tanh_s;
pub use scalar::pow_int_s;
pub use scalar::pow_frac_s;
pub use scalar::frac_pow;
pub use scalar::sqrt_sc;
pub use scalar::isqrt_s;
pub use scalar::isqrt_rec;
pub use scalar::tanh_fix;
pub use scalar::tanh_series;
pub use scalar::tanh_double;
pub use scalar::tanh_dbl;
pub use scalar::is_pos;
pub use scalar::sat;
pub use scalar::tdiv;
pub use scalar::mag;
pub use scalar::lemma_mul_one;
pub use scalar::unit_or_nan;
pub use scalar::lemma_tanh_unit;
pub use scalar::lemma_tanh_fix_bounds;

pub use value::Op;
pub use value::Val;
pub use value::Value;
pub use value::Graph;
pub use value::arity_ok;
pub use value::node_wf;
pub use value::wf;
pub use value::reach;
pub use value::reach_children;
pub use value::build_s;
pub use value::build_children;
pub use value::ordered;
pub use value::closed;
pub use value::sum_data;
pub use value::bump;
pub use value::bump_neg;
pub use value::sum_back;
pub use value::step;
pub use value::back_all;
pub use value::seeded;

pub use laws::lemma_shared_operand_accumulation;
pub use laws::lemma_relu_gate;
pub use laws::lemma_tanh_derivative;
pub use laws::lemma_relu_backward_pass;
pub use laws::lemma_tanh_backward_pass;

pub use nn::Neuron;
pub use nn::Layer;
pub use nn::MLP;
pub use nn::unit_range;
pub use nn::data_seq;
pub use nn::dot_d;
pub use nn::act;
pub use nn::neuron_eval;
pub use nn::neuron_has_param;
pub use nn::layer_eval;
pub use nn::layer_params;
pub use nn::layer_has_param;
pub use nn::mlp_eval_from;
pub use nn::mlp_accepts_from;
pub use nn::mlp_params;
pub use nn::mlp_has_param;
pub use nn::neuron_forward_shape;
pub use nn::layer_forward_shape;
pub use nn::mlp_forward_shape;
pub use nn::neuron_block_len;
pub use nn::block_start;
pub use nn::layer_region_len;
pub use nn::region_start;
pub use nn::layer_block_outs;
pub use nn::stage_inputs;
pub use nn::lemma_mlp_output_bounded;
