//! The layers of a model: the names of their tensors, and what each layer is like.

use vstd::prelude::*;

use crate::config::{ConfigView, ModelConfig, DEFAULT_HEAD_DIM};
use crate::text::{decimal, decimal_text, law_decimal_writes_the_number, written_number};

verus! {

/// The name of a tensor of a layer.
pub open spec fn layer_tensor(layer: nat, part: Seq<char>) -> Seq<char> {
    "blk."@ + decimal(layer) + "."@ + part + ".weight"@
}

/// The name of a tensor of a layer.
pub fn layer_tensor_name(layer: usize, part: &str) -> (name: String)
    ensures
        name@ == layer_tensor(layer as nat, part@),
{
    let mut name: String = "blk.".to_owned();
    let number: String = decimal_text(layer as u64);
    name.append(number.as_str());
    name.append(".");
    name.append(part);
    name.append(".weight");
    name
}

/// The layer whose keys and values a layer attends to. The last `shared` layers of a model
/// take those of the first ones, in order; every other layer has its own.
pub open spec fn kv_source(layer: nat, layers: nat, shared: nat) -> nat {
    if layer >= layers - shared {
        (layer - (layers - shared)) as nat
    } else {
        layer
    }
}

/// The layer whose keys and values a layer attends to.
pub fn kv_source_layer(layer: usize, layers: usize, shared: usize) -> (source: usize)
    requires
        shared <= layers,
    ensures
        source == kv_source(layer as nat, layers as nat, shared as nat),
{
    let own: usize = layers - shared;
    if layer >= own {
        layer - own
    } else {
        layer
    }
}

/// The source of a layer is a layer of the model, and not one behind it.
pub proof fn law_source_is_a_layer(layer: nat, layers: nat, shared: nat)
    requires
        layer < layers,
        shared <= layers,
    ensures
        kv_source(layer, layers, shared) <= layer,
        kv_source(layer, layers, shared) < layers,
{
}

/// What a layer attends to is kept by a layer that has its own keys and values, as long as
/// the layers that share find one each among those that do not.
pub proof fn law_sources_have_their_own(layer: nat, layers: nat, shared: nat)
    requires
        layer < layers,
        shared <= layers,
        layer < 2 * (layers - shared),
    ensures
        ({
            let source = kv_source(layer, layers, shared);
            source < layers - shared && kv_source(source, layers, shared) == source
        }),
{
}

/// The width of a head: the second dimension of its normalization, or the only one, or the
/// usual width where there is no normalization.
pub open spec fn head_width(norm_dims: Option<Seq<usize>>) -> usize {
    match norm_dims {
        Some(dims) => if dims.len() > 1 {
            dims[1]
        } else {
            dims[0]
        },
        None => DEFAULT_HEAD_DIM,
    }
}

/// Whether a layer attends to a window only. A layer that the pattern does not reach does.
pub open spec fn slides(pattern: Seq<bool>, layer: nat) -> bool {
    layer >= pattern.len() || pattern[layer as int]
}

/// What a layer is like, beside its weights. The frequency is the bits of a 32-bit float.
#[derive(Debug, Clone, Copy, PartialEq, Eq, Structural)]
pub struct LayerPlan {
    pub head_dim: usize,
    pub n_head: usize,
    pub n_kv_head: usize,
    pub q_dim: usize,
    pub sliding_window: Option<u32>,
    pub rope_frequency: u32,
    pub rope_dim: u32,
    pub max_seq_len: u32,
}

/// What the layer `layer` is like in a model of this shape, where its query and key weights
/// have `q_dim` and `k_dim` rows and its heads are normalized by a tensor with dimensions
/// `norm_dims`.
pub open spec fn plan_of(
    config: ConfigView,
    layer: nat,
    norm_dims: Option<Seq<usize>>,
    q_dim: usize,
    k_dim: usize,
) -> LayerPlan {
    let sliding = slides(config.sliding_pattern, layer);
    LayerPlan {
        head_dim: head_width(norm_dims),
        n_head: q_dim / head_width(norm_dims),
        n_kv_head: k_dim / head_width(norm_dims),
        q_dim,
        sliding_window: if sliding {
            Some(config.sliding_window)
        } else {
            None
        },
        rope_frequency: if sliding {
            config.rope_frequency_sliding
        } else {
            config.rope_frequency
        },
        rope_dim: if sliding {
            config.rope_dim_sliding
        } else {
            config.rope_dim
        },
        max_seq_len: config.max_seq_len,
    }
}

/// A list of dimensions, where there is one.
pub open spec fn dims_view(dims: Option<&Vec<usize>>) -> Option<Seq<usize>> {
    match dims {
        Some(dims) => Some(dims@),
        None => None,
    }
}

impl LayerPlan {
    /// What the layer `layer` is like, where its query and key weights have `q_dim` and
    /// `k_dim` rows and its heads are normalized by a tensor with dimensions `norm_dims`.
    pub fn new(
        config: &ModelConfig,
        layer: usize,
        norm_dims: Option<&Vec<usize>>,
        q_dim: usize,
        k_dim: usize,
    ) -> (plan: LayerPlan)
        requires
            dims_view(norm_dims) matches Some(dims) ==> dims.len() > 0,
            head_width(dims_view(norm_dims)) > 0,
        ensures
            plan == plan_of(config@, layer as nat, dims_view(norm_dims), q_dim, k_dim),
    {
        let head_dim: usize = match norm_dims {
            Some(dims) => if dims.len() > 1 {
                dims[1]
            } else {
                dims[0]
            },
            None => DEFAULT_HEAD_DIM,
        };
        let sliding: bool = layer >= config.sliding_pattern.len() || config.sliding_pattern[layer];
        LayerPlan {
            head_dim,
            n_head: q_dim / head_dim,
            n_kv_head: k_dim / head_dim,
            q_dim,
            sliding_window: if sliding {
                Some(config.sliding_window)
            } else {
                None
            },
            rope_frequency: if sliding {
                config.rope_frequency_sliding
            } else {
                config.rope_frequency
            },
            rope_dim: if sliding {
                config.rope_dim_sliding
            } else {
                config.rope_dim
            },
            max_seq_len: config.max_seq_len,
        }
    }

    /// How often each key and value head is repeated so that every query head has one.
    pub fn kv_repeats(&self) -> (repeats: usize)
        requires
            self.n_kv_head > 0,
        ensures
            repeats == self.n_head / self.n_kv_head,
    {
        self.n_head / self.n_kv_head
    }
}

/// A layer has its own keys and values, but for the last ones: the first of those takes what
/// the first layer of all has, the second what the second has, and so on.
pub proof fn law_the_last_layers_take_from_the_first(layers: nat, shared: nat, k: nat)
    requires
        shared <= layers,
    ensures
        k + shared < layers ==> kv_source(k, layers, shared) == k,
        k < shared ==> kv_source((layers - shared + k) as nat, layers, shared) == k,
{
}

/// The tensor of a layer is named by the number of the layer in digits and by its part.
pub proof fn law_tensors_are_named_by_layer_and_part(layer: nat, part: Seq<char>)
    ensures
        exists|digits: Seq<char>|
            {
                &&& layer_tensor(layer, part) == #[trigger] ("blk."@ + digits + "."@ + part
                    + ".weight"@)
                &&& written_number(digits) == layer
                &&& forall|i: int| 0 <= i < digits.len() ==> '0' <= #[trigger] digits[i] <= '9'
                &&& layer > 0 ==> digits[0] != '0'
            },
{
    law_decimal_writes_the_number(layer);
    assert(layer_tensor(layer, part) == "blk."@ + decimal(layer) + "."@ + part + ".weight"@);
}

/// No two layers share the name of a tensor.
pub proof fn law_layers_have_their_own_tensors(a: nat, b: nat, part: Seq<char>)
    requires
        layer_tensor(a, part) == layer_tensor(b, part),
    ensures
        a == b,
{
    law_decimal_writes_the_number(a);
    law_decimal_writes_the_number(b);
    let x = decimal(a);
    let y = decimal(b);
    let name = layer_tensor(a, part);
    assert(name.len() == "blk."@.len() + x.len() + "."@.len() + part.len() + ".weight"@.len());
    assert(name.len() == "blk."@.len() + y.len() + "."@.len() + part.len() + ".weight"@.len());
    let from = "blk."@.len() as int;
    assert(name.subrange(from, from + x.len()) =~= x);
    assert(name.subrange(from, from + y.len()) =~= y);
}

/// As many heads of the layer's width are made of the weights as fit into them. The width is
/// that of the normalization, where there is one, else 256.
pub proof fn law_heads_fill_the_weights(
    config: ConfigView,
    layer: nat,
    norm_dims: Option<Seq<usize>>,
    q_dim: usize,
    k_dim: usize,
)
    requires
        norm_dims matches Some(dims) ==> dims.len() > 0 && dims[0] > 0 && (dims.len() > 1
            ==> dims[1] > 0),
    ensures
        ({
            let plan = plan_of(config, layer, norm_dims, q_dim, k_dim);
            let width = plan.head_dim as int;
            &&& width == match norm_dims {
                None => 256,
                Some(dims) => if dims.len() == 1 {
                    dims[0] as int
                } else {
                    dims[1] as int
                },
            }
            &&& plan.q_dim == q_dim
            &&& plan.n_head * width <= q_dim < (plan.n_head + 1) * width
            &&& plan.n_kv_head * width <= k_dim < (plan.n_kv_head + 1) * width
        }),
{
    let plan = plan_of(config, layer, norm_dims, q_dim, k_dim);
    let width = plan.head_dim as int;
    lemma_quotient(q_dim as int, width);
    lemma_quotient(k_dim as int, width);
}

/// What division gives.
proof fn lemma_quotient(n: int, d: int)
    by (nonlinear_arith)
    requires
        0 <= n,
        0 < d,
    ensures
        (n / d) * d <= n < (n / d + 1) * d,
{
}

/// A layer that the pattern marks, or does not reach, attends to the window of the model and
/// is rotated as sliding layers are; any other layer attends to everything and is rotated as
/// the others are.
pub proof fn law_the_pattern_decides_on_the_window(
    config: ConfigView,
    layer: nat,
    norm_dims: Option<Seq<usize>>,
    q_dim: usize,
    k_dim: usize,
)
    ensures
        ({
            let plan = plan_of(config, layer, norm_dims, q_dim, k_dim);
            let pattern = config.sliding_pattern;
            &&& plan.max_seq_len == config.max_seq_len
            &&& if layer < pattern.len() && !pattern[layer as int] {
                &&& plan.sliding_window is None
                &&& plan.rope_frequency == config.rope_frequency
                &&& plan.rope_dim == config.rope_dim
            } else {
                &&& plan.sliding_window == Some(config.sliding_window)
                &&& plan.rope_frequency == config.rope_frequency_sliding
                &&& plan.rope_dim == config.rope_dim_sliding
            }
        }),
{
}

} // verus!
