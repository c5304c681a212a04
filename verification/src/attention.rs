//! Which positions attend to which, which keys and values a layer works with, and which
//! dimensions of a head are rotated.

use vstd::prelude::*;

use crate::layers::{kv_source, kv_source_layer};

verus! {

/// Position `i` attends to position `j`: not to a later one, nor to one that lies further
/// back than the window.
pub open spec fn attends(i: nat, j: nat, window: Option<u32>) -> bool {
    &&& j <= i
    &&& window matches Some(size) ==> i <= j + size
}

/// The mask over `seq_len` positions, row by row: one where a position attends, else zero.
pub open spec fn mask_of(seq_len: nat, window: Option<u32>) -> Seq<u32> {
    Seq::new(
        seq_len * seq_len,
        |at: int|
            if attends((at / seq_len as int) as nat, (at % seq_len as int) as nat, window) {
                1u32
            } else {
                0u32
            },
    )
}

/// The cell in row `i` and column `j` of a square.
proof fn lemma_cell(side: int, i: int, j: int)
    by (nonlinear_arith)
    requires
        0 <= i < side,
        0 <= j < side,
    ensures
        0 <= i * side + j < side * side,
        (i * side + j) / side == i,
        (i * side + j) % side == j,
{
}

/// The mask over `seq_len` positions, row by row: one where a position attends, else zero.
pub fn attention_mask(seq_len: usize, window: Option<u32>) -> (mask: Vec<u32>)
    requires
        seq_len * seq_len <= usize::MAX,
    ensures
        mask@ == mask_of(seq_len as nat, window),
{
    let total: usize = seq_len * seq_len;
    let mut mask: Vec<u32> = Vec::new();
    let mut i: usize = 0;
    while i < seq_len
        invariant
            i <= seq_len,
            mask@.len() == i * seq_len,
            total == seq_len * seq_len,
            forall|at: int|
                0 <= at < mask@.len() ==> mask@[at] == mask_of(seq_len as nat, window)[at],
        decreases seq_len - i,
    {
        let mut j: usize = 0;
        while j < seq_len
            invariant
                i < seq_len,
                j <= seq_len,
                mask@.len() == i * seq_len + j,
                total == seq_len * seq_len,
                forall|at: int|
                    0 <= at < mask@.len() ==> mask@[at] == mask_of(seq_len as nat, window)[at],
            decreases seq_len - j,
        {
            let seen: bool = j <= i && match window {
                Some(size) => i - j <= size as usize,
                None => true,
            };
            proof {
                lemma_cell(seq_len as int, i as int, j as int);
            }
            mask.push(if seen {
                1
            } else {
                0
            });
            j += 1;
        }
        assert((i + 1) * seq_len == i * seq_len + seq_len) by (nonlinear_arith);
        i += 1;
    }
    mask
}

/// No position attends to a later one.
pub proof fn law_mask_is_causal(seq_len: nat, window: Option<u32>, i: nat, j: nat)
    requires
        i < j < seq_len,
    ensures
        i * seq_len + j < mask_of(seq_len, window).len(),
        mask_of(seq_len, window)[(i * seq_len + j) as int] == 0,
{
    lemma_cell(seq_len as int, i as int, j as int);
}

/// Every position attends to itself, whatever the window.
pub proof fn law_positions_see_themselves(seq_len: nat, window: Option<u32>, i: nat)
    requires
        i < seq_len,
    ensures
        i * seq_len + i < mask_of(seq_len, window).len(),
        mask_of(seq_len, window)[(i * seq_len + i) as int] == 1,
{
    lemma_cell(seq_len as int, i as int, i as int);
}

/// A window only takes positions away, and one that spans the positions takes none.
pub proof fn law_window_narrows(seq_len: nat, size: u32)
    ensures
        forall|at: int|
            0 <= at < seq_len * seq_len && mask_of(seq_len, Some(size))[at] == 1
                ==> #[trigger] mask_of(seq_len, None)[at] == 1,
        seq_len <= size + 1 ==> mask_of(seq_len, Some(size)) == mask_of(seq_len, None),
{
    if seq_len <= size + 1 {
        assert forall|at: int| 0 <= at < seq_len * seq_len implies mask_of(
            seq_len,
            Some(size),
        )[at] == mask_of(seq_len, None)[at] by {
            assert(at / seq_len as int <= seq_len - 1 && at / seq_len as int >= 0) by (
            nonlinear_arith)
                requires
                    0 <= at < seq_len * seq_len,
            ;
            assert(at % seq_len as int >= 0) by (nonlinear_arith)
                requires
                    0 <= at < seq_len * seq_len,
            ;
        }
        assert(mask_of(seq_len, Some(size)) =~= mask_of(seq_len, None));
    }
}

/// How a layer takes part in a pass.
#[derive(Debug, Clone, Copy, PartialEq, Eq, Structural)]
pub struct AttentionStep {
    /// The layer whose kept keys and values it works with.
    pub source: usize,
    /// The new keys and values stand behind the kept ones, where there are any.
    pub append: bool,
    /// What it worked with is kept for the next pass.
    pub keep: bool,
    /// A mask hides positions.
    pub masked: bool,
}

/// How the layer `layer` takes part in a pass over `seq_len` tokens from position
/// `index_pos` on. A pass from the start forgets what was kept; only the layer itself keeps
/// what it worked with; a single token sees everything.
pub open spec fn step_of(
    layer: nat,
    layers: nat,
    shared: nat,
    seq_len: nat,
    index_pos: nat,
) -> AttentionStep {
    AttentionStep {
        source: kv_source(layer, layers, shared) as usize,
        append: index_pos > 0,
        keep: kv_source(layer, layers, shared) == layer,
        masked: seq_len != 1,
    }
}

/// How the layer `layer` takes part in a pass over `seq_len` tokens from position
/// `index_pos` on.
pub fn attention_step(
    layer: usize,
    layers: usize,
    shared: usize,
    seq_len: usize,
    index_pos: usize,
) -> (step: AttentionStep)
    requires
        layer < layers,
        shared <= layers,
    ensures
        step == step_of(
            layer as nat,
            layers as nat,
            shared as nat,
            seq_len as nat,
            index_pos as nat,
        ),
{
    let source: usize = kv_source_layer(layer, layers, shared);
    AttentionStep { source, append: index_pos > 0, keep: source == layer, masked: seq_len != 1 }
}

/// How many positions a layer works with that had `kept` positions kept for it.
pub open spec fn worked_len(step: AttentionStep, kept: nat, seq_len: nat) -> nat {
    if step.append {
        kept + seq_len
    } else {
        seq_len
    }
}

/// A layer with its own keys and values, which kept the positions that were read before,
/// works with every position up to the end of the pass, and keeps them; a pass from the
/// start begins anew, whatever was kept.
pub proof fn law_kept_positions_follow_the_reading(
    layer: nat,
    layers: nat,
    shared: nat,
    seq_len: nat,
    index_pos: nat,
    kept: nat,
)
    requires
        layer < layers - shared,
        kept == index_pos || index_pos == 0,
    ensures
        ({
            let step = step_of(layer, layers, shared, seq_len, index_pos);
            step.keep && worked_len(step, kept, seq_len) == index_pos + seq_len
        }),
{
}

/// Which of the even dimensions of a head get an angle: `0`, `2`, `4` and so on, below the
/// number of rotated dimensions.
pub open spec fn rotated_pairs(rotary_dim: nat) -> Seq<usize> {
    Seq::new(((rotary_dim + 1) / 2) as nat, |k: int| (2 * k) as usize)
}

/// The even dimensions below `rotary_dim`.
pub fn rotary_indices(rotary_dim: u32) -> (indices: Vec<usize>)
    ensures
        indices@ == rotated_pairs(rotary_dim as nat),
{
    let mut indices: Vec<usize> = Vec::new();
    let mut k: u32 = 0;
    let count: u32 = rotary_dim / 2 + rotary_dim % 2;
    while k < count
        invariant
            k <= count,
            count == (rotary_dim as nat + 1) / 2,
            indices@ == rotated_pairs(rotary_dim as nat).take(k as int),
        decreases count - k,
    {
        indices.push(2 * k as usize);
        k += 1;
        assert(indices@ =~= rotated_pairs(rotary_dim as nat).take(k as int));
    }
    assert(rotated_pairs(rotary_dim as nat).take(count as int) =~= rotated_pairs(
        rotary_dim as nat,
    ));
    indices
}

/// How many dimensions at the end of a head are passed through unrotated, where the head is
/// wider than what is rotated.
pub fn unrotated_dims(rotary_dim: usize, head_dim: usize) -> (passed: Option<usize>)
    ensures
        passed == (if rotary_dim < head_dim {
            Some((head_dim - rotary_dim) as usize)
        } else {
            None
        }),
{
    if rotary_dim < head_dim {
        Some(head_dim - rotary_dim)
    } else {
        None
    }
}

/// The mask has a cell for each two positions. The cell is one exactly where the second
/// position is not later than the first and, under a window, lies no further back than the
/// window reaches; so without a window every position sees everything before it.
pub proof fn law_the_past_within_the_window_is_seen(
    seq_len: nat,
    window: Option<u32>,
    i: nat,
    j: nat,
)
    requires
        i < seq_len,
        j < seq_len,
    ensures
        mask_of(seq_len, window).len() == seq_len * seq_len,
        i * seq_len + j < seq_len * seq_len,
        ({
            let cell = mask_of(seq_len, window)[(i * seq_len + j) as int];
            &&& cell == 0 || cell == 1
            &&& cell == 1 <==> match window {
                None => j <= i,
                Some(size) => j <= i && i - j <= size,
            }
        }),
{
    lemma_cell(seq_len as int, i as int, j as int);
}

/// A longer prompt changes nothing for the positions that were there before.
pub proof fn law_masks_grow(short: nat, long: nat, window: Option<u32>, i: nat, j: nat)
    requires
        i < short,
        j < short,
        short <= long,
    ensures
        mask_of(short, window)[(i * short + j) as int] == mask_of(long, window)[(i * long
            + j) as int],
{
    law_the_past_within_the_window_is_seen(short, window, i, j);
    law_the_past_within_the_window_is_seen(long, window, i, j);
}

/// A pass that goes on puts what is new behind what was kept, and one from the start does not;
/// a single token needs no mask, any other number does; and a layer keeps what it worked with
/// exactly if it works with its own.
pub proof fn law_how_a_layer_takes_part(
    layer: nat,
    layers: nat,
    shared: nat,
    seq_len: nat,
    index_pos: nat,
)
    requires
        layer < layers <= usize::MAX,
        shared <= layers,
    ensures
        ({
            let step = step_of(layer, layers, shared, seq_len, index_pos);
            &&& step.append <==> index_pos != 0
            &&& step.masked <==> seq_len != 1
            &&& step.keep <==> step.source == layer
            &&& layer + shared < layers ==> step.source == layer
            &&& layer + shared >= layers ==> step.source == layer + shared - layers
        }),
{
}

/// The dimensions with an angle are the even ones among those that are rotated, each once and
/// in order.
pub proof fn law_every_second_dimension_has_an_angle(rotary_dim: u32)
    ensures
        ({
            let pairs = rotated_pairs(rotary_dim as nat);
            &&& pairs.len() == (rotary_dim as nat + 1) / 2
            &&& forall|k: int| 0 <= k < pairs.len() ==> #[trigger] pairs[k] == 2 * k
            &&& forall|k: int| 0 <= k < pairs.len() ==> #[trigger] pairs[k] < rotary_dim
            &&& forall|x: usize|
                x < rotary_dim && x % 2 == 0 ==> #[trigger] pairs.contains(x)
        }),
{
    let pairs = rotated_pairs(rotary_dim as nat);
    assert forall|x: usize| x < rotary_dim && x % 2 == 0 implies #[trigger] pairs.contains(x) by {
        assert(pairs[x as int / 2] == x);
    }
}

} // verus!
