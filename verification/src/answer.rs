//! What the strings of an answer depend on. The arithmetic of a model stands outside: here it
//! is any function from what a layer is given to what it gives.

use vstd::prelude::*;

use crate::caches::{after_layer, kept_for, only_own};
use crate::generation::{is_stop_text, law_ordinary_pieces_are_sent, penalties, penalty_start};
use crate::generation::{taken, wrapped_prompt};
use crate::generation::{Taking, BOS_TOKEN, MAX_BLANK_RUN, MAX_TOKENS};
use crate::layers::kv_source;
use crate::text::{contains, trimmed, unicode_whitespace};
use crate::tokenizer::{decoded, TokenizerView};

verus! {

/// The arithmetic of a model: the values of its input tokens; what a layer makes of the
/// values before it, of the tokens and their position and of the keys and values that were
/// kept for it, and which keys and values it worked with; and the scores at the end.
#[verifier::reject_recursive_types(X)]
#[verifier::reject_recursive_types(K)]
#[verifier::reject_recursive_types(Z)]
pub struct Arithmetic<X, K, Z> {
    pub embed: spec_fn(Seq<u32>) -> X,
    pub layer: spec_fn(nat, Seq<u32>, nat, X, Option<K>) -> (X, K),
    pub scores: spec_fn(X) -> Z,
    pub layers: nat,
    pub shared: nat,
}

/// The choice of tokens: the state that a seed gives, and which token is chosen in a state
/// from the scores, some of which are penalized, and the state afterwards; and how many
/// tokens have scores.
#[verifier::reject_recursive_types(S)]
#[verifier::reject_recursive_types(Z)]
pub struct Choice<S, Z> {
    pub seeded: S,
    pub choose: spec_fn(S, Z, Seq<nat>) -> (u32, S),
    pub vocab_size: spec_fn(Z) -> nat,
}

/// What the layers from `layer` on make of the values `x`, and what is kept afterwards.
pub open spec fn through_layers<X, K, Z>(
    model: Arithmetic<X, K, Z>,
    layer: nat,
    input: Seq<u32>,
    index_pos: nat,
    x: X,
    caches: Seq<Option<K>>,
) -> (X, Seq<Option<K>>)
    decreases model.layers - layer,
{
    if layer >= model.layers {
        (x, caches)
    } else {
        let kept = kept_for(caches, layer, model.shared, index_pos);
        let (y, worked_with) = (model.layer)(layer, input, index_pos, x, kept);
        through_layers(
            model,
            layer + 1,
            input,
            index_pos,
            y,
            after_layer(caches, layer, model.shared, worked_with),
        )
    }
}

/// The scores after a pass over `input` from position `index_pos` on, and what is kept
/// afterwards.
pub open spec fn forward<X, K, Z>(
    model: Arithmetic<X, K, Z>,
    input: Seq<u32>,
    index_pos: nat,
    caches: Seq<Option<K>>,
) -> (Z, Seq<Option<K>>) {
    let (x, caches) = through_layers(
        model,
        0,
        input,
        index_pos,
        (model.embed)(input),
        caches,
    );
    ((model.scores)(x), caches)
}

/// What the caches of a model can hold.
pub open spec fn can_be_kept<X, K, Z>(model: Arithmetic<X, K, Z>, caches: Seq<Option<K>>) -> bool {
    &&& caches.len() == model.layers
    &&& model.shared <= model.layers
    &&& only_own(caches, model.shared)
}

/// The layers leave nothing in the caches that they cannot hold.
proof fn lemma_layers_keep_their_own<X, K, Z>(
    model: Arithmetic<X, K, Z>,
    layer: nat,
    input: Seq<u32>,
    index_pos: nat,
    x: X,
    caches: Seq<Option<K>>,
)
    requires
        can_be_kept(model, caches),
    ensures
        can_be_kept(model, through_layers(model, layer, input, index_pos, x, caches).1),
    decreases model.layers - layer,
{
    if layer < model.layers {
        let kept = kept_for(caches, layer, model.shared, index_pos);
        let (y, worked_with) = (model.layer)(layer, input, index_pos, x, kept);
        lemma_layers_keep_their_own(
            model,
            layer + 1,
            input,
            index_pos,
            y,
            after_layer(caches, layer, model.shared, worked_with),
        );
    }
}

/// From the start, the layers make the same of the same values, and keep the same, if the
/// caches agree up to the first of them.
proof fn lemma_layers_forget<X, K, Z>(
    model: Arithmetic<X, K, Z>,
    layer: nat,
    input: Seq<u32>,
    x: X,
    a: Seq<Option<K>>,
    b: Seq<Option<K>>,
)
    requires
        can_be_kept(model, a),
        can_be_kept(model, b),
        layer <= model.layers,
        forall|l: int| 0 <= l < layer ==> #[trigger] a[l] == b[l],
    ensures
        through_layers(model, layer, input, 0, x, a) == through_layers(
            model,
            layer,
            input,
            0,
            x,
            b,
        ),
    decreases model.layers - layer,
{
    if layer < model.layers {
        let (y, worked_with) = (model.layer)(layer, input, 0, x, None::<K>);
        let c = after_layer(a, layer, model.shared, worked_with);
        let d = after_layer(b, layer, model.shared, worked_with);
        assert forall|l: int| 0 <= l < layer + 1 implies #[trigger] c[l] == d[l] by {
            if l < layer {
                assert(a[l] == b[l]);
            } else if kv_source(layer, model.layers, model.shared) != layer {
                assert(a[l] is None);
                assert(b[l] is None);
            }
        }
        lemma_layers_forget(model, layer + 1, input, y, c, d);
    } else {
        assert(a =~= b);
    }
}

/// A pass from the start does not see what earlier passes kept: the scores are the same
/// whatever was kept, and so is what is kept afterwards.
pub proof fn law_passes_from_the_start_forget<X, K, Z>(
    model: Arithmetic<X, K, Z>,
    input: Seq<u32>,
    a: Seq<Option<K>>,
    b: Seq<Option<K>>,
)
    requires
        can_be_kept(model, a),
        can_be_kept(model, b),
    ensures
        forward(model, input, 0, a) == forward(model, input, 0, b),
{
    lemma_layers_forget(model, 0, input, (model.embed)(input), a, b);
}

/// Every pass leaves caches of the same kind, so that the next one finds what it needs.
pub proof fn law_passes_keep_the_caches<X, K, Z>(
    model: Arithmetic<X, K, Z>,
    input: Seq<u32>,
    index_pos: nat,
    caches: Seq<Option<K>>,
)
    requires
        can_be_kept(model, caches),
    ensures
        can_be_kept(model, forward(model, input, index_pos, caches).1),
{
    lemma_layers_keep_their_own(model, 0, input, index_pos, (model.embed)(input), caches);
}

/// The strings that an answer sends from here on, with at most `left` further tokens, and
/// what is kept at its end. `prompt_len` of the tokens so far are the prompt, the model has
/// read `position` of them, and the last `blanks` strings were blank.
pub open spec fn sent_from<X, K, Z, S>(
    model: Arithmetic<X, K, Z>,
    choice: Choice<S, Z>,
    tokenizer: TokenizerView,
    tokens: Seq<u32>,
    prompt_len: nat,
    position: nat,
    blanks: nat,
    state: S,
    caches: Seq<Option<K>>,
    left: nat,
) -> (Seq<Seq<char>>, Seq<Option<K>>)
    decreases left,
{
    if left == 0 {
        (seq![], caches)
    } else {
        let (scores, caches) = forward(
            model,
            tokens.skip(position as int),
            position,
            caches,
        );
        let penalized = penalties(
            tokens,
            penalty_start(prompt_len as int, tokens.len() as int),
            tokens.len() as int,
            (choice.vocab_size)(scores),
        );
        let (next, state) = (choice.choose)(state, scores, penalized);
        match taken(blanks, next, decoded(tokenizer, next)) {
            Taking::Stop => (seq![], caches),
            Taking::Skip => sent_from(
                model,
                choice,
                tokenizer,
                tokens.push(next),
                prompt_len,
                tokens.len(),
                blanks,
                state,
                caches,
                (left - 1) as nat,
            ),
            Taking::Send(text, blanks) => {
                let rest = sent_from(
                    model,
                    choice,
                    tokenizer,
                    tokens.push(next),
                    prompt_len,
                    tokens.len(),
                    blanks,
                    state,
                    caches,
                    (left - 1) as nat,
                );
                (seq![text] + rest.0, rest.1)
            },
        }
    }
}

/// The strings that the answer to a prompt sends, and what is kept at its end.
pub open spec fn sent<X, K, Z, S>(
    model: Arithmetic<X, K, Z>,
    choice: Choice<S, Z>,
    tokenizer: TokenizerView,
    prompt: Seq<char>,
    caches: Seq<Option<K>>,
) -> (Seq<Seq<char>>, Seq<Option<K>>) {
    match tokenizer.encodings[(wrapped_prompt(prompt), false)] {
        Ok(encoded) => if encoded.len() > 0 {
            let tokens = seq![BOS_TOKEN] + encoded;
            sent_from(
                model,
                choice,
                tokenizer,
                tokens,
                tokens.len(),
                0,
                0,
                choice.seeded,
                caches,
                MAX_TOKENS as nat,
            )
        } else {
            (seq![], caches)
        },
        Err(_) => (seq![], caches),
    }
}

/// An answer leaves caches of the same kind.
proof fn lemma_sent_keeps_the_caches<X, K, Z, S>(
    model: Arithmetic<X, K, Z>,
    choice: Choice<S, Z>,
    tokenizer: TokenizerView,
    tokens: Seq<u32>,
    prompt_len: nat,
    position: nat,
    blanks: nat,
    state: S,
    caches: Seq<Option<K>>,
    left: nat,
)
    requires
        can_be_kept(model, caches),
    ensures
        can_be_kept(
            model,
            sent_from(
                model,
                choice,
                tokenizer,
                tokens,
                prompt_len,
                position,
                blanks,
                state,
                caches,
                left,
            ).1,
        ),
    decreases left,
{
    if left > 0 {
        let input = tokens.skip(position as int);
        law_passes_keep_the_caches(model, input, position, caches);
        let (scores, after) = forward(model, input, position, caches);
        let penalized = penalties(
            tokens,
            penalty_start(prompt_len as int, tokens.len() as int),
            tokens.len() as int,
            (choice.vocab_size)(scores),
        );
        let (next, next_state) = (choice.choose)(state, scores, penalized);
        match taken(blanks, next, decoded(tokenizer, next)) {
            Taking::Stop => {},
            Taking::Skip => {
                lemma_sent_keeps_the_caches(
                    model,
                    choice,
                    tokenizer,
                    tokens.push(next),
                    prompt_len,
                    tokens.len(),
                    blanks,
                    next_state,
                    after,
                    (left - 1) as nat,
                );
            },
            Taking::Send(_, blanks_after) => {
                lemma_sent_keeps_the_caches(
                    model,
                    choice,
                    tokenizer,
                    tokens.push(next),
                    prompt_len,
                    tokens.len(),
                    blanks_after,
                    next_state,
                    after,
                    (left - 1) as nat,
                );
            },
        }
    }
}

/// Nothing of an earlier answer leaks into a later one: whatever earlier answers kept, a
/// prompt is answered with the same strings in the same order.
pub proof fn law_answers_do_not_leak<X, K, Z, S>(
    model: Arithmetic<X, K, Z>,
    choice: Choice<S, Z>,
    tokenizer: TokenizerView,
    prompt: Seq<char>,
    a: Seq<Option<K>>,
    b: Seq<Option<K>>,
)
    requires
        can_be_kept(model, a),
        can_be_kept(model, b),
    ensures
        sent(model, choice, tokenizer, prompt, a).0 == sent(
            model,
            choice,
            tokenizer,
            prompt,
            b,
        ).0,
        can_be_kept(model, sent(model, choice, tokenizer, prompt, a).1),
{
    match tokenizer.encodings[(wrapped_prompt(prompt), false)] {
        Ok(encoded) => {
            let tokens = seq![BOS_TOKEN] + encoded;
            assert(tokens.skip(0) =~= tokens);
            law_passes_from_the_start_forget(model, tokens, a, b);
            if encoded.len() > 0 {
                lemma_sent_keeps_the_caches(
                    model,
                    choice,
                    tokenizer,
                    tokens,
                    tokens.len(),
                    0,
                    0,
                    choice.seeded,
                    a,
                    MAX_TOKENS as nat,
                );
            }
        },
        Err(_) => {},
    }
}

/// The same prompt, asked twice with another one in between, is answered with the same
/// strings in the same order.
pub proof fn law_answers_repeat<X, K, Z, S>(
    model: Arithmetic<X, K, Z>,
    choice: Choice<S, Z>,
    tokenizer: TokenizerView,
    prompt: Seq<char>,
    between: Seq<char>,
    caches: Seq<Option<K>>,
)
    requires
        can_be_kept(model, caches),
    ensures
        ({
            let first = sent(model, choice, tokenizer, prompt, caches);
            let other = sent(model, choice, tokenizer, between, first.1);
            sent(model, choice, tokenizer, prompt, first.1).0 == first.0 && sent(
                model,
                choice,
                tokenizer,
                prompt,
                other.1,
            ).0 == first.0
        }),
{
    let first = sent(model, choice, tokenizer, prompt, caches);
    law_answers_do_not_leak(model, choice, tokenizer, prompt, caches, caches);
    law_answers_do_not_leak(model, choice, tokenizer, between, first.1, first.1);
    let other = sent(model, choice, tokenizer, between, first.1);
    law_answers_do_not_leak(model, choice, tokenizer, prompt, first.1, caches);
    law_answers_do_not_leak(model, choice, tokenizer, prompt, other.1, caches);
}

/// One of the strings from `from` up to `to` is more than white space.
pub open spec fn has_text(strings: Seq<Seq<char>>, from: int, to: int) -> bool {
    exists|i: int| from <= i < to && trimmed(#[trigger] strings[i]).len() > 0
}

/// The strings of an answer are not too many, none of them ends an answer, and blank strings
/// do not come too often in a row.
pub open spec fn bounded(strings: Seq<Seq<char>>, limit: nat) -> bool {
    &&& strings.len() <= limit
    &&& forall|i: int| 0 <= i < strings.len() ==> !is_stop_text(#[trigger] strings[i])
    &&& forall|i: int|
        0 <= i && i + MAX_BLANK_RUN <= strings.len() ==> #[trigger] has_text(
            strings,
            i,
            i + MAX_BLANK_RUN,
        )
}

/// What is sent from here on is bounded, also together with the blank strings before it.
proof fn lemma_sent_is_bounded<X, K, Z, S>(
    model: Arithmetic<X, K, Z>,
    choice: Choice<S, Z>,
    tokenizer: TokenizerView,
    tokens: Seq<u32>,
    prompt_len: nat,
    position: nat,
    blanks: nat,
    state: S,
    caches: Seq<Option<K>>,
    left: nat,
)
    requires
        blanks < MAX_BLANK_RUN,
    ensures
        ({
            let strings = sent_from(
                model,
                choice,
                tokenizer,
                tokens,
                prompt_len,
                position,
                blanks,
                state,
                caches,
                left,
            ).0;
            &&& bounded(strings, left)
            &&& strings.len() >= MAX_BLANK_RUN - blanks ==> has_text(
                strings,
                0,
                MAX_BLANK_RUN - blanks,
            )
        }),
    decreases left,
{
    if left > 0 {
        let (scores, after) = forward(model, tokens.skip(position as int), position, caches);
        let penalized = penalties(
            tokens,
            penalty_start(prompt_len as int, tokens.len() as int),
            tokens.len() as int,
            (choice.vocab_size)(scores),
        );
        let (next, next_state) = (choice.choose)(state, scores, penalized);
        match taken(blanks, next, decoded(tokenizer, next)) {
            Taking::Stop => {},
            Taking::Skip => {
                lemma_sent_is_bounded(
                    model,
                    choice,
                    tokenizer,
                    tokens.push(next),
                    prompt_len,
                    tokens.len(),
                    blanks,
                    next_state,
                    after,
                    (left - 1) as nat,
                );
            },
            Taking::Send(text, run) => {
                lemma_sent_is_bounded(
                    model,
                    choice,
                    tokenizer,
                    tokens.push(next),
                    prompt_len,
                    tokens.len(),
                    run,
                    next_state,
                    after,
                    (left - 1) as nat,
                );
                let rest = sent_from(
                    model,
                    choice,
                    tokenizer,
                    tokens.push(next),
                    prompt_len,
                    tokens.len(),
                    run,
                    next_state,
                    after,
                    (left - 1) as nat,
                ).0;
                lemma_sent_first(text, rest, blanks, run, (left - 1) as nat);
            },
        }
    }
}

/// A string that may be sent after `blanks` blank ones, in front of strings that are bounded.
proof fn lemma_sent_first(
    text: Seq<char>,
    rest: Seq<Seq<char>>,
    blanks: nat,
    run: nat,
    limit: nat,
)
    requires
        blanks < MAX_BLANK_RUN,
        run < MAX_BLANK_RUN,
        run == if trimmed(text).len() == 0 {
            blanks + 1
        } else {
            0
        },
        !is_stop_text(text),
        bounded(rest, limit),
        rest.len() >= MAX_BLANK_RUN - run ==> has_text(rest, 0, MAX_BLANK_RUN - run),
    ensures
        bounded(seq![text] + rest, limit + 1),
        rest.len() + 1 >= MAX_BLANK_RUN - blanks ==> has_text(
            seq![text] + rest,
            0,
            MAX_BLANK_RUN - blanks,
        ),
{
    let strings = seq![text] + rest;
    assert forall|i: int| 0 <= i < strings.len() implies !is_stop_text(#[trigger] strings[i]) by {
        if i > 0 {
            assert(strings[i] == rest[i - 1]);
        }
    }
    assert(strings[0] == text);
    if strings.len() >= MAX_BLANK_RUN - blanks && trimmed(text).len() == 0 {
        let j = choose|j: int|
            0 <= j < MAX_BLANK_RUN - run && trimmed(#[trigger] rest[j]).len() > 0;
        assert(strings[j + 1] == rest[j]);
    }
    assert forall|i: int| 0 <= i && i + MAX_BLANK_RUN <= strings.len() implies #[trigger] has_text(
        strings,
        i,
        i + MAX_BLANK_RUN,
    ) by {
        if i > 0 {
            assert(has_text(rest, i - 1, i - 1 + MAX_BLANK_RUN));
            let j = choose|j: int|
                i - 1 <= j < i - 1 + MAX_BLANK_RUN && trimmed(#[trigger] rest[j]).len() > 0;
            assert(strings[j + 1] == rest[j]);
        } else {
            let j = choose|j: int|
                0 <= j < MAX_BLANK_RUN - blanks && trimmed(#[trigger] strings[j]).len() > 0;
            assert(trimmed(strings[j]).len() > 0);
        }
    }
}

/// An answer sends at most `MAX_TOKENS` strings; none of them ends an answer; and among any
/// `MAX_BLANK_RUN` strings in a row one is more than white space.
pub proof fn law_answers_are_bounded<X, K, Z, S>(
    model: Arithmetic<X, K, Z>,
    choice: Choice<S, Z>,
    tokenizer: TokenizerView,
    prompt: Seq<char>,
    caches: Seq<Option<K>>,
)
    ensures
        ({
            let strings = sent(model, choice, tokenizer, prompt, caches).0;
            &&& strings.len() <= MAX_TOKENS
            &&& forall|i: int| 0 <= i < strings.len() ==> !is_stop_text(#[trigger] strings[i])
            &&& forall|i: int|
                0 <= i && i + MAX_BLANK_RUN <= strings.len() ==> #[trigger] has_text(
                    strings,
                    i,
                    i + MAX_BLANK_RUN,
                )
        }),
{
    match tokenizer.encodings[(wrapped_prompt(prompt), false)] {
        Ok(encoded) => {
            let tokens = seq![BOS_TOKEN] + encoded;
            lemma_sent_is_bounded(
                model,
                choice,
                tokenizer,
                tokens,
                tokens.len(),
                0,
                0,
                choice.seeded,
                caches,
                MAX_TOKENS as nat,
            );
        },
        Err(_) => {},
    }
}

/// Where every token that is chosen has an ordinary text, an answer goes on to its full length
/// of 512 strings.
pub proof fn law_answers_go_on<X, K, Z, S>(
    model: Arithmetic<X, K, Z>,
    choice: Choice<S, Z>,
    tokenizer: TokenizerView,
    prompt: Seq<char>,
    caches: Seq<Option<K>>,
)
    requires
        tokenizer.encodings[(wrapped_prompt(prompt), false)] matches Ok(encoded) && encoded.len()
            > 0,
        forall|state: S, scores: Z, penalized: Seq<nat>|
            is_ordinary(tokenizer, (#[trigger] (choice.choose)(state, scores, penalized)).0),
    ensures
        sent(model, choice, tokenizer, prompt, caches).0.len() == 512,
{
    let encoded = tokenizer.encodings[(wrapped_prompt(prompt), false)]->Ok_0;
    let tokens = seq![BOS_TOKEN] + encoded;
    lemma_goes_on(
        model,
        choice,
        tokenizer,
        tokens,
        tokens.len(),
        0,
        0,
        choice.seeded,
        caches,
        MAX_TOKENS as nat,
    );
}

/// A token that does not end an answer, with a text that does not end it either and is more
/// than white space.
pub open spec fn is_ordinary(tokenizer: TokenizerView, token: u32) -> bool {
    &&& token != 1 && token != 105 && token != 106 && token != 107
    &&& tokenizer.decodings[(seq![token], true)] matches Ok(text) && !contains(
        text,
        "<end_of_turn>"@,
    ) && !contains(text, "<eos>"@) && exists|i: int|
        0 <= i < text.len() && !unicode_whitespace(#[trigger] text[i])
}

proof fn lemma_goes_on<X, K, Z, S>(
    model: Arithmetic<X, K, Z>,
    choice: Choice<S, Z>,
    tokenizer: TokenizerView,
    tokens: Seq<u32>,
    prompt_len: nat,
    position: nat,
    blanks: nat,
    state: S,
    caches: Seq<Option<K>>,
    left: nat,
)
    requires
        forall|state: S, scores: Z, penalized: Seq<nat>|
            is_ordinary(tokenizer, (#[trigger] (choice.choose)(state, scores, penalized)).0),
    ensures
        sent_from(
            model,
            choice,
            tokenizer,
            tokens,
            prompt_len,
            position,
            blanks,
            state,
            caches,
            left,
        ).0.len() == left,
    decreases left,
{
    if left > 0 {
        let (scores, after) = forward(model, tokens.skip(position as int), position, caches);
        let penalized = penalties(
            tokens,
            penalty_start(prompt_len as int, tokens.len() as int),
            tokens.len() as int,
            (choice.vocab_size)(scores),
        );
        let (next, next_state) = (choice.choose)(state, scores, penalized);
        assert(is_ordinary(tokenizer, next));
        let text = tokenizer.decodings[(seq![next], true)]->Ok_0;
        law_ordinary_pieces_are_sent(blanks, next, text);
        assert(taken(blanks, next, decoded(tokenizer, next)) == Taking::Send(text, 0));
        lemma_goes_on(
            model,
            choice,
            tokenizer,
            tokens.push(next),
            prompt_len,
            tokens.len(),
            0,
            next_state,
            after,
            (left - 1) as nat,
        );
    }
}

/// A layer that is put behind the others works on what they make of the input, with what it
/// kept itself, and all layers before it work as they did; without layers, the scores are
/// those of the embedded input.
pub proof fn law_layers_work_one_after_the_other<X, K, Z>(
    model: Arithmetic<X, K, Z>,
    more: Arithmetic<X, K, Z>,
    input: Seq<u32>,
    index_pos: nat,
    caches: Seq<Option<K>>,
)
    requires
        model.shared == 0,
        more == (Arithmetic { layers: model.layers + 1, ..model }),
        caches.len() == more.layers,
    ensures
        ({
            let x = (model.embed)(input);
            let before = through_layers(model, 0, input, index_pos, x, caches);
            let kept = if index_pos > 0 {
                before.1[model.layers as int]
            } else {
                None
            };
            let (y, worked_with) = (model.layer)(
                model.layers,
                input,
                index_pos,
                before.0,
                kept,
            );
            &&& forward(model, input, index_pos, caches).0 == (model.scores)(before.0)
            &&& model.layers == 0 ==> before == (x, caches)
            &&& forward(more, input, index_pos, caches) == (
                (model.scores)(y),
                before.1.update(model.layers as int, Some(worked_with)),
            )
        }),
{
    lemma_one_layer_more(model, more, 0, input, index_pos, (model.embed)(input), caches);
}

/// The same from any layer on.
proof fn lemma_one_layer_more<X, K, Z>(
    model: Arithmetic<X, K, Z>,
    more: Arithmetic<X, K, Z>,
    layer: nat,
    input: Seq<u32>,
    index_pos: nat,
    x: X,
    caches: Seq<Option<K>>,
)
    requires
        model.shared == 0,
        more == (Arithmetic { layers: model.layers + 1, ..model }),
        caches.len() == more.layers,
        layer <= model.layers,
    ensures
        ({
            let before = through_layers(model, layer, input, index_pos, x, caches);
            let kept = if index_pos > 0 {
                before.1[model.layers as int]
            } else {
                None
            };
            let (y, worked_with) = (model.layer)(
                model.layers,
                input,
                index_pos,
                before.0,
                kept,
            );
            through_layers(more, layer, input, index_pos, x, caches) == (
                y,
                before.1.update(model.layers as int, Some(worked_with)),
            )
        }),
    decreases model.layers - layer,
{
    let kept = kept_for(caches, layer, model.shared, index_pos);
    let (y, worked_with) = (model.layer)(layer, input, index_pos, x, kept);
    let after = after_layer(caches, layer, model.shared, worked_with);
    if layer < model.layers {
        lemma_one_layer_more(model, more, layer + 1, input, index_pos, y, after);
    } else {
        reveal_with_fuel(through_layers, 2);
    }
}

} // verus!
