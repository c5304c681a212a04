//! How an answer is generated, token by token: what is fed to the model, which tokens are
//! made less likely, and when to stop. The model itself stands outside.

use vstd::prelude::*;

use crate::text::{contains, law_trimming_takes_white_space_only, trimmed, unicode_whitespace};
use crate::text::{is_blank, text_contains};

verus! {

/// The token that opens every prompt.
pub const BOS_TOKEN: u32 = 2;

/// The token that ends every text.
pub const EOS_TOKEN: u32 = 1;

/// The token that opens a turn.
pub const TURN_START_TOKEN: u32 = 105;

/// The token that closes a turn.
pub const TURN_END_TOKEN: u32 = 106;

/// The token that closes a turn under the name `<end_of_turn>`.
pub const END_OF_TURN_TOKEN: u32 = 107;

/// How many tokens an answer has at most.
pub const MAX_TOKENS: usize = 512;

/// How far back a token still counts as a repetition.
pub const REPEAT_LAST_N: usize = 512;

/// How many blank pieces of text in a row end an answer.
pub const MAX_BLANK_RUN: usize = 10;

/// A token that ends the answer.
pub open spec fn is_stop_token(token: u32) -> bool {
    ||| token == EOS_TOKEN
    ||| token == TURN_START_TOKEN
    ||| token == TURN_END_TOKEN
    ||| token == END_OF_TURN_TOKEN
}

/// A token that is never made less likely.
pub open spec fn is_exempt_token(token: u32) -> bool {
    ||| token == EOS_TOKEN
    ||| token == BOS_TOKEN
    ||| token == TURN_START_TOKEN
    ||| token == TURN_END_TOKEN
}

/// A piece of text that ends the answer.
pub open spec fn is_stop_text(text: Seq<char>) -> bool {
    contains(text, "<end_of_turn>"@) || contains(text, "<eos>"@)
}

/// A prompt in the markup of the model.
pub open spec fn wrapped_prompt(prompt: Seq<char>) -> Seq<char> {
    "<|turn|>user\n"@ + prompt + "<turn|>\n<|turn|>model\n"@
}

/// A prompt in the markup of the model.
pub fn wrap_prompt(prompt: &str) -> (text: String)
    ensures
        text@ == wrapped_prompt(prompt@),
{
    let mut text: String = "<|turn|>user\n".to_owned();
    text.append(prompt);
    text.append("<turn|>\n<|turn|>model\n");
    text
}

/// From where on tokens count as repetitions: behind the prompt, and not too far back.
pub open spec fn penalty_start(prompt_len: int, count: int) -> int {
    let recent = if count > REPEAT_LAST_N {
        count - REPEAT_LAST_N
    } else {
        0
    };
    if prompt_len > recent {
        prompt_len
    } else {
        recent
    }
}

/// The tokens from `from` up to `to` that are made less likely, each as often as it occurs.
pub open spec fn penalties(tokens: Seq<u32>, from: int, to: int, vocab_size: nat) -> Seq<nat>
    decreases to - from,
{
    if to <= from {
        seq![]
    } else {
        let rest = penalties(tokens, from, to - 1, vocab_size);
        let token = tokens[to - 1];
        if is_exempt_token(token) || token >= vocab_size {
            rest
        } else {
            rest.push(token as nat)
        }
    }
}

/// Why no answer can be generated.
#[derive(Debug, Clone, PartialEq, Eq)]
pub enum GenerationError {
    /// The tokenizer refused the prompt.
    Tokenization(String),
    /// The prompt has no tokens.
    EmptyPrompt,
}

/// What becomes of a token that was chosen: the answer ends, the token has no text, or its
/// text is sent, with so many blank texts last.
pub enum Taking {
    Stop,
    Skip,
    Send(Seq<char>, nat),
}

/// What becomes of a token that was chosen after `blanks` blank texts, given its text, where
/// it can be decoded.
pub open spec fn taken(blanks: nat, next: u32, text: Option<Seq<char>>) -> Taking {
    if is_stop_token(next) {
        Taking::Stop
    } else {
        match text {
            None => Taking::Skip,
            Some(text) => {
                let run = if trimmed(text).len() == 0 {
                    blanks + 1
                } else {
                    0
                };
                if is_stop_text(text) || run >= MAX_BLANK_RUN {
                    Taking::Stop
                } else {
                    Taking::Send(text, run)
                }
            },
        }
    }
}

impl GenerationError {
    /// The error as a text.
    pub fn message(&self) -> (text: String)
        ensures
            text@ == match *self {
                GenerationError::Tokenization(reason) => "Tokenization failed: "@ + reason@,
                GenerationError::EmptyPrompt => "Input prompt generated zero tokens"@,
            },
    {
        match self {
            GenerationError::Tokenization(reason) => {
                let mut text: String = "Tokenization failed: ".to_owned();
                text.append(reason.as_str());
                text
            },
            GenerationError::EmptyPrompt => "Input prompt generated zero tokens".to_owned(),
        }
    }
}

/// What to do with a piece of text.
#[derive(Debug, Clone, Copy, PartialEq, Eq, Structural)]
pub enum TextAction {
    /// The answer is over; the piece is not part of it.
    Stop,
    /// Send the piece on.
    Send,
}

/// An answer on its way.
pub struct Generation {
    tokens: Vec<u32>,
    prompt_len: usize,
    pos: usize,
    blank_run: usize,
}

impl Generation {
    /// All tokens so far, those of the prompt first.
    pub closed spec fn all_tokens(&self) -> Seq<u32> {
        self.tokens@
    }

    /// How many tokens the prompt has.
    pub closed spec fn prompt_count(&self) -> nat {
        self.prompt_len as nat
    }

    /// How many tokens the model has read.
    pub closed spec fn position(&self) -> nat {
        self.pos as nat
    }

    /// How many blank pieces of text came last.
    pub closed spec fn blanks(&self) -> nat {
        self.blank_run as nat
    }

    /// How many tokens were generated.
    pub open spec fn generated(&self) -> int {
        self.all_tokens().len() - self.prompt_count()
    }

    /// The prompt stands in front, opened by its token and not empty; at most `MAX_TOKENS`
    /// tokens follow, none of which ends the answer; the model has read everything but the
    /// last token, or nothing before the first step; blank text has not come too often.
    pub open spec fn wf(&self) -> bool {
        &&& self.blanks() < MAX_BLANK_RUN
        &&& self.prompt_count() >= 2
        &&& 0 <= self.generated() <= MAX_TOKENS
        &&& self.all_tokens()[0] == BOS_TOKEN
        &&& self.position() == if self.generated() == 0 {
            0
        } else {
            self.all_tokens().len() - 1
        }
        &&& forall|i: int|
            self.prompt_count() <= i < self.all_tokens().len() ==> !is_stop_token(
                #[trigger] self.all_tokens()[i],
            )
    }

    /// Begins an answer to a prompt of the given tokens.
    pub fn start(encoded: &Vec<u32>) -> (result: Result<Generation, GenerationError>)
        ensures
            match result {
                Ok(generation) => {
                    &&& encoded@.len() > 0
                    &&& generation.wf()
                    &&& generation.all_tokens() == seq![BOS_TOKEN] + encoded@
                    &&& generation.generated() == 0
                    &&& generation.blanks() == 0
                },
                Err(error) => encoded@.len() == 0 && error == GenerationError::EmptyPrompt,
            },
    {
        if encoded.len() == 0 {
            return Err(GenerationError::EmptyPrompt);
        }
        let mut tokens: Vec<u32> = Vec::new();
        tokens.push(BOS_TOKEN);
        let mut i: usize = 0;
        while i < encoded.len()
            invariant
                i <= encoded.len(),
                tokens@ == seq![BOS_TOKEN] + encoded@.take(i as int),
            decreases encoded.len() - i,
        {
            tokens.push(encoded[i]);
            i += 1;
            assert(tokens@ =~= seq![BOS_TOKEN] + encoded@.take(i as int));
        }
        assert(encoded@.take(i as int) =~= encoded@);
        let prompt_len: usize = tokens.len();
        Ok(Generation { tokens, prompt_len, pos: 0, blank_run: 0 })
    }

    /// Whether a further token may be generated.
    pub fn may_continue(&self) -> (more: bool)
        requires
            self.wf(),
        ensures
            more == (self.generated() < MAX_TOKENS),
    {
        self.tokens.len() - self.prompt_len < MAX_TOKENS
    }

    /// How many tokens the model has read.
    pub fn index_pos(&self) -> (pos: usize)
        ensures
            pos == self.position(),
    {
        self.pos
    }

    /// The tokens that the model reads next: all that it has not read yet, which is the
    /// whole prompt in the first step and the newest token in every other.
    pub fn next_input(&self) -> (input: Vec<u32>)
        requires
            self.wf(),
        ensures
            input@ == self.all_tokens().skip(self.position() as int),
            self.all_tokens().take(self.position() as int) + input@ == self.all_tokens(),
            self.generated() == 0 ==> input@ == self.all_tokens(),
            self.generated() > 0 ==> input@ == seq![self.all_tokens().last()],
    {
        let mut input: Vec<u32> = Vec::new();
        let mut i: usize = self.pos;
        while i < self.tokens.len()
            invariant
                self.pos <= i <= self.tokens.len(),
                input@ == self.tokens@.subrange(self.pos as int, i as int),
            decreases self.tokens.len() - i,
        {
            input.push(self.tokens[i]);
            i += 1;
            assert(input@ =~= self.tokens@.subrange(self.pos as int, i as int));
        }
        assert(input@ =~= self.tokens@.skip(self.pos as int));
        input
    }

    /// The tokens that are made less likely in this step, as positions in the model's
    /// output, each as often as it was generated.
    pub fn penalized(&self, vocab_size: usize) -> (list: Vec<usize>)
        requires
            self.wf(),
        ensures
            list@.map_values(|token: usize| token as nat) == penalties(
                self.all_tokens(),
                penalty_start(self.prompt_count() as int, self.all_tokens().len() as int),
                self.all_tokens().len() as int,
                vocab_size as nat,
            ),
            forall|i: int| 0 <= i < list@.len() ==> list@[i] < vocab_size,
    {
        let count: usize = self.tokens.len();
        let recent: usize = count.saturating_sub(REPEAT_LAST_N);
        let from: usize = if self.prompt_len > recent {
            self.prompt_len
        } else {
            recent
        };
        let mut list: Vec<usize> = Vec::new();
        let mut i: usize = from;
        assert(list@.map_values(|token: usize| token as nat) =~= Seq::<nat>::empty());
        while i < count
            invariant
                from <= i <= count,
                count == self.tokens.len(),
                list@.map_values(|token: usize| token as nat) == penalties(
                    self.tokens@,
                    from as int,
                    i as int,
                    vocab_size as nat,
                ),
                forall|j: int| 0 <= j < list@.len() ==> list@[j] < vocab_size,
            decreases count - i,
        {
            let token: u32 = self.tokens[i];
            let ghost before = list@;
            if token != EOS_TOKEN && token != BOS_TOKEN && token != TURN_START_TOKEN && token
                != TURN_END_TOKEN {
                let index: usize = token as usize;
                if index < vocab_size {
                    list.push(index);
                    assert(list@.map_values(|token: usize| token as nat) =~= before.map_values(
                        |token: usize| token as nat,
                    ).push(token as nat));
                }
            }
            i += 1;
        }
        list
    }

    /// Takes in the token that was chosen, after the model has read its input. Gives back
    /// whether the answer goes on.
    pub fn accept_token(&mut self, next: u32) -> (goes_on: bool)
        requires
            old(self).wf(),
            old(self).generated() < MAX_TOKENS,
        ensures
            goes_on == !is_stop_token(next),
            !goes_on ==> *final(self) == *old(self),
            goes_on ==> {
                &&& final(self).wf()
                &&& final(self).all_tokens() == old(self).all_tokens().push(next)
                &&& final(self).prompt_count() == old(self).prompt_count()
                &&& final(self).position() == old(self).all_tokens().len()
                &&& final(self).blanks() == old(self).blanks()
            },
    {
        if next == EOS_TOKEN || next == TURN_START_TOKEN || next == TURN_END_TOKEN || next
            == END_OF_TURN_TOKEN {
            return false;
        }
        self.pos = self.tokens.len();
        self.tokens.push(next);
        true
    }

    /// Decides on the text of the newest token, of which is known whether it names a stop
    /// token and whether it is blank. The answer ends at the name of a stop token and at the
    /// last of too many blank pieces in a row.
    pub fn accept_piece(&mut self, names_stop: bool, blank: bool) -> (action: TextAction)
        requires
            old(self).wf(),
        ensures
            action == TextAction::Stop <==> names_stop || blank && old(self).blanks() + 1
                >= MAX_BLANK_RUN,
            action == TextAction::Send ==> final(self).wf(),
            final(self).blanks() == if names_stop {
                old(self).blanks()
            } else if blank {
                old(self).blanks() + 1
            } else {
                0
            },
            final(self).all_tokens() == old(self).all_tokens(),
            final(self).prompt_count() == old(self).prompt_count(),
            final(self).position() == old(self).position(),
    {
        if names_stop {
            return TextAction::Stop;
        }
        if blank {
            self.blank_run = self.blank_run + 1;
            if self.blank_run >= MAX_BLANK_RUN {
                return TextAction::Stop;
            }
        } else {
            self.blank_run = 0;
        }
        TextAction::Send
    }

    /// Decides on the text of the newest token.
    pub fn accept_text(&mut self, text: &str) -> (action: TextAction)
        requires
            old(self).wf(),
        ensures
            ({
                let blank = trimmed(text@).len() == 0;
                &&& action == TextAction::Stop <==> is_stop_text(text@) || blank && old(
                    self,
                ).blanks() + 1 >= MAX_BLANK_RUN
                &&& action == TextAction::Send ==> final(self).wf()
                &&& final(self).blanks() == if is_stop_text(text@) {
                    old(self).blanks()
                } else if blank {
                    old(self).blanks() + 1
                } else {
                    0
                }
            }),
            final(self).all_tokens() == old(self).all_tokens(),
            final(self).prompt_count() == old(self).prompt_count(),
            final(self).position() == old(self).position(),
    {
        let names_stop: bool = text_contains(text, "<end_of_turn>") || text_contains(text, "<eos>");
        self.accept_piece(names_stop, is_blank(text))
    }
}

/// The model reads every token once, in order: more than one at a time only at the start,
/// where it reads the whole prompt.
pub proof fn law_only_the_prompt_is_read_at_once(generation: Generation)
    requires
        generation.wf(),
    ensures
        ({
            let unread = generation.all_tokens().skip(generation.position() as int);
            if generation.position() == 0 {
                unread == generation.all_tokens() && generation.generated() == 0
            } else {
                unread.len() == 1
            }
        }),
{
    assert(generation.all_tokens().skip(0) =~= generation.all_tokens());
}

/// Every token of the answer counts as a repetition, and no token of the prompt does.
pub proof fn law_penalties_cover_the_answer(generation: Generation)
    requires
        generation.wf(),
    ensures
        penalty_start(
            generation.prompt_count() as int,
            generation.all_tokens().len() as int,
        ) == generation.prompt_count(),
{
}

/// A token is made less likely exactly if it was generated, is not exempt and is known to
/// the model.
pub proof fn law_penalized_tokens(tokens: Seq<u32>, from: int, to: int, vocab_size: nat, token: nat)
    requires
        0 <= from,
        to <= tokens.len(),
    ensures
        penalties(tokens, from, to, vocab_size).contains(token) <==> exists|i: int|
            from <= i < to && #[trigger] tokens[i] == token && !is_exempt_token(tokens[i])
                && tokens[i] < vocab_size,
    decreases to - from,
{
    if from < to {
        law_penalized_tokens(tokens, from, to - 1, vocab_size, token);
        let rest = penalties(tokens, from, to - 1, vocab_size);
        let all = penalties(tokens, from, to, vocab_size);
        let last = tokens[to - 1];
        if !is_exempt_token(last) && last < vocab_size {
            assert(all == rest.push(last as nat));
            assert(all[rest.len() as int] == last);
            assert forall|x: nat| rest.contains(x) implies all.contains(x) by {
                let k = rest.index_of(x);
                assert(all[k] == x);
            }
            if all.contains(token) && token != last {
                let k = all.index_of(token);
                assert(rest[k] == token);
            }
        }
    }
}

/// Four tokens end an answer, and no others do: the end of a text, and the tokens that open
/// and close a turn.
pub proof fn law_four_tokens_end_an_answer(token: u32)
    ensures
        is_stop_token(token) <==> token == 1 || token == 105 || token == 106 || token == 107,
{
}

/// Two texts end an answer wherever they stand in a piece, and no others do.
pub proof fn law_two_texts_end_an_answer(text: Seq<char>)
    ensures
        is_stop_text(text) <==> contains(text, "<end_of_turn>"@) || contains(text, "<eos>"@),
{
}

/// A piece of text that holds neither `<end_of_turn>` nor `<eos>` is sent as it is, and the
/// answer goes on, unless it is blank and nine blank pieces came before it in a row. A piece
/// that is more than white space ends the row.
pub proof fn law_ordinary_pieces_are_sent(blanks: nat, next: u32, text: Seq<char>)
    requires
        next != 1 && next != 105 && next != 106 && next != 107,
        !contains(text, "<end_of_turn>"@),
        !contains(text, "<eos>"@),
        blanks < 9 || exists|i: int| 0 <= i < text.len() && !unicode_whitespace(#[trigger] text[i]),
    ensures
        (forall|i: int| 0 <= i < text.len() ==> unicode_whitespace(#[trigger] text[i])) ==> taken(
            blanks,
            next,
            Some(text),
        ) == Taking::Send(text, blanks + 1),
        (exists|i: int| 0 <= i < text.len() && !unicode_whitespace(#[trigger] text[i])) ==> taken(
            blanks,
            next,
            Some(text),
        ) == Taking::Send(text, 0),
{
    law_trimming_takes_white_space_only(text);
}

/// The tenth blank piece in a row ends the answer, and so do the two texts and the four
/// tokens, whatever came before; a token without a text is passed over.
pub proof fn law_what_ends_an_answer(blanks: nat, next: u32, text: Seq<char>)
    ensures
        next == 1 || next == 105 || next == 106 || next == 107 ==> taken(blanks, next, Some(text))
            == Taking::Stop && taken(blanks, next, None) == Taking::Stop,
        contains(text, "<end_of_turn>"@) || contains(text, "<eos>"@) ==> taken(
            blanks,
            next,
            Some(text),
        ) == Taking::Stop,
        blanks >= 9 && (forall|i: int|
            0 <= i < text.len() ==> unicode_whitespace(#[trigger] text[i])) ==> taken(
            blanks,
            next,
            Some(text),
        ) == Taking::Stop,
        next != 1 && next != 105 && next != 106 && next != 107 ==> taken(blanks, next, None)
            == Taking::Skip,
{
    law_trimming_takes_white_space_only(text);
}

/// A prompt stands whole in the markup of the model, in a turn of the user that is closed,
/// with the turn of the model opened behind it.
pub proof fn law_the_prompt_stands_in_its_markup(prompt: Seq<char>)
    ensures
        wrapped_prompt(prompt) == "<|turn|>user\n"@ + prompt + "<turn|>\n<|turn|>model\n"@,
{
}

/// Repetitions are counted from the end of the prompt, and over the last 512 tokens at most.
pub proof fn law_repetitions_count_behind_the_prompt(prompt_len: int, count: int)
    requires
        0 <= prompt_len <= count,
    ensures
        ({
            let from = penalty_start(prompt_len, count);
            &&& prompt_len <= from <= count
            &&& count - from <= 512
            &&& from == prompt_len || count - from == 512
        }),
{
}

/// Each token is penalized for each time that it was generated, in order, whatever stands
/// around it; the four control tokens 1, 2, 105 and 106 never are, nor is a token without a
/// score.
pub proof fn law_each_repetition_is_penalized(
    tokens: Seq<u32>,
    from: int,
    middle: int,
    to: int,
    vocab_size: nat,
)
    requires
        0 <= from <= middle <= to <= tokens.len(),
    ensures
        penalties(tokens, from, to, vocab_size) == penalties(tokens, from, middle, vocab_size)
            + penalties(tokens, middle, to, vocab_size),
        from < to ==> {
            let token = tokens[from];
            penalties(tokens, from, from + 1, vocab_size) == if token != 1 && token != 2 && token
                != 105 && token != 106 && token < vocab_size {
                seq![token as nat]
            } else {
                seq![]
            }
        },
    decreases to - middle,
{
    if from < to {
        assert(penalties(tokens, from, from, vocab_size) =~= Seq::<nat>::empty());
        assert(Seq::<nat>::empty().push(tokens[from] as nat) =~= seq![tokens[from] as nat]);
    }
    if middle == to {
        assert(penalties(tokens, from, middle, vocab_size) + penalties(
            tokens,
            middle,
            to,
            vocab_size,
        ) =~= penalties(tokens, from, to, vocab_size));
    } else {
        law_each_repetition_is_penalized(tokens, from, middle, to - 1, vocab_size);
        let front = penalties(tokens, from, middle, vocab_size);
        let back = penalties(tokens, middle, to - 1, vocab_size);
        let token = tokens[to - 1] as nat;
        assert((front + back).push(token) =~= front + back.push(token));
    }
}

/// An answer on its way begins with token 2 and has at least one more token of the prompt; it
/// has at most 512 tokens behind the prompt, of which none ends an answer; and fewer than ten
/// blank pieces came last.
pub proof fn law_answers_stay_in_bounds(generation: Generation)
    requires
        generation.wf(),
    ensures
        generation.all_tokens()[0] == 2,
        generation.prompt_count() >= 2,
        generation.all_tokens().len() - generation.prompt_count() <= 512,
        forall|i: int|
            generation.prompt_count() <= i < generation.all_tokens().len() ==> {
                let token = #[trigger] generation.all_tokens()[i];
                token != 1 && token != 105 && token != 106 && token != 107
            },
        generation.blanks() < 10,
{
}

} // verus!
