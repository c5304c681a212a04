//! A streaming parser that keeps the reasoning blocks of a reply, written between
//! `<|think|>` and `</|think|>`, apart from its factual text. A tag may be split over any
//! number of chunks: what could still become a tag is held back until that is decided.

use vstd::prelude::*;

use crate::text::{chars_find_from, slice, to_chars};
use crate::text::{ends_with, find, lemma_find_from, lemma_find_skip};

verus! {

/// Which kind of text the parser is reading.
#[derive(Debug, Clone, Copy, PartialEq, Eq, Structural)]
pub enum ParserState {
    Factual,
    Thinking,
}

/// A finished piece of text, with its kind.
#[derive(Debug, Clone, PartialEq, Eq)]
pub enum ParserOutput {
    Factual(String),
    Thinking(String),
}

impl View for ParserOutput {
    type V = (ParserState, Seq<char>);

    open spec fn view(&self) -> (ParserState, Seq<char>) {
        match self {
            ParserOutput::Factual(text) => (ParserState::Factual, text@),
            ParserOutput::Thinking(text) => (ParserState::Thinking, text@),
        }
    }
}

/// What a list of pieces says, piece by piece.
pub open spec fn pieces(outputs: Seq<ParserOutput>) -> Seq<(ParserState, Seq<char>)> {
    outputs.map_values(|output: ParserOutput| output@)
}

/// The tag that ends text of the given kind.
pub open spec fn closing_tag(state: ParserState) -> Seq<char> {
    match state {
        ParserState::Factual => "<|think|>"@,
        ParserState::Thinking => "</|think|>"@,
    }
}

/// The kind of text on the other side of a tag.
pub open spec fn toggled(state: ParserState) -> ParserState {
    match state {
        ParserState::Factual => ParserState::Thinking,
        ParserState::Thinking => ParserState::Factual,
    }
}

/// The length, at most `longest`, of the longest end of `text` that begins `tag`.
pub open spec fn partial_len(text: Seq<char>, tag: Seq<char>, longest: nat) -> nat
    decreases longest,
{
    if longest == 0 || ends_with(text, tag.take(longest as int)) {
        longest
    } else {
        partial_len(text, tag, (longest - 1) as nat)
    }
}

/// How many characters at the end of `text` could still become `tag`.
pub open spec fn held_len(text: Seq<char>, tag: Seq<char>) -> nat {
    partial_len(text, tag, (tag.len() - 1) as nat)
}

/// One piece of the given kind; none where there is no text.
pub open spec fn piece(state: ParserState, text: Seq<char>) -> Seq<(ParserState, Seq<char>)> {
    if text.len() == 0 {
        seq![]
    } else {
        seq![(state, text)]
    }
}

/// What reading `text` leads to: the finished pieces, the kind of text that the parser is
/// in afterwards, and the text that it holds back.
pub struct Scan {
    pub pieces: Seq<(ParserState, Seq<char>)>,
    pub state: ParserState,
    pub pending: Seq<char>,
}

/// Reading `text` in the given state: each closing tag ends a piece and switches the kind;
/// behind the last tag everything is finished but for what could still become a tag.
pub open spec fn scan(state: ParserState, text: Seq<char>) -> Scan
    decreases text.len(),
{
    proof {
        lemma_tags();
        lemma_find_from(text, closing_tag(state), 0);
    }
    let tag = closing_tag(state);
    match find(text, tag) {
        Some(at) => {
            let rest = scan(toggled(state), text.skip(at + tag.len()));
            Scan {
                pieces: piece(state, text.take(at)) + rest.pieces,
                state: rest.state,
                pending: rest.pending,
            }
        },
        None => {
            let emit = text.len() - held_len(text, tag);
            Scan { pieces: piece(state, text.take(emit)), state, pending: text.skip(emit) }
        },
    }
}

/// `pending` is what a parser can hold back in the given state: it begins the closing tag,
/// and is not all of it.
pub open spec fn waiting(state: ParserState, pending: Seq<char>) -> bool {
    let tag = closing_tag(state);
    pending.len() < tag.len() && pending == tag.take(pending.len() as int)
}

/// The tags in letters.
pub proof fn lemma_tags()
    ensures
        closing_tag(ParserState::Factual) == seq!['<', '|', 't', 'h', 'i', 'n', 'k', '|', '>'],
        closing_tag(ParserState::Thinking) == seq!['<', '/', '|', 't', 'h', 'i', 'n', 'k', '|', '>'],
{
    reveal_strlit("<|think|>");
    reveal_strlit("</|think|>");
    assert(closing_tag(ParserState::Factual) =~= seq!['<', '|', 't', 'h', 'i', 'n', 'k', '|', '>']);
    assert(closing_tag(ParserState::Thinking) =~= seq![
        '<',
        '/',
        '|',
        't',
        'h',
        'i',
        'n',
        'k',
        '|',
        '>',
    ]);
}

/// `partial_len` is the longest candidate.
pub proof fn lemma_partial_len(text: Seq<char>, tag: Seq<char>, longest: nat)
    requires
        longest <= tag.len(),
    ensures
        partial_len(text, tag, longest) <= longest,
        ends_with(text, tag.take(partial_len(text, tag, longest) as int)),
        forall|k: int| partial_len(text, tag, longest) < k <= longest ==> !ends_with(text, tag.take(k)),
    decreases longest,
{
    if longest == 0 {
        assert(text.subrange(text.len() as int, text.len() as int) =~= tag.take(0));
    } else if !ends_with(text, tag.take(longest as int)) {
        lemma_partial_len(text, tag, (longest - 1) as nat);
    }
}

/// A streaming parser for replies with reasoning blocks.
pub struct ReasoningParser {
    state: ParserState,
    pending_buffer: String,
}

impl ReasoningParser {
    /// The kind of text that the parser is in.
    pub closed spec fn mode(&self) -> ParserState {
        self.state
    }

    /// The text that the parser holds back.
    pub closed spec fn pending(&self) -> Seq<char> {
        self.pending_buffer@
    }

    /// What is held back begins the tag that would end the current text, and is not all of it.
    pub open spec fn wf(&self) -> bool {
        waiting(self.mode(), self.pending())
    }

    /// Creates a parser that reads factual text.
    pub fn new() -> (parser: Self)
        ensures
            parser.mode() == ParserState::Factual,
            parser.pending() == Seq::<char>::empty(),
            parser.wf(),
    {
        proof {
            lemma_tags();
        }
        let parser = ReasoningParser {
            state: ParserState::Factual,
            pending_buffer: String::new(),
        };
        assert(parser.pending() =~= closing_tag(parser.mode()).take(0));
        parser
    }

    /// The kind of text that the parser is in.
    pub fn state(&self) -> (state: ParserState)
        ensures
            state == self.mode(),
    {
        self.state
    }

    /// Takes in a chunk and gives out the pieces that it finishes. An end of the text that
    /// could still become a tag is held back, so that no part of a tag leaks.
    pub fn process(&mut self, chunk: &str) -> (outputs: Vec<ParserOutput>)
        ensures
            pieces(outputs@) == scan(old(self).mode(), old(self).pending() + chunk@).pieces,
            final(self).mode() == scan(old(self).mode(), old(self).pending() + chunk@).state,
            final(self).pending() == scan(old(self).mode(), old(self).pending() + chunk@).pending,
            final(self).wf(),
    {
        let mut buffer: String = self.pending_buffer.clone();
        buffer.append(chunk);
        let ghost whole = buffer@;
        let ghost goal = scan(self.state, whole);
        let text: Vec<char> = to_chars(buffer.as_str());
        let opening: Vec<char> = to_chars("<|think|>");
        let closing: Vec<char> = to_chars("</|think|>");
        let mut outputs: Vec<ParserOutput> = Vec::new();
        let mut state: ParserState = self.state;
        let mut start: usize = 0;
        proof {
            lemma_tags();
            assert(whole.skip(0) =~= whole);
            assert(goal.pieces =~= pieces(outputs@) + goal.pieces);
        }
        loop
            invariant
                start <= text.len(),
                text@ == whole,
                buffer@ == whole,
                goal == scan(old(self).mode(), old(self).pending() + chunk@),
                opening@ == closing_tag(ParserState::Factual),
                closing@ == closing_tag(ParserState::Thinking),
                opening@.len() == 9,
                closing@.len() == 10,
                goal.pieces == pieces(outputs@) + scan(state, whole.skip(start as int)).pieces,
                goal.state == scan(state, whole.skip(start as int)).state,
                goal.pending == scan(state, whole.skip(start as int)).pending,
            decreases text.len() - start,
        {
            let ghost rest = whole.skip(start as int);
            let ghost before = outputs@;
            let tag: &Vec<char> = match state {
                ParserState::Factual => &opening,
                ParserState::Thinking => &closing,
            };
            proof {
                lemma_find_skip(whole, tag@, start as int);
                lemma_find_from(whole, tag@, start as int);
            }
            match chars_find_from(&text, tag, start) {
                Some(at) => {
                    proof {
                        assert(whole.subrange(start as int, at as int) =~= rest.take(at - start));
                        assert(rest.skip(at - start + tag@.len()) =~= whole.skip(at + tag@.len()));
                    }
                    if start < at {
                        outputs.push(finished(state, slice(buffer.as_str(), start, at)));
                    }
                    proof {
                        assert(pieces(outputs@) =~= pieces(before) + piece(
                            state,
                            rest.take(at - start),
                        ));
                    }
                    state = match state {
                        ParserState::Factual => ParserState::Thinking,
                        ParserState::Thinking => ParserState::Factual,
                    };
                    start = at + tag.len();
                    assert(goal.pieces =~= pieces(outputs@) + scan(state, whole.skip(start as int)).pieces);
                },
                None => {
                    let end: usize = text.len() - held(&text, tag, start);
                    proof {
                        lemma_partial_len(rest, tag@, (tag@.len() - 1) as nat);
                        assert(whole.subrange(start as int, end as int) =~= rest.take(end - start));
                        assert(whole.subrange(end as int, whole.len() as int) =~= rest.skip(
                            end - start,
                        ));
                    }
                    if start < end {
                        outputs.push(finished(state, slice(buffer.as_str(), start, end)));
                    }
                    proof {
                        assert(pieces(outputs@) =~= pieces(before) + piece(
                            state,
                            rest.take(end - start),
                        ));
                    }
                    self.state = state;
                    self.pending_buffer = slice(buffer.as_str(), end, text.len());
                    return outputs;
                },
            }
        }
    }

    /// Gives out what is held back, at the end of a reply.
    pub fn flush(&mut self) -> (output: Option<ParserOutput>)
        ensures
            match output {
                Some(output) => old(self).pending().len() > 0 && output@ == (
                    old(self).mode(),
                    old(self).pending(),
                ),
                None => old(self).pending().len() == 0,
            },
            final(self).mode() == old(self).mode(),
            final(self).pending() == Seq::<char>::empty(),
            final(self).wf(),
    {
        proof {
            lemma_tags();
            assert(closing_tag(self.state).take(0) =~= Seq::<char>::empty());
        }
        if self.pending_buffer.as_str().is_empty() {
            assert(self.pending_buffer@ =~= Seq::<char>::empty());
            None
        } else {
            let content: String = self.pending_buffer.clone();
            self.pending_buffer = String::new();
            Some(finished(self.state, content))
        }
    }
}

/// A piece of the given kind.
fn finished(state: ParserState, text: String) -> (output: ParserOutput)
    ensures
        output@ == (state, text@),
{
    match state {
        ParserState::Factual => ParserOutput::Factual(text),
        ParserState::Thinking => ParserOutput::Thinking(text),
    }
}

/// How many characters at the end of `text`, from `start` on, could still become `tag`.
fn held(text: &Vec<char>, tag: &Vec<char>, start: usize) -> (count: usize)
    requires
        start <= text.len(),
        tag.len() > 0,
    ensures
        count == held_len(text@.skip(start as int), tag@),
        count <= text.len() - start,
{
    let ghost rest = text@.skip(start as int);
    let mut count: usize = tag.len() - 1;
    while count > 0
        invariant
            count < tag.len(),
            start <= text.len(),
            rest == text@.skip(start as int),
            held_len(rest, tag@) == partial_len(rest, tag@, count as nat),
        decreases count,
    {
        if count <= text.len() - start {
            let from: usize = text.len() - count;
            let mut i: usize = 0;
            while i < count && text[from + i] == tag[i]
                invariant
                    i <= count,
                    count < tag.len(),
                    from + count == text.len(),
                    forall|j: int| 0 <= j < i ==> text@[from + j] == tag@[j],
                decreases count - i,
            {
                i += 1;
            }
            let ghost end = rest.subrange(rest.len() - count, rest.len() as int);
            if i == count {
                assert(end =~= tag@.take(count as int));
                return count;
            }
            assert(end[i as int] != tag@.take(count as int)[i as int]);
        }
        count -= 1;
    }
    0
}

} // verus!
