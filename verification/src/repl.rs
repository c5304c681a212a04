//! The decisions of the command line: what is started, what a line of input means, and how a
//! streamed answer looks on the terminal.

use vstd::prelude::*;

use crate::text::{eq_ignoring_case, trim_text};
use crate::text::{law_case_is_all_that_may_differ, same_ignoring_case, trimmed};
use crate::thinking::{ParserOutput, ParserState};

verus! {

/// What the program runs as.
#[derive(Debug, Clone, Copy, PartialEq, Eq, Structural)]
pub enum LaunchMode {
    /// The chat page in the browser, with its server.
    Hud,
    /// The server alone.
    Server,
    /// The chat on the terminal.
    Repl,
}

/// What the program runs as: the chat page where it is asked for or nothing at all is, the
/// server where that is asked for, else the terminal. `arg_count` counts the program's own
/// name.
pub fn launch_mode(ui: bool, serve: bool, arg_count: usize) -> (mode: LaunchMode)
    ensures
        mode == LaunchMode::Hud <==> ui || arg_count <= 1,
        mode == LaunchMode::Server <==> !ui && arg_count > 1 && serve,
        mode == LaunchMode::Repl <==> !ui && arg_count > 1 && !serve,
{
    if ui || arg_count <= 1 {
        LaunchMode::Hud
    } else if serve {
        LaunchMode::Server
    } else {
        LaunchMode::Repl
    }
}

/// What a line of input asks for.
#[derive(Debug, Clone, PartialEq, Eq)]
pub enum LineAction {
    /// Nothing.
    Ignore,
    /// The end of the chat.
    Exit,
    /// An answer to this prompt.
    Ask(String),
}

/// The words that end the chat, in any case.
pub open spec fn is_exit_word(text: Seq<char>) -> bool {
    same_ignoring_case(text, "exit"@) || same_ignoring_case(text, "quit"@)
}

/// What a line without white space at its ends asks for.
pub fn classify(line: String) -> (action: LineAction)
    ensures
        match action {
            LineAction::Ignore => line@.len() == 0,
            LineAction::Exit => line@.len() > 0 && is_exit_word(line@),
            LineAction::Ask(prompt) => {
                &&& line@.len() > 0
                &&& !is_exit_word(line@)
                &&& prompt@ == line@
            },
        },
{
    if line.as_str().is_empty() {
        LineAction::Ignore
    } else if eq_ignoring_case(line.as_str(), "exit") || eq_ignoring_case(line.as_str(), "quit") {
        LineAction::Exit
    } else {
        LineAction::Ask(line)
    }
}

/// What a line of input asks for; white space at its ends does not count.
pub fn read_line(line: &str) -> (action: LineAction)
    ensures
        match action {
            LineAction::Ignore => trimmed(line@).len() == 0,
            LineAction::Exit => trimmed(line@).len() > 0 && is_exit_word(trimmed(line@)),
            LineAction::Ask(prompt) => {
                &&& trimmed(line@).len() > 0
                &&& !is_exit_word(trimmed(line@))
                &&& prompt@ == trimmed(line@)
            },
        },
{
    classify(trim_text(line))
}

/// What stands in front of a piece: a heading where the kind of text changes.
pub open spec fn heading(shown: ParserState, next: ParserState) -> Seq<char> {
    match (shown, next) {
        (ParserState::Factual, ParserState::Thinking) => "\x1b[33m\n[Thinking Process]\n\x1b[0m"@,
        (ParserState::Thinking, ParserState::Factual) => "\x1b[36m\n\n[Factual Response]\n\x1b[0m"@,
        _ => seq![],
    }
}

/// A piece as it is shown: reasoning dimmed, factual text as it is.
pub open spec fn body(piece: (ParserState, Seq<char>)) -> Seq<char> {
    match piece.0 {
        ParserState::Factual => piece.1,
        ParserState::Thinking => "\x1b[90m"@ + piece.1 + "\x1b[0m"@,
    }
}

/// What the terminal shows of a list of pieces after text of the kind `shown`.
pub open spec fn displayed(shown: ParserState, pieces: Seq<(ParserState, Seq<char>)>) -> Seq<char>
    decreases pieces.len(),
{
    if pieces.len() == 0 {
        seq![]
    } else {
        heading(shown, pieces[0].0) + body(pieces[0]) + displayed(pieces[0].0, pieces.skip(1))
    }
}

/// What the terminal shows of one piece after text of the kind `shown`, and the kind of text
/// that it shows then.
pub fn display_piece(shown: ParserState, output: &ParserOutput) -> (display: (String, ParserState))
    ensures
        display.0@ == heading(shown, output@.0) + body(output@),
        display.1 == output@.0,
{
    let mut text: String = String::new();
    match output {
        ParserOutput::Thinking(part) => {
            if shown == ParserState::Factual {
                text.append("\x1b[33m\n[Thinking Process]\n\x1b[0m");
            }
            text.append("\x1b[90m");
            text.append(part.as_str());
            text.append("\x1b[0m");
            assert(text@ =~= heading(shown, output@.0) + body(output@));
            (text, ParserState::Thinking)
        },
        ParserOutput::Factual(part) => {
            if shown == ParserState::Thinking {
                text.append("\x1b[36m\n\n[Factual Response]\n\x1b[0m");
            }
            text.append(part.as_str());
            assert(text@ =~= heading(shown, output@.0) + body(output@));
            (text, ParserState::Factual)
        },
    }
}

/// A heading stands exactly where the kind of text changes.
pub proof fn law_headings_mark_changes(shown: ParserState, next: ParserState)
    ensures
        heading(shown, next).len() > 0 <==> shown != next,
{
    reveal_strlit("\x1b[33m\n[Thinking Process]\n\x1b[0m");
    reveal_strlit("\x1b[36m\n\n[Factual Response]\n\x1b[0m");
}

/// What is shown of two lists of pieces, one after the other, is what is shown of both
/// together.
pub proof fn law_display_is_incremental(
    shown: ParserState,
    first: Seq<(ParserState, Seq<char>)>,
    second: Seq<(ParserState, Seq<char>)>,
)
    ensures
        displayed(shown, first + second) == displayed(shown, first) + displayed(
            if first.len() == 0 {
                shown
            } else {
                first.last().0
            },
            second,
        ),
    decreases first.len(),
{
    if first.len() == 0 {
        assert(first + second =~= second);
        assert(displayed(shown, first) + displayed(shown, second) =~= displayed(shown, second));
    } else {
        let rest = first.skip(1);
        assert((first + second).skip(1) =~= rest + second);
        assert((first + second)[0] == first[0]);
        law_display_is_incremental(first[0].0, rest, second);
        if rest.len() == 0 {
            assert(first.last() == first[0]);
        } else {
            assert(rest.last() == first.last());
        }
        assert(displayed(shown, first + second) =~= displayed(shown, first) + displayed(
            first.last().0,
            second,
        ));
    }
}

/// Two words end the chat, in any case, and only alone.
pub proof fn law_two_words_end_the_chat(text: Seq<char>)
    ensures
        is_exit_word(text) <==> {
            &&& text.len() == 4
            &&& {
                ||| (text[0] == 'e' || text[0] == 'E') && (text[1] == 'x' || text[1] == 'X') && (
                text[2] == 'i' || text[2] == 'I') && (text[3] == 't' || text[3] == 'T')
                ||| (text[0] == 'q' || text[0] == 'Q') && (text[1] == 'u' || text[1] == 'U') && (
                text[2] == 'i' || text[2] == 'I') && (text[3] == 't' || text[3] == 'T')
            }
        },
{
    reveal_strlit("exit");
    reveal_strlit("quit");
    law_case_is_all_that_may_differ(text, "exit"@);
    law_case_is_all_that_may_differ(text, "quit"@);
    if same_ignoring_case(text, "exit"@) || same_ignoring_case(text, "quit"@) {
        assert(text[0] == text[0] && text[1] == text[1] && text[2] == text[2] && text[3]
            == text[3]);
    }
}

/// Factual text is shown as it is; reasoning is shown as it is between the codes that dim it.
pub proof fn law_pieces_are_shown_in_full(text: Seq<char>)
    ensures
        body((ParserState::Factual, text)) == text,
        body((ParserState::Thinking, text)) == "\x1b[90m"@ + text + "\x1b[0m"@,
{
}

/// Each kind of text is announced by its own heading.
pub proof fn law_headings_name_the_kind()
    ensures
        heading(ParserState::Factual, ParserState::Thinking)
            == "\x1b[33m\n[Thinking Process]\n\x1b[0m"@,
        heading(ParserState::Thinking, ParserState::Factual)
            == "\x1b[36m\n\n[Factual Response]\n\x1b[0m"@,
        heading(ParserState::Factual, ParserState::Factual) == Seq::<char>::empty(),
        heading(ParserState::Thinking, ParserState::Thinking) == Seq::<char>::empty(),
{
}

/// A single piece is shown behind its heading.
pub proof fn law_a_piece_follows_its_heading(shown: ParserState, piece: (ParserState, Seq<char>))
    ensures
        displayed(shown, seq![piece]) == heading(shown, piece.0) + body(piece),
{
    let one = seq![piece];
    assert(one.skip(1).len() == 0);
    assert(displayed(piece.0, one.skip(1)) =~= Seq::<char>::empty());
    assert(displayed(shown, one) =~= heading(shown, piece.0) + body(piece));
}

} // verus!
