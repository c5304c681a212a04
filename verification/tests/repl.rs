use pocket_core::repl::{classify, display_piece, launch_mode, read_line};
use pocket_core::repl::{LaunchMode, LineAction};
use pocket_core::text::words_of;
use pocket_core::thinking::{ParserOutput, ParserState};

#[test]
fn launch_modes() {
    assert_eq!(launch_mode(false, false, 1), LaunchMode::Hud);
    assert_eq!(launch_mode(true, true, 3), LaunchMode::Hud);
    assert_eq!(launch_mode(false, true, 2), LaunchMode::Server);
    assert_eq!(launch_mode(false, false, 3), LaunchMode::Repl);
}

#[test]
fn lines_of_input() {
    assert_eq!(read_line("  \t\u{a0} "), LineAction::Ignore);
    assert_eq!(read_line(" ExIt\n"), LineAction::Exit);
    assert_eq!(read_line("QUIT"), LineAction::Exit);
    assert_eq!(read_line(" exit now "), LineAction::Ask("exit now".to_string()));
    assert_eq!(read_line("\u{2003}hé\u{2003}"), LineAction::Ask("hé".to_string()));
    assert_eq!(classify(" exit".to_string()), LineAction::Ask(" exit".to_string()));
}

#[test]
fn pieces_on_the_terminal() {
    let thought = ParserOutput::Thinking("hm".to_string());
    let fact = ParserOutput::Factual("4".to_string());
    assert_eq!(
        display_piece(ParserState::Factual, &thought),
        (
            "\x1b[33m\n[Thinking Process]\n\x1b[0m\x1b[90mhm\x1b[0m".to_string(),
            ParserState::Thinking
        )
    );
    assert_eq!(
        display_piece(ParserState::Thinking, &thought),
        ("\x1b[90mhm\x1b[0m".to_string(), ParserState::Thinking)
    );
    assert_eq!(
        display_piece(ParserState::Thinking, &fact),
        (
            "\x1b[36m\n\n[Factual Response]\n\x1b[0m4".to_string(),
            ParserState::Factual
        )
    );
    assert_eq!(
        display_piece(ParserState::Factual, &fact),
        ("4".to_string(), ParserState::Factual)
    );
}

#[test]
fn words_are_typed_one_by_one() {
    assert_eq!(words_of("  a bc\u{3000}d\n"), vec!["a", "bc", "d"]);
    assert!(words_of(" \t").is_empty());
}
