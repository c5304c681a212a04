use pocket_core::generation::{wrap_prompt, Generation, GenerationError, TextAction};
use pocket_core::generation::MAX_TOKENS;

fn begin(tokens: &[u32]) -> Generation {
    match Generation::start(&tokens.to_vec()) {
        Ok(generation) => generation,
        Err(_) => panic!("no tokens"),
    }
}

#[test]
fn prompts_are_wrapped() {
    assert_eq!(
        wrap_prompt("Hi"),
        "<|turn|>user\nHi<turn|>\n<|turn|>model\n"
    );
}

#[test]
fn a_prompt_needs_tokens() {
    match Generation::start(&vec![]) {
        Err(error) => {
            assert_eq!(error, GenerationError::EmptyPrompt);
            assert_eq!(error.message(), "Input prompt generated zero tokens");
        }
        Ok(_) => panic!("started"),
    }
    assert_eq!(
        GenerationError::Tokenization("bad".to_string()).message(),
        "Tokenization failed: bad"
    );
}

#[test]
fn the_prompt_is_read_first_then_single_tokens() {
    let mut generation = begin(&[10, 11]);
    assert_eq!(generation.next_input(), vec![2, 10, 11]);
    assert_eq!(generation.index_pos(), 0);
    assert!(generation.accept_token(50));
    assert_eq!(generation.next_input(), vec![50]);
    assert_eq!(generation.index_pos(), 3);
    assert!(generation.accept_token(51));
    assert_eq!(generation.next_input(), vec![51]);
    assert_eq!(generation.index_pos(), 4);
}

#[test]
fn stop_tokens_end_the_answer() {
    for stop in [1, 105, 106, 107] {
        let mut generation = begin(&[10]);
        assert!(!generation.accept_token(stop));
        assert_eq!(generation.next_input(), vec![2, 10]);
    }
    let mut generation = begin(&[10]);
    assert!(generation.accept_token(2));
    assert!(generation.accept_token(108));
}

#[test]
fn repetitions_are_penalized_but_not_the_prompt() {
    let mut generation = begin(&[7, 8]);
    assert!(generation.penalized(100).is_empty());
    for token in [7, 2, 9, 7, 200] {
        assert!(generation.accept_token(token));
    }
    assert_eq!(generation.penalized(100), vec![7, 9, 7]);
    assert_eq!(generation.penalized(201), vec![7, 9, 7, 200]);
    assert_eq!(generation.penalized(8), vec![7, 7]);
}

#[test]
fn stop_texts_end_the_answer() {
    for text in ["<end_of_turn>", "x<eos>y"] {
        let mut generation = begin(&[10]);
        generation.accept_token(50);
        assert_eq!(generation.accept_text(text), TextAction::Stop);
    }
    let mut generation = begin(&[10]);
    assert_eq!(generation.accept_text("<end_of_tur>"), TextAction::Send);
}

#[test]
fn ten_blank_pieces_end_the_answer() {
    let mut generation = begin(&[10]);
    for _ in 0..9 {
        assert_eq!(generation.accept_text(" \n"), TextAction::Send);
    }
    assert_eq!(generation.accept_text("a"), TextAction::Send);
    for _ in 0..9 {
        assert_eq!(generation.accept_text(""), TextAction::Send);
    }
    assert_eq!(generation.accept_text("\t"), TextAction::Stop);
}

#[test]
fn pieces_are_judged_by_their_kind() {
    let mut generation = begin(&[10]);
    assert_eq!(generation.accept_piece(true, false), TextAction::Stop);
    assert_eq!(generation.accept_piece(false, true), TextAction::Send);
    assert_eq!(generation.accept_piece(false, false), TextAction::Send);
}

#[test]
fn an_answer_has_a_largest_length() {
    let mut generation = begin(&[10]);
    for _ in 0..MAX_TOKENS {
        assert!(generation.may_continue());
        assert!(generation.accept_token(50));
    }
    assert!(!generation.may_continue());
    assert_eq!(generation.penalized(51).len(), MAX_TOKENS);
}

#[test]
fn turn_boundaries_by_number_and_by_name() {
    let mut generation = begin(&[10]);
    assert!(!generation.accept_token(107));
    assert_eq!(generation.next_input(), vec![2, 10]);
    // Under another number the token is known by its name, which is not sent on.
    assert!(generation.accept_token(300));
    assert_eq!(generation.accept_text("<end_of_turn>"), TextAction::Stop);
}
