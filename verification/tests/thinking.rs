use pocket_core::thinking::{ParserOutput, ParserState, ReasoningParser};

#[test]
fn test_clean_tag_isolation() {
    let mut parser = ReasoningParser::new();

    // Plain factual text comes straight out.
    let out1 = parser.process("Hello world! ");
    assert_eq!(out1, vec![ParserOutput::Factual("Hello world! ".to_string())]);

    // A reasoning block begins.
    let out2 = parser.process("<|think|>I am thinking hard.");
    assert_eq!(out2, vec![ParserOutput::Thinking("I am thinking hard.".to_string())]);

    // And ends again.
    let out3 = parser.process("</|think|> Here is the fact.");
    assert_eq!(out3, vec![ParserOutput::Factual(" Here is the fact.".to_string())]);

    assert_eq!(parser.state(), ParserState::Factual);
}

#[test]
fn test_chunked_tag_boundaries() {
    let mut parser = ReasoningParser::new();

    // The opening tag is split over three chunks.
    let out1 = parser.process("The answer is <|");
    assert_eq!(out1, vec![ParserOutput::Factual("The answer is ".to_string())]);

    let out2 = parser.process("th");
    assert_eq!(out2, vec![]);

    let out3 = parser.process("ink|>2 + 2 is ");
    assert_eq!(out3, vec![ParserOutput::Thinking("2 + 2 is ".to_string())]);

    // The closing tag is split over two.
    let out4 = parser.process("4. </|th");
    assert_eq!(out4, vec![ParserOutput::Thinking("4. ".to_string())]);

    let out5 = parser.process("ink|>Done!");
    assert_eq!(out5, vec![ParserOutput::Factual("Done!".to_string())]);

    assert_eq!(parser.flush(), None);
}

#[test]
fn test_flush_withheld_text() {
    let mut parser = ReasoningParser::new();

    // The end begins a tag that never comes.
    let out = parser.process("This is <|th");
    assert_eq!(out, vec![ParserOutput::Factual("This is ".to_string())]);

    // What was withheld comes out in the end.
    let flushed = parser.flush();
    assert_eq!(flushed, Some(ParserOutput::Factual("<|th".to_string())));
}

/// All characters of a list of pieces, each with its kind.
fn labelled(pieces: &[ParserOutput]) -> Vec<(ParserState, char)> {
    let mut list = Vec::new();
    for piece in pieces {
        match piece {
            ParserOutput::Factual(text) => {
                list.extend(text.chars().map(|c| (ParserState::Factual, c)))
            }
            ParserOutput::Thinking(text) => {
                list.extend(text.chars().map(|c| (ParserState::Thinking, c)))
            }
        }
    }
    list
}

fn read_in_chunks(text: &str, size: usize) -> (Vec<ParserOutput>, ParserState) {
    let chars: Vec<char> = text.chars().collect();
    let mut parser = ReasoningParser::new();
    let mut pieces = Vec::new();
    for chunk in chars.chunks(size) {
        let chunk: String = chunk.iter().collect();
        pieces.extend(parser.process(&chunk));
    }
    pieces.extend(parser.flush());
    (pieces, parser.state())
}

#[test]
fn chunk_sizes_make_no_difference() {
    let text = "Fact <<|think|>é reasoning < </|think| </|think|>ünd <|think|></|think|>end <|thin";
    let (whole, state) = read_in_chunks(text, 1000);
    assert_eq!(state, ParserState::Factual);
    for size in 1..20 {
        let (pieces, last) = read_in_chunks(text, size);
        assert_eq!(labelled(&pieces), labelled(&whole));
        assert_eq!(last, state);
    }
}

#[test]
fn only_the_tags_are_dropped() {
    let (pieces, _) = read_in_chunks("a<|think|>b</|think|>c", 3);
    let text: String = labelled(&pieces).iter().map(|(_, c)| *c).collect();
    assert_eq!(text, "abc");
}

#[test]
fn no_piece_is_empty_or_holds_its_tag() {
    let (pieces, _) = read_in_chunks("<|think|></|think|><|think|>x</|think|>", 4);
    assert_eq!(pieces, vec![ParserOutput::Thinking("x".to_string())]);
}

#[test]
fn the_other_tag_is_plain_text() {
    let mut parser = ReasoningParser::new();
    assert_eq!(
        parser.process("</|think|>a"),
        vec![ParserOutput::Factual("</|think|>a".to_string())]
    );
    assert_eq!(
        parser.process("<|think|><|think|>b"),
        vec![ParserOutput::Thinking("<|think|>b".to_string())]
    );
    assert_eq!(parser.state(), ParserState::Thinking);
}

#[test]
fn flushing_keeps_the_state_and_forgets_the_text() {
    let mut parser = ReasoningParser::new();
    parser.process("<|think|>so </|");
    assert_eq!(parser.flush(), Some(ParserOutput::Thinking("</|".to_string())));
    assert_eq!(parser.state(), ParserState::Thinking);
    assert_eq!(parser.flush(), None);
}
