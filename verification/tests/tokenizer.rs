use candle_core::quantized::gguf_file::{self, Content, Value};
use pocket_core::generation::{wrap_prompt, GenerationError};
use pocket_core::gguf::{read_gguf, MetaItem};
use pocket_core::tokenizer::{begin, load_tokenizer, take_token, token_text, write_document};
use pocket_core::tokenizer::{ControlIds, LoadError, LoadedTokenizer, TokenAction, Vocabulary};
use tokenizers::Tokenizer;

const TOKENS: [&str; 16] = [
    "<pad>", "<eos>", "<bos>", "<unk>", "<mask>", "\u{2581}", "h", "i", "\u{2581}h", "\u{2581}hi",
    "<|turn>", "<turn|>", "u", "s", "e\"\\r", "<end_of_turn>",
];

const MERGES: [&str; 3] = ["#version: 0.2 of the merge rules in this file", "\u{2581} h", "\u{2581}h i"];

/// The document that describes a tokenizer, in another layout.
const LAYOUT: &str = r#"{
  "version": "1.0", "truncation": null, "padding": null,
  "added_tokens": [
    {"id": 0, "special": true, "content": "<pad>", "single_word": false, "lstrip": false, "rstrip": false, "normalized": false},
    {"id": 1, "special": true, "content": "<eos>", "single_word": false, "lstrip": false, "rstrip": false, "normalized": false},
    {"id": 2, "special": true, "content": "<bos>", "single_word": false, "lstrip": false, "rstrip": false, "normalized": false},
    {"id": 3, "special": true, "content": "<unk>", "single_word": false, "lstrip": false, "rstrip": false, "normalized": false},
    {"id": 4, "special": true, "content": "<mask>", "single_word": false, "lstrip": false, "rstrip": false, "normalized": false},
    {"id": 105, "special": true, "content": "<|turn>", "single_word": false, "lstrip": false, "rstrip": false, "normalized": false},
    {"id": 106, "special": true, "content": "<turn|>", "single_word": false, "lstrip": false, "rstrip": false, "normalized": false}
  ],
  "normalizer": {"type": "Sequence", "normalizers": [
    {"type": "Prepend", "prepend": " "},
    {"type": "Replace", "pattern": {"String": " "}, "content": "▁"}
  ]},
  "pre_tokenizer": {"type": "Metaspace", "replacement": "▁", "add_prefix_space": true},
  "post_processor": null,
  "decoder": {"type": "Metaspace", "replacement": "▁", "add_prefix_space": true},
  "model": {"type": "BPE", "dropout": null, "unk_token": "<unk>", "continuing_subword_prefix": null,
    "end_of_word_suffix": null, "fuse_unk": false, "vocab": {}, "merges": []}
}"#;

fn texts(list: &[&str]) -> Value {
    Value::Array(list.iter().map(|t| Value::String(t.to_string())).collect())
}

fn content(metadata: &[(&str, Value)]) -> Content {
    let entries: Vec<(&str, &Value)> = metadata.iter().map(|(k, v)| (*k, v)).collect();
    let mut cursor = std::io::Cursor::new(Vec::new());
    gguf_file::write(&mut cursor, &entries, &[]).unwrap();
    match read_gguf(&cursor.into_inner()) {
        Ok(content) => content,
        Err(_) => panic!("not a model file"),
    }
}

fn load(tokens: &[&str], merges: &[&str]) -> Result<LoadedTokenizer, LoadError> {
    load_tokenizer(&content(&[
        ("tokenizer.ggml.tokens", texts(tokens)),
        ("tokenizer.ggml.merges", texts(merges)),
    ]))
}

fn loaded() -> LoadedTokenizer {
    match load(&TOKENS, &MERGES) {
        Ok(loaded) => loaded,
        Err(error) => panic!("{}", error.message()),
    }
}

/// The same document, put together as values.
fn described(tokens: &[&str], merges: &[&str]) -> String {
    let mut value: serde_json::Value = serde_json::from_str(LAYOUT).unwrap();
    let mut vocab = serde_json::Map::new();
    for (id, token) in tokens.iter().enumerate() {
        vocab.insert(token.to_string(), serde_json::Value::from(id));
    }
    let list: Vec<serde_json::Value> =
        merges.iter().map(|m| serde_json::Value::from(*m)).collect();
    value["model"]["vocab"] = serde_json::Value::Object(vocab);
    value["model"]["merges"] = serde_json::Value::Array(list);
    serde_json::to_string(&value).unwrap()
}

#[test]
fn documents_are_put_together() {
    assert_eq!(write_document("[]", "{}"), described(&[], &[]));
    assert_eq!(
        write_document("[\"a b\"]", "{\"a\":0,\"ab\":2,\"b\":1}"),
        described(&["a", "b", "ab"], &["a b"])
    );
}

#[test]
fn prompts_become_tokens() {
    let reference = Tokenizer::from_bytes(described(&TOKENS, &MERGES)).unwrap();
    let tokenizer = loaded();
    for prompt in ["hi", "", "hi hi\nuse", "<eos>e\"\\r"] {
        let mut expected = vec![2];
        expected.extend(reference.encode(wrap_prompt(prompt), false).unwrap().get_ids());
        match begin(&tokenizer, prompt) {
            Ok(generation) => assert_eq!(generation.next_input(), expected),
            Err(_) => panic!("no tokens"),
        }
    }
    match begin(&tokenizer, " hi") {
        Ok(generation) => assert!(generation.next_input().contains(&9)),
        Err(_) => panic!("no tokens"),
    }
}

#[test]
fn tokens_become_text() {
    let tokenizer = loaded();
    assert_eq!(token_text(&tokenizer, 9).as_deref(), Some("hi"));
    assert_eq!(token_text(&tokenizer, 6).as_deref(), Some("h"));
    assert_eq!(token_text(&tokenizer, 15).as_deref(), Some("<end_of_turn>"));
    // Special tokens have no text to show, nor has a token that nobody knows.
    assert_eq!(token_text(&tokenizer, 1).as_deref(), Some(""));
    assert_eq!(token_text(&tokenizer, 4000).as_deref(), Some(""));
}

#[test]
fn control_tokens_are_found() {
    assert_eq!(
        loaded().control(),
        ControlIds { pad: 0, eos: 1, bos: 2, turn_start: 10, turn_end: 11 }
    );
    match load(&["a", "<bos>", "<bos>"], &[]) {
        Ok(loaded) => assert_eq!(
            loaded.control(),
            ControlIds { pad: -1, eos: -1, bos: 2, turn_start: -1, turn_end: -1 }
        ),
        Err(_) => panic!("not loaded"),
    }
}

#[test]
fn the_last_of_equal_tokens_counts() {
    let items = vec![
        MetaItem::Text("a".to_string()),
        MetaItem::Other,
        MetaItem::Text("b".to_string()),
        MetaItem::Text("a".to_string()),
    ];
    let vocabulary = Vocabulary::read(&items);
    assert_eq!(vocabulary.control_id("a"), 3);
    assert_eq!(vocabulary.control_id("b"), 2);
    assert_eq!(vocabulary.control_id("c"), -1);
}

#[test]
fn a_text_without_a_known_token_is_refused() {
    // Without the token for unknown text, the letters of the markup have no token.
    let loaded = match load(&["a"], &[]) {
        Ok(loaded) => loaded,
        Err(_) => panic!("not loaded"),
    };
    match begin(&loaded, "a") {
        Err(GenerationError::Tokenization(reason)) => assert!(!reason.is_empty()),
        _ => panic!("not refused"),
    }
}

#[test]
fn models_without_a_tokenizer() {
    let tokens = || ("tokenizer.ggml.tokens", texts(&["a"]));
    let merges = || ("tokenizer.ggml.merges", texts(&[]));
    let load = |entries: &[(&str, Value)]| match load_tokenizer(&content(entries)) {
        Err(error) => error,
        Ok(_) => panic!("loaded"),
    };
    let error = load(&[merges()]);
    assert!(matches!(error, LoadError::MissingTokens));
    assert_eq!(error.message(), "Failed to find tokenizer.ggml.tokens in GGUF metadata");
    let error = load(&[tokens()]);
    assert!(matches!(error, LoadError::MissingMerges));
    assert_eq!(error.message(), "Failed to find tokenizer.ggml.merges in GGUF metadata");
    let error = load(&[("tokenizer.ggml.tokens", Value::U32(1)), merges()]);
    assert!(matches!(error, LoadError::TokensNotArray));
    assert_eq!(error.message(), "tokenizer.ggml.tokens is not an array");
    let error = load(&[tokens(), ("tokenizer.ggml.merges", Value::U32(1))]);
    assert!(matches!(error, LoadError::MergesNotArray));
    assert_eq!(error.message(), "tokenizer.ggml.merges is not an array");
}

#[test]
fn merges_must_fit_the_vocabulary() {
    let error = |tokens: &[&str], merges: &[&str]| match load(tokens, merges) {
        Err(error) => error,
        Ok(_) => panic!("loaded"),
    };
    assert!(matches!(error(&["ab", "cd"], &["ab cd"]), LoadError::MergeTooLong));
    assert!(matches!(
        error(&["a", "b", "ab"], &["#version: 1", "a b", "ab ab", "ab"][..3]),
        LoadError::MergeTooLong
    ));
    // A part that is not in the vocabulary, a line that is no rule, and an earlier rule that
    // cannot be used are the tokenizer's to refuse.
    assert!(matches!(error(&[], &["a b"]), LoadError::Build(_)));
    assert!(matches!(error(&["ab", "cd"], &["ab xyz"]), LoadError::Build(_)));
    assert!(matches!(error(&["ab", "cd"], &["ab cd", "abcd"]), LoadError::Build(_)));
    assert!(matches!(error(&["ab", "cd"], &["ab cd", "a b c"]), LoadError::Build(_)));
    assert!(matches!(error(&["ab", "cd"], &["ab x", "ab cd"]), LoadError::Build(_)));
    match error(&["a", "b", "xy"], &["a b"]) {
        LoadError::Build(reason) => assert_eq!(
            LoadError::Build(reason.clone()).message(),
            format!("Tokenizer build error: {reason}")
        ),
        _ => panic!("not a build error"),
    }
    assert!(matches!(error(&["a", "b", "ab"], &["ab"]), LoadError::Build(_)));
    assert!(load(&["a", "b", "ab"], &["a b"]).is_ok());
}

#[test]
fn chosen_tokens_are_taken_in() {
    let loaded = loaded();
    let start = || match begin(&loaded, "hi") {
        Ok(generation) => generation,
        Err(_) => panic!("no tokens"),
    };
    for stop in [1, 105, 106, 107, 15] {
        assert_eq!(take_token(&loaded, &mut start(), stop), TokenAction::Stop);
    }
    let mut generation = start();
    assert_eq!(
        take_token(&loaded, &mut generation, 9),
        TokenAction::Send("hi".to_string())
    );
    assert_eq!(generation.next_input(), vec![9]);
    // Special tokens count as blank: the tenth in a row ends the answer.
    for _ in 0..9 {
        assert_eq!(
            take_token(&loaded, &mut generation, 3),
            TokenAction::Send(String::new())
        );
    }
    assert_eq!(take_token(&loaded, &mut generation, 3), TokenAction::Stop);
}

#[test]
fn answers_repeat() {
    let loaded = loaded();
    let answer = |prompt: &str| {
        let mut generation = match begin(&loaded, prompt) {
            Ok(generation) => generation,
            Err(_) => panic!("no tokens"),
        };
        let mut sent = Vec::new();
        let mut seed = 7u32;
        while generation.may_continue() {
            seed = seed.wrapping_mul(31).wrapping_add(generation.next_input().len() as u32);
            match take_token(&loaded, &mut generation, seed % 17) {
                TokenAction::Stop => break,
                TokenAction::Skip => {}
                TokenAction::Send(text) => sent.push(text),
            }
        }
        sent
    };
    let first = answer("hi");
    answer("use");
    assert_eq!(answer("hi"), first);
}

#[test]
fn answers_are_bounded() {
    let loaded = loaded();
    for seed in 0..40u32 {
        let mut generation = match begin(&loaded, "hi") {
            Ok(generation) => generation,
            Err(_) => panic!("no tokens"),
        };
        let mut sent: Vec<String> = Vec::new();
        let mut state = seed;
        while generation.may_continue() {
            state = state.wrapping_mul(1_664_525).wrapping_add(1_013_904_223);
            // Mostly blank tokens at first, then letters only.
            let next = if seed < 20 { 2 + (state >> 24) % 5 } else { 6 + (state >> 24) % 4 };
            match take_token(&loaded, &mut generation, next) {
                TokenAction::Stop => break,
                TokenAction::Skip => {}
                TokenAction::Send(text) => sent.push(text),
            }
        }
        assert!(sent.len() <= 512);
        assert!(sent.iter().all(|s| !s.contains("<eos>") && !s.contains("<end_of_turn>")));
        assert!(sent.windows(10).all(|w| w.iter().any(|s| !s.trim().is_empty())));
        assert!(seed < 20 || sent.len() == 512);
    }
}
