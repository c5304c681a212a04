use pocket_core::conversation::{ConversationManager, Role};
use pocket_core::demo::{extract_name, reply_to};
use pocket_core::demo::{get_conversational_mock_response, try_conversational_mock_response};

fn chat(lines: &[(Role, &str)]) -> ConversationManager {
    let mut manager = ConversationManager::new(None);
    for (role, text) in lines {
        manager.add_message(*role, text.to_string());
    }
    manager
}

const NAMED: &str = "! This is proof that my multi-turn conversation memory (Phase 3) is working flawlessly in offline demo mode. What else would you like to discuss?";

#[test]
fn a_name_is_remembered() {
    let manager = chat(&[
        (Role::User, "My Dog's name is Winnie, okay?"),
        (Role::Assistant, "Nice."),
        (Role::User, "What is my dog called?"),
    ]);
    assert_eq!(
        get_conversational_mock_response("What is my dog called?", &manager),
        format!("You previously mentioned that your dog's name is Winnie{NAMED}")
    );
}

#[test]
fn the_last_name_counts() {
    let manager = chat(&[
        (Role::User, "my dog's name is Winnie"),
        (Role::User, "my dog is named Rex!"),
        (Role::User, "dog name?"),
    ]);
    assert_eq!(
        get_conversational_mock_response("dog name?", &manager),
        format!("You previously mentioned that your dog's name is Rex{NAMED}")
    );
}

#[test]
fn only_the_user_tells_names() {
    let manager = chat(&[
        (Role::Assistant, "your dog's name is Winnie"),
        (Role::User, "dog name?"),
    ]);
    assert_eq!(
        get_conversational_mock_response("dog name?", &manager),
        "This is a mock conversational response. Once a real GGUF model is loaded with -m, the entire multi-turn conversation history will be compiled and executed using candle-core."
    );
}

#[test]
fn names_lose_what_is_no_letter() {
    assert_eq!(extract_name("dog's name is (Mr.X)!", "dog's name is (mr.x)!"), "Mr.X");
    assert_eq!(extract_name("dog is named ", "dog is named "), "");
    assert_eq!(extract_name("dog is named 42", "dog is named 42"), "");
    assert_eq!(extract_name("no dog", "no dog"), "");
    assert_eq!(
        extract_name("Zoë's dog's name is Zoë", "zoë's dog's name is zoë"),
        "Zoë"
    );
}

#[test]
fn the_previous_prompt_is_recalled() {
    let manager = chat(&[
        (Role::User, "First"),
        (Role::Assistant, "Answer"),
        (Role::User, "What did I say?"),
    ]);
    assert_eq!(
        get_conversational_mock_response("What DID I say?", &manager),
        "Your previous prompt in this session was: \"First\". My ConversationManager tracks all of our historical turns perfectly!"
    );
    let alone = chat(&[(Role::User, "My last prompt, please")]);
    assert!(
        get_conversational_mock_response("My last prompt, please", &alone)
            .starts_with("This is a mock conversational response.")
    );
}

#[test]
fn stock_replies() {
    let manager = chat(&[(Role::User, "x")]);
    let answer = |prompt: &str| get_conversational_mock_response(prompt, &manager);
    assert!(answer("HELLO").starts_with("Hello! I am Pocket Gemma"));
    assert!(answer("this").starts_with("Hello! I am Pocket Gemma"));
    assert!(answer("which GGUF").starts_with("Hello! I am Pocket Gemma"));
    assert!(answer("a gguf").starts_with("With Phase 3 complete"));
    assert!(answer("help").starts_with("You are in the interactive CLI REPL."));
    assert!(answer("ram").starts_with("Pocket Gemma monitors system memory"));
    assert!(answer("size").starts_with("Pocket Gemma monitors system memory"));
    assert!(answer("zzz").starts_with("This is a mock conversational response."));
}

#[test]
fn a_lost_place_gives_no_answer() {
    // In lowercase the dotted capital I is a byte longer, and the place of the name then lies
    // within a character.
    let manager = chat(&[
        (Role::User, "\u{130} dog's name is \u{e9}"),
        (Role::User, "dog name?"),
    ]);
    assert_eq!(try_conversational_mock_response("dog name?", &manager), None);
    assert!(try_conversational_mock_response("zzz", &manager).is_some());
    let fine = chat(&[(Role::User, "dog's name is A"), (Role::User, "dog name?")]);
    assert_eq!(
        try_conversational_mock_response("dog name?", &fine),
        Some(format!("You previously mentioned that your dog's name is A{NAMED}"))
    );
}

#[test]
fn replies_follow_the_lowercase_forms_given() {
    let manager = chat(&[(Role::User, "My DOG IS NAMED Bo"), (Role::User, "?")]);
    let lowered = vec!["my dog is named bo".to_string(), "?".to_string()];
    assert_eq!(
        reply_to("dog name", &manager, &lowered),
        format!("You previously mentioned that your dog's name is Bo{NAMED}")
    );
    let other = vec!["nothing".to_string(), "?".to_string()];
    assert!(reply_to("dog name", &manager, &other).starts_with("This is a mock"));
}

#[test]
fn capitals_get_the_same_answer() {
    let manager = chat(&[
        (Role::User, "my dog's name is Winnie"),
        (Role::User, "hello there"),
        (Role::User, "?"),
    ]);
    for prompt in ["what is my dog's name", "What Did I Say", "gguf", "help", "size", "zzz~[{"] {
        let answer = try_conversational_mock_response(prompt, &manager);
        assert!(answer.is_some());
        assert_eq!(
            try_conversational_mock_response(&prompt.to_ascii_uppercase(), &manager),
            answer
        );
    }
}

#[test]
fn a_word_of_letters_is_told_back() {
    for (told, name) in [
        ("Actually my dog is named Winnie!", "Winnie"),
        ("My DOG'S NAME IS McFly?! Yes.", "McFly"),
        ("dog is named x", "x"),
    ] {
        let manager = chat(&[(Role::User, told), (Role::User, "What is my dog's name?")]);
        assert_eq!(
            get_conversational_mock_response("What is my dog's name?", &manager),
            format!("You previously mentioned that your dog's name is {name}{NAMED}")
        );
    }
}

#[test]
fn characters_that_make_a_name() {
    for c in (0x21..0x7f_u8).map(char::from) {
        let content = format!("dog is named {c}");
        let expected = if c.is_ascii_alphabetic() || c == '.' {
            c.to_string()
        } else {
            String::new()
        };
        assert_eq!(extract_name(&content, &content.to_lowercase()), expected);
    }
}
