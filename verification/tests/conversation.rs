use pocket_core::conversation::{ConversationManager, Role};

#[test]
fn test_gemma_conversation_manager_formatting() {
    let mut manager =
        ConversationManager::new(Some("You are a helpful assistant.".to_string()));

    // Without messages the system prompt stands alone in a turn of the user.
    let initial_prompt = manager.get_formatted_prompt();
    assert_eq!(
        initial_prompt,
        "<start_of_turn>user\nYou are a helpful assistant.<end_of_turn>\n<start_of_turn>model\n"
    );

    // The last turn of the user asks for a plain answer.
    manager.add_message(Role::User, "Hello!".to_string());
    let after_user = manager.get_formatted_prompt();
    assert_eq!(
        after_user,
        "<start_of_turn>user\n[Provide a single, direct, factual answer without filler.]\n\nHello!<end_of_turn>\n<start_of_turn>model\n"
    );

    // The first turn of the user carries the system prompt.
    manager.add_message(Role::Assistant, "Hi there!".to_string());
    manager.add_message(Role::User, "Tell me a story.".to_string());
    let final_prompt = manager.get_formatted_prompt();
    assert_eq!(
        final_prompt,
        "<start_of_turn>user\nYou are a helpful assistant.\n\nHello!<end_of_turn>\n<start_of_turn>model\nHi there!<end_of_turn>\n<start_of_turn>user\n[Provide a single, direct, factual answer without filler.]\n\nTell me a story.<end_of_turn>\n<start_of_turn>model\n"
    );
}

#[test]
fn test_sliding_context_window() {
    let mut manager = ConversationManager::new(None);

    // The first turn.
    manager.add_message(Role::User, "Prompt 1".to_string());
    manager.add_message(Role::Assistant, "Response 1".to_string());
    assert_eq!(manager.messages.len(), 2);

    // The second turn.
    manager.add_message(Role::User, "Prompt 2".to_string());
    assert_eq!(manager.messages.len(), 3);

    manager.add_message(Role::Assistant, "Response 2".to_string());
    assert_eq!(manager.messages.len(), 4);

    // The third turn pushes the first one out.
    manager.add_message(Role::User, "Prompt 3".to_string());
    assert_eq!(manager.messages.len(), 3);
    assert_eq!(manager.messages[0].content, "Prompt 2");
    assert_eq!(manager.messages[1].content, "Response 2");
    assert_eq!(manager.messages[2].content, "Prompt 3");
}

#[test]
fn the_usual_system_prompt() {
    let manager = ConversationManager::new(None);
    assert_eq!(
        manager.system_prompt,
        "You are a helpful, highly capable AI assistant."
    );
    assert!(manager.messages.is_empty());
}

#[test]
fn an_empty_system_prompt_leaves_only_the_opening() {
    let mut manager = ConversationManager::new(Some(String::new()));
    assert_eq!(manager.get_formatted_prompt(), "<start_of_turn>model\n");
    manager.add_message(Role::User, "a".to_string());
    manager.add_message(Role::User, "b".to_string());
    assert_eq!(
        manager.get_formatted_prompt(),
        "<start_of_turn>user\na<end_of_turn>\n<start_of_turn>user\n[Provide a single, direct, factual answer without filler.]\n\nb<end_of_turn>\n<start_of_turn>model\n"
    );
}

#[test]
fn system_messages_and_a_single_system_prompt() {
    let mut manager = ConversationManager::new(Some("S".to_string()));
    manager.add_message(Role::User, "a".to_string());
    manager.add_message(Role::User, "b".to_string());
    manager.add_message(Role::System, "c".to_string());
    assert_eq!(
        manager.get_formatted_prompt(),
        "<start_of_turn>user\nS\n\na<end_of_turn>\n<start_of_turn>user\nb<end_of_turn>\n<start_of_turn>user\nc<end_of_turn>\n<start_of_turn>model\n"
    );
}

#[test]
fn full_turns_keep_four_messages() {
    let mut manager = ConversationManager::new(None);
    for n in 0..10 {
        manager.add_message(Role::User, format!("q{n}"));
        assert!(manager.messages.len() <= 3);
        manager.add_message(Role::Assistant, format!("a{n}"));
        assert!(manager.messages.len() <= 4);
    }
    let kept: Vec<&str> = manager.messages.iter().map(|m| m.content.as_str()).collect();
    assert_eq!(kept, vec!["q8", "a8", "q9", "a9"]);
    manager.clear();
    assert!(manager.messages.is_empty());
}
