//! The decision-making core of a local Gemma chat runner: the chat history and its prompts,
//! the reasoning parser, the model file, the tokenizer, and the rules of generation.

pub mod answer;
pub mod attention;
pub mod caches;
pub mod config;
pub mod conversation;
pub mod demo;
pub mod embedding;
pub mod error;
pub mod generation;
pub mod gguf;
pub mod layers;
pub mod memory;
pub mod repl;
pub mod streaming;
pub mod text;
pub mod thinking;
pub mod tokenizer;

pub use conversation::{ConversationManager, Message, Role};
pub use error::PocketError;
pub use memory::verify_ram_safety;
pub use thinking::{ParserOutput, ParserState, ReasoningParser};
