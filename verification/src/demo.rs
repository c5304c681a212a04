//! The answers of the offline demo, which stands in for a model: they show that the chat
//! remembers what was said.

use vstd::prelude::*;
use vstd::utf8::{decode_utf8, encode_utf8, is_ascii_chars, is_char_boundary};
use vstd::utf8::{encode_utf8_decode_utf8, encode_utf8_first_scalar, is_ascii_chars_encode_utf8};
use vstd::utf8::{encode_utf8_valid_utf8, pop_first_scalar};

use crate::conversation::{turns, ConversationManager, Message, Role};
use crate::text::{chars_find_from, first_word_text, slice, text_contains, to_chars};
use crate::text::{contains, find, first_word, is_ascii_letter, is_letter, lowercase};
use crate::text::{trimmed_of, unicode_whitespace};
use crate::text::{ascii_lowercase, ascii_uppercase, folded, same_ignoring_case};
use crate::text::{lemma_contains_is_find, lemma_trimmed_of};
use crate::text::{lemma_encode_add, lemma_find_from, lemma_span_back_is, lemma_span_is, views};

verus! {

/// Where, in bytes, the name of a dog begins behind the first of two phrases that `lower`
/// holds.
pub open spec fn name_start(lower: Seq<char>) -> Option<int> {
    match find(lower, "dog's name is "@) {
        Some(at) => Some(encode_utf8(lower.take(at)).len() as int + 14),
        None => match find(lower, "dog is named "@) {
            Some(at) => Some(encode_utf8(lower.take(at)).len() as int + 13),
            None => None,
        },
    }
}

/// A character that cannot stand at the end of a name.
pub open spec fn is_name_edge(c: char) -> bool {
    !is_letter(c) && c != '.'
}

/// The text behind the first `start` bytes of `content`.
pub open spec fn from_byte(content: Seq<char>, start: int) -> Seq<char> {
    decode_utf8(encode_utf8(content).skip(start))
}

/// The name that a message tells: the word behind the phrase, stripped of what cannot stand
/// at the ends of a name. The phrase is searched in the message's lowercase form `lower`,
/// the name read from the message itself at the same byte.
pub open spec fn told_name(content: Seq<char>, lower: Seq<char>) -> Seq<char> {
    match name_start(lower) {
        Some(start) => trimmed_of(first_word(from_byte(content, start)), |c: char| is_name_edge(c)),
        None => seq![],
    }
}

/// The byte at which the name is read is the beginning of a character of `content`.
pub open spec fn readable(content: Seq<char>, lower: Seq<char>) -> bool {
    match name_start(lower) {
        Some(start) => is_char_boundary(encode_utf8(content), start),
        None => true,
    }
}

/// The name that the user told last among the first `count` messages.
pub open spec fn remembered_name(
    history: Seq<(Role, Seq<char>)>,
    lowered: Seq<Seq<char>>,
    count: nat,
) -> Option<Seq<char>>
    decreases count,
{
    if count == 0 {
        None
    } else if history[count - 1].0 == Role::User && told_name(
        history[count - 1].1,
        lowered[count - 1],
    ).len() > 0 {
        Some(told_name(history[count - 1].1, lowered[count - 1]))
    } else {
        remembered_name(history, lowered, (count - 1) as nat)
    }
}

/// What the user said last among the first `count` messages.
pub open spec fn last_said(history: Seq<(Role, Seq<char>)>, count: nat) -> Option<Seq<char>>
    decreases count,
{
    if count == 0 {
        None
    } else if history[count - 1].0 == Role::User {
        Some(history[count - 1].1)
    } else {
        last_said(history, (count - 1) as nat)
    }
}

/// The question is about the dog's name.
pub open spec fn asks_for_dog(prompt_lower: Seq<char>) -> bool {
    contains(prompt_lower, "dog"@) && (contains(prompt_lower, "name"@) || contains(
        prompt_lower,
        "what is"@,
    ))
}

/// The question is about what was said before.
pub open spec fn asks_for_recall(prompt_lower: Seq<char>) -> bool {
    contains(prompt_lower, "last prompt"@) || contains(prompt_lower, "did i say"@) || contains(
        prompt_lower,
        "previous prompt"@,
    )
}

/// The answer that does not depend on what was said before.
pub open spec fn stock_reply(prompt_lower: Seq<char>) -> Seq<char> {
    if contains(prompt_lower, "hello"@) || contains(prompt_lower, "hi"@) {
        "Hello! I am Pocket Gemma, now running with Phase 3 active memory and dynamic ChatML templating. How can I help you today?"@
    } else if contains(prompt_lower, "model"@) || contains(prompt_lower, "gemma"@) || contains(
        prompt_lower,
        "gguf"@,
    ) {
        "With Phase 3 complete, we can format full conversational histories into quantized GGUF CPU models like Gemma 2 using unified templates and stream the answers in real-time."@
    } else if contains(prompt_lower, "help"@) {
        "You are in the interactive CLI REPL. I now maintain full multi-turn conversational history. You can mention facts (like 'my dog's name is Winnie') and ask me about them later to test my memory!"@
    } else if contains(prompt_lower, "ram"@) || contains(prompt_lower, "memory"@) || contains(
        prompt_lower,
        "size"@,
    ) {
        "Pocket Gemma monitors system memory using sysinfo. In this Phase 3 REPL, the ConversationManager stores all turns to construct cohesive prompt blocks."@
    } else {
        "This is a mock conversational response. Once a real GGUF model is loaded with -m, the entire multi-turn conversation history will be compiled and executed using candle-core."@
    }
}

/// The answer: the dog's name where it is asked for and was told, the user's previous words
/// where they are asked for and there are any, else a stock answer. The last message of the
/// history is the question itself. `lowered` holds the messages in lowercase.
pub open spec fn reply(
    prompt_lower: Seq<char>,
    history: Seq<(Role, Seq<char>)>,
    lowered: Seq<Seq<char>>,
) -> Seq<char> {
    let name = remembered_name(history, lowered, history.len());
    let said = if history.len() > 1 {
        last_said(history, (history.len() - 1) as nat)
    } else {
        None
    };
    if asks_for_dog(prompt_lower) && name is Some {
        "You previously mentioned that your dog's name is "@ + name->0
            + "! This is proof that my multi-turn conversation memory (Phase 3) is working flawlessly in offline demo mode. What else would you like to discuss?"@
    } else if asks_for_recall(prompt_lower) && said is Some {
        "Your previous prompt in this session was: \""@ + said->0
            + "\". My ConversationManager tracks all of our historical turns perfectly!"@
    } else {
        stock_reply(prompt_lower)
    }
}

/// Wherever the user told a name, it can be read.
pub open spec fn all_readable(
    prompt_lower: Seq<char>,
    history: Seq<(Role, Seq<char>)>,
    lowered: Seq<Seq<char>>,
) -> bool {
    asks_for_dog(prompt_lower) ==> forall|i: int|
        0 <= i < history.len() && history[i].0 == Role::User ==> readable(
            history[i].1,
            #[trigger] lowered[i],
        )
}

/// The lowercase forms of all messages.
pub open spec fn lowercase_all(history: Seq<(Role, Seq<char>)>) -> Seq<Seq<char>> {
    history.map_values(|turn: (Role, Seq<char>)| lowercase(turn.1))
}

/// Where, in bytes, `pattern` ends in `lower`.
fn phrase_end(lower: &str, pattern: &str) -> (end: Option<usize>)
    ensures
        match end {
            Some(end) => find(lower@, pattern@) matches Some(at) && end == encode_utf8(
                lower@.take(at),
            ).len() + encode_utf8(pattern@).len(),
            None => find(lower@, pattern@) is None,
        },
{
    let text: Vec<char> = to_chars(lower);
    let phrase: Vec<char> = to_chars(pattern);
    let total: usize = lower.as_bytes().len();
    match chars_find_from(&text, &phrase, 0) {
        Some(at) => {
            proof {
                lemma_find_from(lower@, pattern@, 0);
                let front = lower@.take(at as int);
                let behind = lower@.skip(at + pattern@.len());
                assert(lower@ =~= front + pattern@ + behind);
                lemma_encode_add(front + pattern@, behind);
                lemma_encode_add(front, pattern@);
                assert(lower@.subrange(0, at as int) =~= front);
                assert(encode_utf8(front).len() + encode_utf8(pattern@).len() <= total);
            }
            let front: String = slice(lower, 0, at);
            Some(front.as_str().as_bytes().len() + pattern.as_bytes().len())
        },
        None => None,
    }
}

/// Where, in bytes, the name of a dog begins.
fn find_name_start(lower: &str) -> (start: Option<usize>)
    ensures
        match start {
            Some(start) => name_start(lower@) == Some(start as int),
            None => name_start(lower@) is None,
        },
{
    proof {
        reveal_strlit("dog's name is ");
        reveal_strlit("dog is named ");
        is_ascii_chars_encode_utf8("dog's name is "@);
        is_ascii_chars_encode_utf8("dog is named "@);
    }
    match phrase_end(lower, "dog's name is ") {
        Some(end) => Some(end),
        None => phrase_end(lower, "dog is named "),
    }
}

/// A word without what cannot stand at the ends of a name.
fn trim_name(word: &str) -> (name: String)
    ensures
        name@ == trimmed_of(word@, |c: char| is_name_edge(c)),
{
    let chars: Vec<char> = to_chars(word);
    let mut start: usize = 0;
    while start < chars.len() && !chars[start].is_alphabetic() && chars[start] != '.'
        invariant
            start <= chars.len(),
            forall|i: int| 0 <= i < start ==> is_name_edge(#[trigger] chars@[i]),
        decreases chars.len() - start,
    {
        start += 1;
    }
    let ghost rest = word@.skip(start as int);
    let mut end: usize = chars.len();
    while start < end && !chars[end - 1].is_alphabetic() && chars[end - 1] != '.'
        invariant
            chars@ == word@,
            start <= end <= chars.len(),
            rest == word@.skip(start as int),
            forall|i: int| end - start <= i < rest.len() ==> is_name_edge(#[trigger] rest[i]),
        decreases end,
    {
        end -= 1;
    }
    proof {
        lemma_span_is(word@, |c: char| is_name_edge(c), start as int);
        lemma_span_back_is(rest, |c: char| is_name_edge(c), chars.len() - end);
        assert(word@.subrange(start as int, end as int) =~= rest.take(end - start));
    }
    slice(word, start, end)
}

/// The name that a message tells; empty where it tells none.
pub fn extract_name(content: &str, lower: &str) -> (name: String)
    requires
        readable(content@, lower@),
    ensures
        name@ == told_name(content@, lower@),
{
    match find_name_start(lower) {
        Some(start) => {
            let behind: &str = content.split_at(start).1;
            proof {
                encode_utf8_decode_utf8(behind@);
                assert(encode_utf8(content@).skip(start as int) =~= encode_utf8(behind@));
            }
            let word: String = first_word_text(behind);
            trim_name(word.as_str())
        },
        None => String::new(),
    }
}

/// The name that the user told last.
fn find_remembered_name(messages: &Vec<Message>, lowered: &Vec<String>) -> (name: Option<String>)
    requires
        messages.len() == lowered.len(),
        forall|i: int|
            0 <= i < messages.len() && messages@[i].role == Role::User ==> readable(
                messages@[i].content@,
                #[trigger] lowered@[i]@,
            ),
    ensures
        match name {
            Some(name) => remembered_name(turns(messages@), views(lowered@), messages@.len())
                == Some(name@),
            None => remembered_name(turns(messages@), views(lowered@), messages@.len()) is None,
        },
{
    let ghost history = turns(messages@);
    let ghost lower = views(lowered@);
    let mut count: usize = messages.len();
    while count > 0
        invariant
            count <= messages.len(),
            messages.len() == lowered.len(),
            history == turns(messages@),
            lower == views(lowered@),
            remembered_name(history, lower, messages@.len()) == remembered_name(
                history,
                lower,
                count as nat,
            ),
            forall|i: int|
                0 <= i < messages.len() && messages@[i].role == Role::User ==> readable(
                    messages@[i].content@,
                    #[trigger] lowered@[i]@,
                ),
        decreases count,
    {
        let message: &Message = &messages[count - 1];
        assert(history[count - 1] == message@);
        assert(lower[count - 1] == lowered@[count - 1]@);
        if message.role == Role::User {
            let name: String = extract_name(message.content.as_str(), lowered[count - 1].as_str());
            if !name.as_str().is_empty() {
                return Some(name);
            }
        }
        count -= 1;
    }
    None
}

/// What the user said last, before the last message.
fn find_last_said(messages: &Vec<Message>) -> (said: Option<String>)
    ensures
        ({
            let history = turns(messages@);
            match said {
                Some(said) => history.len() > 1 && last_said(history, (history.len() - 1) as nat)
                    == Some(said@),
                None => history.len() > 1 ==> last_said(history, (history.len() - 1) as nat) is None,
            }
        }),
{
    let ghost history = turns(messages@);
    if messages.len() <= 1 {
        return None;
    }
    let mut count: usize = messages.len() - 1;
    while count > 0
        invariant
            count < messages.len(),
            history == turns(messages@),
            last_said(history, (messages@.len() - 1) as nat) == last_said(history, count as nat),
        decreases count,
    {
        let message: &Message = &messages[count - 1];
        assert(history[count - 1] == message@);
        if message.role == Role::User {
            return Some(message.content.clone());
        }
        count -= 1;
    }
    None
}

/// The answer that does not depend on what was said before.
fn choose_stock_reply(prompt_lower: &str) -> (text: &'static str)
    ensures
        text@ == stock_reply(prompt_lower@),
{
    if text_contains(prompt_lower, "hello") || text_contains(prompt_lower, "hi") {
        "Hello! I am Pocket Gemma, now running with Phase 3 active memory and dynamic ChatML templating. How can I help you today?"
    } else if text_contains(prompt_lower, "model") || text_contains(prompt_lower, "gemma")
        || text_contains(prompt_lower, "gguf") {
        "With Phase 3 complete, we can format full conversational histories into quantized GGUF CPU models like Gemma 2 using unified templates and stream the answers in real-time."
    } else if text_contains(prompt_lower, "help") {
        "You are in the interactive CLI REPL. I now maintain full multi-turn conversational history. You can mention facts (like 'my dog's name is Winnie') and ask me about them later to test my memory!"
    } else if text_contains(prompt_lower, "ram") || text_contains(prompt_lower, "memory")
        || text_contains(prompt_lower, "size") {
        "Pocket Gemma monitors system memory using sysinfo. In this Phase 3 REPL, the ConversationManager stores all turns to construct cohesive prompt blocks."
    } else {
        "This is a mock conversational response. Once a real GGUF model is loaded with -m, the entire multi-turn conversation history will be compiled and executed using candle-core."
    }
}

/// The answer to a question whose lowercase form, and that of every message, is at hand.
pub fn reply_to(
    prompt_lower: &str,
    manager: &ConversationManager,
    lowered: &Vec<String>,
) -> (text: String)
    requires
        manager.messages.len() == lowered.len(),
        all_readable(prompt_lower@, turns(manager.messages@), views(lowered@)),
    ensures
        text@ == reply(prompt_lower@, turns(manager.messages@), views(lowered@)),
{
    let ghost history = turns(manager.messages@);
    let ghost lower = views(lowered@);
    if text_contains(prompt_lower, "dog") && (text_contains(prompt_lower, "name")
        || text_contains(prompt_lower, "what is")) {
        assert forall|i: int|
            0 <= i < manager.messages.len() && manager.messages@[i].role
                == Role::User implies readable(
            manager.messages@[i].content@,
            #[trigger] lowered@[i]@,
        ) by {
            assert(lower[i] == lowered@[i]@);
            assert(history[i] == manager.messages@[i]@);
        }
        if let Some(name) = find_remembered_name(&manager.messages, lowered) {
            let mut text: String = "You previously mentioned that your dog's name is ".to_owned();
            text.append(name.as_str());
            text.append("! This is proof that my multi-turn conversation memory (Phase 3) is working flawlessly in offline demo mode. What else would you like to discuss?");
            return text;
        }
    }
    if text_contains(prompt_lower, "last prompt") || text_contains(prompt_lower, "did i say")
        || text_contains(prompt_lower, "previous prompt") {
        if let Some(said) = find_last_said(&manager.messages) {
            let mut text: String = "Your previous prompt in this session was: \"".to_owned();
            text.append(said.as_str());
            text.append("\". My ConversationManager tracks all of our historical turns perfectly!");
            return text;
        }
    }
    choose_stock_reply(prompt_lower).to_owned()
}

/// The messages in lowercase.
fn lowercase_messages(messages: &Vec<Message>) -> (lowered: Vec<String>)
    ensures
        views(lowered@) == lowercase_all(turns(messages@)),
        lowered.len() == messages.len(),
{
    let mut lowered: Vec<String> = Vec::new();
    let mut i: usize = 0;
    while i < messages.len()
        invariant
            i <= messages.len(),
            lowered.len() == i,
            forall|j: int|
                0 <= j < i ==> #[trigger] lowered@[j]@ == lowercase(messages@[j].content@),
        decreases messages.len() - i,
    {
        lowered.push(messages[i].content.as_str().to_lowercase());
        i += 1;
    }
    assert(views(lowered@) =~= lowercase_all(turns(messages@)));
    lowered
}

/// The demo's answer to a prompt, out of the whole conversation. Where a message changes its
/// length on the way to lowercase, the place of a name can be lost: such a conversation is
/// left out.
pub fn get_conversational_mock_response(prompt: &str, manager: &ConversationManager) -> (text:
    String)
    requires
        all_readable(
            lowercase(prompt@),
            turns(manager.messages@),
            lowercase_all(turns(manager.messages@)),
        ),
    ensures
        text@ == reply(
            lowercase(prompt@),
            turns(manager.messages@),
            lowercase_all(turns(manager.messages@)),
        ),
{
    let prompt_lower: String = prompt.to_lowercase();
    let lowered: Vec<String> = lowercase_messages(&manager.messages);
    reply_to(prompt_lower.as_str(), manager, &lowered)
}

/// Whether every name that the user told can be read.
fn check_readable(messages: &Vec<Message>, lowered: &Vec<String>) -> (fine: bool)
    requires
        messages.len() == lowered.len(),
    ensures
        fine == forall|i: int|
            0 <= i < messages.len() && turns(messages@)[i].0 == Role::User ==> readable(
                turns(messages@)[i].1,
                #[trigger] views(lowered@)[i],
            ),
{
    let ghost history = turns(messages@);
    let ghost lower = views(lowered@);
    let mut i: usize = 0;
    while i < messages.len()
        invariant
            i <= messages.len(),
            messages.len() == lowered.len(),
            history == turns(messages@),
            lower == views(lowered@),
            forall|j: int|
                0 <= j < i && history[j].0 == Role::User ==> readable(
                    history[j].1,
                    #[trigger] lower[j],
                ),
        decreases messages.len() - i,
    {
        let message: &Message = &messages[i];
        assert(history[i as int] == message@);
        assert(lower[i as int] == lowered@[i as int]@);
        if message.role == Role::User {
            if let Some(start) = find_name_start(lowered[i].as_str()) {
                if !message.content.as_str().is_char_boundary(start) {
                    assert(!readable(history[i as int].1, lower[i as int]));
                    return false;
                }
            }
        }
        i += 1;
    }
    true
}

/// The demo's answer to a prompt, or nothing where the place of a name is lost.
pub fn try_conversational_mock_response(prompt: &str, manager: &ConversationManager) -> (text:
    Option<String>)
    ensures
        ({
            let lower = lowercase(prompt@);
            let history = turns(manager.messages@);
            match text {
                Some(text) => all_readable(lower, history, lowercase_all(history)) && text@
                    == reply(lower, history, lowercase_all(history)),
                None => !all_readable(lower, history, lowercase_all(history)),
            }
        }),
{
    let prompt_lower: String = prompt.to_lowercase();
    let lowered: Vec<String> = lowercase_messages(&manager.messages);
    let asked: bool = text_contains(prompt_lower.as_str(), "dog") && (text_contains(
        prompt_lower.as_str(),
        "name",
    ) || text_contains(prompt_lower.as_str(), "what is"));
    if asked && !check_readable(&manager.messages, &lowered) {
        return None;
    }
    Some(get_conversational_mock_response(prompt, manager))
}

/// The end of every beginning of a text is a boundary between its characters.
proof fn lemma_boundary(text: Seq<char>, k: int)
    requires
        0 <= k <= text.len(),
    ensures
        is_char_boundary(encode_utf8(text), encode_utf8(text.take(k)).len() as int),
    decreases text.len(),
{
    let bytes = encode_utf8(text);
    encode_utf8_valid_utf8(text);
    if k == 0 {
        assert(encode_utf8(text.take(0)).len() == 0);
    } else {
        encode_utf8_first_scalar(text);
        let rest = text.drop_first();
        assert(pop_first_scalar(bytes) =~= encode_utf8(rest));
        lemma_boundary(rest, k - 1);
        assert(text.take(k).drop_first() =~= rest.take(k - 1));
        assert(text =~= text.take(k) + text.skip(k));
        lemma_encode_add(text.take(k), text.skip(k));
    }
}

/// Where the name begins with a character of the message, it can be read, and it is read
/// from that character on.
pub proof fn law_name_is_read_behind_the_phrase(content: Seq<char>, lower: Seq<char>, k: int)
    requires
        0 <= k <= content.len(),
        name_start(lower) == Some(encode_utf8(content.take(k)).len() as int),
    ensures
        readable(content, lower),
        told_name(content, lower) == trimmed_of(
            first_word(content.skip(k)),
            |c: char| is_name_edge(c),
        ),
{
    let start = encode_utf8(content.take(k)).len() as int;
    lemma_boundary(content, k);
    lemma_encode_add(content.take(k), content.skip(k));
    assert(content =~= content.take(k) + content.skip(k));
    assert(encode_utf8(content).skip(start) =~= encode_utf8(content.skip(k)));
    encode_utf8_decode_utf8(content.skip(k));
}

/// In plain ASCII, where lowercase keeps the length, every name can be read, and it is read
/// behind the phrase.
pub proof fn law_ascii_names_are_read(content: Seq<char>, lower: Seq<char>)
    requires
        is_ascii_chars(content),
        is_ascii_chars(lower),
        content.len() == lower.len(),
    ensures
        readable(content, lower),
        find(lower, "dog's name is "@) matches Some(at) ==> told_name(content, lower)
            == trimmed_of(first_word(content.skip(at + 14)), |c: char| is_name_edge(c)),
{
    reveal_strlit("dog's name is ");
    reveal_strlit("dog is named ");
    lemma_find_from(lower, "dog's name is "@, 0);
    lemma_find_from(lower, "dog is named "@, 0);
    match find(lower, "dog's name is "@) {
        Some(at) => {
            is_ascii_chars_encode_utf8(lower.take(at));
            is_ascii_chars_encode_utf8(content.take(at + 14));
            law_name_is_read_behind_the_phrase(content, lower, at + 14);
        },
        None => match find(lower, "dog is named "@) {
            Some(at) => {
                is_ascii_chars_encode_utf8(lower.take(at));
                is_ascii_chars_encode_utf8(content.take(at + 13));
                law_name_is_read_behind_the_phrase(content, lower, at + 13);
            },
            None => {},
        },
    }
}

/// The lowercase form of an ASCII text is an ASCII text of the same length.
proof fn lemma_ascii_lowercase(text: Seq<char>)
    requires
        is_ascii_chars(text),
    ensures
        is_ascii_chars(lowercase(text)),
        lowercase(text).len() == text.len(),
{
    assert forall|i: int| 0 <= i < text.len() implies '\0' <= #[trigger] lowercase(text)[i]
        <= '\u{7f}' by {
        assert('\0' <= text[i] <= '\u{7f}');
    }
}

/// A word of ASCII letters behind the phrase is read whole, in the case in which it was
/// written. `tail` is what follows the word without white space, such as an exclamation mark,
/// and neither letters nor a full stop; `rest` is what follows behind white space.
pub proof fn law_words_of_letters_are_read_whole(
    content: Seq<char>,
    start: int,
    word: Seq<char>,
    tail: Seq<char>,
    rest: Seq<char>,
)
    requires
        is_ascii_chars(content),
        name_start(lowercase(content)) == Some(start),
        content.skip(start) == word + tail + rest,
        word.len() > 0,
        forall|i: int| 0 <= i < word.len() ==> is_ascii_letter(#[trigger] word[i]),
        forall|i: int|
            0 <= i < tail.len() ==> !is_ascii_letter(#[trigger] tail[i]) && tail[i] != '.'
                && !unicode_whitespace(tail[i]),
        rest.len() > 0 ==> unicode_whitespace(rest[0]),
    ensures
        readable(content, lowercase(content)),
        told_name(content, lowercase(content)) == word,
{
    let lower = lowercase(content);
    lemma_ascii_lowercase(content);
    reveal_strlit("dog's name is ");
    reveal_strlit("dog is named ");
    lemma_find_from(lower, "dog's name is "@, 0);
    lemma_find_from(lower, "dog is named "@, 0);
    match find(lower, "dog's name is "@) {
        Some(at) => {
            is_ascii_chars_encode_utf8(lower.take(at));
        },
        None => match find(lower, "dog is named "@) {
            Some(at) => {
                is_ascii_chars_encode_utf8(lower.take(at));
            },
            None => {},
        },
    }
    is_ascii_chars_encode_utf8(content.take(start));
    law_name_is_read_behind_the_phrase(content, lower, start);
    let behind = content.skip(start);
    let first = word + tail;
    let white = |c: char| unicode_whitespace(c);
    let black = |c: char| !unicode_whitespace(c);
    let edge = |c: char| is_name_edge(c);
    assert(behind[0] == word[0]);
    lemma_span_is(behind, white, 0);
    assert(behind.skip(0) =~= behind);
    assert forall|i: int| 0 <= i < first.len() implies black(#[trigger] behind[i]) by {
        if i < word.len() {
            assert(behind[i] == word[i]);
        } else {
            assert(behind[i] == tail[i - word.len()]);
        }
    }
    if first.len() < behind.len() {
        assert(behind[first.len() as int] == rest[0]);
    }
    lemma_span_is(behind, black, first.len() as int);
    assert(behind.take(first.len() as int) =~= first);
    assert(first_word(behind) == first);
    assert(first[0] == word[0]);
    lemma_span_is(first, edge, 0);
    assert(first.skip(0) =~= first);
    assert forall|i: int| first.len() - tail.len() <= i < first.len() implies edge(
        #[trigger] first[i],
    ) by {
        let k = i - word.len();
        assert(first[i] == tail[k]);
        assert(content[start + i] == behind[i]);
        assert(behind[i] == tail[k]);
    }
    assert(first[word.len() - 1] == word[word.len() - 1]);
    lemma_span_back_is(first, edge, tail.len() as int);
    assert(first.take(word.len() as int) =~= word);
}

/// While the user writes plain ASCII, every question is answered: no name's place is lost.
pub proof fn law_ascii_chats_are_answered(prompt: Seq<char>, history: Seq<(Role, Seq<char>)>)
    requires
        forall|i: int|
            0 <= i < history.len() && history[i].0 == Role::User ==> is_ascii_chars(
                #[trigger] history[i].1,
            ),
    ensures
        all_readable(lowercase(prompt), history, lowercase_all(history)),
{
    let lowered = lowercase_all(history);
    assert forall|i: int| 0 <= i < history.len() && history[i].0 == Role::User implies readable(
        history[i].1,
        #[trigger] lowered[i],
    ) by {
        lemma_ascii_lowercase(history[i].1);
        law_ascii_names_are_read(history[i].1, lowercase(history[i].1));
    }
}

/// Two ASCII prompts that differ only in the case of their letters get the same answer.
pub proof fn law_case_of_the_prompt_does_not_matter(
    a: Seq<char>,
    b: Seq<char>,
    history: Seq<(Role, Seq<char>)>,
    lowered: Seq<Seq<char>>,
)
    requires
        is_ascii_chars(a),
        is_ascii_chars(b),
        same_ignoring_case(a, b),
    ensures
        lowercase(a) == lowercase(b),
        all_readable(lowercase(a), history, lowered) == all_readable(
            lowercase(b),
            history,
            lowered,
        ),
        reply(lowercase(a), history, lowered) == reply(lowercase(b), history, lowered),
{
    assert forall|i: int| 0 <= i < a.len() implies ascii_lowercase(a)[i] == ascii_lowercase(
        b,
    )[i] by {
        assert(folded(a[i]) == folded(b[i]));
    }
    assert(lowercase(a) =~= lowercase(b));
}

/// In a chat in plain ASCII, a prompt in capitals is answered, and gets the same answer.
pub proof fn law_capitals_get_the_same_answer(prompt: Seq<char>, history: Seq<(Role, Seq<char>)>)
    requires
        is_ascii_chars(prompt),
        forall|i: int|
            0 <= i < history.len() && history[i].0 == Role::User ==> is_ascii_chars(
                #[trigger] history[i].1,
            ),
    ensures
        ({
            let lowered = lowercase_all(history);
            let capitals = lowercase(ascii_uppercase(prompt));
            &&& all_readable(lowercase(prompt), history, lowered)
            &&& all_readable(capitals, history, lowered)
            &&& reply(capitals, history, lowered) == reply(lowercase(prompt), history, lowered)
        }),
{
    let upper = ascii_uppercase(prompt);
    assert forall|i: int| 0 <= i < upper.len() implies '\0' <= #[trigger] upper[i] <= '\u{7f}'
        && folded(upper[i]) == folded(prompt[i]) by {
        assert('\0' <= prompt[i] <= '\u{7f}');
    }
    law_case_of_the_prompt_does_not_matter(upper, prompt, history, lowercase_all(history));
    law_ascii_chats_are_answered(prompt, history);
}

/// The name that the user told last is the one that is remembered.
pub proof fn law_last_told_name_is_remembered(
    history: Seq<(Role, Seq<char>)>,
    lowered: Seq<Seq<char>>,
    at: int,
    count: nat,
)
    requires
        0 <= at < count <= history.len(),
        history[at].0 == Role::User,
        told_name(history[at].1, lowered[at]).len() > 0,
        forall|i: int|
            at < i < count && history[i].0 == Role::User ==> told_name(
                history[i].1,
                #[trigger] lowered[i],
            ).len() == 0,
    ensures
        remembered_name(history, lowered, count) == Some(told_name(history[at].1, lowered[at])),
    decreases count,
{
    if count - 1 > at {
        assert(lowered[count - 1] == lowered[count - 1]);
        law_last_told_name_is_remembered(history, lowered, at, (count - 1) as nat);
    }
}

/// Whoever asks for the dog's name is told the name that the user told last.
pub proof fn law_the_name_is_told_back(
    prompt_lower: Seq<char>,
    history: Seq<(Role, Seq<char>)>,
    lowered: Seq<Seq<char>>,
    at: int,
)
    requires
        contains(prompt_lower, "dog"@),
        contains(prompt_lower, "name"@) || contains(prompt_lower, "what is"@),
        0 <= at < history.len(),
        history[at].0 == Role::User,
        told_name(history[at].1, lowered[at]).len() > 0,
        forall|i: int|
            at < i < history.len() && history[i].0 == Role::User ==> told_name(
                history[i].1,
                #[trigger] lowered[i],
            ).len() == 0,
    ensures
        reply(prompt_lower, history, lowered) == "You previously mentioned that your dog's name is "@
            + told_name(history[at].1, lowered[at])
            + "! This is proof that my multi-turn conversation memory (Phase 3) is working flawlessly in offline demo mode. What else would you like to discuss?"@,
{
    law_last_told_name_is_remembered(history, lowered, at, history.len());
}

/// The phrases are searched one after the other: the name begins where the first place of the
/// first phrase ends, or else that of the second; without them no name is told.
pub proof fn law_the_name_begins_behind_the_phrase(lower: Seq<char>)
    ensures
        match find(lower, "dog's name is "@) {
            Some(at) => name_start(lower) == Some(
                encode_utf8(lower.take(at) + "dog's name is "@).len() as int,
            ),
            None => match find(lower, "dog is named "@) {
                Some(at) => name_start(lower) == Some(
                    encode_utf8(lower.take(at) + "dog is named "@).len() as int,
                ),
                None => name_start(lower) is None,
            },
        },
{
    reveal_strlit("dog's name is ");
    reveal_strlit("dog is named ");
    is_ascii_chars_encode_utf8("dog's name is "@);
    is_ascii_chars_encode_utf8("dog is named "@);
    match find(lower, "dog's name is "@) {
        Some(at) => {
            lemma_encode_add(lower.take(at), "dog's name is "@);
        },
        None => match find(lower, "dog is named "@) {
            Some(at) => {
                lemma_encode_add(lower.take(at), "dog is named "@);
            },
            None => {},
        },
    }
}

/// A name is the first word behind the phrase without what stands around it: cut off is
/// neither a letter nor a full stop, and what is left begins and ends with one.
pub proof fn law_names_begin_and_end_with_letters(content: Seq<char>, lower: Seq<char>)
    requires
        name_start(lower) is Some,
    ensures
        ({
            let name = told_name(content, lower);
            let word = first_word(from_byte(content, name_start(lower)->0));
            &&& exists|a: Seq<char>, b: Seq<char>|
                {
                    &&& word == #[trigger] (a + name + b)
                    &&& forall|i: int|
                        0 <= i < a.len() ==> !is_letter(#[trigger] a[i]) && a[i] != '.'
                    &&& forall|i: int|
                        0 <= i < b.len() ==> !is_letter(#[trigger] b[i]) && b[i] != '.'
                }
            &&& name.len() > 0 ==> (is_letter(name[0]) || name[0] == '.') && (is_letter(
                name.last(),
            ) || name.last() == '.')
        }),
{
    let edge = |c: char| is_name_edge(c);
    let word = first_word(from_byte(content, name_start(lower)->0));
    let (a, b) = lemma_trimmed_of(word, edge);
    let name = told_name(content, lower);
    assert(word == a + name + b);
    assert forall|i: int| 0 <= i < a.len() implies !is_letter(#[trigger] a[i]) && a[i] != '.' by {
        assert(edge(a[i]));
    }
    assert forall|i: int| 0 <= i < b.len() implies !is_letter(#[trigger] b[i]) && b[i] != '.' by {
        assert(edge(b[i]));
    }
    if name.len() > 0 {
        assert(!edge(name[0]) && !edge(name.last()));
    }
}

/// A message without either phrase tells no name.
pub proof fn law_no_phrase_tells_no_name(content: Seq<char>, lower: Seq<char>)
    requires
        !contains(lower, "dog's name is "@),
        !contains(lower, "dog is named "@),
    ensures
        told_name(content, lower).len() == 0,
        readable(content, lower),
{
    lemma_contains_is_find(lower, "dog's name is "@);
    lemma_contains_is_find(lower, "dog is named "@);
}

/// The lowercase forms are those of the messages, one by one.
pub proof fn law_every_message_is_lowercased(history: Seq<(Role, Seq<char>)>, i: int)
    requires
        0 <= i < history.len(),
    ensures
        lowercase_all(history).len() == history.len(),
        lowercase_all(history)[i] == lowercase(history[i].1),
{
}

/// Without a message of the user that tells a name, none is remembered.
proof fn lemma_no_name(history: Seq<(Role, Seq<char>)>, lowered: Seq<Seq<char>>, count: nat)
    requires
        count <= history.len(),
        forall|i: int|
            0 <= i < count && history[i].0 == Role::User ==> told_name(
                history[i].1,
                #[trigger] lowered[i],
            ).len() == 0,
    ensures
        remembered_name(history, lowered, count) is None,
    decreases count,
{
    if count > 0 {
        assert(lowered[count - 1] == lowered[count - 1]);
        lemma_no_name(history, lowered, (count - 1) as nat);
    }
}

/// What the user said last among the first messages.
proof fn lemma_last_said(history: Seq<(Role, Seq<char>)>, count: nat, k: int)
    requires
        0 <= k < count <= history.len(),
        history[k].0 == Role::User,
        forall|i: int| k < i < count ==> (#[trigger] history[i]).0 != Role::User,
    ensures
        last_said(history, count) == Some(history[k].1),
    decreases count,
{
    if count - 1 > k {
        assert(history[count - 1].0 != Role::User);
        lemma_last_said(history, (count - 1) as nat, k);
    }
}

/// The user said nothing among the first messages.
proof fn lemma_nothing_said(history: Seq<(Role, Seq<char>)>, count: nat)
    requires
        count <= history.len(),
        forall|i: int| 0 <= i < count ==> (#[trigger] history[i]).0 != Role::User,
    ensures
        last_said(history, count) is None,
    decreases count,
{
    if count > 0 {
        assert(history[count - 1].0 != Role::User);
        lemma_nothing_said(history, (count - 1) as nat);
    }
}

/// Whoever asks for the last or the previous prompt, or for what was said, and not for the
/// dog's name, or where no name was told, is told in full what the user said last before the
/// final message.
pub proof fn law_the_previous_prompt_is_recalled(
    prompt_lower: Seq<char>,
    history: Seq<(Role, Seq<char>)>,
    lowered: Seq<Seq<char>>,
    k: int,
)
    requires
        contains(prompt_lower, "last prompt"@) || contains(prompt_lower, "did i say"@) || contains(
            prompt_lower,
            "previous prompt"@,
        ),
        !(contains(prompt_lower, "dog"@) && (contains(prompt_lower, "name"@) || contains(
            prompt_lower,
            "what is"@,
        ))) || forall|i: int|
            0 <= i < history.len() && history[i].0 == Role::User ==> told_name(
                history[i].1,
                #[trigger] lowered[i],
            ).len() == 0,
        0 <= k < history.len() - 1,
        history[k].0 == Role::User,
        forall|i: int| k < i < history.len() - 1 ==> (#[trigger] history[i]).0 != Role::User,
    ensures
        reply(prompt_lower, history, lowered) == "Your previous prompt in this session was: \""@
            + history[k].1
            + "\". My ConversationManager tracks all of our historical turns perfectly!"@,
{
    lemma_last_said(history, (history.len() - 1) as nat, k);
    if forall|i: int|
        0 <= i < history.len() && history[i].0 == Role::User ==> told_name(
            history[i].1,
            #[trigger] lowered[i],
        ).len() == 0 {
        lemma_no_name(history, lowered, history.len());
    }
}

/// Where there is nothing to remember, or nothing was asked of the past, the first keyword
/// that the prompt holds decides on the answer: a greeting, the model, help, or the memory.
pub proof fn law_keywords_decide_on_the_answer(
    prompt_lower: Seq<char>,
    history: Seq<(Role, Seq<char>)>,
    lowered: Seq<Seq<char>>,
)
    requires
        !(contains(prompt_lower, "dog"@) && (contains(prompt_lower, "name"@) || contains(
            prompt_lower,
            "what is"@,
        ))) || forall|i: int|
            0 <= i < history.len() && history[i].0 == Role::User ==> told_name(
                history[i].1,
                #[trigger] lowered[i],
            ).len() == 0,
        !(contains(prompt_lower, "last prompt"@) || contains(prompt_lower, "did i say"@)
            || contains(prompt_lower, "previous prompt"@)) || forall|i: int|
            0 <= i < history.len() - 1 ==> (#[trigger] history[i]).0 != Role::User,
    ensures
        reply(prompt_lower, history, lowered) == if contains(prompt_lower, "hello"@) || contains(
            prompt_lower,
            "hi"@,
        ) {
            "Hello! I am Pocket Gemma, now running with Phase 3 active memory and dynamic ChatML templating. How can I help you today?"@
        } else if contains(prompt_lower, "model"@) || contains(prompt_lower, "gemma"@) || contains(
            prompt_lower,
            "gguf"@,
        ) {
            "With Phase 3 complete, we can format full conversational histories into quantized GGUF CPU models like Gemma 2 using unified templates and stream the answers in real-time."@
        } else if contains(prompt_lower, "help"@) {
            "You are in the interactive CLI REPL. I now maintain full multi-turn conversational history. You can mention facts (like 'my dog's name is Winnie') and ask me about them later to test my memory!"@
        } else if contains(prompt_lower, "ram"@) || contains(prompt_lower, "memory"@) || contains(
            prompt_lower,
            "size"@,
        ) {
            "Pocket Gemma monitors system memory using sysinfo. In this Phase 3 REPL, the ConversationManager stores all turns to construct cohesive prompt blocks."@
        } else {
            "This is a mock conversational response. Once a real GGUF model is loaded with -m, the entire multi-turn conversation history will be compiled and executed using candle-core."@
        },
{
    if forall|i: int|
        0 <= i < history.len() && history[i].0 == Role::User ==> told_name(
            history[i].1,
            #[trigger] lowered[i],
        ).len() == 0 {
        lemma_no_name(history, lowered, history.len());
    }
    if history.len() > 1 && forall|i: int|
        0 <= i < history.len() - 1 ==> (#[trigger] history[i]).0 != Role::User {
        lemma_nothing_said(history, (history.len() - 1) as nat);
    }
}

} // verus!
