//! The rolling history of a chat and the prompt that is made of it.

use vstd::prelude::*;

verus! {

/// Who speaks in a turn of the conversation.
#[derive(Debug, Clone, Copy, PartialEq, Eq, Structural)]
pub enum Role {
    System,
    User,
    Assistant,
}

/// A single turn of a conversation.
#[derive(Debug, Clone, PartialEq, Eq)]
pub struct Message {
    pub role: Role,
    pub content: String,
}

impl View for Message {
    type V = (Role, Seq<char>);

    open spec fn view(&self) -> (Role, Seq<char>) {
        (self.role, self.content@)
    }
}

/// Keeps the history of a chat, and formats it as a prompt.
#[derive(Debug, Clone)]
pub struct ConversationManager {
    pub system_prompt: String,
    pub messages: Vec<Message>,
}

/// How many messages are kept when the last one comes from `last`: two full turns, or one
/// full turn and the question that waits for its answer.
pub open spec fn window(last: Role) -> nat {
    if last == Role::Assistant {
        4
    } else {
        3
    }
}

/// The end of a history that is kept.
pub open spec fn clamped(messages: Seq<Message>) -> Seq<Message> {
    let limit = window(messages.last().role);
    if messages.len() > limit {
        messages.skip(messages.len() - limit)
    } else {
        messages
    }
}

/// The turns of a history, each with its role and its text.
pub open spec fn turns(messages: Seq<Message>) -> Seq<(Role, Seq<char>)> {
    messages.map_values(|message: Message| message@)
}

/// The user speaks at `at` and has not spoken before.
pub open spec fn first_user_turn(history: Seq<(Role, Seq<char>)>, at: int) -> bool {
    history[at].0 == Role::User && forall|i: int| 0 <= i < at ==> history[i].0 != Role::User
}

/// What stands in front of the user's words at `at`: before the last message of all the
/// call for a plain answer; before the first words of the user, where they are not the last
/// message, the system prompt.
pub open spec fn frame(system: Seq<char>, history: Seq<(Role, Seq<char>)>, at: int) -> Seq<char> {
    if at == history.len() - 1 {
        "[Provide a single, direct, factual answer without filler.]\n\n"@
    } else if first_user_turn(history, at) && system.len() > 0 {
        system + "\n\n"@
    } else {
        seq![]
    }
}

/// The turn at `at` in the markup of the prompt.
pub open spec fn turn_text(system: Seq<char>, history: Seq<(Role, Seq<char>)>, at: int) -> Seq<
    char,
> {
    match history[at].0 {
        Role::System => "<start_of_turn>user\n"@ + history[at].1 + "<end_of_turn>\n"@,
        Role::User => "<start_of_turn>user\n"@ + frame(system, history, at) + history[at].1
            + "<end_of_turn>\n"@,
        Role::Assistant => "<start_of_turn>model\n"@ + history[at].1 + "<end_of_turn>\n"@,
    }
}

/// The first `count` turns in the markup of the prompt, one behind the other.
pub open spec fn turns_text(
    system: Seq<char>,
    history: Seq<(Role, Seq<char>)>,
    count: nat,
) -> Seq<char>
    decreases count,
{
    if count == 0 {
        seq![]
    } else {
        turns_text(system, history, (count - 1) as nat) + turn_text(system, history, count - 1)
    }
}

/// The whole prompt: all turns, then the opening of the model's answer. Without any turn the
/// system prompt stands alone in a turn of the user.
pub open spec fn prompt_text(system: Seq<char>, history: Seq<(Role, Seq<char>)>) -> Seq<char> {
    if history.len() == 0 && system.len() == 0 {
        "<start_of_turn>model\n"@
    } else if history.len() == 0 {
        "<start_of_turn>user\n"@ + system + "<end_of_turn>\n"@ + "<start_of_turn>model\n"@
    } else {
        turns_text(system, history, history.len()) + "<start_of_turn>model\n"@
    }
}

impl ConversationManager {
    /// A conversation without messages, under the given system prompt or the usual one.
    pub fn new(system_prompt: Option<String>) -> (manager: Self)
        ensures
            manager.system_prompt@ == match system_prompt {
                Some(text) => text@,
                None => "You are a helpful, highly capable AI assistant."@,
            },
            manager.messages@ == Seq::<Message>::empty(),
    {
        let system_prompt: String = match system_prompt {
            Some(text) => text,
            None => "You are a helpful, highly capable AI assistant.".to_owned(),
        };
        ConversationManager { system_prompt, messages: Vec::new() }
    }

    /// Adds a message and drops what is older than the last two turns.
    pub fn add_message(&mut self, role: Role, content: String)
        ensures
            final(self).messages@ == clamped(
                old(self).messages@.push((Message { role, content })),
            ),
            final(self).system_prompt == old(self).system_prompt,
    {
        self.messages.push(Message { role, content });
        let limit: usize = if role == Role::Assistant {
            4
        } else {
            3
        };
        if self.messages.len() > limit {
            let drop_count: usize = self.messages.len() - limit;
            let kept: Vec<Message> = self.messages.split_off(drop_count);
            self.messages = kept;
        }
    }

    /// Forgets all messages.
    pub fn clear(&mut self)
        ensures
            final(self).messages@ == Seq::<Message>::empty(),
            final(self).system_prompt == old(self).system_prompt,
    {
        self.messages.clear();
    }

    /// The prompt for the model's next answer.
    pub fn get_formatted_prompt(&self) -> (prompt: String)
        ensures
            prompt@ == prompt_text(self.system_prompt@, turns(self.messages@)),
    {
        let ghost system = self.system_prompt@;
        let ghost history = turns(self.messages@);
        let mut prompt: String = String::new();
        if self.messages.len() == 0 {
            if !self.system_prompt.as_str().is_empty() {
                prompt.append("<start_of_turn>user\n");
                prompt.append(self.system_prompt.as_str());
                prompt.append("<end_of_turn>\n");
            }
            prompt.append("<start_of_turn>model\n");
            assert(prompt@ =~= prompt_text(system, history));
            return prompt;
        }
        let mut system_prepended: bool = false;
        let mut i: usize = 0;
        while i < self.messages.len()
            invariant
                i <= self.messages.len(),
                system == self.system_prompt@,
                history == turns(self.messages@),
                prompt@ == turns_text(system, history, i as nat),
                system_prepended ==> exists|j: int| 0 <= j < i && history[j].0 == Role::User,
                !system_prepended && system.len() > 0 ==> forall|j: int|
                    0 <= j < i && j < history.len() - 1 ==> history[j].0 != Role::User,
            decreases self.messages.len() - i,
        {
            let message: &Message = &self.messages[i];
            let ghost before = prompt@;
            assert(history[i as int] == message@);
            match message.role {
                Role::System => {
                    prompt.append("<start_of_turn>user\n");
                    prompt.append(message.content.as_str());
                    prompt.append("<end_of_turn>\n");
                },
                Role::User => {
                    prompt.append("<start_of_turn>user\n");
                    if i == self.messages.len() - 1 {
                        prompt.append("[Provide a single, direct, factual answer without filler.]\n\n");
                    } else if !system_prepended && !self.system_prompt.as_str().is_empty() {
                        prompt.append(self.system_prompt.as_str());
                        prompt.append("\n\n");
                        system_prepended = true;
                    }
                    prompt.append(message.content.as_str());
                    prompt.append("<end_of_turn>\n");
                },
                Role::Assistant => {
                    prompt.append("<start_of_turn>model\n");
                    prompt.append(message.content.as_str());
                    prompt.append("<end_of_turn>\n");
                },
            }
            assert(prompt@ =~= before + turn_text(system, history, i as int));
            i += 1;
        }
        prompt.append("<start_of_turn>model\n");
        prompt
    }
}

/// Whatever was said before, at most four messages are kept, at most three where the last
/// one waits for an answer; they are the last ones, in order, and the newest is among them.
pub proof fn law_history_is_bounded(messages: Seq<Message>, role: Role, content: String)
    ensures
        ({
            let all = messages.push((Message { role, content }));
            let kept = clamped(all);
            &&& 0 < kept.len() <= 4
            &&& role != Role::Assistant ==> kept.len() <= 3
            &&& kept.last() == (Message { role, content })
            &&& kept == all.skip(all.len() - kept.len())
        }),
{
    let all = messages.push((Message { role, content }));
    assert(all.skip(0) =~= all);
}

/// A history in which the user and the assistant take turns, the user first.
pub open spec fn alternates(messages: Seq<Message>) -> bool {
    forall|i: int|
        0 <= i < messages.len() ==> #[trigger] messages[i].role == if i % 2 == 0 {
            Role::User
        } else {
            Role::Assistant
        }
}

/// In a chat of full turns a further question and its answer leave exactly the last two
/// turns, and what is kept is again a chat of full turns.
pub proof fn law_last_two_turns_are_kept(
    messages: Seq<Message>,
    question: String,
    answer: String,
)
    requires
        alternates(messages),
        messages.len() % 2 == 0,
        messages.len() <= 4,
    ensures
        ({
            let asked = Message { role: Role::User, content: question };
            let answered = Message { role: Role::Assistant, content: answer };
            let all = messages.push(asked).push(answered);
            let kept = clamped(clamped(messages.push(asked)).push(answered));
            &&& kept == all.skip(if all.len() > 4 { all.len() - 4 } else { 0 })
            &&& alternates(kept)
            &&& kept.len() % 2 == 0
            &&& kept.len() <= 4
        }),
{
    let asked = Message { role: Role::User, content: question };
    let answered = Message { role: Role::Assistant, content: answer };
    let all = messages.push(asked).push(answered);
    let waiting = clamped(messages.push(asked));
    let kept = clamped(waiting.push(answered));
    if messages.len() == 4 {
        assert(waiting =~= messages.push(asked).skip(2));
        assert(waiting.push(answered) =~= all.skip(2));
    } else {
        assert(waiting =~= messages.push(asked));
        assert(all.skip(0) =~= all);
    }
}

/// Every prompt ends by opening the model's answer.
pub proof fn law_prompt_opens_the_answer(system: Seq<char>, history: Seq<(Role, Seq<char>)>)
    ensures
        ({
            let prompt = prompt_text(system, history);
            let opening = "<start_of_turn>model\n"@;
            prompt.len() >= opening.len() && prompt.skip(prompt.len() - opening.len()) == opening
        }),
{
    let opening = "<start_of_turn>model\n"@;
    let prompt = prompt_text(system, history);
    assert(prompt.skip(prompt.len() - opening.len()) =~= opening);
}

/// The system prompt is put in front of the user's words at most once.
pub proof fn law_system_prompt_stands_once(
    system: Seq<char>,
    history: Seq<(Role, Seq<char>)>,
    a: int,
    b: int,
)
    requires
        0 <= a < b < history.len() - 1,
        history[a].0 == Role::User,
        history[b].0 == Role::User,
    ensures
        frame(system, history, b) == Seq::<char>::empty(),
{
}

/// Of all messages the last four are kept where the assistant spoke last, else the last
/// three; where there are fewer, all of them.
pub proof fn law_so_many_messages_are_kept(messages: Seq<Message>)
    requires
        messages.len() > 0,
    ensures
        ({
            let kept = clamped(messages);
            let limit: int = if messages.last().role == Role::Assistant {
                4
            } else {
                3
            };
            &&& kept.len() == if messages.len() < limit {
                messages.len() as int
            } else {
                limit
            }
            &&& forall|i: int|
                0 <= i < kept.len() ==> #[trigger] kept[i] == messages[messages.len() - kept.len()
                    + i]
        }),
{
}

/// Where each turn begins in the prompt, and where the last one ends.
proof fn lemma_turn_starts(system: Seq<char>, history: Seq<(Role, Seq<char>)>, count: nat) -> (starts:
    Seq<int>)
    requires
        count <= history.len(),
    ensures
        starts.len() == count + 1,
        starts[0] == 0,
        starts[count as int] == turns_text(system, history, count).len(),
        forall|i: int|
            0 <= i < count ==> 0 <= #[trigger] starts[i] <= starts[i + 1] <= starts[count as int]
                && turns_text(system, history, count).subrange(starts[i], starts[i + 1])
                == turn_text(system, history, i),
    decreases count,
{
    if count == 0 {
        seq![0]
    } else {
        let before = lemma_turn_starts(system, history, (count - 1) as nat);
        let front = turns_text(system, history, (count - 1) as nat);
        let all = turns_text(system, history, count);
        let starts = before.push(all.len() as int);
        assert forall|i: int| 0 <= i < count implies 0 <= #[trigger] starts[i] <= starts[i + 1]
            <= starts[count as int] && all.subrange(starts[i], starts[i + 1]) == turn_text(
            system,
            history,
            i,
        ) by {
            if i < count - 1 {
                assert(starts[i] == before[i]);
                assert(starts[i + 1] == before[i + 1]);
                assert(before[i + 1] <= front.len());
                assert(all.subrange(starts[i], starts[i + 1]) =~= front.subrange(
                    before[i],
                    before[i + 1],
                ));
            } else {
                assert(starts[i] == front.len());
                assert(all.subrange(starts[i], starts[i + 1]) =~= turn_text(system, history, i));
            }
        }
        starts
    }
}

/// The prompt holds every message in full, in order, each in a turn of its own, and nothing
/// else but the opening of the answer. What the assistant said stands in a turn of the model,
/// everything else in one of the user. The user's words follow the call for a plain answer
/// where they are the last message; else, where they are the first words of the user and
/// there is a system prompt, that prompt. `starts` gives where the turns begin, and where the
/// last one ends.
pub proof fn law_prompt_holds_every_message(
    system: Seq<char>,
    history: Seq<(Role, Seq<char>)>,
) -> (starts: Seq<int>)
    requires
        history.len() > 0,
    ensures
        ({
            let prompt = prompt_text(system, history);
            let n = history.len() as int;
            &&& starts.len() == n + 1
            &&& starts[0] == 0
            &&& 0 <= starts[n] <= prompt.len()
            &&& prompt.skip(starts[n]) == "<start_of_turn>model\n"@
            &&& forall|i: int|
                0 <= i < n ==> 0 <= #[trigger] starts[i] <= starts[i + 1] <= prompt.len()
                    && prompt.subrange(starts[i], starts[i + 1]) == if history[i].0
                    == Role::Assistant {
                    "<start_of_turn>model\n"@ + history[i].1 + "<end_of_turn>\n"@
                } else if history[i].0 == Role::User && i == n - 1 {
                    "<start_of_turn>user\n"@
                        + "[Provide a single, direct, factual answer without filler.]\n\n"@
                        + history[i].1 + "<end_of_turn>\n"@
                } else if history[i].0 == Role::User && system.len() > 0 && forall|j: int|
                    0 <= j < i ==> (#[trigger] history[j]).0 != Role::User {
                    "<start_of_turn>user\n"@ + system + "\n\n"@ + history[i].1 + "<end_of_turn>\n"@
                } else {
                    "<start_of_turn>user\n"@ + history[i].1 + "<end_of_turn>\n"@
                }
        }),
{
    let prompt = prompt_text(system, history);
    let n = history.len();
    let turns = turns_text(system, history, n);
    let starts = lemma_turn_starts(system, history, n);
    assert(prompt =~= turns + "<start_of_turn>model\n"@);
    assert(prompt.skip(starts[n as int]) =~= "<start_of_turn>model\n"@);
    assert forall|i: int| 0 <= i < n implies 0 <= #[trigger] starts[i] <= starts[i + 1]
        <= prompt.len() && prompt.subrange(starts[i], starts[i + 1]) == if history[i].0
        == Role::Assistant {
        "<start_of_turn>model\n"@ + history[i].1 + "<end_of_turn>\n"@
    } else if history[i].0 == Role::User && i == n - 1 {
        "<start_of_turn>user\n"@
            + "[Provide a single, direct, factual answer without filler.]\n\n"@ + history[i].1
            + "<end_of_turn>\n"@
    } else if history[i].0 == Role::User && system.len() > 0 && forall|j: int|
        0 <= j < i ==> (#[trigger] history[j]).0 != Role::User {
        "<start_of_turn>user\n"@ + system + "\n\n"@ + history[i].1 + "<end_of_turn>\n"@
    } else {
        "<start_of_turn>user\n"@ + history[i].1 + "<end_of_turn>\n"@
    } by {
        assert(prompt.subrange(starts[i], starts[i + 1]) =~= turns.subrange(
            starts[i],
            starts[i + 1],
        ));
        lemma_turn_text(system, history, i);
    }
    starts
}

/// What a turn is, word by word.
#[verifier::spinoff_prover]
proof fn lemma_turn_text(system: Seq<char>, history: Seq<(Role, Seq<char>)>, i: int)
    requires
        0 <= i < history.len(),
    ensures
        turn_text(system, history, i) == if history[i].0 == Role::Assistant {
            "<start_of_turn>model\n"@ + history[i].1 + "<end_of_turn>\n"@
        } else if history[i].0 == Role::User && i == history.len() - 1 {
            "<start_of_turn>user\n"@
                + "[Provide a single, direct, factual answer without filler.]\n\n"@ + history[i].1
                + "<end_of_turn>\n"@
        } else if history[i].0 == Role::User && system.len() > 0 && forall|j: int|
            0 <= j < i ==> (#[trigger] history[j]).0 != Role::User {
            "<start_of_turn>user\n"@ + system + "\n\n"@ + history[i].1 + "<end_of_turn>\n"@
        } else {
            "<start_of_turn>user\n"@ + history[i].1 + "<end_of_turn>\n"@
        },
{
    let opening = "<start_of_turn>user\n"@;
    let first = forall|j: int| 0 <= j < i ==> (#[trigger] history[j]).0 != Role::User;
    assert(first_user_turn(history, i) == (history[i].0 == Role::User && first)) by {
        if first {
            assert forall|j: int| 0 <= j < i implies history[j].0 != Role::User by {
                assert(history[j].0 != Role::User);
            }
        }
    }
    assert(opening + (system + "\n\n"@) =~= opening + system + "\n\n"@);
    assert(opening + Seq::<char>::empty() =~= opening);
}

/// Without messages the prompt is the system prompt in a turn of the user, where there is one,
/// and the opening of the answer.
pub proof fn law_prompt_without_messages(system: Seq<char>)
    ensures
        prompt_text(system, seq![]) == if system.len() > 0 {
            "<start_of_turn>user\n"@ + system + "<end_of_turn>\n"@ + "<start_of_turn>model\n"@
        } else {
            "<start_of_turn>model\n"@
        },
{
}

/// Histories of the same roles whose messages have the same lengths, but differ in any
/// character, have different prompts.
pub proof fn law_prompts_tell_messages_apart(
    system: Seq<char>,
    a: Seq<(Role, Seq<char>)>,
    b: Seq<(Role, Seq<char>)>,
)
    requires
        a.len() == b.len(),
        a.len() > 0,
        forall|i: int|
            0 <= i < a.len() ==> (#[trigger] a[i]).0 == b[i].0 && a[i].1.len() == b[i].1.len(),
        prompt_text(system, a) == prompt_text(system, b),
    ensures
        a == b,
{
    let n = a.len() as int;
    let prompt = prompt_text(system, a);
    let x = lemma_turn_starts(system, a, a.len());
    let y = lemma_turn_starts(system, b, b.len());
    assert forall|i: int| 0 <= i < n implies frame(system, a, i) == frame(system, b, i) by {
        assert(a[i].0 == b[i].0);
        if first_user_turn(a, i) {
            assert forall|j: int| 0 <= j < i implies b[j].0 != Role::User by {
                assert(a[j].0 == b[j].0);
            }
        }
        if first_user_turn(b, i) {
            assert forall|j: int| 0 <= j < i implies a[j].0 != Role::User by {
                assert(a[j].0 == b[j].0);
            }
        }
    }
    assert forall|i: int| 0 <= i < n implies turn_text(system, a, i).len() == turn_text(
        system,
        b,
        i,
    ).len() by {
        assert(a[i].0 == b[i].0);
        assert(frame(system, a, i) == frame(system, b, i));
    }
    lemma_same_starts(system, a, b, x, y, n);
    assert forall|i: int| 0 <= i < n implies a[i] == b[i] by {
        assert(x[i] == y[i] && x[i + 1] == y[i + 1]);
        let ta = turns_text(system, a, a.len());
        let tb = turns_text(system, b, b.len());
        assert(ta =~= prompt.take(x[n]));
        assert(tb =~= prompt.take(y[n]));
        assert(turn_text(system, a, i) == turn_text(system, b, i));
        assert(a[i].0 == b[i].0);
        assert(frame(system, a, i) == frame(system, b, i));
        let skip = match a[i].0 {
            Role::System => "<start_of_turn>user\n"@.len() as int,
            Role::User => "<start_of_turn>user\n"@.len() as int + frame(system, a, i).len(),
            Role::Assistant => "<start_of_turn>model\n"@.len() as int,
        };
        let len = a[i].1.len() as int;
        assert(turn_text(system, a, i).subrange(skip, skip + len) =~= a[i].1);
        assert(turn_text(system, b, i).subrange(skip, skip + len) =~= b[i].1);
    }
    assert(a =~= b);
}

/// Turns of the same lengths begin at the same places.
proof fn lemma_same_starts(
    system: Seq<char>,
    a: Seq<(Role, Seq<char>)>,
    b: Seq<(Role, Seq<char>)>,
    x: Seq<int>,
    y: Seq<int>,
    count: int,
)
    requires
        0 <= count <= a.len(),
        a.len() == b.len(),
        x.len() == a.len() + 1,
        y.len() == a.len() + 1,
        x[0] == 0,
        y[0] == 0,
        x[a.len() as int] == turns_text(system, a, a.len()).len(),
        y[b.len() as int] == turns_text(system, b, b.len()).len(),
        forall|i: int|
            0 <= i < a.len() ==> 0 <= #[trigger] x[i] <= x[i + 1] <= x[a.len() as int]
                && turns_text(system, a, a.len()).subrange(x[i], x[i + 1]) == turn_text(
                system,
                a,
                i,
            ),
        forall|i: int|
            0 <= i < b.len() ==> 0 <= #[trigger] y[i] <= y[i + 1] <= y[b.len() as int]
                && turns_text(system, b, b.len()).subrange(y[i], y[i + 1]) == turn_text(
                system,
                b,
                i,
            ),
        forall|i: int|
            0 <= i < a.len() ==> #[trigger] turn_text(system, a, i).len() == turn_text(
                system,
                b,
                i,
            ).len(),
    ensures
        forall|i: int| 0 <= i <= count ==> #[trigger] x[i] == y[i],
    decreases count,
{
    if count > 0 {
        lemma_same_starts(system, a, b, x, y, count - 1);
        let i = count - 1;
        assert(x[i] == y[i]);
        assert(turns_text(system, a, a.len()).subrange(x[i], x[i + 1]).len() == x[i + 1] - x[i]);
        assert(turns_text(system, b, b.len()).subrange(y[i], y[i + 1]).len() == y[i + 1] - y[i]);
        assert(turn_text(system, a, i).len() == turn_text(system, b, i).len());
    }
}

} // verus!
