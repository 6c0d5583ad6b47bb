//! The order of tool uses and tool results in a conversation's history.
//!
//! A model must never be sent the result of a tool call before the call
//! itself. This module states that rule for a history and shows that every
//! step of the turn engine keeps it.

use crate::agent::{
    accepts_outcome, after_event, after_send, after_stream_end, after_stream_failure, after_tool_finished,
    after_tool_use, all_resolved, rendered_parts, results_content, system_message,
    with_assistant_message, with_content, with_outcome, with_results, with_text, with_text_part,
    AgentView, PendingToolUseView, TurnState,
};
use crate::message::{
    AgentMessageView, AgentResponseEventView, MessageContentView, Role, ToolUseView,
};
use vstd::prelude::*;

verus! {

/// Whether the history has a part at place `part` of message `message`.
pub open spec fn in_history(messages: Seq<AgentMessageView>, message: int, part: int) -> bool {
    0 <= message < messages.len() && 0 <= part < messages[message].content.len()
}

/// Whether the part at the given place is a tool use with the given id.
pub open spec fn is_use_at(
    messages: Seq<AgentMessageView>,
    id: Seq<char>,
    message: int,
    part: int,
) -> bool {
    in_history(messages, message, part) && (messages[message].content[part] matches MessageContentView::ToolUse(
        tool_use,
    ) && tool_use.id == id)
}

/// Whether a tool use with the given id stands somewhere in the history.
pub open spec fn is_used(messages: Seq<AgentMessageView>, id: Seq<char>) -> bool {
    exists|message: int, part: int| #[trigger] is_use_at(messages, id, message, part)
}

/// Whether a tool use with the given id stands in the history before the
/// given place: in an earlier message, or earlier in the same message.
pub open spec fn is_used_before(
    messages: Seq<AgentMessageView>,
    id: Seq<char>,
    message: int,
    part: int,
) -> bool {
    exists|earlier_message: int, earlier_part: int|
        #[trigger] is_use_at(messages, id, earlier_message, earlier_part) && (earlier_message
            < message || (earlier_message == message && earlier_part < part))
}

/// Whether every tool result in the history stands behind a tool use with
/// the id that it answers.
pub open spec fn results_follow_uses(messages: Seq<AgentMessageView>) -> bool {
    forall|message: int, part: int|
        #[trigger] in_history(messages, message, part) && messages[message].content[part] is ToolResult
            ==> is_used_before(
            messages,
            messages[message].content[part]->ToolResult_0.tool_use_id,
            message,
            part,
        )
}

/// Whether every queued call stands in the history as a tool use, and every
/// result that a queued call has answers that call's id.
pub open spec fn pending_are_used(
    messages: Seq<AgentMessageView>,
    pending: Seq<PendingToolUseView>,
) -> bool {
    forall|slot: int|
        0 <= slot < pending.len() ==> is_used(messages, (#[trigger] pending[slot]).tool_use.id) && (
        pending[slot].result matches Some(result) ==> result.tool_use_id
            == pending[slot].tool_use.id)
}

/// Whether an agent's history is in order: no tool result stands before the
/// tool use that it answers, and the results still to come will stand behind
/// theirs.
pub open spec fn history_in_order(agent: AgentView) -> bool {
    results_follow_uses(agent.messages) && pending_are_used(agent.messages, agent.pending)
}

/// Whether `later` is `earlier` grown: every part of `earlier` stands at the
/// same place in `later`, unchanged but for text that may have been added
/// to.
pub open spec fn grows_into(earlier: Seq<AgentMessageView>, later: Seq<AgentMessageView>) -> bool {
    forall|message: int, part: int|
        #[trigger] in_history(earlier, message, part) ==> in_history(later, message, part) && (
        later[message].content[part] == earlier[message].content[part] || (
        earlier[message].content[part] is Text && later[message].content[part] is Text))
}

/// A history that grows keeps its tool uses where they are.
pub proof fn lemma_growth_keeps_uses(earlier: Seq<AgentMessageView>, later: Seq<AgentMessageView>)
    requires
        grows_into(earlier, later),
    ensures
        forall|id: Seq<char>, message: int, part: int|
            is_use_at(earlier, id, message, part) ==> #[trigger] is_use_at(
                later,
                id,
                message,
                part,
            ),
        forall|id: Seq<char>| is_used(earlier, id) ==> #[trigger] is_used(later, id),
        forall|pending: Seq<PendingToolUseView>|
            pending_are_used(earlier, pending) ==> #[trigger] pending_are_used(later, pending),
{
    assert forall|id: Seq<char>, message: int, part: int|
        is_use_at(earlier, id, message, part) implies #[trigger] is_use_at(
        later,
        id,
        message,
        part,
    ) by {
        assert(in_history(earlier, message, part));
    }
    assert forall|id: Seq<char>| is_used(earlier, id) implies #[trigger] is_used(later, id) by {
        let (message, part) = choose|message: int, part: int|
            #[trigger] is_use_at(earlier, id, message, part);
        assert(is_use_at(later, id, message, part));
    }
}

/// A history in order that grows stays in order, if every tool result that
/// is new in it stands behind its tool use.
pub proof fn lemma_growth_keeps_order(earlier: Seq<AgentMessageView>, later: Seq<AgentMessageView>)
    requires
        results_follow_uses(earlier),
        grows_into(earlier, later),
        forall|message: int, part: int|
            #[trigger] in_history(later, message, part) && !in_history(earlier, message, part)
                && later[message].content[part] is ToolResult ==> is_used_before(
                later,
                later[message].content[part]->ToolResult_0.tool_use_id,
                message,
                part,
            ),
    ensures
        results_follow_uses(later),
{
    lemma_growth_keeps_uses(earlier, later);
    assert forall|message: int, part: int|
        #[trigger] in_history(later, message, part)
            && later[message].content[part] is ToolResult implies is_used_before(
        later,
        later[message].content[part]->ToolResult_0.tool_use_id,
        message,
        part,
    ) by {
        if in_history(earlier, message, part) {
            let id = earlier[message].content[part]->ToolResult_0.tool_use_id;
            assert(is_used_before(earlier, id, message, part));
            let (earlier_message, earlier_part) = choose|earlier_message: int, earlier_part: int|
                #[trigger] is_use_at(earlier, id, earlier_message, earlier_part) && (
                earlier_message < message || (earlier_message == message && earlier_part < part));
            assert(is_use_at(later, id, earlier_message, earlier_part));
        }
    }
}

/// Making sure of an assistant message at the end adds no part.
pub proof fn lemma_with_assistant_message_grows(messages: Seq<AgentMessageView>)
    ensures
        grows_into(messages, with_assistant_message(messages)),
        forall|message: int, part: int|
            in_history(with_assistant_message(messages), message, part) ==> #[trigger] in_history(
                messages,
                message,
                part,
            ),
        with_assistant_message(messages).len() > 0,
{
}

/// A part that is no tool result, added to the assistant's message, keeps the
/// history in order; a tool use that is added stands in the history from
/// then on.
pub proof fn lemma_with_content_keeps_order(
    messages: Seq<AgentMessageView>,
    part: MessageContentView,
)
    requires
        results_follow_uses(messages),
        !(part is ToolResult),
    ensures
        grows_into(messages, with_content(messages, part)),
        results_follow_uses(with_content(messages, part)),
        part matches MessageContentView::ToolUse(tool_use) ==> is_used(
            with_content(messages, part),
            tool_use.id,
        ),
{
    let ready = with_assistant_message(messages);
    let later = with_content(messages, part);
    let last = ready.len() - 1;
    lemma_with_assistant_message_grows(messages);
    assert forall|message: int, place: int| #[trigger]
        in_history(messages, message, place) implies in_history(later, message, place)
        && later[message].content[place] == messages[message].content[place] by {
        assert(in_history(ready, message, place));
    }
    assert forall|message: int, place: int|
        #[trigger] in_history(later, message, place) && !in_history(messages, message, place)
            && later[message].content[place] is ToolResult implies is_used_before(
        later,
        later[message].content[place]->ToolResult_0.tool_use_id,
        message,
        place,
    ) by {
        if message == last && place < ready[last].content.len() {
            assert(in_history(ready, message, place));
        }
    }
    lemma_growth_keeps_order(messages, later);
    match part {
        MessageContentView::ToolUse(tool_use) => {
            assert(is_use_at(later, tool_use.id, last, ready[last].content.len() as int));
        },
        _ => {},
    }
}

/// Streamed text keeps the history in order.
pub proof fn lemma_with_text_keeps_order(messages: Seq<AgentMessageView>, text: Seq<char>)
    requires
        results_follow_uses(messages),
    ensures
        grows_into(messages, with_text(messages, text)),
        results_follow_uses(with_text(messages, text)),
{
    let ready = with_assistant_message(messages);
    let later = with_text(messages, text);
    let last = ready.len() - 1;
    let content = ready[last].content;
    lemma_with_assistant_message_grows(messages);
    assert(later[last].content == with_text_part(content, text));
    assert forall|message: int, place: int| #[trigger]
        in_history(messages, message, place) implies in_history(later, message, place) && (
    later[message].content[place] == messages[message].content[place] || (
    messages[message].content[place] is Text && later[message].content[place] is Text)) by {
        assert(in_history(ready, message, place));
    }
    assert forall|message: int, place: int|
        #[trigger] in_history(later, message, place) && !in_history(messages, message, place)
            && later[message].content[place] is ToolResult implies is_used_before(
        later,
        later[message].content[place]->ToolResult_0.tool_use_id,
        message,
        place,
    ) by {
        if message == last && place < content.len() {
            assert(in_history(ready, message, place));
        }
    }
    lemma_growth_keeps_order(messages, later);
}

/// A new message keeps the history in order, if each tool result in it
/// answers a tool use that stands in the history already.
pub proof fn lemma_push_keeps_order(messages: Seq<AgentMessageView>, added: AgentMessageView)
    requires
        results_follow_uses(messages),
        forall|part: int|
            0 <= part < added.content.len() && (#[trigger] added.content[part]) is ToolResult
                ==> is_used(messages, added.content[part]->ToolResult_0.tool_use_id),
    ensures
        grows_into(messages, messages.push(added)),
        results_follow_uses(messages.push(added)),
{
    let later = messages.push(added);
    assert(grows_into(messages, later));
    lemma_growth_keeps_uses(messages, later);
    assert forall|message: int, place: int|
        #[trigger] in_history(later, message, place) && !in_history(messages, message, place)
            && later[message].content[place] is ToolResult implies is_used_before(
        later,
        later[message].content[place]->ToolResult_0.tool_use_id,
        message,
        place,
    ) by {
        let id = later[message].content[place]->ToolResult_0.tool_use_id;
        assert(message == messages.len());
        assert(added.content[place] is ToolResult);
        assert(is_used(messages, id));
        let (earlier_message, earlier_part) = choose|earlier_message: int, earlier_part: int|
            #[trigger] is_use_at(messages, id, earlier_message, earlier_part);
        assert(is_use_at(later, id, earlier_message, earlier_part));
    }
    lemma_growth_keeps_order(messages, later);
}

/// The parts of a system message are all text.
pub proof fn lemma_rendered_parts_are_text(prompts: Seq<Result<Seq<char>, Seq<char>>>)
    ensures
        forall|part: int|
            0 <= part < rendered_parts(prompts).len() ==> (#[trigger] rendered_parts(
                prompts,
            )[part]) is Text,
    decreases prompts.len(),
{
    if prompts.len() > 0 {
        lemma_rendered_parts_are_text(prompts.drop_last());
    }
}

/// Sending a message that is no tool result keeps the history in order.
pub proof fn lemma_send_keeps_order(
    agent: AgentView,
    prompts: Seq<Result<Seq<char>, Seq<char>>>,
    content: MessageContentView,
)
    requires
        results_follow_uses(agent.messages),
        !(content is ToolResult),
    ensures
        history_in_order(after_send(agent, prompts, content)),
{
    lemma_rendered_parts_are_text(prompts);
    let history = match system_message(prompts) {
        Some(message) => agent.messages.push(message),
        None => agent.messages,
    };
    match system_message(prompts) {
        Some(message) => {
            lemma_push_keeps_order(agent.messages, message);
        },
        None => {},
    }
    lemma_push_keeps_order(
        history,
        AgentMessageView { role: Role::User, content: seq![content] },
    );
}

/// Taking a tool use keeps the history in order.
pub proof fn lemma_tool_use_keeps_order(agent: AgentView, tool_use: ToolUseView)
    requires
        history_in_order(agent),
    ensures
        history_in_order(after_tool_use(agent, tool_use)),
{
    let part = MessageContentView::ToolUse(tool_use);
    lemma_with_content_keeps_order(agent.messages, part);
    lemma_growth_keeps_uses(agent.messages, with_content(agent.messages, part));
}

/// Every event of a response keeps the history in order.
pub proof fn lemma_event_keeps_order(agent: AgentView, turn: u64, event: AgentResponseEventView)
    requires
        history_in_order(agent),
    ensures
        history_in_order(after_event(agent, turn, event)),
{
    if turn == agent.turn && agent.state == TurnState::Streaming {
        match event {
            AgentResponseEventView::Text(text) => {
                lemma_with_text_keeps_order(agent.messages, text);
                lemma_growth_keeps_uses(agent.messages, with_text(agent.messages, text));
            },
            AgentResponseEventView::ToolUse(tool_use) => {
                lemma_tool_use_keeps_order(agent, tool_use);
            },
            AgentResponseEventView::StartMessage { role } => {
                let added = AgentMessageView { role, content: Seq::empty() };
                lemma_push_keeps_order(agent.messages, added);
                lemma_growth_keeps_uses(agent.messages, agent.messages.push(added));
            },
            _ => {},
        }
    }
}

/// Putting the tool results into the history keeps it in order: each result
/// stands behind the use that it answers.
pub proof fn lemma_results_keep_order(agent: AgentView)
    requires
        history_in_order(agent),
        all_resolved(agent.pending),
    ensures
        history_in_order(with_results(agent)),
{
    let added = AgentMessageView { role: Role::User, content: results_content(agent.pending) };
    assert forall|part: int|
        0 <= part < added.content.len() && (#[trigger] added.content[part]) is ToolResult implies is_used(
        agent.messages,
        added.content[part]->ToolResult_0.tool_use_id,
    ) by {
        assert(agent.pending[part].result is Some);
    }
    lemma_push_keeps_order(agent.messages, added);
}

/// The end of a response keeps the history in order.
pub proof fn lemma_stream_end_keeps_order(agent: AgentView, turn: u64)
    requires
        history_in_order(agent),
    ensures
        history_in_order(after_stream_end(agent, turn)),
{
    if agent.state == TurnState::Streaming && agent.pending.len() > 0 && all_resolved(
        agent.pending,
    ) {
        lemma_results_keep_order(agent);
    }
}

/// The outcome of a tool call keeps the history in order.
pub proof fn lemma_tool_finished_keeps_order(
    agent: AgentView,
    turn: u64,
    slot: int,
    outcome: Result<Seq<char>, Seq<char>>,
)
    requires
        history_in_order(agent),
    ensures
        history_in_order(after_tool_finished(agent, turn, slot, outcome)),
{
    if accepts_outcome(agent, turn, slot) {
        let recorded = AgentView { pending: with_outcome(agent.pending, slot, outcome), ..agent };
        assert(history_in_order(recorded)) by {
            assert forall|other: int| 0 <= other < recorded.pending.len() implies is_used(
                recorded.messages,
                (#[trigger] recorded.pending[other]).tool_use.id,
            ) && (recorded.pending[other].result matches Some(result) ==> result.tool_use_id
                == recorded.pending[other].tool_use.id) by {
                assert(agent.pending[other].tool_use == recorded.pending[other].tool_use);
            }
        }
        if agent.state == TurnState::AwaitingToolResults && all_resolved(recorded.pending) {
            lemma_results_keep_order(recorded);
        }
    }
}

/// A failure of the transport keeps the history in order.
pub proof fn lemma_stream_failure_keeps_order(agent: AgentView, turn: u64)
    requires
        history_in_order(agent),
    ensures
        history_in_order(after_stream_failure(agent, turn)),
{
}


/// Streamed text and new parts only add to the history.
pub proof fn lemma_additions_grow_history(
    messages: Seq<AgentMessageView>,
    part: MessageContentView,
    text: Seq<char>,
)
    ensures
        grows_into(messages, with_content(messages, part)),
        grows_into(messages, with_text(messages, text)),
{
    let ready = with_assistant_message(messages);
    let last = ready.len() - 1;
    lemma_with_assistant_message_grows(messages);
    let added = with_content(messages, part);
    assert forall|message: int, place: int| #[trigger]
        in_history(messages, message, place) implies in_history(added, message, place)
        && added[message].content[place] == messages[message].content[place] by {
        assert(in_history(ready, message, place));
    }
    let joined = with_text(messages, text);
    assert(joined[last].content == with_text_part(ready[last].content, text));
    assert forall|message: int, place: int| #[trigger]
        in_history(messages, message, place) implies in_history(joined, message, place) && (
    joined[message].content[place] == messages[message].content[place] || (
    messages[message].content[place] is Text && joined[message].content[place] is Text)) by {
        assert(in_history(ready, message, place));
    }
}

/// The history is only ever added to. Whatever happens in a turn, every part
/// of every message stays where it is, and stays as it is but for streamed
/// text that is joined to the text before it.
pub proof fn lemma_history_only_grows(
    agent: AgentView,
    turn: u64,
    prompts: Seq<Result<Seq<char>, Seq<char>>>,
    content: MessageContentView,
    event: AgentResponseEventView,
    slot: int,
    outcome: Result<Seq<char>, Seq<char>>,
)
    ensures
        grows_into(agent.messages, after_send(agent, prompts, content).messages),
        grows_into(agent.messages, after_event(agent, turn, event).messages),
        grows_into(agent.messages, after_stream_end(agent, turn).messages),
        grows_into(agent.messages, after_tool_finished(agent, turn, slot, outcome).messages),
        after_stream_failure(agent, turn).messages == agent.messages,
{
    match event {
        AgentResponseEventView::Text(text) => {
            lemma_additions_grow_history(agent.messages, MessageContentView::Text(text), text);
        },
        AgentResponseEventView::ToolUse(tool_use) => {
            lemma_additions_grow_history(
                agent.messages,
                MessageContentView::ToolUse(tool_use),
                Seq::empty(),
            );
        },
        _ => {},
    }
}

} // verus!
