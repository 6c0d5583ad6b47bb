//! The conversation turn engine.
//!
//! An agent owns the history of a conversation and the registry of tools. A
//! turn begins when a message is sent, and runs through cycles of one request
//! and one streamed response each. Tool calls that a response makes are
//! queued in the order in which the model made them; when the response has
//! ended and every queued call has its result, the results go into the
//! history as one message, in the order of the calls, and the next cycle
//! begins. A response without tool calls ends the turn.
//!
//! The engine decides and records; its caller does what takes time. The
//! caller sends the requests, feeds the events of the response to the engine
//! as they arrive, runs the tools the engine asks for, and reports back what
//! they came to, in whatever order they finish.

use crate::message::{
    clone_content, lemma_views_drop_last, lemma_views_push, outcome_view, result_of_outcome,
    unknown_tool_result, views, AgentMessage, AgentMessageView, AgentResponseEvent,
    AgentResponseEventView, CompletionRequest, CompletionRequestView, MessageContent,
    MessageContentView, RequestMessage, RequestMessageView, Role, StopReason, ToolResult,
    ToolResultView, ToolUse, ToolUseView,
};
use crate::history::{
    history_in_order, lemma_event_keeps_order, lemma_send_keeps_order,
    lemma_stream_end_keeps_order, lemma_tool_finished_keeps_order, results_follow_uses,
};
use crate::tools::{
    has_tool, names_ascend, offered_names_ascend, offered_tools, ToolDescriptor,
    ToolDescriptorView, ToolRegistry,
};
use vstd::prelude::*;

verus! {

/// Where a turn stands.
#[derive(Clone, Copy, Debug, PartialEq, Eq, Structural)]
pub enum TurnState {
    /// No message has been sent yet.
    Idle,
    /// A request is out and its response is being read.
    Streaming,
    /// The response has ended; tool calls it made are still running.
    AwaitingToolResults,
    /// The model ended its turn without further tool calls.
    Done,
    /// The turn was ended by an error.
    Failed,
}

/// Why a turn could not go on.
#[derive(Clone, Copy, Debug, PartialEq, Eq, Structural)]
pub enum TurnError {
    /// The event belongs to a turn that a later one has superseded.
    Superseded,
    /// An event arrived while no response was being read.
    NotStreaming,
    /// The model stopped for a reason that the engine does not handle, such
    /// as running into its length limit.
    UnsupportedStopReason(StopReason),
}

/// A tool call that the model made in the current cycle, and its result once
/// there is one.
#[derive(Debug, PartialEq, Eq)]
pub struct PendingToolUse {
    pub tool_use: ToolUse,
    pub result: Option<ToolResult>,
}

pub struct PendingToolUseView {
    pub tool_use: ToolUseView,
    pub result: Option<ToolResultView>,
}

impl View for PendingToolUse {
    type V = PendingToolUseView;

    open spec fn view(&self) -> PendingToolUseView {
        PendingToolUseView {
            tool_use: self.tool_use@,
            result: match self.result {
                Some(result) => Some(result@),
                None => None,
            },
        }
    }
}

/// What the caller is to do about a tool call that the model completed.
#[derive(Debug, PartialEq, Eq)]
pub enum ToolCall {
    /// Run the tool and report its outcome for this slot.
    Run { slot: usize, tool_use: ToolUse },
    /// Nothing: the call is already answered, as no such tool is registered.
    Resolved { slot: usize, result: ToolResult },
}

pub enum ToolCallView {
    Run { slot: usize, tool_use: ToolUseView },
    Resolved { slot: usize, result: ToolResultView },
}

impl View for ToolCall {
    type V = ToolCallView;

    open spec fn view(&self) -> ToolCallView {
        match self {
            ToolCall::Run { slot, tool_use } => ToolCallView::Run {
                slot: *slot,
                tool_use: tool_use@,
            },
            ToolCall::Resolved { slot, result } => ToolCallView::Resolved {
                slot: *slot,
                result: result@,
            },
        }
    }
}

/// How the turn goes on.
#[derive(Debug, PartialEq, Eq)]
pub enum TurnStep {
    /// The next cycle begins: send this request and read its response.
    Continue(CompletionRequest),
    /// Tool calls are still running: report their outcomes.
    Wait,
    /// The turn has ended.
    Done,
    /// The report did not fit the state of the turn and changed nothing.
    Rejected,
}

pub enum TurnStepView {
    Continue(CompletionRequestView),
    Wait,
    Done,
    Rejected,
}

impl View for TurnStep {
    type V = TurnStepView;

    open spec fn view(&self) -> TurnStepView {
        match self {
            TurnStep::Continue(request) => TurnStepView::Continue(request@),
            TurnStep::Wait => TurnStepView::Wait,
            TurnStep::Done => TurnStepView::Done,
            TurnStep::Rejected => TurnStepView::Rejected,
        }
    }
}

/// An agent in plain values: the history, the registered tools in the order
/// of their names, the number of the turn under way, where that turn stands,
/// and the tool calls of the current cycle in the order in which the model
/// made them.
pub struct AgentView {
    pub messages: Seq<AgentMessageView>,
    pub tools: Seq<ToolDescriptorView>,
    pub turn: u64,
    pub state: TurnState,
    pub pending: Seq<PendingToolUseView>,
}

/// The number of the turn that follows turn number `turn`. Numbers start
/// over behind the largest, so that a turn's number always differs from that
/// of the turn it supersedes.
pub open spec fn next_turn(turn: u64) -> u64 {
    if turn == u64::MAX {
        0
    } else {
        (turn + 1) as u64
    }
}

/// The rendered system prompts in plain values.
pub open spec fn prompt_views(prompts: Seq<Result<String, String>>) -> Seq<
    Result<Seq<char>, Seq<char>>,
> {
    prompts.map_values(|prompt: Result<String, String>| outcome_view(prompt))
}

/// The parts of the system message: the text of every prompt that could be
/// rendered, in order. A prompt that could not be rendered is left out.
pub open spec fn rendered_parts(prompts: Seq<Result<Seq<char>, Seq<char>>>) -> Seq<
    MessageContentView,
>
    decreases prompts.len(),
{
    if prompts.len() == 0 {
        Seq::empty()
    } else {
        let before = rendered_parts(prompts.drop_last());
        match prompts.last() {
            Ok(text) => before.push(MessageContentView::Text(text)),
            Err(_) => before,
        }
    }
}

/// The system message for a turn, if any prompt could be rendered.
pub open spec fn system_message(prompts: Seq<Result<Seq<char>, Seq<char>>>) -> Option<
    AgentMessageView,
> {
    let parts = rendered_parts(prompts);
    if parts.len() == 0 {
        None
    } else {
        Some(AgentMessageView { role: Role::System, content: parts })
    }
}

/// The history with an assistant message at its end: the history itself
/// where its last message is the assistant's, else with an empty assistant
/// message added.
pub open spec fn with_assistant_message(messages: Seq<AgentMessageView>) -> Seq<AgentMessageView> {
    if messages.len() > 0 && messages.last().role == Role::Assistant {
        messages
    } else {
        messages.push(AgentMessageView { role: Role::Assistant, content: Seq::empty() })
    }
}

/// The history with one more part at the end of the assistant's message.
pub open spec fn with_content(messages: Seq<AgentMessageView>, part: MessageContentView) -> Seq<
    AgentMessageView,
> {
    let ready = with_assistant_message(messages);
    ready.drop_last().push(
        AgentMessageView { role: ready.last().role, content: ready.last().content.push(part) },
    )
}

/// The parts of a message with streamed text added: joined to the last part
/// where that is text, else as a new part.
pub open spec fn with_text_part(content: Seq<MessageContentView>, text: Seq<char>) -> Seq<
    MessageContentView,
> {
    if content.len() > 0 && content.last() is Text {
        content.drop_last().push(MessageContentView::Text(content.last()->Text_0 + text))
    } else {
        content.push(MessageContentView::Text(text))
    }
}

/// The history with streamed text added to the assistant's message.
pub open spec fn with_text(messages: Seq<AgentMessageView>, text: Seq<char>) -> Seq<
    AgentMessageView,
> {
    let ready = with_assistant_message(messages);
    ready.drop_last().push(
        AgentMessageView {
            role: ready.last().role,
            content: with_text_part(ready.last().content, text),
        },
    )
}

/// The messages of a request: the history, message for message, none of
/// them marked for caching.
pub open spec fn request_messages(messages: Seq<AgentMessageView>) -> Seq<RequestMessageView> {
    messages.map_values(
        |message: AgentMessageView|
            RequestMessageView { role: message.role, content: message.content, cache: false },
    )
}

/// The request that an agent sends: its whole history, and every registered
/// tool whose schema is present.
pub open spec fn request_of(agent: AgentView) -> CompletionRequestView {
    CompletionRequestView {
        messages: request_messages(agent.messages),
        tools: offered_tools(agent.tools),
    }
}

/// The agent after a message has been sent: a new turn is under way; the
/// system message, if there is one, and the user's message are in the
/// history, and a response is awaited.
pub open spec fn after_send(
    agent: AgentView,
    prompts: Seq<Result<Seq<char>, Seq<char>>>,
    content: MessageContentView,
) -> AgentView {
    let history = match system_message(prompts) {
        Some(message) => agent.messages.push(message),
        None => agent.messages,
    };
    AgentView {
        messages: history.push(AgentMessageView { role: Role::User, content: seq![content] }),
        tools: agent.tools,
        turn: next_turn(agent.turn),
        state: TurnState::Streaming,
        pending: Seq::empty(),
    }
}

/// The agent after the model used a tool: the use is part of the assistant's
/// message, and a use whose input is complete is queued, answered at once
/// where no tool of that name is registered.
pub open spec fn after_tool_use(agent: AgentView, tool_use: ToolUseView) -> AgentView {
    let messages = with_content(agent.messages, MessageContentView::ToolUse(tool_use));
    if !tool_use.is_input_complete {
        AgentView { messages, ..agent }
    } else if has_tool(agent.tools, tool_use.name) {
        AgentView {
            messages,
            pending: agent.pending.push(PendingToolUseView { tool_use, result: None }),
            ..agent
        }
    } else {
        AgentView {
            messages,
            pending: agent.pending.push(
                PendingToolUseView { tool_use, result: Some(unknown_tool_result(tool_use)) },
            ),
            ..agent
        }
    }
}

/// What the caller is told about a tool use: nothing while its input is
/// incomplete; else its slot, which is its place among the calls of this
/// cycle, and either the call to run or the answer it already has.
pub open spec fn tool_call_for(agent: AgentView, tool_use: ToolUseView) -> Option<ToolCallView> {
    if !tool_use.is_input_complete {
        None
    } else if has_tool(agent.tools, tool_use.name) {
        Some(ToolCallView::Run { slot: agent.pending.len() as usize, tool_use })
    } else {
        Some(
            ToolCallView::Resolved {
                slot: agent.pending.len() as usize,
                result: unknown_tool_result(tool_use),
            },
        )
    }
}

/// Whether a stop reason is an ordinary end of a response.
pub open spec fn is_benign_stop(reason: StopReason) -> bool {
    reason == StopReason::EndTurn || reason == StopReason::ToolUse
}

/// The agent after the turn has failed: nothing is queued any more.
pub open spec fn failed(agent: AgentView) -> AgentView {
    AgentView { state: TurnState::Failed, pending: Seq::empty(), ..agent }
}

/// The agent after one event of the response of turn number `turn`. An event
/// of a superseded turn changes nothing, nor does one that arrives while no
/// response is being read.
pub open spec fn after_event(
    agent: AgentView,
    turn: u64,
    event: AgentResponseEventView,
) -> AgentView {
    if turn != agent.turn || agent.state != TurnState::Streaming {
        agent
    } else {
        match event {
            AgentResponseEventView::Text(text) => AgentView {
                messages: with_text(agent.messages, text),
                ..agent
            },
            AgentResponseEventView::Thinking { text } => agent,
            AgentResponseEventView::ToolUse(tool_use) => after_tool_use(agent, tool_use),
            AgentResponseEventView::StartMessage { role } => AgentView {
                messages: agent.messages.push(AgentMessageView { role, content: Seq::empty() }),
                ..agent
            },
            AgentResponseEventView::UsageUpdate(usage) => agent,
            AgentResponseEventView::Stop(reason) => if is_benign_stop(reason) {
                agent
            } else {
                failed(agent)
            },
        }
    }
}

/// What the caller is told about one event of the response.
pub open spec fn event_outcome(
    agent: AgentView,
    turn: u64,
    event: AgentResponseEventView,
) -> Result<Option<ToolCallView>, TurnError> {
    if turn != agent.turn {
        Err(TurnError::Superseded)
    } else if agent.state != TurnState::Streaming {
        Err(TurnError::NotStreaming)
    } else {
        match event {
            AgentResponseEventView::ToolUse(tool_use) => Ok(tool_call_for(agent, tool_use)),
            AgentResponseEventView::Stop(reason) => if is_benign_stop(reason) {
                Ok(None)
            } else {
                Err(TurnError::UnsupportedStopReason(reason))
            },
            _ => Ok(None),
        }
    }
}

/// One tool call's outcome in plain values.
pub open spec fn call_view(call: Option<ToolCall>) -> Option<ToolCallView> {
    match call {
        Some(call) => Some(call@),
        None => None,
    }
}

/// What handling an event gave, in plain values.
pub open spec fn handled_view(handled: Result<Option<ToolCall>, TurnError>) -> Result<
    Option<ToolCallView>,
    TurnError,
> {
    match handled {
        Ok(call) => Ok(call_view(call)),
        Err(error) => Err(error),
    }
}

/// Whether every queued tool call has its result.
pub open spec fn all_resolved(pending: Seq<PendingToolUseView>) -> bool {
    forall|i: int| 0 <= i < pending.len() ==> (#[trigger] pending[i]).result is Some
}

/// The parts of the message that reports the tool results: the result of
/// each queued call, in the order in which the calls were made.
pub open spec fn results_content(pending: Seq<PendingToolUseView>) -> Seq<MessageContentView> {
    Seq::new(pending.len(), |i: int| MessageContentView::ToolResult(pending[i].result.unwrap()))
}

/// The agent at the start of the next cycle: the results of the queued calls
/// are in the history as one message of the user's, and nothing is queued.
pub open spec fn with_results(agent: AgentView) -> AgentView {
    AgentView {
        messages: agent.messages.push(
            AgentMessageView { role: Role::User, content: results_content(agent.pending) },
        ),
        tools: agent.tools,
        turn: agent.turn,
        state: TurnState::Streaming,
        pending: Seq::empty(),
    }
}

/// The agent after the response has ended. Without queued calls the turn is
/// done; with all results in, the next cycle begins; else the results are
/// awaited. The end of a response of a superseded turn, or of one that was
/// not being read, changes nothing.
pub open spec fn after_stream_end(agent: AgentView, turn: u64) -> AgentView {
    if turn != agent.turn || agent.state != TurnState::Streaming {
        agent
    } else if agent.pending.len() == 0 {
        AgentView { state: TurnState::Done, ..agent }
    } else if all_resolved(agent.pending) {
        with_results(agent)
    } else {
        AgentView { state: TurnState::AwaitingToolResults, ..agent }
    }
}

/// What the caller is told when the response has ended.
pub open spec fn stream_end_step(agent: AgentView, turn: u64) -> TurnStepView {
    if turn != agent.turn || agent.state != TurnState::Streaming {
        TurnStepView::Rejected
    } else if agent.pending.len() == 0 {
        TurnStepView::Done
    } else if all_resolved(agent.pending) {
        TurnStepView::Continue(request_of(with_results(agent)))
    } else {
        TurnStepView::Wait
    }
}

/// Whether the outcome of a tool call can be taken: the call was made in the
/// turn that is under way, and the slot is that of a queued call without a
/// result.
pub open spec fn accepts_outcome(agent: AgentView, turn: u64, slot: int) -> bool {
    &&& turn == agent.turn
    &&& agent.state == TurnState::Streaming || agent.state == TurnState::AwaitingToolResults
    &&& 0 <= slot < agent.pending.len()
    &&& agent.pending[slot].result is None
}

/// The queued calls with the outcome of one of them recorded.
pub open spec fn with_outcome(
    pending: Seq<PendingToolUseView>,
    slot: int,
    outcome: Result<Seq<char>, Seq<char>>,
) -> Seq<PendingToolUseView> {
    pending.update(
        slot,
        PendingToolUseView {
            tool_use: pending[slot].tool_use,
            result: Some(result_of_outcome(pending[slot].tool_use, outcome)),
        },
    )
}

/// The agent after a tool call has finished. The outcome is recorded in the
/// call's slot; where the response has ended and this was the last result
/// awaited, the next cycle begins. An outcome that cannot be taken changes
/// nothing.
pub open spec fn after_tool_finished(
    agent: AgentView,
    turn: u64,
    slot: int,
    outcome: Result<Seq<char>, Seq<char>>,
) -> AgentView {
    if !accepts_outcome(agent, turn, slot) {
        agent
    } else {
        let recorded = AgentView { pending: with_outcome(agent.pending, slot, outcome), ..agent };
        if agent.state == TurnState::AwaitingToolResults && all_resolved(recorded.pending) {
            with_results(recorded)
        } else {
            recorded
        }
    }
}

/// What the caller is told when a tool call has finished.
pub open spec fn tool_finished_step(
    agent: AgentView,
    turn: u64,
    slot: int,
    outcome: Result<Seq<char>, Seq<char>>,
) -> TurnStepView {
    if !accepts_outcome(agent, turn, slot) {
        TurnStepView::Rejected
    } else if agent.state == TurnState::AwaitingToolResults && all_resolved(
        with_outcome(agent.pending, slot, outcome),
    ) {
        TurnStepView::Continue(request_of(after_tool_finished(agent, turn, slot, outcome)))
    } else {
        TurnStepView::Wait
    }
}

/// The agent after the response broke off with an error of the transport:
/// the turn has failed. An error of a superseded turn, or while no turn is
/// under way, changes nothing.
pub open spec fn after_stream_failure(agent: AgentView, turn: u64) -> AgentView {
    if turn == agent.turn && (agent.state == TurnState::Streaming || agent.state
        == TurnState::AwaitingToolResults) {
        failed(agent)
    } else {
        agent
    }
}


/// The agent after a run of events of the response of the turn under way,
/// in order.
pub open spec fn after_events(agent: AgentView, events: Seq<AgentResponseEventView>) -> AgentView
    decreases events.len(),
{
    if events.len() == 0 {
        agent
    } else {
        after_event(after_events(agent, events.drop_last()), agent.turn, events.last())
    }
}

/// Whether an event is a tool call whose input is complete.
pub open spec fn completes_tool_call(event: AgentResponseEventView) -> bool {
    event matches AgentResponseEventView::ToolUse(tool_use) && tool_use.is_input_complete
}

/// A response without a completed tool call queues nothing: when it ends,
/// the turn ends with it, and no further request is made. The one other way
/// for the response to go is that the model stops for a reason the engine
/// does not handle, which fails the turn.
pub proof fn lemma_response_without_tool_calls_ends_turn(
    agent: AgentView,
    events: Seq<AgentResponseEventView>,
)
    requires
        agent.state == TurnState::Streaming,
        agent.pending.len() == 0,
        forall|i: int| 0 <= i < events.len() ==> !completes_tool_call(#[trigger] events[i]),
    ensures
        after_events(agent, events).pending.len() == 0,
        after_events(agent, events).tools == agent.tools,
        after_events(agent, events).turn == agent.turn,
        after_events(agent, events).state == TurnState::Streaming || after_events(
            agent,
            events,
        ).state == TurnState::Failed,
        after_events(agent, events).state == TurnState::Streaming ==> {
            &&& after_stream_end(after_events(agent, events), agent.turn).state
                == TurnState::Done
            &&& after_stream_end(after_events(agent, events), agent.turn).messages
                == after_events(agent, events).messages
            &&& stream_end_step(after_events(agent, events), agent.turn) == TurnStepView::Done
        },
    decreases events.len(),
{
    if events.len() > 0 {
        let earlier = events.drop_last();
        assert forall|i: int| 0 <= i < earlier.len() implies !completes_tool_call(
            #[trigger] earlier[i],
        ) by {
            assert(earlier[i] == events[i]);
        }
        lemma_response_without_tool_calls_ends_turn(agent, earlier);
        assert(!completes_tool_call(events[events.len() - 1]));
    }
}

/// A turn whose first response completes no tool call is over after that one
/// cycle: the request that sending gave is the only one of the turn.
pub proof fn lemma_turn_without_tool_calls_is_one_cycle(
    agent: AgentView,
    prompts: Seq<Result<Seq<char>, Seq<char>>>,
    content: MessageContentView,
    events: Seq<AgentResponseEventView>,
)
    requires
        forall|i: int| 0 <= i < events.len() ==> !completes_tool_call(#[trigger] events[i]),
    ensures
        ({
            let read = after_events(after_send(agent, prompts, content), events);
            let ended = after_stream_end(read, read.turn);
            &&& ended.state == TurnState::Done || ended.state == TurnState::Failed
            &&& !(stream_end_step(read, read.turn) is Continue)
            &&& ended.messages == read.messages
        }),
{
    lemma_response_without_tool_calls_ends_turn(after_send(agent, prompts, content), events);
}

/// A call of a tool that is not registered does not end the turn: the
/// response goes on being read, and the call is answered at once, in its
/// slot, by a result that is tagged as an error and says "No tool named ",
/// the name, " exists".
pub proof fn lemma_unknown_tool_is_answered(agent: AgentView, tool_use: ToolUseView)
    requires
        agent.state == TurnState::Streaming,
        tool_use.is_input_complete,
        !has_tool(agent.tools, tool_use.name),
    ensures
        ({
            let event = AgentResponseEventView::ToolUse(tool_use);
            let answer = ToolResultView {
                tool_use_id: tool_use.id,
                tool_name: tool_use.name,
                is_error: true,
                content: "No tool named "@ + tool_use.name + " exists"@,
            };
            &&& after_event(agent, agent.turn, event).state == TurnState::Streaming
            &&& after_event(agent, agent.turn, event).pending == agent.pending.push(
                PendingToolUseView { tool_use, result: Some(answer) },
            )
            &&& event_outcome(agent, agent.turn, event) == Ok::<Option<ToolCallView>, TurnError>(
                Some(ToolCallView::Resolved { slot: agent.pending.len() as usize, result: answer }),
            )
        }),
{
}

/// The agent after a run of reports of finished tool calls of the turn under
/// way, each a slot and an outcome, in the order in which the calls finished.
pub open spec fn after_outcomes(
    agent: AgentView,
    outcomes: Seq<(int, Result<Seq<char>, Seq<char>>)>,
) -> AgentView
    decreases outcomes.len(),
{
    if outcomes.len() == 0 {
        agent
    } else {
        after_tool_finished(
            after_outcomes(agent, outcomes.drop_last()),
            agent.turn,
            outcomes.last().0,
            outcomes.last().1,
        )
    }
}

/// The first outcome reported for a slot, if any was.
pub open spec fn first_outcome(outcomes: Seq<(int, Result<Seq<char>, Seq<char>>)>, slot: int) -> Option<
    Result<Seq<char>, Seq<char>>,
>
    decreases outcomes.len(),
{
    if outcomes.len() == 0 {
        None
    } else {
        match first_outcome(outcomes.drop_last(), slot) {
            Some(outcome) => Some(outcome),
            None => if outcomes.last().0 == slot {
                Some(outcomes.last().1)
            } else {
                None
            },
        }
    }
}

/// The queued calls, each with the result it has once the outcomes are
/// reported: the result it had, or else that of the first outcome reported
/// for its slot.
pub open spec fn settled_calls(
    pending: Seq<PendingToolUseView>,
    outcomes: Seq<(int, Result<Seq<char>, Seq<char>>)>,
) -> Seq<PendingToolUseView> {
    Seq::new(
        pending.len(),
        |slot: int|
            PendingToolUseView {
                tool_use: pending[slot].tool_use,
                result: match pending[slot].result {
                    Some(result) => Some(result),
                    None => match first_outcome(outcomes, slot) {
                        Some(outcome) => Some(result_of_outcome(pending[slot].tool_use, outcome)),
                        None => None,
                    },
                },
            },
    )
}

/// Tool results fan in by the order of the calls, not by the order in which
/// the calls finish. While results are awaited, reports in any order, with
/// repeats and strays among them, come to this: each call keeps the first
/// outcome reported for its slot, and once every call has one, the next
/// cycle begins with one message of the user's that holds the results slot
/// by slot, which is the order in which the model made the calls.
pub proof fn lemma_results_follow_invocation_order(
    agent: AgentView,
    outcomes: Seq<(int, Result<Seq<char>, Seq<char>>)>,
)
    requires
        agent.state == TurnState::AwaitingToolResults,
        !all_resolved(agent.pending),
    ensures
        ({
            let settled = AgentView { pending: settled_calls(agent.pending, outcomes), ..agent };
            after_outcomes(agent, outcomes) == if all_resolved(settled.pending) {
                with_results(settled)
            } else {
                settled
            }
        }),
    decreases outcomes.len(),
{
    let now = settled_calls(agent.pending, outcomes);
    if outcomes.len() == 0 {
        assert(now =~= agent.pending);
    } else {
        let earlier = outcomes.drop_last();
        let slot = outcomes.last().0;
        let outcome = outcomes.last().1;
        lemma_results_follow_invocation_order(agent, earlier);
        let before = settled_calls(agent.pending, earlier);
        if all_resolved(before) {
            assert(now =~= before) by {
                assert forall|i: int| 0 <= i < before.len() implies now[i] == before[i] by {
                    assert(before[i].result is Some);
                }
            }
        } else {
            let waiting = AgentView { pending: before, ..agent };
            if accepts_outcome(waiting, agent.turn, slot) {
                assert(now =~= with_outcome(before, slot, outcome));
            } else {
                assert(now =~= before);
            }
        }
    }
}

/// A turn that has been superseded can no longer touch the conversation:
/// once a new message is sent, whatever still arrives under the number of the
/// turn before changes nothing and is turned away.
pub proof fn lemma_superseded_turn_is_ignored(
    agent: AgentView,
    prompts: Seq<Result<Seq<char>, Seq<char>>>,
    content: MessageContentView,
    event: AgentResponseEventView,
    slot: int,
    outcome: Result<Seq<char>, Seq<char>>,
)
    ensures
        ({
            let started = after_send(agent, prompts, content);
            &&& started.turn != agent.turn
            &&& after_event(started, agent.turn, event) == started
            &&& event_outcome(started, agent.turn, event) == Err::<
                Option<ToolCallView>,
                TurnError,
            >(TurnError::Superseded)
            &&& after_stream_end(started, agent.turn) == started
            &&& stream_end_step(started, agent.turn) == TurnStepView::Rejected
            &&& after_tool_finished(started, agent.turn, slot, outcome) == started
            &&& tool_finished_step(started, agent.turn, slot, outcome) == TurnStepView::Rejected
            &&& after_stream_failure(started, agent.turn) == started
        }),
{
}

/// The owner of a conversation: its history, its tools, and the state of
/// the turn that is under way.
#[derive(Debug)]
pub struct Agent {
    messages: Vec<AgentMessage>,
    tools: ToolRegistry,
    turn: u64,
    state: TurnState,
    pending: Vec<PendingToolUse>,
}

impl View for Agent {
    type V = AgentView;

    closed spec fn view(&self) -> AgentView {
        AgentView {
            messages: views(self.messages@),
            tools: self.tools@,
            turn: self.turn,
            state: self.state,
            pending: views(self.pending@),
        }
    }
}

impl Agent {
    /// Whether the agent is in order: its tools stand in strictly ascending
    /// order of their names, so that no name occurs twice, and the queued
    /// calls can be counted, so that each has a slot.
    pub open spec fn well_formed(&self) -> bool {
        names_ascend(self@.tools) && self@.pending.len() <= usize::MAX
    }

    /// An agent with an empty history and no tools, before its first turn.
    pub fn new() -> (agent: Self)
        ensures
            agent.well_formed(),
            agent@ == (AgentView {
                messages: Seq::empty(),
                tools: Seq::empty(),
                turn: 0,
                state: TurnState::Idle,
                pending: Seq::empty(),
            }),
            history_in_order(agent@),
    {
        let agent = Agent {
            messages: Vec::new(),
            tools: ToolRegistry::new(),
            turn: 0,
            state: TurnState::Idle,
            pending: Vec::new(),
        };
        proof {
            assert(views(agent.messages@) =~= Seq::<AgentMessageView>::empty());
            assert(views(agent.pending@) =~= Seq::<PendingToolUseView>::empty());
        }
        agent
    }

    /// The number of the turn under way, or of the last turn.
    pub fn turn(&self) -> (turn: u64)
        ensures
            turn == self@.turn,
    {
        self.turn
    }

    /// Where the turn stands.
    pub fn state(&self) -> (state: TurnState)
        ensures
            state == self@.state,
    {
        self.state
    }

    /// The history of the conversation.
    pub fn messages(&self) -> (messages: &Vec<AgentMessage>)
        ensures
            views(messages@) == self@.messages,
    {
        &self.messages
    }

    /// Registers a tool. A tool already registered under the same name gives
    /// way to it.
    pub fn add_tool(&mut self, tool: ToolDescriptor)
        requires
            old(self).well_formed(),
        ensures
            final(self).well_formed(),
            final(self)@.messages == old(self)@.messages,
            final(self)@.turn == old(self)@.turn,
            final(self)@.state == old(self)@.state,
            final(self)@.pending == old(self)@.pending,
            has_tool(final(self)@.tools, tool.name@),
            has_tool(old(self)@.tools, tool.name@) ==> exists|i: int|
                0 <= i < old(self)@.tools.len() && #[trigger] old(self)@.tools[i].name == tool.name@
                    && final(self)@.tools == old(self)@.tools.update(i, tool@),
            !has_tool(old(self)@.tools, tool.name@) ==> exists|i: int|
                0 <= i <= old(self)@.tools.len() && final(self)@.tools
                    == #[trigger] old(self)@.tools.insert(i, tool@),
    {
        self.tools.add_tool(tool);
    }

    /// Removes the tool of the given name, and says whether there was one.
    pub fn remove_tool(&mut self, name: &str) -> (removed: bool)
        requires
            old(self).well_formed(),
        ensures
            final(self).well_formed(),
            final(self)@.messages == old(self)@.messages,
            final(self)@.turn == old(self)@.turn,
            final(self)@.state == old(self)@.state,
            final(self)@.pending == old(self)@.pending,
            removed == has_tool(old(self)@.tools, name@),
            !has_tool(final(self)@.tools, name@),
            removed ==> exists|i: int|
                0 <= i < old(self)@.tools.len() && #[trigger] old(self)@.tools[i].name == name@
                    && final(self)@.tools == old(self)@.tools.remove(i),
            !removed ==> final(self)@.tools == old(self)@.tools,
    {
        self.tools.remove_tool(name)
    }

    /// Sends a message and begins a turn, superseding any turn under way.
    /// The system prompts come rendered; one that failed to render is left
    /// out. Gives the number of the new turn, under which the caller reports
    /// what happens in it, and the first request of the turn.
    pub fn send(
        &mut self,
        system_prompts: &Vec<Result<String, String>>,
        content: MessageContent,
    ) -> (started: (u64, CompletionRequest))
        requires
            old(self).well_formed(),
        ensures
            final(self).well_formed(),
            final(self)@ == after_send(old(self)@, prompt_views(system_prompts@), content@),
            started.0 == final(self)@.turn,
            started.1@ == request_of(final(self)@),
            results_follow_uses(old(self)@.messages) && !(content is ToolResult)
                ==> history_in_order(final(self)@),
    {
        proof {
            if results_follow_uses(self@.messages) && !(content is ToolResult) {
                lemma_send_keeps_order(self@, prompt_views(system_prompts@), content@);
            }
        }
        match Self::build_system_message(system_prompts) {
            Some(message) => {
                proof {
                    lemma_views_push(self.messages@, message);
                }
                self.messages.push(message);
            },
            None => {},
        }
        let mut parts: Vec<MessageContent> = Vec::new();
        parts.push(content);
        let message = AgentMessage { role: Role::User, content: parts };
        proof {
            assert(views(parts@) =~= seq![content@]);
            lemma_views_push(self.messages@, message);
        }
        self.messages.push(message);
        self.turn = if self.turn == u64::MAX { 0 } else { self.turn + 1 };
        self.state = TurnState::Streaming;
        self.pending = Vec::new();
        proof {
            assert(views(self.pending@) =~= Seq::<PendingToolUseView>::empty());
        }
        (self.turn, self.build_completion_request())
    }

    /// The system message for a turn: the text of every prompt that could be
    /// rendered, in order; none where no prompt could.
    pub fn build_system_message(system_prompts: &Vec<Result<String, String>>) -> (message: Option<
        AgentMessage,
    >)
        ensures
            match message {
                Some(message) => Some(message@),
                None => None,
            } == system_message(prompt_views(system_prompts@)),
    {
        let mut content: Vec<MessageContent> = Vec::new();
        let mut index: usize = 0;
        let ghost prompts = prompt_views(system_prompts@);
        proof {
            assert(prompts.take(0) =~= Seq::<Result<Seq<char>, Seq<char>>>::empty());
            assert(views(content@) =~= Seq::<MessageContentView>::empty());
        }
        while index < system_prompts.len()
            invariant
                index <= system_prompts@.len(),
                prompts == prompt_views(system_prompts@),
                views(content@) == rendered_parts(prompts.take(index as int)),
            decreases system_prompts@.len() - index,
        {
            proof {
                assert(prompts.take(index + 1).drop_last() =~= prompts.take(index as int));
                assert(prompts.take(index + 1).last() == outcome_view(
                    system_prompts@[index as int],
                ));
            }
            match &system_prompts[index] {
                Ok(text) => {
                    let part = MessageContent::Text(text.clone());
                    proof {
                        lemma_views_push(content@, part);
                    }
                    content.push(part);
                },
                Err(_) => {},
            }
            index = index + 1;
        }
        proof {
            assert(prompts.take(index as int) =~= prompts);
        }
        if content.len() == 0 {
            None
        } else {
            Some(AgentMessage { role: Role::System, content })
        }
    }

    /// Takes one event of the response of turn number `turn` into the
    /// history. The caller passes the event on to those who follow the turn
    /// before it hands it in here. Gives the tool call to act on, if the
    /// event completes one.
    pub fn handle_response_event(&mut self, turn: u64, event: AgentResponseEvent) -> (handled:
        Result<Option<ToolCall>, TurnError>)
        requires
            old(self).well_formed(),
        ensures
            final(self).well_formed(),
            final(self)@ == after_event(old(self)@, turn, event@),
            handled_view(handled) == event_outcome(old(self)@, turn, event@),
            history_in_order(old(self)@) ==> history_in_order(final(self)@),
            handled matches Ok(Some(ToolCall::Run { slot, tool_use })) ==> accepts_outcome(
                final(self)@,
                turn,
                slot as int,
            ),
            event@ matches AgentResponseEventView::ToolUse(tool_use) ==> (turn == old(self)@.turn
                && old(self)@.state == TurnState::Streaming && tool_use.is_input_complete
                && !has_tool(old(self)@.tools, tool_use.name) ==> final(self)@.state
                == TurnState::Streaming && final(self)@.pending == old(self)@.pending.push(
                PendingToolUseView { tool_use, result: Some(unknown_tool_result(tool_use)) },
            ) && handled_view(handled) == Ok::<Option<ToolCallView>, TurnError>(
                Some(
                    ToolCallView::Resolved {
                        slot: old(self)@.pending.len() as usize,
                        result: unknown_tool_result(tool_use),
                    },
                ),
            )),
    {
        proof {
            if history_in_order(self@) {
                lemma_event_keeps_order(self@, turn, event@);
            }
        }
        if turn != self.turn {
            return Err(TurnError::Superseded);
        }
        if self.state != TurnState::Streaming {
            return Err(TurnError::NotStreaming);
        }
        match event {
            AgentResponseEvent::Text(new_text) => {
                self.handle_text_event(new_text);
                Ok(None)
            },
            AgentResponseEvent::Thinking { text } => Ok(None),
            AgentResponseEvent::ToolUse(tool_use) => Ok(self.handle_tool_use_event(tool_use)),
            AgentResponseEvent::StartMessage { role } => {
                let message = AgentMessage { role, content: Vec::new() };
                proof {
                    assert(views(message.content@) =~= Seq::<MessageContentView>::empty());
                    lemma_views_push(self.messages@, message);
                }
                self.messages.push(message);
                Ok(None)
            },
            AgentResponseEvent::UsageUpdate(usage) => Ok(None),
            AgentResponseEvent::Stop(stop_reason) => match self.handle_stop_event(stop_reason) {
                Ok(()) => Ok(None),
                Err(error) => Err(error),
            },
        }
    }

    /// Takes the end of the model's writing. An ordinary end changes
    /// nothing; any other reason fails the turn with an error that names it.
    fn handle_stop_event(&mut self, stop_reason: StopReason) -> (handled: Result<(), TurnError>)
        requires
            old(self).well_formed(),
        ensures
            final(self).well_formed(),
            is_benign_stop(stop_reason) ==> handled == Ok::<(), TurnError>(()) && final(self)@
                == old(self)@,
            !is_benign_stop(stop_reason) ==> handled == Err::<(), TurnError>(
                TurnError::UnsupportedStopReason(stop_reason),
            ) && final(self)@ == failed(old(self)@),
    {
        match stop_reason {
            StopReason::EndTurn | StopReason::ToolUse => Ok(()),
            StopReason::MaxTokens => {
                self.fail();
                Err(TurnError::UnsupportedStopReason(stop_reason))
            },
        }
    }

    /// Ends the turn as failed.
    fn fail(&mut self)
        requires
            old(self).well_formed(),
        ensures
            final(self).well_formed(),
            final(self)@ == failed(old(self)@),
    {
        self.state = TurnState::Failed;
        self.pending = Vec::new();
        proof {
            assert(views(self.pending@) =~= Seq::<PendingToolUseView>::empty());
        }
    }

    /// Adds streamed text to the assistant's message.
    fn handle_text_event(&mut self, new_text: String)
        requires
            old(self).well_formed(),
        ensures
            final(self).well_formed(),
            final(self)@ == (AgentView {
                messages: with_text(old(self)@.messages, new_text@),
                ..old(self)@
            }),
    {
        let mut message = self.take_assistant_message();
        let ghost parts = message.content@;
        let ghost content = views(parts);
        match message.content.pop() {
            Some(MessageContent::Text(text)) => {
                proof {
                    lemma_views_drop_last(parts);
                }
                let mut text = text;
                text.append(new_text.as_str());
                let part = MessageContent::Text(text);
                proof {
                    lemma_views_push(message.content@, part);
                }
                message.content.push(part);
            },
            Some(other) => {
                proof {
                    lemma_views_drop_last(parts);
                    lemma_views_push(message.content@, other);
                    assert(content.drop_last().push(content.last()) =~= content);
                }
                message.content.push(other);
                let part = MessageContent::Text(new_text);
                proof {
                    lemma_views_push(message.content@, part);
                }
                message.content.push(part);
            },
            None => {
                let part = MessageContent::Text(new_text);
                proof {
                    lemma_views_push(message.content@, part);
                }
                message.content.push(part);
            },
        }
        proof {
            lemma_views_push(self.messages@, message);
        }
        self.messages.push(message);
    }

    /// Takes a tool use into the assistant's message and, where its input is
    /// complete, queues the call.
    fn handle_tool_use_event(&mut self, tool_use: ToolUse) -> (call: Option<ToolCall>)
        requires
            old(self).well_formed(),
        ensures
            final(self).well_formed(),
            final(self)@ == after_tool_use(old(self)@, tool_use@),
            call_view(call) == tool_call_for(old(self)@, tool_use@),
    {
        self.push_content(MessageContent::ToolUse(tool_use.clone()));
        if !tool_use.is_input_complete {
            return None;
        }
        let slot: usize = self.pending.len();
        if self.tools.contains(tool_use.name.as_str()) {
            let queued = PendingToolUse { tool_use: tool_use.clone(), result: None };
            proof {
                lemma_views_push(self.pending@, queued);
            }
            self.pending.push(queued);
            proof {
                assert(self.pending@.len() == self.pending.len());
            }
            Some(ToolCall::Run { slot, tool_use })
        } else {
            let result = ToolResult::unknown_tool(&tool_use);
            let queued = PendingToolUse { tool_use, result: Some(result.clone()) };
            proof {
                lemma_views_push(self.pending@, queued);
            }
            self.pending.push(queued);
            proof {
                assert(self.pending@.len() == self.pending.len());
            }
            Some(ToolCall::Resolved { slot, result })
        }
    }

    /// Adds a part to the assistant's message.
    fn push_content(&mut self, part: MessageContent)
        requires
            old(self).well_formed(),
        ensures
            final(self).well_formed(),
            final(self)@ == (AgentView {
                messages: with_content(old(self)@.messages, part@),
                ..old(self)@
            }),
    {
        let mut message = self.take_assistant_message();
        proof {
            lemma_views_push(message.content@, part);
        }
        message.content.push(part);
        proof {
            lemma_views_push(self.messages@, message);
        }
        self.messages.push(message);
    }

    /// Takes the assistant's message off the end of the history, to be put
    /// back changed: the last message where that is the assistant's, else a
    /// new, empty one.
    fn take_assistant_message(&mut self) -> (message: AgentMessage)
        requires
            old(self).well_formed(),
        ensures
            final(self).well_formed(),
            final(self).tools == old(self).tools,
            final(self).turn == old(self).turn,
            final(self).state == old(self).state,
            final(self).pending == old(self).pending,
            views(final(self).messages@) == with_assistant_message(
                old(self)@.messages,
            ).drop_last(),
            message@ == with_assistant_message(old(self)@.messages).last(),
    {
        let len: usize = self.messages.len();
        if len > 0 && self.messages[len - 1].role == Role::Assistant {
            proof {
                lemma_views_drop_last(self.messages@);
            }
            self.messages.pop().unwrap()
        } else {
            let message = AgentMessage { role: Role::Assistant, content: Vec::new() };
            proof {
                assert(views(message.content@) =~= Seq::<MessageContentView>::empty());
                let history = views(self.messages@);
                assert(history.push(message@).drop_last() =~= history);
                if len > 0 {
                    assert(history.last() == self.messages@[len - 1]@);
                }
            }
            message
        }
    }

    /// The request to send now: the whole history, and every registered tool
    /// whose schema is present.
    pub fn build_completion_request(&self) -> (request: CompletionRequest)
        ensures
            request@ == request_of(self@),
            self.well_formed() ==> offered_names_ascend(request@.tools),
    {
        CompletionRequest {
            messages: self.build_request_messages(),
            tools: self.tools.request_tools(),
        }
    }

    /// The history as the messages of a request.
    fn build_request_messages(&self) -> (messages: Vec<RequestMessage>)
        ensures
            views(messages@) == request_messages(self@.messages),
    {
        let mut messages: Vec<RequestMessage> = Vec::new();
        let mut index: usize = 0;
        while index < self.messages.len()
            invariant
                index <= self.messages@.len(),
                messages@.len() == index,
                forall|i: int|
                    0 <= i < index ==> (#[trigger] messages@[i])@ == (RequestMessageView {
                        role: self.messages@[i].role,
                        content: views(self.messages@[i].content@),
                        cache: false,
                    }),
            decreases self.messages@.len() - index,
        {
            let message = &self.messages[index];
            messages.push(
                RequestMessage {
                    role: message.role,
                    content: clone_content(&message.content),
                    cache: false,
                },
            );
            index = index + 1;
        }
        proof {
            assert(views(messages@) =~= request_messages(self@.messages));
        }
        messages
    }

    /// Whether every queued tool call has its result.
    fn pending_resolved(&self) -> (resolved: bool)
        ensures
            resolved == all_resolved(self@.pending),
    {
        let mut index: usize = 0;
        while index < self.pending.len()
            invariant
                index <= self.pending@.len(),
                forall|i: int| 0 <= i < index ==> (#[trigger] self@.pending[i]).result is Some,
            decreases self.pending@.len() - index,
        {
            if self.pending[index].result.is_none() {
                assert(self@.pending[index as int].result is None);
                return false;
            }
            index = index + 1;
        }
        true
    }

    /// Begins the next cycle: puts the results of the queued calls into the
    /// history as one message, in the order of the calls.
    fn append_results(&mut self)
        requires
            old(self).well_formed(),
            all_resolved(old(self)@.pending),
        ensures
            final(self).well_formed(),
            final(self)@ == with_results(old(self)@),
    {
        let mut content: Vec<MessageContent> = Vec::new();
        let mut index: usize = 0;
        while index < self.pending.len()
            invariant
                index <= self.pending@.len(),
                all_resolved(self@.pending),
                content@.len() == index,
                forall|i: int|
                    0 <= i < index ==> (#[trigger] content@[i])@ == MessageContentView::ToolResult(
                        self@.pending[i].result.unwrap(),
                    ),
            decreases self.pending@.len() - index,
        {
            assert(self@.pending[index as int].result is Some);
            match &self.pending[index].result {
                Some(result) => {
                    content.push(MessageContent::ToolResult(result.clone()));
                },
                None => {},
            }
            index = index + 1;
        }
        let message = AgentMessage { role: Role::User, content };
        proof {
            assert(views(content@) =~= results_content(self@.pending));
            lemma_views_push(self.messages@, message);
        }
        self.messages.push(message);
        self.pending = Vec::new();
        self.state = TurnState::Streaming;
        proof {
            assert(views(self.pending@) =~= Seq::<PendingToolUseView>::empty());
        }
    }

    /// Takes the end of the response. Without queued tool calls the turn is
    /// done. With every result in, the next cycle begins with the request
    /// given. Otherwise the results are awaited.
    pub fn stream_ended(&mut self, turn: u64) -> (step: TurnStep)
        requires
            old(self).well_formed(),
        ensures
            final(self).well_formed(),
            final(self)@ == after_stream_end(old(self)@, turn),
            step@ == stream_end_step(old(self)@, turn),
            history_in_order(old(self)@) ==> history_in_order(final(self)@),
    {
        proof {
            if history_in_order(self@) {
                lemma_stream_end_keeps_order(self@, turn);
            }
        }
        if turn != self.turn || self.state != TurnState::Streaming {
            TurnStep::Rejected
        } else if self.pending.len() == 0 {
            self.state = TurnState::Done;
            TurnStep::Done
        } else if self.pending_resolved() {
            self.append_results();
            TurnStep::Continue(self.build_completion_request())
        } else {
            self.state = TurnState::AwaitingToolResults;
            TurnStep::Wait
        }
    }

    /// Takes an error of the transport: the turn has failed. The caller
    /// passes the error itself on to those who follow the turn.
    pub fn stream_failed(&mut self, turn: u64)
        requires
            old(self).well_formed(),
        ensures
            final(self).well_formed(),
            final(self)@ == after_stream_failure(old(self)@, turn),
            history_in_order(old(self)@) ==> history_in_order(final(self)@),
    {
        if turn == self.turn && (self.state == TurnState::Streaming || self.state
            == TurnState::AwaitingToolResults) {
            self.fail();
        }
    }

    /// Takes what a tool call came to: the tool's output, or its error,
    /// which becomes a result tagged as an error. Calls may finish in any
    /// order. Where the response has ended and this was the last result
    /// awaited, the next cycle begins with the request given.
    pub fn tool_finished(
        &mut self,
        turn: u64,
        slot: usize,
        outcome: Result<String, String>,
    ) -> (step: TurnStep)
        requires
            old(self).well_formed(),
        ensures
            final(self).well_formed(),
            final(self)@ == after_tool_finished(
                old(self)@,
                turn,
                slot as int,
                outcome_view(outcome),
            ),
            step@ == tool_finished_step(old(self)@, turn, slot as int, outcome_view(outcome)),
            history_in_order(old(self)@) ==> history_in_order(final(self)@),
    {
        proof {
            if history_in_order(self@) {
                lemma_tool_finished_keeps_order(self@, turn, slot as int, outcome_view(outcome));
            }
        }
        let under_way = turn == self.turn && (self.state == TurnState::Streaming || self.state
            == TurnState::AwaitingToolResults);
        if !under_way || slot >= self.pending.len() || self.pending[slot].result.is_some() {
            return TurnStep::Rejected;
        }
        let result = ToolResult::from_outcome(&self.pending[slot].tool_use, outcome);
        let tool_use = self.pending[slot].tool_use.clone();
        let recorded = PendingToolUse { tool_use, result: Some(result) };
        proof {
            assert(views(self.pending@.update(slot as int, recorded)) =~= with_outcome(
                self@.pending,
                slot as int,
                outcome_view(outcome),
            ));
        }
        self.pending.set(slot, recorded);
        if self.state == TurnState::AwaitingToolResults && self.pending_resolved() {
            self.append_results();
            TurnStep::Continue(self.build_completion_request())
        } else {
            TurnStep::Wait
        }
    }
}

} // verus!
