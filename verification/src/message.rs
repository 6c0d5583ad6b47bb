//! The messages of a conversation with a language model, the events that a
//! model streams back, and the requests that are sent to it.

use vstd::prelude::*;

verus! {

/// The views of a sequence of values, in order.
pub open spec fn views<T: View>(items: Seq<T>) -> Seq<T::V> {
    items.map_values(|item: T| item@)
}

/// Appending a value appends its view.
pub proof fn lemma_views_push<T: View>(items: Seq<T>, item: T)
    ensures
        views(items.push(item)) == views(items).push(item@),
{
    assert(views(items.push(item)) =~= views(items).push(item@));
}

/// Dropping the last value drops the last view.
pub proof fn lemma_views_drop_last<T: View>(items: Seq<T>)
    requires
        items.len() > 0,
    ensures
        views(items.drop_last()) == views(items).drop_last(),
        views(items).last() == items.last()@,
{
    assert(views(items.drop_last()) =~= views(items).drop_last());
}

/// Who speaks in a message.
#[derive(Clone, Copy, Debug, PartialEq, Eq, Structural)]
pub enum Role {
    User,
    Assistant,
    System,
}

/// A model's call of a tool. The input is JSON text; while the model is
/// still writing it, `is_input_complete` is false.
#[derive(Debug, PartialEq, Eq)]
pub struct ToolUse {
    pub id: String,
    pub name: String,
    pub input: String,
    pub is_input_complete: bool,
}

pub struct ToolUseView {
    pub id: Seq<char>,
    pub name: Seq<char>,
    pub input: Seq<char>,
    pub is_input_complete: bool,
}

impl View for ToolUse {
    type V = ToolUseView;

    open spec fn view(&self) -> ToolUseView {
        ToolUseView {
            id: self.id@,
            name: self.name@,
            input: self.input@,
            is_input_complete: self.is_input_complete,
        }
    }
}

impl Clone for ToolUse {
    fn clone(&self) -> (copy: Self)
        ensures
            copy@ == self@,
    {
        ToolUse {
            id: self.id.clone(),
            name: self.name.clone(),
            input: self.input.clone(),
            is_input_complete: self.is_input_complete,
        }
    }
}

/// What a tool call came to: the tool's output, or the reason it failed.
#[derive(Debug, PartialEq, Eq)]
pub struct ToolResult {
    pub tool_use_id: String,
    pub tool_name: String,
    pub is_error: bool,
    pub content: String,
}

pub struct ToolResultView {
    pub tool_use_id: Seq<char>,
    pub tool_name: Seq<char>,
    pub is_error: bool,
    pub content: Seq<char>,
}

impl View for ToolResult {
    type V = ToolResultView;

    open spec fn view(&self) -> ToolResultView {
        ToolResultView {
            tool_use_id: self.tool_use_id@,
            tool_name: self.tool_name@,
            is_error: self.is_error,
            content: self.content@,
        }
    }
}

impl Clone for ToolResult {
    fn clone(&self) -> (copy: Self)
        ensures
            copy@ == self@,
    {
        ToolResult {
            tool_use_id: self.tool_use_id.clone(),
            tool_name: self.tool_name.clone(),
            is_error: self.is_error,
            content: self.content.clone(),
        }
    }
}

/// What a tool's run came to, in plain values: its output or its error.
pub open spec fn outcome_view(outcome: Result<String, String>) -> Result<Seq<char>, Seq<char>> {
    match outcome {
        Ok(output) => Ok(output@),
        Err(error) => Err(error@),
    }
}

/// The result that reports a tool's outcome for a tool call: the output of
/// a run that succeeded, or the error of one that failed, tagged as an error.
pub open spec fn result_of_outcome(
    tool_use: ToolUseView,
    outcome: Result<Seq<char>, Seq<char>>,
) -> ToolResultView {
    match outcome {
        Ok(output) => ToolResultView {
            tool_use_id: tool_use.id,
            tool_name: tool_use.name,
            is_error: false,
            content: output,
        },
        Err(error) => ToolResultView {
            tool_use_id: tool_use.id,
            tool_name: tool_use.name,
            is_error: true,
            content: error,
        },
    }
}

/// What an unknown tool is reported with: "No tool named ", the name, and
/// " exists".
pub open spec fn unknown_tool_message(name: Seq<char>) -> Seq<char> {
    "No tool named "@ + name + " exists"@
}

/// The result that answers a call of a tool that is not registered.
pub open spec fn unknown_tool_result(tool_use: ToolUseView) -> ToolResultView {
    ToolResultView {
        tool_use_id: tool_use.id,
        tool_name: tool_use.name,
        is_error: true,
        content: unknown_tool_message(tool_use.name),
    }
}

impl ToolResult {
    /// The result that reports what a tool's run came to. A failure becomes
    /// a result tagged as an error, never a failure of the turn.
    pub fn from_outcome(tool_use: &ToolUse, outcome: Result<String, String>) -> (result: Self)
        ensures
            result@ == result_of_outcome(tool_use@, outcome_view(outcome)),
    {
        match outcome {
            Ok(output) => ToolResult {
                tool_use_id: tool_use.id.clone(),
                tool_name: tool_use.name.clone(),
                is_error: false,
                content: output,
            },
            Err(error) => ToolResult {
                tool_use_id: tool_use.id.clone(),
                tool_name: tool_use.name.clone(),
                is_error: true,
                content: error,
            },
        }
    }

    /// The result that answers a call of a tool that is not registered.
    pub fn unknown_tool(tool_use: &ToolUse) -> (result: Self)
        ensures
            result@ == unknown_tool_result(tool_use@),
    {
        let mut content = String::new();
        content.append("No tool named ");
        content.append(tool_use.name.as_str());
        content.append(" exists");
        assert(content@ =~= unknown_tool_message(tool_use.name@));
        ToolResult {
            tool_use_id: tool_use.id.clone(),
            tool_name: tool_use.name.clone(),
            is_error: true,
            content,
        }
    }
}

/// One part of a message.
#[derive(Debug, PartialEq, Eq)]
pub enum MessageContent {
    Text(String),
    ToolUse(ToolUse),
    ToolResult(ToolResult),
}

pub enum MessageContentView {
    Text(Seq<char>),
    ToolUse(ToolUseView),
    ToolResult(ToolResultView),
}

impl View for MessageContent {
    type V = MessageContentView;

    open spec fn view(&self) -> MessageContentView {
        match self {
            MessageContent::Text(text) => MessageContentView::Text(text@),
            MessageContent::ToolUse(tool_use) => MessageContentView::ToolUse(tool_use@),
            MessageContent::ToolResult(result) => MessageContentView::ToolResult(result@),
        }
    }
}

impl Clone for MessageContent {
    fn clone(&self) -> (copy: Self)
        ensures
            copy@ == self@,
    {
        match self {
            MessageContent::Text(text) => MessageContent::Text(text.clone()),
            MessageContent::ToolUse(tool_use) => MessageContent::ToolUse(tool_use.clone()),
            MessageContent::ToolResult(result) => MessageContent::ToolResult(result.clone()),
        }
    }
}

/// A copy of the parts of a message.
pub fn clone_content(content: &Vec<MessageContent>) -> (copy: Vec<MessageContent>)
    ensures
        views(copy@) == views(content@),
{
    let mut copy: Vec<MessageContent> = Vec::new();
    let mut index: usize = 0;
    while index < content.len()
        invariant
            index <= content@.len(),
            views(copy@) == views(content@.take(index as int)),
        decreases content@.len() - index,
    {
        let part = content[index].clone();
        proof {
            lemma_views_push(copy@, part);
            assert(content@.take(index + 1) =~= content@.take(index as int).push(
                content@[index as int],
            ));
            lemma_views_push(content@.take(index as int), content@[index as int]);
        }
        copy.push(part);
        index = index + 1;
    }
    proof {
        assert(content@.take(index as int) =~= content@);
    }
    copy
}

/// One message of the conversation: who speaks, and the parts of what is
/// said, in order.
#[derive(Debug, PartialEq, Eq)]
pub struct AgentMessage {
    pub role: Role,
    pub content: Vec<MessageContent>,
}

pub struct AgentMessageView {
    pub role: Role,
    pub content: Seq<MessageContentView>,
}

impl View for AgentMessage {
    type V = AgentMessageView;

    open spec fn view(&self) -> AgentMessageView {
        AgentMessageView { role: self.role, content: views(self.content@) }
    }
}

/// Why a model stopped writing.
#[derive(Clone, Copy, Debug, PartialEq, Eq, Structural)]
pub enum StopReason {
    EndTurn,
    MaxTokens,
    ToolUse,
}

/// How many tokens a request has used so far.
#[derive(Clone, Copy, Debug, PartialEq, Eq, Structural)]
pub struct TokenUsage {
    pub input_tokens: u32,
    pub output_tokens: u32,
}

/// One event of a model's streamed response.
#[derive(Debug, PartialEq, Eq)]
pub enum AgentResponseEvent {
    Stop(StopReason),
    Text(String),
    Thinking { text: String },
    ToolUse(ToolUse),
    StartMessage { role: Role },
    UsageUpdate(TokenUsage),
}

pub enum AgentResponseEventView {
    Stop(StopReason),
    Text(Seq<char>),
    Thinking { text: Seq<char> },
    ToolUse(ToolUseView),
    StartMessage { role: Role },
    UsageUpdate(TokenUsage),
}

impl View for AgentResponseEvent {
    type V = AgentResponseEventView;

    open spec fn view(&self) -> AgentResponseEventView {
        match self {
            AgentResponseEvent::Stop(reason) => AgentResponseEventView::Stop(*reason),
            AgentResponseEvent::Text(text) => AgentResponseEventView::Text(text@),
            AgentResponseEvent::Thinking { text } => AgentResponseEventView::Thinking {
                text: text@,
            },
            AgentResponseEvent::ToolUse(tool_use) => AgentResponseEventView::ToolUse(tool_use@),
            AgentResponseEvent::StartMessage { role } => AgentResponseEventView::StartMessage {
                role: *role,
            },
            AgentResponseEvent::UsageUpdate(usage) => AgentResponseEventView::UsageUpdate(*usage),
        }
    }
}

impl Clone for AgentResponseEvent {
    fn clone(&self) -> (copy: Self)
        ensures
            copy@ == self@,
    {
        match self {
            AgentResponseEvent::Stop(reason) => AgentResponseEvent::Stop(*reason),
            AgentResponseEvent::Text(text) => AgentResponseEvent::Text(text.clone()),
            AgentResponseEvent::Thinking { text } => AgentResponseEvent::Thinking {
                text: text.clone(),
            },
            AgentResponseEvent::ToolUse(tool_use) => AgentResponseEvent::ToolUse(tool_use.clone()),
            AgentResponseEvent::StartMessage { role } => AgentResponseEvent::StartMessage {
                role: *role,
            },
            AgentResponseEvent::UsageUpdate(usage) => AgentResponseEvent::UsageUpdate(*usage),
        }
    }
}

/// One message of a request, as it is sent to the model.
#[derive(Debug, PartialEq, Eq)]
pub struct RequestMessage {
    pub role: Role,
    pub content: Vec<MessageContent>,
    pub cache: bool,
}

pub struct RequestMessageView {
    pub role: Role,
    pub content: Seq<MessageContentView>,
    pub cache: bool,
}

impl View for RequestMessage {
    type V = RequestMessageView;

    open spec fn view(&self) -> RequestMessageView {
        RequestMessageView { role: self.role, content: views(self.content@), cache: self.cache }
    }
}

/// One tool that a request offers to the model. The schema of its input is
/// JSON Schema text.
#[derive(Debug, PartialEq, Eq)]
pub struct RequestTool {
    pub name: String,
    pub description: String,
    pub input_schema: String,
}

pub struct RequestToolView {
    pub name: Seq<char>,
    pub description: Seq<char>,
    pub input_schema: Seq<char>,
}

impl View for RequestTool {
    type V = RequestToolView;

    open spec fn view(&self) -> RequestToolView {
        RequestToolView {
            name: self.name@,
            description: self.description@,
            input_schema: self.input_schema@,
        }
    }
}

/// A request for a completion: the conversation so far and the tools on
/// offer.
#[derive(Debug, PartialEq, Eq)]
pub struct CompletionRequest {
    pub messages: Vec<RequestMessage>,
    pub tools: Vec<RequestTool>,
}

pub struct CompletionRequestView {
    pub messages: Seq<RequestMessageView>,
    pub tools: Seq<RequestToolView>,
}

impl View for CompletionRequest {
    type V = CompletionRequestView;

    open spec fn view(&self) -> CompletionRequestView {
        CompletionRequestView { messages: views(self.messages@), tools: views(self.tools@) }
    }
}

} // verus!
