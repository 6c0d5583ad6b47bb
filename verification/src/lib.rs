//! An engine for agentic document editing.
//!
//! Three parts work together: a conversation turn engine that sequences
//! requests, streamed model events and tool calls; a streaming parser that
//! recognises search/replace edit blocks in arbitrarily chunked model output;
//! and a fuzzy resolver that locates the text an edit block quotes inside a
//! document snapshot, even when the quotation is inexact.

pub mod agent;
pub mod search;
pub mod text;
pub mod tools;

pub mod alignment;
pub mod edit_agent;
pub mod edit_parser;
pub mod history;
pub mod message;

pub use crate::edit_agent::{EditAgent, EditAgentTemplate, EditError};
pub use crate::edit_parser::{EditBlock, EditBlocks, EditParser};
pub use crate::search::{SearchDirection, SearchMatrix, SearchState};
pub use crate::text::{Anchor, Bias, DocumentSnapshot};
pub use crate::agent::{Agent, PendingToolUse, ToolCall, TurnError, TurnState, TurnStep};
pub use crate::message::{
    AgentMessage, AgentResponseEvent, CompletionRequest, MessageContent, RequestMessage,
    RequestTool, Role, StopReason, TokenUsage, ToolResult, ToolUse,
};
pub use crate::tools::{Erased, Tool, ToolDescriptor, ToolRegistry};
