use edit_agent::tools::{name_order, NameOrder};
use edit_agent::{
    Agent, AgentMessage, AgentResponseEvent, Erased, MessageContent, RequestTool, Role,
    StopReason, TokenUsage, Tool, ToolCall, ToolDescriptor, ToolRegistry, ToolResult, ToolUse,
    TurnError, TurnState, TurnStep,
};

fn descriptor(name: &str) -> ToolDescriptor {
    ToolDescriptor {
        name: name.to_string(),
        description: format!("the {} tool", name),
        input_schema: Some("{\"type\":\"object\"}".to_string()),
    }
}

fn tool_use(id: &str, name: &str, complete: bool) -> ToolUse {
    ToolUse {
        id: id.to_string(),
        name: name.to_string(),
        input: "{}".to_string(),
        is_input_complete: complete,
    }
}

fn text(text: &str) -> MessageContent {
    MessageContent::Text(text.to_string())
}

fn agent_with_tools(names: &[&str]) -> Agent {
    let mut agent = Agent::new();
    for name in names {
        agent.add_tool(descriptor(name));
    }
    agent
}

fn result(id: &str, name: &str, is_error: bool, content: &str) -> ToolResult {
    ToolResult {
        tool_use_id: id.to_string(),
        tool_name: name.to_string(),
        is_error,
        content: content.to_string(),
    }
}

#[test]
fn new_agent_is_idle_and_empty() {
    let agent = Agent::new();
    assert_eq!(agent.state(), TurnState::Idle);
    assert!(agent.messages().is_empty());
    let request = agent.build_completion_request();
    assert!(request.messages.is_empty());
    assert!(request.tools.is_empty());
}

#[test]
fn send_appends_the_user_message_and_gives_the_request() {
    let mut agent = Agent::new();
    let (turn, request) = agent.send(&Vec::new(), text("hello"));
    assert_eq!(turn, 1);
    assert_eq!(agent.turn(), 1);
    assert_eq!(agent.state(), TurnState::Streaming);
    assert_eq!(
        agent.messages(),
        &vec![AgentMessage { role: Role::User, content: vec![text("hello")] }]
    );
    assert_eq!(request.messages.len(), 1);
    assert_eq!(request.messages[0].role, Role::User);
    assert_eq!(request.messages[0].content, vec![text("hello")]);
    assert!(!request.messages[0].cache);
}

#[test]
fn system_message_skips_prompts_that_failed_to_render() {
    let prompts = vec![
        Ok("first".to_string()),
        Err("template missing".to_string()),
        Ok("second".to_string()),
    ];
    let message = Agent::build_system_message(&prompts).unwrap();
    assert_eq!(message.role, Role::System);
    assert_eq!(message.content, vec![text("first"), text("second")]);
    assert!(Agent::build_system_message(&Vec::new()).is_none());
    assert!(Agent::build_system_message(&vec![Err("broken".to_string())]).is_none());

    let mut agent = Agent::new();
    let (_, request) = agent.send(&prompts, text("hi"));
    assert_eq!(agent.messages().len(), 2);
    assert_eq!(agent.messages()[0], message);
    assert_eq!(agent.messages()[1].role, Role::User);
    assert_eq!(request.messages.len(), 2);
}

#[test]
fn turn_without_tool_calls_ends_after_one_cycle() {
    let mut agent = agent_with_tools(&["echo"]);
    let (turn, request) = agent.send(&Vec::new(), text("hello"));
    assert_eq!(request.tools.len(), 1);
    let events = vec![
        AgentResponseEvent::StartMessage { role: Role::Assistant },
        AgentResponseEvent::Text("Hi".to_string()),
        AgentResponseEvent::Thinking { text: "hm".to_string() },
        AgentResponseEvent::Text(" there".to_string()),
        AgentResponseEvent::UsageUpdate(TokenUsage { input_tokens: 3, output_tokens: 2 }),
        AgentResponseEvent::Stop(StopReason::EndTurn),
    ];
    for event in events {
        assert_eq!(agent.handle_response_event(turn, event), Ok(None));
        assert_eq!(agent.state(), TurnState::Streaming);
    }
    assert_eq!(agent.stream_ended(turn), TurnStep::Done);
    assert_eq!(agent.state(), TurnState::Done);
    assert_eq!(
        agent.messages(),
        &vec![
            AgentMessage { role: Role::User, content: vec![text("hello")] },
            AgentMessage { role: Role::Assistant, content: vec![text("Hi there")] },
        ]
    );
    // The turn is over: nothing more is taken.
    assert_eq!(agent.stream_ended(turn), TurnStep::Rejected);
    assert_eq!(
        agent.handle_response_event(turn, AgentResponseEvent::Text("late".to_string())),
        Err(TurnError::NotStreaming)
    );
    assert_eq!(agent.messages().len(), 2);
}

#[test]
fn text_without_a_start_message_opens_an_assistant_message() {
    let mut agent = Agent::new();
    let (turn, _) = agent.send(&Vec::new(), text("hello"));
    agent.handle_response_event(turn, AgentResponseEvent::Text("a".to_string())).unwrap();
    agent.handle_response_event(turn, AgentResponseEvent::Text("b".to_string())).unwrap();
    assert_eq!(agent.messages().len(), 2);
    assert_eq!(
        agent.messages()[1],
        AgentMessage { role: Role::Assistant, content: vec![text("ab")] }
    );
}

#[test]
fn text_after_a_tool_use_is_a_new_part() {
    let mut agent = agent_with_tools(&["echo"]);
    let (turn, _) = agent.send(&Vec::new(), text("hello"));
    agent.handle_response_event(turn, AgentResponseEvent::Text("before".to_string())).unwrap();
    agent
        .handle_response_event(turn, AgentResponseEvent::ToolUse(tool_use("1", "echo", false)))
        .unwrap();
    agent.handle_response_event(turn, AgentResponseEvent::Text("after".to_string())).unwrap();
    agent.handle_response_event(turn, AgentResponseEvent::Text("wards".to_string())).unwrap();
    assert_eq!(
        agent.messages()[1].content,
        vec![
            text("before"),
            MessageContent::ToolUse(tool_use("1", "echo", false)),
            text("afterwards"),
        ]
    );
}

#[test]
fn partial_tool_use_is_recorded_but_not_run() {
    let mut agent = agent_with_tools(&["echo"]);
    let (turn, _) = agent.send(&Vec::new(), text("hello"));
    let handled =
        agent.handle_response_event(turn, AgentResponseEvent::ToolUse(tool_use("1", "echo", false)));
    assert_eq!(handled, Ok(None));
    let handled =
        agent.handle_response_event(turn, AgentResponseEvent::ToolUse(tool_use("1", "echo", true)));
    assert_eq!(handled, Ok(Some(ToolCall::Run { slot: 0, tool_use: tool_use("1", "echo", true) })));
    assert_eq!(
        agent.messages()[1].content,
        vec![
            MessageContent::ToolUse(tool_use("1", "echo", false)),
            MessageContent::ToolUse(tool_use("1", "echo", true)),
        ]
    );
}

#[test]
fn tool_results_fan_in_by_invocation_order() {
    let mut agent = agent_with_tools(&["a", "b", "c"]);
    let (turn, _) = agent.send(&Vec::new(), text("go"));
    let mut slots = Vec::new();
    for (id, name) in [("1", "a"), ("2", "b"), ("3", "c")] {
        let call = agent
            .handle_response_event(turn, AgentResponseEvent::ToolUse(tool_use(id, name, true)))
            .unwrap()
            .unwrap();
        match call {
            ToolCall::Run { slot, tool_use } => {
                assert_eq!(tool_use.name, name);
                slots.push(slot);
            }
            ToolCall::Resolved { .. } => panic!("the tool is registered"),
        }
    }
    assert_eq!(slots, vec![0, 1, 2]);
    assert_eq!(agent.handle_response_event(turn, AgentResponseEvent::Stop(StopReason::ToolUse)), Ok(None));
    assert_eq!(agent.stream_ended(turn), TurnStep::Wait);
    assert_eq!(agent.state(), TurnState::AwaitingToolResults);

    // The calls finish in the order C, A, B.
    assert_eq!(agent.tool_finished(turn, 2, Ok("from c".to_string())), TurnStep::Wait);
    assert_eq!(agent.tool_finished(turn, 0, Err("a broke".to_string())), TurnStep::Wait);
    let step = agent.tool_finished(turn, 1, Ok("from b".to_string()));
    let expected = vec![
        MessageContent::ToolResult(result("1", "a", true, "a broke")),
        MessageContent::ToolResult(result("2", "b", false, "from b")),
        MessageContent::ToolResult(result("3", "c", false, "from c")),
    ];
    match step {
        TurnStep::Continue(request) => {
            assert_eq!(request.messages.len(), 3);
            assert_eq!(request.messages[2].role, Role::User);
            assert_eq!(request.messages[2].content, expected);
        }
        other => panic!("the next cycle should begin, not {:?}", other),
    }
    assert_eq!(agent.state(), TurnState::Streaming);
    assert_eq!(agent.messages().len(), 3);
    assert_eq!(agent.messages()[2], AgentMessage { role: Role::User, content: expected });

    // The second response makes no call: the turn ends.
    agent.handle_response_event(turn, AgentResponseEvent::Text("done".to_string())).unwrap();
    assert_eq!(agent.stream_ended(turn), TurnStep::Done);
    assert_eq!(agent.messages().len(), 4);
}

#[test]
fn tools_may_finish_while_the_response_is_still_read() {
    let mut agent = agent_with_tools(&["a", "b"]);
    let (turn, _) = agent.send(&Vec::new(), text("go"));
    agent.handle_response_event(turn, AgentResponseEvent::ToolUse(tool_use("1", "a", true))).unwrap();
    assert_eq!(agent.tool_finished(turn, 0, Ok("early".to_string())), TurnStep::Wait);
    agent.handle_response_event(turn, AgentResponseEvent::ToolUse(tool_use("2", "b", true))).unwrap();
    assert_eq!(agent.tool_finished(turn, 1, Ok("also early".to_string())), TurnStep::Wait);
    assert_eq!(agent.state(), TurnState::Streaming);
    match agent.stream_ended(turn) {
        TurnStep::Continue(request) => {
            assert_eq!(
                request.messages[2].content,
                vec![
                    MessageContent::ToolResult(result("1", "a", false, "early")),
                    MessageContent::ToolResult(result("2", "b", false, "also early")),
                ]
            );
        }
        other => panic!("the next cycle should begin, not {:?}", other),
    }
}

#[test]
fn unknown_tool_is_answered_with_an_error_result() {
    let mut agent = agent_with_tools(&["echo"]);
    let (turn, _) = agent.send(&Vec::new(), text("go"));
    let handled =
        agent.handle_response_event(turn, AgentResponseEvent::ToolUse(tool_use("7", "missing", true)));
    let expected = result("7", "missing", true, "No tool named missing exists");
    assert_eq!(handled, Ok(Some(ToolCall::Resolved { slot: 0, result: expected.clone() })));
    // The turn goes on.
    assert_eq!(agent.state(), TurnState::Streaming);
    match agent.stream_ended(turn) {
        TurnStep::Continue(request) => {
            assert_eq!(request.messages[2].content, vec![MessageContent::ToolResult(expected)]);
        }
        other => panic!("the next cycle should begin, not {:?}", other),
    }
    assert_eq!(agent.state(), TurnState::Streaming);
}

#[test]
fn unknown_tool_result_names_the_tool() {
    let result = ToolResult::unknown_tool(&tool_use("1", "grep", true));
    assert!(result.is_error);
    assert_eq!(result.content, "No tool named grep exists");
    assert_eq!(result.tool_use_id, "1");
    assert_eq!(result.tool_name, "grep");
}

#[test]
fn tool_failure_becomes_an_error_result() {
    let call = tool_use("9", "echo", true);
    assert_eq!(
        ToolResult::from_outcome(&call, Ok("out".to_string())),
        result("9", "echo", false, "out")
    );
    assert_eq!(
        ToolResult::from_outcome(&call, Err("boom".to_string())),
        result("9", "echo", true, "boom")
    );
}

#[test]
fn length_limit_stop_fails_the_turn_with_a_named_error() {
    let mut agent = agent_with_tools(&["echo"]);
    let (turn, _) = agent.send(&Vec::new(), text("go"));
    agent.handle_response_event(turn, AgentResponseEvent::Text("cut o".to_string())).unwrap();
    agent.handle_response_event(turn, AgentResponseEvent::ToolUse(tool_use("1", "echo", true))).unwrap();
    assert_eq!(
        agent.handle_response_event(turn, AgentResponseEvent::Stop(StopReason::MaxTokens)),
        Err(TurnError::UnsupportedStopReason(StopReason::MaxTokens))
    );
    assert_eq!(agent.state(), TurnState::Failed);
    assert_eq!(agent.stream_ended(turn), TurnStep::Rejected);
    assert_eq!(agent.tool_finished(turn, 0, Ok("late".to_string())), TurnStep::Rejected);
    assert_eq!(agent.messages().len(), 2);
}

#[test]
fn transport_error_ends_the_turn() {
    let mut agent = agent_with_tools(&["echo"]);
    let (turn, _) = agent.send(&Vec::new(), text("go"));
    agent.handle_response_event(turn, AgentResponseEvent::ToolUse(tool_use("1", "echo", true))).unwrap();
    agent.stream_failed(turn);
    assert_eq!(agent.state(), TurnState::Failed);
    assert_eq!(agent.tool_finished(turn, 0, Ok("late".to_string())), TurnStep::Rejected);
    // A failure outside a turn changes nothing.
    let mut idle = Agent::new();
    idle.stream_failed(idle.turn());
    assert_eq!(idle.state(), TurnState::Idle);
}

#[test]
fn events_outside_a_response_are_refused() {
    let mut agent = Agent::new();
    let turn = agent.turn();
    assert_eq!(turn, 0);
    assert_eq!(
        agent.handle_response_event(turn, AgentResponseEvent::Text("x".to_string())),
        Err(TurnError::NotStreaming)
    );
    assert_eq!(agent.stream_ended(turn), TurnStep::Rejected);
    assert_eq!(agent.tool_finished(turn, 0, Ok("x".to_string())), TurnStep::Rejected);
    assert!(agent.messages().is_empty());
}

#[test]
fn stray_and_repeated_outcomes_are_rejected() {
    let mut agent = agent_with_tools(&["a", "b"]);
    let (turn, _) = agent.send(&Vec::new(), text("go"));
    agent.handle_response_event(turn, AgentResponseEvent::ToolUse(tool_use("1", "a", true))).unwrap();
    agent.handle_response_event(turn, AgentResponseEvent::ToolUse(tool_use("2", "b", true))).unwrap();
    assert_eq!(agent.stream_ended(turn), TurnStep::Wait);
    assert_eq!(agent.tool_finished(turn, 5, Ok("stray".to_string())), TurnStep::Rejected);
    assert_eq!(agent.tool_finished(turn, 1, Ok("first".to_string())), TurnStep::Wait);
    assert_eq!(agent.tool_finished(turn, 1, Ok("second".to_string())), TurnStep::Rejected);
    match agent.tool_finished(turn, 0, Ok("zero".to_string())) {
        TurnStep::Continue(request) => {
            assert_eq!(
                request.messages[2].content,
                vec![
                    MessageContent::ToolResult(result("1", "a", false, "zero")),
                    MessageContent::ToolResult(result("2", "b", false, "first")),
                ]
            );
        }
        other => panic!("the next cycle should begin, not {:?}", other),
    }
}

#[test]
fn a_new_send_supersedes_the_turn_under_way() {
    let mut agent = agent_with_tools(&["a"]);
    let (first, _) = agent.send(&Vec::new(), text("one"));
    agent
        .handle_response_event(first, AgentResponseEvent::ToolUse(tool_use("1", "a", true)))
        .unwrap();
    assert_eq!(agent.stream_ended(first), TurnStep::Wait);
    let (second, request) = agent.send(&Vec::new(), text("two"));
    assert_ne!(first, second);
    assert_eq!(agent.state(), TurnState::Streaming);
    assert_eq!(request.messages.len(), 3);
    // Whatever still arrives for the first turn is turned away.
    assert_eq!(agent.tool_finished(first, 0, Ok("old".to_string())), TurnStep::Rejected);
    assert_eq!(
        agent.handle_response_event(first, AgentResponseEvent::Text("stale".to_string())),
        Err(TurnError::Superseded)
    );
    assert_eq!(agent.stream_ended(first), TurnStep::Rejected);
    agent.stream_failed(first);
    assert_eq!(agent.state(), TurnState::Streaming);
    assert_eq!(agent.messages().len(), 3);
    // The first turn's call has no slot in the second turn either.
    assert_eq!(agent.tool_finished(second, 0, Ok("old".to_string())), TurnStep::Rejected);
    assert_eq!(agent.stream_ended(second), TurnStep::Done);
}

#[test]
fn registry_orders_tools_by_name_and_replaces_on_equal_names() {
    let mut registry = ToolRegistry::new();
    assert_eq!(registry.len(), 0);
    registry.add_tool(descriptor("read"));
    registry.add_tool(descriptor("edit"));
    registry.add_tool(descriptor("write"));
    registry.add_tool(descriptor("grep"));
    assert_eq!(registry.len(), 4);
    let names: Vec<String> = registry.request_tools().into_iter().map(|tool| tool.name).collect();
    assert_eq!(names, vec!["edit", "grep", "read", "write"]);
    registry.add_tool(ToolDescriptor {
        name: "grep".to_string(),
        description: "search".to_string(),
        input_schema: Some("{}".to_string()),
    });
    assert_eq!(registry.len(), 4);
    assert_eq!(
        registry.request_tools()[1],
        RequestTool {
            name: "grep".to_string(),
            description: "search".to_string(),
            input_schema: "{}".to_string(),
        }
    );
    assert!(registry.contains("read"));
    assert!(!registry.contains("rea"));
    assert!(!registry.contains("reads"));
}

#[test]
fn remove_tool_says_whether_there_was_one() {
    let mut agent = agent_with_tools(&["b", "a", "c"]);
    assert!(agent.remove_tool("b"));
    assert!(!agent.remove_tool("b"));
    assert!(!agent.remove_tool("d"));
    let names: Vec<String> =
        agent.build_completion_request().tools.into_iter().map(|tool| tool.name).collect();
    assert_eq!(names, vec!["a", "c"]);
}

#[test]
fn tool_without_a_schema_is_left_out_of_the_request() {
    let mut agent = agent_with_tools(&["a", "c"]);
    agent.add_tool(ToolDescriptor {
        name: "b".to_string(),
        description: "no schema".to_string(),
        input_schema: None,
    });
    let (turn, request) = agent.send(&Vec::new(), text("go"));
    let names: Vec<String> = request.tools.into_iter().map(|tool| tool.name).collect();
    assert_eq!(names, vec!["a", "c"]);
    // The tool is registered all the same and can be called.
    let handled =
        agent.handle_response_event(turn, AgentResponseEvent::ToolUse(tool_use("1", "b", true)));
    assert_eq!(handled, Ok(Some(ToolCall::Run { slot: 0, tool_use: tool_use("1", "b", true) })));
}

#[test]
fn names_are_ordered_by_their_bytes() {
    assert_eq!(name_order("a", "b"), NameOrder::Before);
    assert_eq!(name_order("b", "a"), NameOrder::After);
    assert_eq!(name_order("abc", "abc"), NameOrder::Same);
    assert_eq!(name_order("ab", "abc"), NameOrder::Before);
    assert_eq!(name_order("abc", "ab"), NameOrder::After);
    assert_eq!(name_order("", ""), NameOrder::Same);
    assert_eq!(name_order("", "a"), NameOrder::Before);
    assert_eq!(name_order("Z", "a"), NameOrder::Before);
    assert_eq!(name_order("z", "\u{e9}"), NameOrder::Before);
    assert_eq!("z".cmp("\u{e9}"), std::cmp::Ordering::Less);
}

struct Upper;

impl Tool for Upper {
    fn name(&self) -> String {
        "upper".to_string()
    }

    fn description(&self) -> String {
        "Upper-cases its input".to_string()
    }

    fn input_schema(&self) -> Result<String, String> {
        Ok("{\"type\":\"string\"}".to_string())
    }

    fn run(&self, input: &str) -> Result<String, String> {
        if input.is_empty() {
            Err("empty input".to_string())
        } else {
            Ok(input.to_uppercase())
        }
    }
}

struct Schemaless;

impl Tool for Schemaless {
    fn name(&self) -> String {
        "schemaless".to_string()
    }

    fn description(&self) -> String {
        String::new()
    }

    fn input_schema(&self) -> Result<String, String> {
        Err("cannot be written out".to_string())
    }

    fn run(&self, _input: &str) -> Result<String, String> {
        Ok(String::new())
    }
}

#[test]
fn erased_tool_describes_itself() {
    let tool = Erased(Upper);
    assert_eq!(tool.name(), "upper");
    assert_eq!(tool.description(), "Upper-cases its input");
    assert_eq!(tool.input_schema(), Some("{\"type\":\"string\"}".to_string()));
    assert_eq!(
        tool.descriptor(),
        ToolDescriptor {
            name: "upper".to_string(),
            description: "Upper-cases its input".to_string(),
            input_schema: Some("{\"type\":\"string\"}".to_string()),
        }
    );
    assert_eq!(Erased(Schemaless).input_schema(), None);
    assert_eq!(Erased(Schemaless).descriptor().input_schema, None);
}

#[test]
fn erased_tool_reports_output_and_failure() {
    let tool = Erased(Upper);
    let mut call = tool_use("4", "upper", true);
    call.input = "abc".to_string();
    assert_eq!(tool.run(&call), result("4", "upper", false, "ABC"));
    call.input = String::new();
    assert_eq!(tool.run(&call), result("4", "upper", true, "empty input"));
}
