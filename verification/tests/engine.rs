use assistant2::actions::ThreadId;
use assistant2::config::EngineConfig;
use assistant2::context::{ContextId, ContextItem, ContextKind};
use assistant2::engine::{Action, EngineError, ModelEvent, RestoreError, ThreadEngine};
use assistant2::registry::{Argument, Failure, Param, Tool, ToolRegistry, ToolRequest};
use assistant2::thread::{Body, Message, Role, Segment, ThreadStatus};
use assistant2::tool_use::{CallStatus, CoordinatorError, ToolResult};

fn call(id: u64, name: &str, path: &str) -> ToolRequest {
    ToolRequest {
        id,
        tool: name.to_string(),
        arguments: vec![Argument { name: "path".to_string(), value: path.to_string() }],
    }
}

fn engine_with(tools: &[&str], slots: usize) -> ThreadEngine {
    let mut registry = ToolRegistry::new();
    for name in tools {
        registry.register(Tool {
            name: name.to_string(),
            params: vec![Param { name: "path".to_string(), required: true }],
        });
    }
    let config =
        EngineConfig { max_concurrent_tool_calls: slots, context_size_limit: 1000, tool_timeout: 50 };
    ThreadEngine::new(ThreadId::new(1), None, registry, config).unwrap()
}

fn indices(engine: &ThreadEngine) -> Vec<u64> {
    let thread = engine.thread_ref();
    (0..thread.len()).map(|i| thread.message(i).unwrap().sequence_index).collect()
}

fn roles(engine: &ThreadEngine) -> Vec<Role> {
    let thread = engine.thread_ref();
    (0..thread.len()).map(|i| thread.message(i).unwrap().role_of()).collect()
}

#[test]
fn unknown_tool_fails_the_call_and_goes_back_to_the_model() {
    let mut engine = engine_with(&[], 2);
    let sent = engine.start_turn("read x".to_string(), Vec::new(), false).unwrap();
    assert_eq!(sent, vec![Action::SendRequest]);
    assert_eq!(engine.on_model_event(ModelEvent::ToolCallRequest(call(1, "read_file", "x")), 0), Ok(vec![]));
    let actions = engine.on_model_event(ModelEvent::TurnComplete, 0).unwrap();
    // no tool is invoked; the model is asked again, with the failure in the history
    assert_eq!(actions, vec![Action::SendRequest]);
    assert_eq!(engine.call_status(1), Some(CallStatus::Failed(Failure::UnknownTool)));
    assert_eq!(engine.thread_ref().current_status(), ThreadStatus::AwaitingModel);
    assert_eq!(roles(&engine), vec![Role::User, Role::Assistant, Role::Tool]);
    match &engine.thread_ref().message(2).unwrap().body {
        Body::Tool { result } => {
            assert_eq!(result.id, 1);
            assert_eq!(result.status, CallStatus::Failed(Failure::UnknownTool));
        }
        _ => panic!("the third message reports the call"),
    }
    // the turn goes on: the model answers and is done
    engine.on_model_event(ModelEvent::ContentDelta("no such tool".to_string()), 1).unwrap();
    assert_eq!(engine.on_model_event(ModelEvent::TurnComplete, 1), Ok(vec![]));
    assert_eq!(engine.thread_ref().current_status(), ThreadStatus::Done);
    assert_eq!(indices(&engine), vec![0, 1, 2, 3]);
}

#[test]
fn sequence_indices_count_up_without_gaps() {
    let mut engine = engine_with(&["read_file"], 1);
    for turn in 0..3u64 {
        engine.start_turn(format!("turn {turn}"), Vec::new(), false).unwrap();
        engine.on_model_event(ModelEvent::ContentDelta("let me look".to_string()), 0).unwrap();
        engine.on_model_event(ModelEvent::ToolCallRequest(call(turn * 2, "read_file", "a")), 0).unwrap();
        engine.on_model_event(ModelEvent::ToolCallRequest(call(turn * 2 + 1, "read_file", "b")), 0).unwrap();
        engine.on_model_event(ModelEvent::TurnComplete, 0).unwrap();
        engine.on_tool_result(turn * 2, true, "A".to_string(), 1).unwrap();
        engine.on_tool_result(turn * 2 + 1, false, "B".to_string(), 2).unwrap();
        engine.on_model_event(ModelEvent::TurnComplete, 3).unwrap();
    }
    let n = engine.thread_ref().len();
    assert_eq!(n, 15);
    assert_eq!(indices(&engine), (0..15u64).collect::<Vec<u64>>());
    assert!(engine.thread_ref().message(n).is_none());
}

#[test]
fn tool_round_trip_reports_results_in_request_order() {
    let mut engine = engine_with(&["read_file"], 1);
    engine.start_turn("go".to_string(), Vec::new(), false).unwrap();
    engine.on_model_event(ModelEvent::ContentDelta("reading".to_string()), 0).unwrap();
    engine.on_model_event(ModelEvent::ToolCallRequest(call(7, "read_file", "a")), 0).unwrap();
    engine.on_model_event(ModelEvent::ContentDelta(" both".to_string()), 0).unwrap();
    engine.on_model_event(ModelEvent::ToolCallRequest(call(8, "read_file", "b")), 0).unwrap();
    // one slot: the first call starts, the second waits
    assert_eq!(engine.on_model_event(ModelEvent::TurnComplete, 0), Ok(vec![Action::InvokeTool(7)]));
    assert_eq!(engine.thread_ref().current_status(), ThreadStatus::AwaitingTools);
    // content first, calls after, in one assistant message
    match &engine.thread_ref().message(1).unwrap().body {
        Body::Assistant { segments } => {
            assert_eq!(segments.len(), 4);
            assert!(matches!(&segments[0], Segment::Text(t) if t == "reading"));
            assert!(matches!(&segments[1], Segment::Text(t) if t == " both"));
            assert!(matches!(&segments[2], Segment::ToolCall(r) if r.id == 7));
            assert!(matches!(&segments[3], Segment::ToolCall(r) if r.id == 8));
        }
        _ => panic!("the second message is the assistant's"),
    }
    // the model is not listened to while tools run
    assert_eq!(engine.on_model_event(ModelEvent::TurnComplete, 0), Err(EngineError::NotListening));
    assert_eq!(
        engine.on_tool_result(8, true, "x".to_string(), 1),
        Err(EngineError::Coordinator(CoordinatorError::NotRunning))
    );
    assert_eq!(
        engine.on_tool_result(99, true, "x".to_string(), 1),
        Err(EngineError::Coordinator(CoordinatorError::UnknownCall))
    );
    assert_eq!(engine.on_tool_result(7, false, "denied".to_string(), 1), Ok(vec![Action::InvokeTool(8)]));
    assert_eq!(engine.thread_ref().len(), 2);
    assert_eq!(engine.on_tool_result(8, true, "bee".to_string(), 2), Ok(vec![Action::SendRequest]));
    assert_eq!(engine.thread_ref().current_status(), ThreadStatus::AwaitingModel);
    assert_eq!(roles(&engine), vec![Role::User, Role::Assistant, Role::Tool, Role::Tool]);
    let reported: Vec<(u64, CallStatus, String)> = (2..4)
        .map(|i| match &engine.thread_ref().message(i).unwrap().body {
            Body::Tool { result } => (result.id, result.status, result.payload.clone()),
            _ => panic!("a tool message"),
        })
        .collect();
    assert_eq!(
        reported,
        vec![
            (7, CallStatus::Failed(Failure::ToolFailure), "denied".to_string()),
            (8, CallStatus::Completed, "bee".to_string()),
        ]
    );
    assert_eq!(engine.on_tool_result(8, true, "again".to_string(), 3), Err(EngineError::NotAwaitingTools));
    assert_eq!(engine.thread_ref().len(), 4);
}

#[test]
fn timeout_is_reported_once_as_a_tool_message() {
    let mut engine = engine_with(&["read_file"], 2);
    engine.start_turn("go".to_string(), Vec::new(), false).unwrap();
    engine.on_model_event(ModelEvent::ToolCallRequest(call(1, "read_file", "a")), 0).unwrap();
    engine.on_model_event(ModelEvent::ToolCallRequest(call(2, "read_file", "b")), 0).unwrap();
    assert_eq!(
        engine.on_model_event(ModelEvent::TurnComplete, 10),
        Ok(vec![Action::InvokeTool(1), Action::InvokeTool(2)])
    );
    assert_eq!(engine.on_tool_result(2, true, "ok".to_string(), 20), Ok(vec![]));
    assert_eq!(engine.on_tick(59), Vec::<Action>::new());
    assert_eq!(engine.on_tick(60), vec![Action::CancelTool(1), Action::SendRequest]);
    assert_eq!(engine.call_status(1), Some(CallStatus::TimedOut));
    assert_eq!(roles(&engine), vec![Role::User, Role::Assistant, Role::Tool, Role::Tool]);
    // more time changes nothing
    assert_eq!(engine.on_tick(1000), Vec::<Action>::new());
    assert_eq!(engine.thread_ref().len(), 4);
    assert_eq!(engine.thread_ref().current_status(), ThreadStatus::AwaitingModel);
}

#[test]
fn edit_turn_forwards_content_behind_a_session() {
    let mut engine = engine_with(&[], 1);
    let context = vec![ContextItem {
        id: ContextId { kind: ContextKind::File, key: 4 },
        text: b"fn foo() {}".to_vec(),
    }];
    engine.start_turn("rename foo to bar".to_string(), context, true).unwrap();
    assert_eq!(
        engine.on_model_event(ModelEvent::ContentDelta("fn bar".to_string()), 0),
        Ok(vec![Action::BeginSession { turn: 0 }, Action::ForwardContent("fn bar".to_string())])
    );
    assert_eq!(engine.thread_ref().current_status(), ThreadStatus::Streaming);
    assert_eq!(
        engine.on_model_event(ModelEvent::ContentDelta("() {}".to_string()), 0),
        Ok(vec![Action::ForwardContent("() {}".to_string())])
    );
    assert_eq!(engine.on_model_event(ModelEvent::TurnComplete, 0), Ok(vec![]));
    match &engine.thread_ref().message(0).unwrap().body {
        Body::User { text, context } => {
            assert_eq!(text, "rename foo to bar");
            assert_eq!(context.len(), 1);
            assert_eq!(context[0].text, b"fn foo() {}".to_vec());
        }
        _ => panic!("the first message is the user's"),
    }
    // the next turn is numbered by its user message
    engine.start_turn("and baz".to_string(), Vec::new(), true).unwrap();
    assert_eq!(
        engine.on_model_event(ModelEvent::ContentDelta("x".to_string()), 0),
        Ok(vec![Action::BeginSession { turn: 2 }, Action::ForwardContent("x".to_string())])
    );
}

#[test]
fn model_error_keeps_history_and_allows_a_new_turn() {
    let mut engine = engine_with(&["read_file"], 1);
    engine.start_turn("one".to_string(), Vec::new(), true).unwrap();
    engine.on_model_event(ModelEvent::ContentDelta("partial".to_string()), 0).unwrap();
    engine.on_model_event(ModelEvent::ToolCallRequest(call(1, "read_file", "a")), 0).unwrap();
    assert_eq!(engine.on_model_event(ModelEvent::Error, 0), Ok(vec![Action::CancelSession]));
    assert_eq!(engine.thread_ref().current_status(), ThreadStatus::Errored);
    assert_eq!(engine.thread_ref().len(), 1);
    assert_eq!(engine.call_status(1), None);
    assert_eq!(engine.on_model_event(ModelEvent::TurnComplete, 0), Err(EngineError::NotListening));
    assert_eq!(engine.start_turn("two".to_string(), Vec::new(), false), Ok(vec![Action::SendRequest]));
    assert_eq!(engine.on_model_event(ModelEvent::Error, 0), Ok(vec![]));
    assert_eq!(indices(&engine), vec![0, 1]);
}

#[test]
fn start_turn_while_a_turn_runs_is_refused() {
    let mut engine = engine_with(&[], 1);
    engine.start_turn("one".to_string(), Vec::new(), false).unwrap();
    assert_eq!(engine.start_turn("two".to_string(), Vec::new(), false), Err(EngineError::TurnInProgress));
    engine.on_model_event(ModelEvent::ContentDelta("hi".to_string()), 0).unwrap();
    assert_eq!(engine.start_turn("two".to_string(), Vec::new(), false), Err(EngineError::TurnInProgress));
    assert_eq!(engine.thread_ref().len(), 1);
}

#[test]
fn duplicate_call_id_is_refused() {
    let mut engine = engine_with(&["read_file"], 4);
    engine.start_turn("go".to_string(), Vec::new(), false).unwrap();
    engine.on_model_event(ModelEvent::ToolCallRequest(call(1, "read_file", "a")), 0).unwrap();
    assert_eq!(
        engine.on_model_event(ModelEvent::ToolCallRequest(call(1, "read_file", "b")), 0),
        Err(EngineError::DuplicateCall)
    );
    engine.on_model_event(ModelEvent::TurnComplete, 0).unwrap();
    engine.on_tool_result(1, true, "a".to_string(), 1).unwrap();
    // an id of an earlier round is taken too
    assert_eq!(
        engine.on_model_event(ModelEvent::ToolCallRequest(call(1, "read_file", "c")), 2),
        Err(EngineError::DuplicateCall)
    );
    assert_eq!(engine.on_model_event(ModelEvent::ToolCallRequest(call(2, "read_file", "c")), 2), Ok(vec![]));
}

#[test]
fn cancel_turn_cancels_calls_and_reports_them() {
    let mut engine = engine_with(&["read_file"], 1);
    assert_eq!(engine.cancel_turn(), Err(EngineError::NoTurnInProgress));
    engine.start_turn("go".to_string(), Vec::new(), true).unwrap();
    engine.on_model_event(ModelEvent::ToolCallRequest(call(1, "read_file", "a")), 0).unwrap();
    engine.on_model_event(ModelEvent::ToolCallRequest(call(2, "read_file", "b")), 0).unwrap();
    engine.on_model_event(ModelEvent::TurnComplete, 0).unwrap();
    assert_eq!(
        engine.cancel_turn(),
        Ok(vec![Action::CancelTool(1), Action::CancelTool(2), Action::CancelSession])
    );
    assert_eq!(engine.thread_ref().current_status(), ThreadStatus::Idle);
    assert_eq!(engine.call_status(1), Some(CallStatus::Failed(Failure::Cancelled)));
    assert_eq!(engine.call_status(2), Some(CallStatus::Failed(Failure::Cancelled)));
    assert_eq!(roles(&engine), vec![Role::User, Role::Assistant, Role::Tool, Role::Tool]);
    assert_eq!(engine.cancel_turn(), Err(EngineError::NoTurnInProgress));
    // while the model streams, cancelling lets the partial response go
    engine.start_turn("again".to_string(), Vec::new(), false).unwrap();
    engine.on_model_event(ModelEvent::ContentDelta("par".to_string()), 0).unwrap();
    assert_eq!(engine.cancel_turn(), Ok(vec![]));
    assert_eq!(engine.thread_ref().len(), 5);
    assert_eq!(engine.start_turn("next".to_string(), Vec::new(), false), Ok(vec![Action::SendRequest]));
}

#[test]
fn malformed_call_fails_while_the_valid_one_runs() {
    let mut engine = engine_with(&["read_file"], 2);
    engine.start_turn("go".to_string(), Vec::new(), false).unwrap();
    let bad = ToolRequest { id: 1, tool: "read_file".to_string(), arguments: Vec::new() };
    engine.on_model_event(ModelEvent::ToolCallRequest(bad), 0).unwrap();
    engine.on_model_event(ModelEvent::ToolCallRequest(call(2, "read_file", "b")), 0).unwrap();
    assert_eq!(engine.on_model_event(ModelEvent::TurnComplete, 0), Ok(vec![Action::InvokeTool(2)]));
    assert_eq!(engine.call_status(1), Some(CallStatus::Failed(Failure::MalformedToolCall)));
    assert_eq!(engine.thread_ref().current_status(), ThreadStatus::AwaitingTools);
    assert_eq!(engine.on_tool_result(2, true, "b".to_string(), 1), Ok(vec![Action::SendRequest]));
    assert_eq!(roles(&engine), vec![Role::User, Role::Assistant, Role::Tool, Role::Tool]);
}

#[test]
fn failure_while_tools_run_cancels_and_reports_them() {
    let mut engine = engine_with(&["read_file"], 1);
    engine.start_turn("go".to_string(), Vec::new(), false).unwrap();
    engine.on_model_event(ModelEvent::ToolCallRequest(call(1, "read_file", "a")), 0).unwrap();
    engine.on_model_event(ModelEvent::ToolCallRequest(call(2, "read_file", "b")), 0).unwrap();
    engine.on_model_event(ModelEvent::TurnComplete, 0).unwrap();
    engine.on_tool_result(1, true, "a".to_string(), 1).unwrap();
    assert_eq!(engine.on_model_event(ModelEvent::Error, 2), Ok(vec![Action::CancelTool(2)]));
    assert_eq!(engine.thread_ref().current_status(), ThreadStatus::Errored);
    assert_eq!(engine.call_status(1), Some(CallStatus::Completed));
    assert_eq!(engine.call_status(2), Some(CallStatus::Failed(Failure::Cancelled)));
    assert_eq!(roles(&engine), vec![Role::User, Role::Assistant, Role::Tool, Role::Tool]);
    // a failure when no turn is under way is not taken
    assert_eq!(engine.on_model_event(ModelEvent::Error, 3), Err(EngineError::NotListening));
    assert_eq!(engine.thread_ref().len(), 4);
}

#[test]
fn turn_takes_the_context_that_fits() {
    let mut engine = ThreadEngine::new(ThreadId::new(1), None, ToolRegistry::new(), settings(1)).unwrap();
    let file = ContextId { kind: ContextKind::File, key: 1 };
    let url = ContextId { kind: ContextKind::FetchedUrl, key: 2 };
    let rule = ContextId { kind: ContextKind::Rule, key: 3 };
    engine.attach_context(ContextItem { id: url, text: b"page".to_vec() });
    engine.attach_context(ContextItem { id: file, text: b"source".to_vec() });
    assert!(engine.suggest_context(ContextItem { id: rule, text: b"r".to_vec() }));
    let (actions, dropped) = engine.start_turn_attached("explain".to_string(), false).unwrap();
    assert_eq!(actions, vec![Action::SendRequest]);
    assert_eq!(dropped, vec![url]);
    match &engine.thread_ref().message(0).unwrap().body {
        Body::User { text, context } => {
            assert_eq!(text, "explain");
            assert_eq!(context, &vec![ContextItem { id: file, text: b"source".to_vec() }]);
        }
        _ => panic!("the first message is the user's"),
    }
    // what is attached later does not reach into the history
    engine.attach_context(ContextItem { id: file, text: b"edited".to_vec() });
    match &engine.thread_ref().message(0).unwrap().body {
        Body::User { context, .. } => assert_eq!(context[0].text, b"source".to_vec()),
        _ => panic!("the first message is the user's"),
    }
    assert_eq!(engine.start_turn_attached("again".to_string(), false), Err(EngineError::TurnInProgress));
    // the context can be changed while the turn runs
    assert!(engine.remove_context(url));
    assert!(!engine.remove_context(url));
    assert!(engine.accept_suggested_context(rule));
    assert_eq!(engine.context_ref().len(), 2);
    engine.on_model_event(ModelEvent::TurnComplete, 0).unwrap();
    let (_, dropped) = engine.start_turn_attached("again".to_string(), false).unwrap();
    // "edited" and "r" are 7 bytes: the file gives way, the rule stays
    assert_eq!(dropped, vec![file]);
    engine.remove_all_context();
    assert_eq!(engine.context_ref().len(), 0);
}

fn settings(slots: usize) -> EngineConfig {
    EngineConfig { max_concurrent_tool_calls: slots, context_size_limit: 6, tool_timeout: 10 }
}

#[test]
fn engine_needs_a_slot() {
    assert!(ThreadEngine::new(ThreadId::new(1), None, ToolRegistry::new(), settings(0)).is_none());
    assert!(ThreadEngine::new(ThreadId::new(1), None, ToolRegistry::new(), settings(1)).is_some());
}

#[test]
fn cancelling_one_call_lets_the_turn_go_on() {
    let mut engine = engine_with(&["read_file"], 1);
    engine.start_turn("go".to_string(), Vec::new(), false).unwrap();
    assert_eq!(engine.cancel_call(1, 0), Err(EngineError::NotAwaitingTools));
    engine.on_model_event(ModelEvent::ToolCallRequest(call(1, "read_file", "a")), 0).unwrap();
    engine.on_model_event(ModelEvent::ToolCallRequest(call(2, "read_file", "b")), 0).unwrap();
    engine.on_model_event(ModelEvent::TurnComplete, 0).unwrap();
    assert_eq!(engine.cancel_call(1, 1), Ok(vec![Action::CancelTool(1), Action::InvokeTool(2)]));
    assert_eq!(
        engine.cancel_call(1, 1),
        Err(EngineError::Coordinator(CoordinatorError::AlreadyEnded))
    );
    assert_eq!(
        engine.cancel_call(5, 1),
        Err(EngineError::Coordinator(CoordinatorError::UnknownCall))
    );
    assert_eq!(engine.thread_ref().current_status(), ThreadStatus::AwaitingTools);
    assert_eq!(engine.cancel_call(2, 2), Ok(vec![Action::CancelTool(2), Action::SendRequest]));
    assert_eq!(engine.thread_ref().current_status(), ThreadStatus::AwaitingModel);
    assert_eq!(roles(&engine), vec![Role::User, Role::Assistant, Role::Tool, Role::Tool]);
}

fn stored(statuses: &[(u64, CallStatus)]) -> Vec<Message> {
    let mut messages = vec![
        Message { sequence_index: 0, body: Body::User { text: "go".to_string(), context: Vec::new() } },
        Message { sequence_index: 1, body: Body::Assistant { segments: Vec::new() } },
    ];
    for (id, status) in statuses {
        let result = ToolResult { id: *id, status: *status, payload: format!("result {id}") };
        messages.push(Message { sequence_index: messages.len() as u64, body: Body::Tool { result } });
    }
    messages
}

fn registry_with_read_file() -> ToolRegistry {
    let mut registry = ToolRegistry::new();
    registry.register(Tool {
        name: "read_file".to_string(),
        params: vec![Param { name: "path".to_string(), required: true }],
    });
    registry
}

#[test]
fn stored_thread_is_taken_up_again() {
    let messages = stored(&[(4, CallStatus::Completed), (9, CallStatus::TimedOut)]);
    let mut engine =
        ThreadEngine::restore(ThreadId::new(3), None, registry_with_read_file(), settings(2), messages).unwrap();
    assert_eq!(engine.thread_ref().current_status(), ThreadStatus::Idle);
    assert_eq!(indices(&engine), vec![0, 1, 2, 3]);
    assert_eq!(engine.call_status(4), Some(CallStatus::Completed));
    assert_eq!(engine.call_status(9), Some(CallStatus::TimedOut));
    assert_eq!(engine.call_status(5), None);
    engine.start_turn("more".to_string(), Vec::new(), false).unwrap();
    // the ids of the stored calls are taken
    assert_eq!(
        engine.on_model_event(ModelEvent::ToolCallRequest(call(9, "read_file", "a")), 0),
        Err(EngineError::DuplicateCall)
    );
    engine.on_model_event(ModelEvent::ToolCallRequest(call(10, "read_file", "a")), 0).unwrap();
    assert_eq!(engine.on_model_event(ModelEvent::TurnComplete, 0), Ok(vec![Action::InvokeTool(10)]));
    assert_eq!(engine.on_tool_result(10, true, "a".to_string(), 1), Ok(vec![Action::SendRequest]));
    assert_eq!(indices(&engine), vec![0, 1, 2, 3, 4, 5, 6]);
}

#[test]
fn stored_thread_with_faults_is_refused() {
    let good = || stored(&[(1, CallStatus::Completed)]);
    assert!(matches!(
        ThreadEngine::restore(ThreadId::new(3), None, ToolRegistry::new(), settings(0), good()),
        Err(RestoreError::NoSlot)
    ));
    let mut gap = good();
    gap[2].sequence_index = 3;
    assert!(matches!(
        ThreadEngine::restore(ThreadId::new(3), None, ToolRegistry::new(), settings(1), gap),
        Err(RestoreError::BrokenSequence)
    ));
    let running = stored(&[(1, CallStatus::Running)]);
    assert!(matches!(
        ThreadEngine::restore(ThreadId::new(3), None, ToolRegistry::new(), settings(1), running),
        Err(RestoreError::BadToolResult)
    ));
    let twice = stored(&[(1, CallStatus::Completed), (1, CallStatus::TimedOut)]);
    assert!(matches!(
        ThreadEngine::restore(ThreadId::new(3), None, ToolRegistry::new(), settings(1), twice),
        Err(RestoreError::BadToolResult)
    ));
    assert!(ThreadEngine::restore(ThreadId::new(3), None, ToolRegistry::new(), settings(1), Vec::new()).is_ok());
}
