use assistant2::registry::{fits, Argument, Failure, Param, Tool, ToolRegistry, ToolRequest};
use assistant2::tool_use::{CallStatus, CoordinatorError, Disposition, ToolUseCoordinator};

fn tool(name: &str, params: &[(&str, bool)]) -> Tool {
    Tool {
        name: name.to_string(),
        params: params
            .iter()
            .map(|(n, required)| Param { name: n.to_string(), required: *required })
            .collect(),
    }
}

fn request(id: u64, name: &str, arguments: &[(&str, &str)]) -> ToolRequest {
    ToolRequest {
        id,
        tool: name.to_string(),
        arguments: arguments
            .iter()
            .map(|(n, v)| Argument { name: n.to_string(), value: v.to_string() })
            .collect(),
    }
}

fn registry_with_read_and_grep() -> ToolRegistry {
    let mut registry = ToolRegistry::new();
    assert!(registry.register(tool("read_file", &[("path", true), ("limit", false)])));
    assert!(registry.register(tool("grep", &[("pattern", true)])));
    registry
}

#[test]
fn registry_knows_what_was_registered_once() {
    let mut registry = registry_with_read_and_grep();
    assert!(registry.contains(&"grep".to_string()));
    assert!(!registry.contains(&"write_file".to_string()));
    // a second tool of the same name is not taken
    assert!(!registry.register(tool("grep", &[])));
    assert_eq!(registry.check(&request(1, "grep", &[])), Some(Failure::MalformedToolCall));
}

#[test]
fn check_tells_unknown_from_malformed() {
    let registry = registry_with_read_and_grep();
    assert_eq!(registry.check(&request(1, "read_file", &[("path", "x")])), None);
    assert_eq!(registry.check(&request(1, "read_file", &[("path", "x"), ("limit", "3")])), None);
    assert_eq!(registry.check(&request(1, "write_file", &[("path", "x")])), Some(Failure::UnknownTool));
    // a required parameter is missing
    assert_eq!(registry.check(&request(1, "read_file", &[("limit", "3")])), Some(Failure::MalformedToolCall));
    // an argument that the tool does not declare
    assert_eq!(
        registry.check(&request(1, "read_file", &[("path", "x"), ("mode", "r")])),
        Some(Failure::MalformedToolCall)
    );
    assert!(fits(&tool("t", &[]), &Vec::new()));
    assert!(!fits(&tool("t", &[("a", true)]), &Vec::new()));
}

#[test]
fn unknown_tool_fails_at_dispatch_without_running() {
    let registry = ToolRegistry::new();
    let mut coordinator = ToolUseCoordinator::new(4, 100).unwrap();
    let d = coordinator.submit(&registry, &request(1, "read_file", &[("path", "x")]), 0);
    assert_eq!(d, Disposition::Failed(Failure::UnknownTool));
    assert_eq!(coordinator.status(1), Some(CallStatus::Failed(Failure::UnknownTool)));
    let results = coordinator.await_all(&vec![1]).unwrap();
    assert_eq!(results.len(), 1);
    assert_eq!(results[0].id, 1);
    assert_eq!(results[0].status, CallStatus::Failed(Failure::UnknownTool));
    // nothing ran, so there is nothing to complete
    assert_eq!(coordinator.complete(1, true, "late".to_string(), 1), Err(CoordinatorError::NotRunning));
}

#[test]
fn dispatch_bounds_what_runs_and_queues_the_rest_in_order() {
    let registry = registry_with_read_and_grep();
    let mut coordinator = ToolUseCoordinator::new(2, 100).unwrap();
    let requests = vec![
        request(10, "grep", &[("pattern", "a")]),
        request(11, "nope", &[]),
        request(12, "grep", &[("pattern", "b")]),
        request(13, "grep", &[("pattern", "c")]),
        request(14, "grep", &[]),
        request(15, "grep", &[("pattern", "d")]),
        request(10, "grep", &[("pattern", "again")]),
    ];
    let ds = coordinator.dispatch(&registry, &requests, 5);
    assert_eq!(
        ds,
        vec![
            Disposition::Started,
            Disposition::Failed(Failure::UnknownTool),
            Disposition::Started,
            Disposition::Queued,
            Disposition::Failed(Failure::MalformedToolCall),
            Disposition::Queued,
            Disposition::Duplicate,
        ]
    );
    assert_eq!(coordinator.status(13), Some(CallStatus::Requested));
    assert_eq!(coordinator.status(99), None);
    assert!(coordinator.await_all(&vec![10, 11]).is_none());

    // the slot that 12 leaves goes to 13, which waited longest
    assert_eq!(coordinator.complete(12, true, "B".to_string(), 6), Ok(vec![13]));
    assert_eq!(coordinator.status(13), Some(CallStatus::Running));
    assert_eq!(coordinator.status(15), Some(CallStatus::Requested));
    assert_eq!(coordinator.complete(15, true, "x".to_string(), 6), Err(CoordinatorError::NotRunning));
    assert_eq!(coordinator.complete(99, true, "x".to_string(), 6), Err(CoordinatorError::UnknownCall));
    assert_eq!(coordinator.complete(10, false, "boom".to_string(), 7), Ok(vec![15]));
    assert_eq!(coordinator.complete(13, true, "C".to_string(), 8), Ok(vec![]));
    assert!(coordinator.await_all(&vec![10, 11, 12, 13, 14, 15]).is_none());
    assert_eq!(coordinator.complete(15, true, "D".to_string(), 9), Ok(vec![]));
}

#[test]
fn await_all_gives_every_result_though_some_failed() {
    let registry = registry_with_read_and_grep();
    let mut coordinator = ToolUseCoordinator::new(8, 100).unwrap();
    let requests = vec![
        request(1, "grep", &[("pattern", "a")]),
        request(2, "grep", &[("pattern", "b")]),
        request(3, "missing", &[]),
        request(4, "grep", &[("pattern", "c")]),
    ];
    coordinator.dispatch(&registry, &requests, 0);
    coordinator.complete(2, false, "no match".to_string(), 1).unwrap();
    assert!(coordinator.await_all(&vec![1, 2, 3, 4]).is_none());
    coordinator.complete(4, true, "four".to_string(), 2).unwrap();
    coordinator.complete(1, true, "one".to_string(), 3).unwrap();
    // asked for in another order than they ended: the answer follows the ids
    let results = coordinator.await_all(&vec![4, 3, 2, 1]).unwrap();
    let seen: Vec<(u64, CallStatus, &str)> =
        results.iter().map(|r| (r.id, r.status, r.payload.as_str())).collect();
    assert_eq!(
        seen,
        vec![
            (4, CallStatus::Completed, "four"),
            (3, CallStatus::Failed(Failure::UnknownTool), ""),
            (2, CallStatus::Failed(Failure::ToolFailure), "no match"),
            (1, CallStatus::Completed, "one"),
        ]
    );
    assert_eq!(coordinator.await_all(&Vec::new()), Some(Vec::new()));
    assert!(coordinator.await_all(&vec![1, 77]).is_none());
}

#[test]
fn running_calls_time_out_at_their_deadline() {
    let registry = registry_with_read_and_grep();
    let mut coordinator = ToolUseCoordinator::new(1, 10).unwrap();
    let requests = vec![
        request(1, "grep", &[("pattern", "a")]),
        request(2, "grep", &[("pattern", "b")]),
    ];
    coordinator.dispatch(&registry, &requests, 100);
    let early = coordinator.expire(109);
    assert!(early.timed_out.is_empty() && early.started.is_empty());
    let due = coordinator.expire(110);
    assert_eq!(due.timed_out, vec![1]);
    assert_eq!(due.started, vec![2]);
    assert_eq!(coordinator.status(1), Some(CallStatus::TimedOut));
    // the late answer of a call that timed out changes nothing
    assert_eq!(coordinator.complete(1, true, "late".to_string(), 111), Err(CoordinatorError::NotRunning));
    assert_eq!(coordinator.status(1), Some(CallStatus::TimedOut));
    // call 2 started at 110 and has until 120
    assert!(coordinator.expire(119).timed_out.is_empty());
    assert_eq!(coordinator.expire(120).timed_out, vec![2]);
    let results = coordinator.await_all(&vec![1, 2]).unwrap();
    assert_eq!(results[0].status, CallStatus::TimedOut);
    assert_eq!(results[1].status, CallStatus::TimedOut);
}

#[test]
fn deadline_saturates_at_the_end_of_time() {
    let registry = registry_with_read_and_grep();
    let mut coordinator = ToolUseCoordinator::new(1, u64::MAX).unwrap();
    coordinator.submit(&registry, &request(1, "grep", &[("pattern", "a")]), 5);
    assert!(coordinator.expire(u64::MAX - 1).timed_out.is_empty());
    assert_eq!(coordinator.expire(u64::MAX).timed_out, vec![1]);
}

#[test]
fn cancel_one_and_cancel_all() {
    let registry = registry_with_read_and_grep();
    let mut coordinator = ToolUseCoordinator::new(1, 10).unwrap();
    let requests = vec![
        request(1, "grep", &[("pattern", "a")]),
        request(2, "grep", &[("pattern", "b")]),
        request(3, "grep", &[("pattern", "c")]),
    ];
    coordinator.dispatch(&registry, &requests, 0);
    // cancelling a waiting call frees no slot
    assert_eq!(coordinator.cancel(2, 1), Ok(vec![]));
    assert_eq!(coordinator.status(2), Some(CallStatus::Failed(Failure::Cancelled)));
    assert_eq!(coordinator.cancel(2, 1), Err(CoordinatorError::AlreadyEnded));
    assert_eq!(coordinator.cancel(9, 1), Err(CoordinatorError::UnknownCall));
    // cancelling the running call starts the next that waits
    assert_eq!(coordinator.cancel(1, 2), Ok(vec![3]));
    assert_eq!(coordinator.cancel_all(), vec![3]);
    assert_eq!(coordinator.cancel_all(), Vec::<u64>::new());
    let results = coordinator.await_all(&vec![1, 2, 3]).unwrap();
    assert!(results.iter().all(|r| r.status == CallStatus::Failed(Failure::Cancelled)));
}

#[test]
fn coordinator_needs_a_slot() {
    assert!(ToolUseCoordinator::new(0, 10).is_none());
    assert!(ToolUseCoordinator::new(1, 0).is_some());
    assert!(CallStatus::Completed.terminal());
    assert!(CallStatus::TimedOut.terminal());
    assert!(CallStatus::Failed(Failure::ToolFailure).terminal());
    assert!(!CallStatus::Running.terminal());
    assert!(!CallStatus::Requested.terminal());
}
