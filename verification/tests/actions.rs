use assistant2::actions::{
    palette_at_start, palette_for_flag, ManageProfiles, NewThread, PaletteChange, ThreadId,
};
use assistant2::config::EngineConfig;
use assistant2::engine::ThreadEngine;
use assistant2::registry::ToolRegistry;
use assistant2::thread::ThreadStatus;
use std::sync::Arc;

#[test]
fn customize_tools_names_the_profile() {
    let action = ManageProfiles::customize_tools(Arc::from("write"));
    assert_eq!(action.customize_tools.as_deref(), Some("write"));
    assert_eq!(ManageProfiles::default().customize_tools, None);
    assert_ne!(action, ManageProfiles::default());
}

#[test]
fn new_thread_defaults_to_no_source() {
    assert_eq!(NewThread::default().from_thread_id(), None);
    let forked = NewThread::new(Some(ThreadId::new(7)));
    assert_eq!(forked.from_thread_id().map(|id| id.get()), Some(7));
    assert_ne!(forked, NewThread::default());
}

#[test]
fn palette_follows_the_flag() {
    assert_eq!(palette_at_start(), PaletteChange::HideNamespace);
    assert_eq!(palette_for_flag(true), PaletteChange::ShowNamespace);
    assert_eq!(palette_for_flag(false), PaletteChange::HideNamespace);
}

#[test]
fn config_without_a_slot_builds_nothing() {
    let bad = EngineConfig { max_concurrent_tool_calls: 0, context_size_limit: 10, tool_timeout: 5 };
    assert!(!bad.valid());
    assert!(bad.coordinator().is_none());
    assert!(ThreadEngine::new(ThreadId::new(1), None, ToolRegistry::new(), bad).is_none());
    let good = EngineConfig { max_concurrent_tool_calls: 2, context_size_limit: 10, tool_timeout: 5 };
    assert!(good.valid());
    let engine =
        ThreadEngine::new(ThreadId::new(1), Some(ThreadId::new(0)), ToolRegistry::new(), good).unwrap();
    assert_eq!(engine.context_ref().len(), 0);
    assert_eq!(engine.thread_ref().thread_id().get(), 1);
    assert_eq!(engine.thread_ref().forked_from().map(|id| id.get()), Some(0));
    assert_eq!(engine.thread_ref().current_status(), ThreadStatus::Idle);
    assert_eq!(engine.thread_ref().len(), 0);
    assert_eq!(good.assembler().len(), 0);
}
