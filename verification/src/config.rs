use crate::context::ContextAssembler;
use crate::tool_use::{Call, ToolUseCoordinator};
use vstd::prelude::*;

verus! {

/// The settings that an engine is built with.
#[derive(Clone, Copy, Debug, PartialEq, Eq, Structural)]
pub struct EngineConfig {
    /// How many tool calls may run at a time. At least 1.
    pub max_concurrent_tool_calls: usize,
    /// The most bytes that the context of one request may hold.
    pub context_size_limit: usize,
    /// How long a tool call may run, in the host's units of time.
    pub tool_timeout: u64,
}

impl EngineConfig {
    /// At least one tool call may run.
    pub open spec fn is_valid(&self) -> bool {
        self.max_concurrent_tool_calls >= 1
    }

    /// Whether an engine can be built with these settings.
    pub fn valid(&self) -> (ok: bool)
        ensures
            ok == self.is_valid(),
    {
        self.max_concurrent_tool_calls >= 1
    }

    /// A coordinator with these settings, if they are valid.
    pub fn coordinator(&self) -> (made: Option<ToolUseCoordinator>)
        ensures
            made is Some <==> self.is_valid(),
            made matches Some(c) ==> c.wf() && c.calls() == Seq::<Call>::empty()
                && c.max_in_flight() == self.max_concurrent_tool_calls && c.timeout()
                == self.tool_timeout,
    {
        ToolUseCoordinator::new(self.max_concurrent_tool_calls, self.tool_timeout)
    }

    /// A context assembler with these settings.
    pub fn assembler(&self) -> (made: ContextAssembler)
        ensures
            made.wf(),
            made.attached().len() == 0,
            made.suggested().len() == 0,
            made.limit() == self.context_size_limit,
    {
        ContextAssembler::new(self.context_size_limit)
    }
}

} // verus!
