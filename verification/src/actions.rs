use std::sync::Arc;
use vstd::prelude::*;

verus! {

/// Identifier of a conversation thread. Assigned once, when the thread is
/// created, and never changed afterwards.
#[derive(Clone, Copy, Debug, PartialEq, Eq, Structural)]
pub struct ThreadId {
    raw: u64,
}

impl ThreadId {
    /// The number that stands for the thread.
    pub closed spec fn value(self) -> u64 {
        self.raw
    }

    /// The identifier that `raw` stands for.
    pub fn new(raw: u64) -> (id: ThreadId)
        ensures
            id.value() == raw,
    {
        ThreadId { raw }
    }

    /// The number that stands for the thread.
    pub fn get(&self) -> (raw: u64)
        ensures
            raw == self.value(),
    {
        self.raw
    }
}

/// The action that opens a new thread, forked from an earlier one where
/// `from_thread_id` names it.
#[derive(Clone, Copy, Debug, PartialEq, Eq, Structural)]
pub struct NewThread {
    from_thread_id: Option<ThreadId>,
}

impl NewThread {
    /// The thread to fork from, if any.
    pub closed spec fn source(self) -> Option<ThreadId> {
        self.from_thread_id
    }

    /// A new thread, forked from `from_thread_id` where one is given.
    pub fn new(from_thread_id: Option<ThreadId>) -> (action: NewThread)
        ensures
            action.source() == from_thread_id,
    {
        NewThread { from_thread_id }
    }

    /// The thread to fork from, if any.
    pub fn from_thread_id(&self) -> (source: Option<ThreadId>)
        ensures
            source == self.source(),
    {
        self.from_thread_id
    }
}

impl Default for NewThread {
    /// A new thread that is forked from none.
    fn default() -> (action: NewThread)
        ensures
            action.source() is None,
    {
        NewThread { from_thread_id: None }
    }
}

/// The action that opens the profile manager, straight on the tool
/// customisation of one profile where `customize_tools` names it.
#[derive(Clone, Debug, PartialEq)]
pub struct ManageProfiles {
    pub customize_tools: Option<Arc<str>>,
}

impl ManageProfiles {
    /// Opens the profile manager on the tools of the profile `profile_id`.
    pub fn customize_tools(profile_id: Arc<str>) -> (action: ManageProfiles)
        ensures
            action.customize_tools == Some(profile_id),
    {
        ManageProfiles { customize_tools: Some(profile_id) }
    }
}

impl Default for ManageProfiles {
    /// Opens the profile manager on no profile in particular.
    fn default() -> (action: ManageProfiles)
        ensures
            action.customize_tools is None,
    {
        ManageProfiles { customize_tools: None }
    }
}

/// What is to be done with the agent's actions in the command palette.
#[derive(Clone, Copy, Debug, PartialEq, Eq, Structural)]
pub enum PaletteChange {
    ShowNamespace,
    HideNamespace,
}

/// The palette at start-up, before the feature flag is known: the agent's
/// actions are hidden.
pub fn palette_at_start() -> (change: PaletteChange)
    ensures
        change == PaletteChange::HideNamespace,
{
    PaletteChange::HideNamespace
}

/// The palette once the feature flag is known, and whenever it changes: the
/// agent's actions show exactly while the flag is on.
pub fn palette_for_flag(is_enabled: bool) -> (change: PaletteChange)
    ensures
        change == (if is_enabled {
            PaletteChange::ShowNamespace
        } else {
            PaletteChange::HideNamespace
        }),
{
    if is_enabled {
        PaletteChange::ShowNamespace
    } else {
        PaletteChange::HideNamespace
    }
}

} // verus!
