use crate::actions::ThreadId;
use crate::context::ContextItem;
use crate::registry::ToolRequest;
use crate::tool_use::ToolResult;
use vstd::prelude::*;

verus! {

/// Who a message is from.
#[derive(Clone, Copy, Debug, PartialEq, Eq, Structural)]
pub enum Role {
    User,
    Assistant,
    Tool,
}

/// Where a thread stands in its conversation.
#[derive(Clone, Copy, Debug, PartialEq, Eq, Structural)]
pub enum ThreadStatus {
    Idle,
    AwaitingModel,
    AwaitingTools,
    Streaming,
    Done,
    Errored,
}

impl ThreadStatus {
    /// A new turn may start: no turn was started yet, or the last one ended.
    pub open spec fn is_at_rest(self) -> bool {
        self is Idle || self is Done || self is Errored
    }

    /// The model's response is awaited or arriving.
    pub open spec fn is_listening(self) -> bool {
        self is AwaitingModel || self is Streaming
    }

    /// Whether a new turn may start.
    pub fn at_rest(&self) -> (b: bool)
        ensures
            b == self.is_at_rest(),
    {
        match self {
            ThreadStatus::Idle => true,
            ThreadStatus::Done => true,
            ThreadStatus::Errored => true,
            _ => false,
        }
    }

    /// Whether the model's response is awaited or arriving.
    pub fn listening(&self) -> (b: bool)
        ensures
            b == self.is_listening(),
    {
        match self {
            ThreadStatus::AwaitingModel => true,
            ThreadStatus::Streaming => true,
            _ => false,
        }
    }
}

/// One part of what the assistant said: text, or a call it asks for.
pub enum Segment {
    Text(String),
    ToolCall(ToolRequest),
}

/// What a message holds, by who it is from.
pub enum Body {
    User { text: String, context: Vec<ContextItem> },
    Assistant { segments: Vec<Segment> },
    Tool { result: ToolResult },
}

/// One message of a thread. Its `sequence_index` is its place in the
/// thread, counted from 0. A message does not change once it is appended.
pub struct Message {
    pub sequence_index: u64,
    pub body: Body,
}

impl Message {
    /// Who the message is from.
    pub open spec fn role(&self) -> Role {
        match self.body {
            Body::User { .. } => Role::User,
            Body::Assistant { .. } => Role::Assistant,
            Body::Tool { .. } => Role::Tool,
        }
    }

    /// Who the message is from.
    pub fn role_of(&self) -> (r: Role)
        ensures
            r == self.role(),
    {
        match &self.body {
            Body::User { .. } => Role::User,
            Body::Assistant { .. } => Role::Assistant,
            Body::Tool { .. } => Role::Tool,
        }
    }
}

/// The indices count up from 0 without a gap.
pub open spec fn gapless(messages: Seq<Message>) -> bool {
    forall|i: int| 0 <= i < messages.len() ==> (#[trigger] messages[i]).sequence_index == i
}

/// The tool results that the messages report, in the order of the messages.
pub open spec fn results_of(messages: Seq<Message>) -> Seq<ToolResult>
    decreases messages.len(),
{
    if messages.len() == 0 {
        Seq::empty()
    } else {
        match messages.last().body {
            Body::Tool { result } => results_of(messages.drop_last()).push(result),
            _ => results_of(messages.drop_last()),
        }
    }
}

/// One more message adds its result to those reported if it is a tool
/// message.
pub proof fn lemma_results_push(messages: Seq<Message>, message: Message)
    ensures
        results_of(messages.push(message)) == (match message.body {
            Body::Tool { result } => results_of(messages).push(result),
            _ => results_of(messages),
        }),
{
    assert(messages.push(message).drop_last() =~= messages);
}

/// A conversation: its messages in order, and where it stands.
pub struct Thread {
    id: ThreadId,
    parent: Option<ThreadId>,
    messages: Vec<Message>,
    status: ThreadStatus,
}

impl Thread {
    /// The identifier of the thread.
    pub closed spec fn id(&self) -> ThreadId {
        self.id
    }

    /// The thread that this one was forked from, if it was.
    pub closed spec fn parent(&self) -> Option<ThreadId> {
        self.parent
    }

    /// The messages, oldest first.
    pub closed spec fn messages(&self) -> Seq<Message> {
        self.messages@
    }

    /// Where the thread stands.
    pub closed spec fn status(&self) -> ThreadStatus {
        self.status
    }

    /// The messages are numbered from 0 without a gap.
    pub open spec fn wf(&self) -> bool {
        gapless(self.messages())
    }

    /// An empty thread, forked from `parent` where one is given.
    pub fn new(id: ThreadId, parent: Option<ThreadId>) -> (thread: Thread)
        ensures
            thread.wf(),
            thread.id() == id,
            thread.parent() == parent,
            thread.messages() == Seq::<Message>::empty(),
            thread.status() == ThreadStatus::Idle,
    {
        Thread { id, parent, messages: Vec::new(), status: ThreadStatus::Idle }
    }

    /// The identifier of the thread.
    pub fn thread_id(&self) -> (id: ThreadId)
        ensures
            id == self.id(),
    {
        self.id
    }

    /// The thread that this one was forked from, if it was.
    pub fn forked_from(&self) -> (parent: Option<ThreadId>)
        ensures
            parent == self.parent(),
    {
        self.parent
    }

    /// Where the thread stands.
    pub fn current_status(&self) -> (status: ThreadStatus)
        ensures
            status == self.status(),
    {
        self.status
    }

    /// How many messages the thread holds.
    pub fn len(&self) -> (n: usize)
        ensures
            n == self.messages().len(),
    {
        self.messages.len()
    }

    /// The message at `index`.
    pub fn message(&self, index: usize) -> (m: Option<&Message>)
        ensures
            m is Some <==> index < self.messages().len(),
            m matches Some(message) ==> *message == self.messages()[index as int],
    {
        if index < self.messages.len() {
            Some(&self.messages[index])
        } else {
            None
        }
    }

    /// Appends a message. It gets the next index; the messages before it
    /// stay as they are.
    pub(crate) fn append(&mut self, body: Body)
        requires
            old(self).wf(),
        ensures
            final(self).wf(),
            final(self).messages() == old(self).messages().push(
                Message { sequence_index: old(self).messages().len() as u64, body },
            ),
            final(self).status() == old(self).status(),
            final(self).id() == old(self).id(),
            final(self).parent() == old(self).parent(),
    {
        let index = self.messages.len() as u64;
        self.messages.push(Message { sequence_index: index, body });
    }

    /// A thread that holds stored messages.
    pub(crate) fn restore(id: ThreadId, parent: Option<ThreadId>, messages: Vec<Message>) -> (thread:
        Thread)
        requires
            gapless(messages@),
        ensures
            thread.wf(),
            thread.id() == id,
            thread.parent() == parent,
            thread.messages() == messages@,
            thread.status() == ThreadStatus::Idle,
    {
        Thread { id, parent, messages, status: ThreadStatus::Idle }
    }

    pub(crate) fn set_status(&mut self, status: ThreadStatus)
        ensures
            final(self).messages() == old(self).messages(),
            final(self).status() == status,
            final(self).id() == old(self).id(),
            final(self).parent() == old(self).parent(),
    {
        self.status = status;
    }
}

} // verus!
