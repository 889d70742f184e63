use crate::actions::ThreadId;
use crate::config::EngineConfig;
use crate::context::{
    dropped_of, holds, kept_of, position_of, views, with_attached, without, ContextAssembler,
    ContextId, ContextItem,
};
use crate::registry::{ToolRegistry, ToolRequest};
use crate::thread::{
    gapless, lemma_results_push, results_of, Body, Message, Segment, Thread, ThreadStatus,
};
use crate::tool_use::{
    advances, count_running, dispatched, disposition_of, distinct_ids, expired, filled,
    has_call, has_ended, index_of_call, lemma_index_of_call,
    open_ids, overdue_ids, queued_ids, calls_of, payloads_of, restorable, Call, CallStatus,
    CoordinatorError, Disposition, ToolResult, ToolUseCoordinator,
};
use vstd::prelude::*;

verus! {

/// What arrives from the model while it answers.
pub enum ModelEvent {
    ContentDelta(String),
    ToolCallRequest(ToolRequest),
    TurnComplete,
    Error,
}

/// What the engine asks its host to do. The engine decides; the host
/// performs, and reports back what came of it.
#[derive(Clone, Debug, PartialEq)]
pub enum Action {
    /// Send the whole history, with the context, to the model.
    SendRequest,
    /// Invoke the tool of the call with this id.
    InvokeTool(u64),
    /// Stop the tool of the call with this id.
    CancelTool(u64),
    /// Start a generation session on the target, for this turn.
    BeginSession { turn: u64 },
    /// Hand this content to the generation session.
    ForwardContent(String),
    /// Cancel the generation session of the turn.
    CancelSession,
}

/// Why the engine refuses.
#[derive(Clone, Copy, Debug, PartialEq, Eq, Structural)]
pub enum EngineError {
    /// A turn is under way; it has to end or be cancelled first.
    TurnInProgress,
    /// No turn is under way.
    NoTurnInProgress,
    /// The thread does not listen to the model now.
    NotListening,
    /// The thread does not wait for tools now.
    NotAwaitingTools,
    /// The model asked for a call under an id that is taken.
    DuplicateCall,
    /// The coordinator refused.
    Coordinator(CoordinatorError),
}

/// Every call that has been reported stands in the history with the status
/// it ended in, in the order of the calls, and the calls that follow are
/// those that the thread waits for.
pub open spec fn reported(
    messages: Seq<Message>,
    awaiting: Seq<u64>,
    calls: Seq<Call>,
    payloads: Seq<String>,
) -> bool {
    let rs = results_of(messages);
    &&& rs.len() + awaiting.len() == calls.len()
    &&& payloads.len() == calls.len()
    &&& forall|k: int|
        0 <= k < rs.len() ==> (#[trigger] rs[k]).id == calls[k].id && rs[k].status
            == calls[k].status && calls[k].status.is_terminal() && rs[k].payload == payloads[k]
    &&& forall|k: int| 0 <= k < awaiting.len() ==> #[trigger] awaiting[k] == calls[rs.len() + k].id
}

/// The requests carry ids that no call has, each its own.
pub open spec fn fresh(requests: Seq<ToolRequest>, calls: Seq<Call>) -> bool {
    &&& forall|k: int| 0 <= k < requests.len() ==> !has_call(calls, (#[trigger] requests[k]).id)
    &&& forall|j: int, k: int|
        0 <= j < k < requests.len() ==> (#[trigger] requests[j]).id != (#[trigger] requests[k]).id
}

/// The results of the calls `ids`, in that order.
pub open spec fn round_results(ids: Seq<u64>, calls: Seq<Call>, payloads: Seq<String>) -> Seq<
    ToolResult,
> {
    Seq::new(
        ids.len(),
        |k: int|
            ToolResult {
                id: ids[k],
                status: calls[index_of_call(calls, ids[k])].status,
                payload: payloads[index_of_call(calls, ids[k])],
            },
    )
}

/// One tool message for each result, numbered on from `base`.
pub open spec fn tool_messages(base: int, results: Seq<ToolResult>) -> Seq<Message> {
    Seq::new(
        results.len(),
        |k: int| Message { sequence_index: (base + k) as u64, body: Body::Tool { result: results[k] } },
    )
}

/// An order to invoke, for each id.
pub open spec fn invoke_all(ids: Seq<u64>) -> Seq<Action> {
    Seq::new(ids.len(), |k: int| Action::InvokeTool(ids[k]))
}

/// An order to cancel, for each id.
pub open spec fn cancel_each(ids: Seq<u64>) -> Seq<Action> {
    Seq::new(ids.len(), |k: int| Action::CancelTool(ids[k]))
}

/// The ids of the calls that run, in arrival order.
pub open spec fn running_ids(cs: Seq<Call>) -> Seq<u64>
    decreases cs.len(),
{
    if cs.len() == 0 {
        Seq::empty()
    } else if cs.last().status is Running {
        running_ids(cs.drop_last()).push(cs.last().id)
    } else {
        running_ids(cs.drop_last())
    }
}

/// The requests as segments of an assistant message.
pub open spec fn call_segments(requests: Seq<ToolRequest>) -> Seq<Segment> {
    Seq::new(requests.len(), |k: int| Segment::ToolCall(requests[k]))
}

/// The ids of the requests.
pub open spec fn request_ids(requests: Seq<ToolRequest>) -> Seq<u64> {
    Seq::new(requests.len(), |k: int| requests[k].id)
}

/// Drives one thread: it keeps the history, listens to the model, has the
/// tools run that the model asks for, and hands their results back.
pub struct ThreadEngine {
    thread: Thread,
    registry: ToolRegistry,
    coordinator: ToolUseCoordinator,
    context: ContextAssembler,
    segments: Vec<Segment>,
    buffered: Vec<ToolRequest>,
    awaiting: Vec<u64>,
    edit: bool,
    streamed: bool,
    turn: u64,
}

impl ThreadEngine {
    /// The thread that the engine drives.
    pub closed spec fn thread(&self) -> Thread {
        self.thread
    }

    /// The history of the thread.
    pub open spec fn messages(&self) -> Seq<Message> {
        self.thread().messages()
    }

    /// Where the thread stands.
    pub open spec fn status(&self) -> ThreadStatus {
        self.thread().status()
    }

    /// The tools that the model may call.
    pub closed spec fn registry(&self) -> ToolRegistry {
        self.registry
    }

    /// The coordinator that runs the thread's tool calls.
    pub closed spec fn coordinator(&self) -> ToolUseCoordinator {
        self.coordinator
    }

    /// The context that the user has attached to the thread, and what was
    /// suggested for it.
    pub closed spec fn context(&self) -> ContextAssembler {
        self.context
    }

    /// Every tool call of the thread, in arrival order.
    pub open spec fn calls(&self) -> Seq<Call> {
        self.coordinator().calls()
    }

    /// What the model has said in the response that is arriving.
    pub closed spec fn segments(&self) -> Seq<Segment> {
        self.segments@
    }

    /// The calls that the model has asked for in the response that is
    /// arriving. They are dispatched when the response is complete.
    pub closed spec fn buffered(&self) -> Seq<ToolRequest> {
        self.buffered@
    }

    /// The ids of the calls whose results the thread waits for.
    pub closed spec fn awaiting(&self) -> Seq<u64> {
        self.awaiting@
    }

    /// Whether the turn produces edits for a generation session.
    pub closed spec fn edit(&self) -> bool {
        self.edit
    }

    /// Whether content has arrived in the response that is arriving.
    pub closed spec fn streamed(&self) -> bool {
        self.streamed
    }

    /// The turn under way: the index of the user message that started it.
    pub closed spec fn turn(&self) -> u64 {
        self.turn
    }

    /// History, calls and status fit together: every call is reported in
    /// the history or awaited, the thread waits for tools exactly while a
    /// call is awaited, and a response is held only while the thread listens.
    pub open spec fn wf(&self) -> bool {
        &&& self.thread().wf()
        &&& self.registry().wf()
        &&& self.coordinator().wf()
        &&& self.context().wf()
        &&& reported(self.messages(), self.awaiting(), self.calls(), self.coordinator().payloads())
        &&& fresh(self.buffered(), self.calls())
        &&& self.status() is AwaitingTools <==> self.awaiting().len() > 0
        &&& !self.status().is_listening() ==> self.segments().len() == 0 && self.buffered().len()
            == 0
    }

    /// The thread's identity, the tools, the settings and the context are
    /// as in `other`.
    pub open spec fn same_setup(&self, other: &ThreadEngine) -> bool {
        &&& self.thread().id() == other.thread().id()
        &&& self.thread().parent() == other.thread().parent()
        &&& self.registry() == other.registry()
        &&& self.coordinator().same_settings(&other.coordinator())
        &&& self.context() == other.context()
    }

    /// Everything but the context is as in `other`.
    pub open spec fn same_conversation(&self, other: &ThreadEngine) -> bool {
        &&& self.thread() == other.thread()
        &&& self.registry() == other.registry()
        &&& self.coordinator() == other.coordinator()
        &&& self.segments() == other.segments()
        &&& self.buffered() == other.buffered()
        &&& self.awaiting() == other.awaiting()
        &&& self.edit() == other.edit()
        &&& self.streamed() == other.streamed()
        &&& self.turn() == other.turn()
    }

    /// An engine for a new thread, with these settings. There is none that
    /// runs no tool call at all.
    pub fn new(id: ThreadId, parent: Option<ThreadId>, registry: ToolRegistry, config: EngineConfig) -> (made:
        Option<ThreadEngine>)
        requires
            registry.wf(),
        ensures
            made is Some <==> config.is_valid(),
            made matches Some(engine) ==> {
                &&& engine.wf()
                &&& engine.thread().id() == id
                &&& engine.thread().parent() == parent
                &&& engine.messages() == Seq::<Message>::empty()
                &&& engine.status() == ThreadStatus::Idle
                &&& engine.registry() == registry
                &&& engine.calls() == Seq::<Call>::empty()
                &&& engine.configured(config)
                &&& engine.segments().len() == 0
                &&& engine.buffered().len() == 0
                &&& engine.awaiting().len() == 0
            },
    {
        let coordinator = match ToolUseCoordinator::new(
            config.max_concurrent_tool_calls,
            config.tool_timeout,
        ) {
            Some(coordinator) => coordinator,
            None => {
                return None;
            },
        };
        proof {
            coordinator.slots_are_used();
        }
        Some(
            ThreadEngine {
                thread: Thread::new(id, parent),
                registry,
                coordinator,
                context: ContextAssembler::new(config.context_size_limit),
                segments: Vec::new(),
                buffered: Vec::new(),
                awaiting: Vec::new(),
                edit: false,
                streamed: false,
                turn: 0,
            },
        )
    }

    /// The engine runs under these settings, and nothing is attached or
    /// suggested yet.
    pub open spec fn configured(&self, config: EngineConfig) -> bool {
        &&& self.coordinator().max_in_flight() == config.max_concurrent_tool_calls
        &&& self.coordinator().timeout() == config.tool_timeout
        &&& self.context().limit() == config.context_size_limit
        &&& self.context().attached().len() == 0
        &&& self.context().suggested().len() == 0
    }

    /// The thread, to read.
    pub fn thread_ref(&self) -> (thread: &Thread)
        ensures
            *thread == self.thread(),
    {
        &self.thread
    }

    /// The context of the thread, to read.
    pub fn context_ref(&self) -> (context: &ContextAssembler)
        ensures
            *context == self.context(),
    {
        &self.context
    }

    /// The status of the call `id`, if there is such a call.
    pub fn call_status(&self, id: u64) -> (r: Option<CallStatus>)
        requires
            self.wf(),
        ensures
            r is Some <==> has_call(self.calls(), id),
            r matches Some(s) ==> s == self.calls()[index_of_call(self.calls(), id)].status,
    {
        self.coordinator.status(id)
    }

    /// The message indices count up from 0 without a gap.
    pub proof fn sequence_is_gapless(&self)
        requires
            self.wf(),
        ensures
            forall|i: int|
                0 <= i < self.messages().len() ==> (#[trigger] self.messages()[i]).sequence_index
                    == i,
            forall|i: int, j: int|
                0 <= i < j < self.messages().len() ==> (#[trigger] self.messages()[i]).sequence_index
                    < (#[trigger] self.messages()[j]).sequence_index,
    {
    }

    /// Starts a turn with a message of the user. The message is appended
    /// with the context attached to it, and the model is to be asked.
    pub fn start_turn(&mut self, text: String, context: Vec<ContextItem>, edit: bool) -> (r: Result<
        Vec<Action>,
        EngineError,
    >)
        requires
            old(self).wf(),
        ensures
            final(self).wf(),
            final(self).same_setup(old(self)),
            final(self).coordinator() == old(self).coordinator(),
            match r {
                Ok(actions) => {
                    &&& old(self).status().is_at_rest()
                    &&& final(self).messages() == old(self).messages().push(
                        Message {
                            sequence_index: old(self).messages().len() as u64,
                            body: Body::User { text, context },
                        },
                    )
                    &&& final(self).status() == ThreadStatus::AwaitingModel
                    &&& final(self).turn() == old(self).messages().len()
                    &&& final(self).edit() == edit
                    &&& !final(self).streamed()
                    &&& final(self).segments().len() == 0
                    &&& final(self).buffered().len() == 0
                    &&& actions@ == seq![Action::SendRequest]
                },
                Err(e) => {
                    &&& !old(self).status().is_at_rest()
                    &&& e == EngineError::TurnInProgress
                    &&& *final(self) == *old(self)
                },
            },
    {
        if !self.thread.current_status().at_rest() {
            return Err(EngineError::TurnInProgress);
        }
        let ghost before = self.thread.messages();
        let turn = self.thread.len() as u64;
        let ghost message = Message { sequence_index: turn, body: Body::User { text, context } };
        self.thread.append(Body::User { text, context });
        self.thread.set_status(ThreadStatus::AwaitingModel);
        self.turn = turn;
        self.edit = edit;
        self.streamed = false;
        proof {
            lemma_results_push(before, message);
        }
        let mut actions: Vec<Action> = Vec::new();
        actions.push(Action::SendRequest);
        Ok(actions)
    }
}

/// The call that a request becomes when it is taken.
pub open spec fn entering(
    cs: Seq<Call>,
    id: u64,
    verdict: Option<crate::registry::Failure>,
    now: u64,
    max: nat,
    timeout: u64,
) -> Call {
    match verdict {
        Some(f) => Call { id, status: CallStatus::Failed(f), deadline: 0 },
        None => if count_running(cs) < max {
            Call { id, status: CallStatus::Running, deadline: crate::tool_use::deadline_for(now, timeout) }
        } else {
            Call { id, status: CallStatus::Requested, deadline: 0 }
        },
    }
}

/// The calls when the first `k` of the requests have been dispatched.
pub open spec fn stage(
    cs: Seq<Call>,
    registry: ToolRegistry,
    requests: Seq<ToolRequest>,
    now: u64,
    max: nat,
    timeout: u64,
    k: int,
) -> Seq<Call> {
    dispatched(cs, registry, requests.take(k), now, max, timeout)
}

/// Requests under fresh ids are all taken: each becomes one call, in the
/// order of the requests, behind the calls that were there.
pub proof fn lemma_dispatch_fresh(
    cs: Seq<Call>,
    registry: ToolRegistry,
    requests: Seq<ToolRequest>,
    now: u64,
    max: nat,
    timeout: u64,
)
    requires
        fresh(requests, cs),
    ensures
        ({
            let out = dispatched(cs, registry, requests, now, max, timeout);
            &&& out.len() == cs.len() + requests.len()
            &&& forall|i: int| 0 <= i < cs.len() ==> #[trigger] out[i] == cs[i]
            &&& forall|i: int|
                cs.len() <= i < out.len() ==> #[trigger] out[i] == entering(
                    stage(cs, registry, requests, now, max, timeout, i - cs.len()),
                    requests[i - cs.len()].id,
                    registry.verdict(requests[i - cs.len()]),
                    now,
                    max,
                    timeout,
                )
        }),
    decreases requests.len(),
{
    let out = dispatched(cs, registry, requests, now, max, timeout);
    if requests.len() > 0 {
        let init = requests.drop_last();
        let last = requests.last();
        let n = init.len() as int;
        assert(fresh(init, cs)) by {
            assert forall|k: int| 0 <= k < init.len() implies !has_call(cs, (#[trigger] init[k]).id) by {
                assert(init[k] == requests[k]);
            }
            assert forall|j: int, k: int| 0 <= j < k < init.len() implies (#[trigger] init[j]).id
                != (#[trigger] init[k]).id by {
                assert(init[j] == requests[j] && init[k] == requests[k]);
            }
        }
        lemma_dispatch_fresh(cs, registry, init, now, max, timeout);
        let mid = dispatched(cs, registry, init, now, max, timeout);
        assert(last == requests[n]);
        assert(!has_call(mid, last.id)) by {
            if has_call(mid, last.id) {
                let i = index_of_call(mid, last.id);
                if i < cs.len() {
                    assert(mid[i] == cs[i]);
                    assert(!has_call(cs, requests[n].id));
                    assert(cs[i].id == last.id);
                } else {
                    let k = i - cs.len();
                    assert(init[k] == requests[k]);
                    assert(requests[k].id != requests[n].id);
                }
            }
        }
        assert(requests.take(n) =~= init);
        assert(out == mid.push(entering(mid, last.id, registry.verdict(last), now, max, timeout)));
        assert forall|i: int| cs.len() <= i < out.len() implies #[trigger] out[i] == entering(
            stage(cs, registry, requests, now, max, timeout, i - cs.len()),
            requests[i - cs.len()].id,
            registry.verdict(requests[i - cs.len()]),
            now,
            max,
            timeout,
        ) by {
            let k = i - cs.len();
            if k < n {
                assert(init.take(k) =~= requests.take(k));
                assert(init[k] == requests[k]);
                assert(out[i] == mid[i]);
                assert(stage(cs, registry, init, now, max, timeout, k) == stage(
                    cs,
                    registry,
                    requests,
                    now,
                    max,
                    timeout,
                    k,
                ));
            }
        }
    }
}

/// One more call adds its id to the running ones if it runs.
pub proof fn lemma_running_push(cs: Seq<Call>, c: Call)
    ensures
        running_ids(cs.push(c)) == (if c.status is Running {
            running_ids(cs).push(c.id)
        } else {
            running_ids(cs)
        }),
{
    assert(cs.push(c).drop_last() =~= cs);
}

/// Once every awaited call has ended and its result stands in the history,
/// nothing is awaited and every call is reported.
proof fn lemma_round_reported(
    messages: Seq<Message>,
    after: Seq<Message>,
    awaiting: Seq<u64>,
    calls: Seq<Call>,
    payloads: Seq<String>,
)
    requires
        reported(messages, awaiting, calls, payloads),
        distinct_ids(calls),
        forall|k: int| 0 <= k < awaiting.len() ==> has_ended(calls, #[trigger] awaiting[k]),
        results_of(after) == results_of(messages) + round_results(awaiting, calls, payloads),
    ensures
        reported(after, Seq::<u64>::empty(), calls, payloads),
{
    let rs = results_of(messages);
    let rs2 = results_of(after);
    assert forall|k: int| 0 <= k < rs2.len() implies (#[trigger] rs2[k]).id == calls[k].id
        && rs2[k].status == calls[k].status && calls[k].status.is_terminal() && rs2[k].payload
        == payloads[k] by {
        if k < rs.len() {
            assert(rs2[k] == rs[k]);
        } else {
            let j = k - rs.len();
            assert(awaiting[j] == calls[rs.len() + j].id);
            lemma_index_of_call(calls, awaiting[j], k);
            assert(has_ended(calls, awaiting[j]));
            assert(rs2[k] == round_results(awaiting, calls, payloads)[j]);
        }
    }
}

/// The message at `index` is what the assistant said: these segments.
pub open spec fn is_reply(message: Message, index: int, segments: Seq<Segment>) -> bool {
    &&& message.sequence_index == index
    &&& message.body matches Body::Assistant { segments: said }
    &&& said@ == segments
}

impl ThreadEngine {
    /// Every awaited call has ended.
    pub open spec fn round_is_over(&self) -> bool {
        forall|k: int|
            0 <= k < self.awaiting().len() ==> has_ended(self.calls(), #[trigger] self.awaiting()[k])
    }

    /// The bookkeeping between history and calls is right; the status may
    /// still be on its way.
    closed spec fn sound(&self) -> bool {
        &&& self.thread.wf()
        &&& self.registry.wf()
        &&& self.coordinator.wf()
        &&& self.context.wf()
        &&& reported(
            self.thread.messages(),
            self.awaiting@,
            self.coordinator.calls(),
            self.coordinator.payloads(),
        )
        &&& fresh(self.buffered@, self.coordinator.calls())
    }

    /// Folds the results of the awaited calls into the history, if every
    /// one of them has ended: one tool message for each, in the order in
    /// which the calls were asked for.
    fn settle_round(&mut self) -> (over: bool)
        requires
            old(self).sound(),
        ensures
            final(self).sound(),
            final(self).same_setup(old(self)),
            final(self).coordinator() == old(self).coordinator(),
            final(self).segments() == old(self).segments(),
            final(self).buffered() == old(self).buffered(),
            final(self).edit() == old(self).edit(),
            final(self).streamed() == old(self).streamed(),
            final(self).turn() == old(self).turn(),
            over == old(self).round_is_over(),
            over ==> {
                &&& final(self).messages() == old(self).messages() + tool_messages(
                    old(self).messages().len() as int,
                    round_results(
                        old(self).awaiting(),
                        old(self).calls(),
                        old(self).coordinator().payloads(),
                    ),
                )
                &&& final(self).awaiting().len() == 0
                &&& final(self).status() == ThreadStatus::AwaitingModel
            },
            !over ==> *final(self) == *old(self),
    {
        let ghost before = self.thread.messages();
        let ghost base = before.len() as int;
        let ghost expected = round_results(
            self.awaiting@,
            self.coordinator.calls(),
            self.coordinator.payloads(),
        );
        match self.coordinator.await_all(&self.awaiting) {
            None => {
                proof {
                    let k = choose|k: int|
                        0 <= k < self.awaiting@.len() && !has_ended(
                            self.coordinator.calls(),
                            #[trigger] self.awaiting@[k],
                        );
                    assert(!has_ended(self.calls(), self.awaiting()[k]));
                }
                false
            },
            Some(mut results) => {
                let ghost all = results@;
                let ghost mut k: int = 0;
                proof {
                    assert forall|j: int| 0 <= j < self.awaiting().len() implies has_ended(
                        self.calls(),
                        #[trigger] self.awaiting()[j],
                    ) by {
                        assert(has_ended(self.coordinator.calls(), self.awaiting@[j]));
                    }
                    assert(all =~= expected);
                    assert(before + tool_messages(base, all.take(0)) =~= before);
                    assert(results_of(before) + all.take(0) =~= results_of(before));
                }
                while results.len() > 0
                    invariant
                        0 <= k <= all.len(),
                        results@ == all.skip(k),
                        self.thread.wf(),
                        self.coordinator == old(self).coordinator,
                        self.registry == old(self).registry,
                        self.context == old(self).context,
                        self.awaiting == old(self).awaiting,
                        self.buffered == old(self).buffered,
                        self.segments == old(self).segments,
                        self.edit == old(self).edit,
                        self.streamed == old(self).streamed,
                        self.turn == old(self).turn,
                        self.thread.messages() == before + tool_messages(base, all.take(k)),
                        results_of(self.thread.messages()) == results_of(before) + all.take(k),
                        self.thread.status() == old(self).thread.status(),
                        self.thread.id() == old(self).thread.id(),
                        self.thread.parent() == old(self).thread.parent(),
                        base == before.len(),
                    decreases results.len(),
                {
                    let ghost so_far = self.thread.messages();
                    let result = results.remove(0);
                    self.thread.append(Body::Tool { result });
                    let ghost message = self.thread.messages().last();
                    proof {
                        assert(result == all[k]);
                        lemma_results_push(so_far, message);
                        assert(all.take(k + 1) =~= all.take(k).push(all[k]));
                        assert(results@ =~= all.skip(k + 1));
                        assert(self.thread.messages() =~= before + tool_messages(
                            base,
                            all.take(k + 1),
                        ));
                        k = k + 1;
                    }
                }
                proof {
                    assert(all.take(all.len() as int) =~= all);
                    self.coordinator.slots_are_used();
                    lemma_round_reported(
                        before,
                        self.thread.messages(),
                        self.awaiting@,
                        self.coordinator.calls(),
                        self.coordinator.payloads(),
                    );
                }
                self.awaiting.clear();
                self.thread.set_status(ThreadStatus::AwaitingModel);
                true
            },
        }
    }
}

/// While fresh requests are dispatched, the next one is still unknown.
pub proof fn lemma_stage_fresh(
    cs: Seq<Call>,
    registry: ToolRegistry,
    requests: Seq<ToolRequest>,
    now: u64,
    max: nat,
    timeout: u64,
    k: int,
)
    requires
        fresh(requests, cs),
        0 <= k < requests.len(),
    ensures
        !has_call(stage(cs, registry, requests, now, max, timeout, k), requests[k].id),
        stage(cs, registry, requests, now, max, timeout, k).len() == cs.len() + k,
{
    let head = requests.take(k);
    let mid = stage(cs, registry, requests, now, max, timeout, k);
    assert(fresh(head, cs)) by {
        assert forall|j: int| 0 <= j < head.len() implies !has_call(cs, (#[trigger] head[j]).id) by {
            assert(head[j] == requests[j]);
        }
        assert forall|i: int, j: int| 0 <= i < j < head.len() implies (#[trigger] head[i]).id != (
        #[trigger] head[j]).id by {
            assert(head[i] == requests[i] && head[j] == requests[j]);
        }
    }
    lemma_dispatch_fresh(cs, registry, head, now, max, timeout);
    if has_call(mid, requests[k].id) {
        let i = index_of_call(mid, requests[k].id);
        if i < cs.len() {
            assert(mid[i] == cs[i]);
            assert(!has_call(cs, requests[k].id));
            assert(cs[i].id == requests[k].id);
        } else {
            let j = i - cs.len();
            assert(head[j] == requests[j]);
            assert(requests[j].id != requests[k].id);
        }
    }
}

impl ThreadEngine {
    /// A call with this id exists, or the model has asked for one in the
    /// response that is arriving.
    pub open spec fn knows_call(&self, id: u64) -> bool {
        has_call(self.calls(), id) || exists|k: int|
            0 <= k < self.buffered().len() && (#[trigger] self.buffered()[k]).id == id
    }

    fn is_known(&self, id: u64) -> (known: bool)
        requires
            self.sound(),
        ensures
            known == self.knows_call(id),
    {
        if self.coordinator.status(id).is_some() {
            return true;
        }
        let n = self.buffered.len();
        let mut k: usize = 0;
        while k < n
            invariant
                n == self.buffered.len(),
                k <= n,
                forall|j: int| 0 <= j < k ==> (#[trigger] self.buffered@[j]).id != id,
            decreases n - k,
        {
            if self.buffered[k].id == id {
                proof {
                    assert(self.buffered()[k as int].id == id);
                }
                return true;
            }
            k = k + 1;
        }
        false
    }

    /// Dispatches the calls that the model asked for, and appends what the
    /// assistant said, text first and calls after, as one message.
    fn complete_reply(&mut self, now: u64) -> (actions: Vec<Action>)
        requires
            old(self).sound(),
            old(self).awaiting().len() == 0,
        ensures
            final(self).sound(),
            final(self).same_setup(old(self)),
            final(self).status() == old(self).status(),
            final(self).edit() == old(self).edit(),
            final(self).streamed() == old(self).streamed(),
            final(self).turn() == old(self).turn(),
            final(self).segments().len() == 0,
            final(self).buffered().len() == 0,
            final(self).awaiting() == request_ids(old(self).buffered()),
            final(self).calls() == dispatched(
                old(self).calls(),
                old(self).registry(),
                old(self).buffered(),
                now,
                old(self).coordinator().max_in_flight(),
                old(self).coordinator().timeout(),
            ),
            final(self).calls().len() == old(self).calls().len() + old(self).buffered().len(),
            advances(old(self).calls(), final(self).calls()),
            final(self).messages().len() == old(self).messages().len() + 1,
            final(self).messages().drop_last() == old(self).messages(),
            is_reply(
                final(self).messages().last(),
                old(self).messages().len() as int,
                old(self).segments() + call_segments(old(self).buffered()),
            ),
            actions@ == invoke_all(
                running_ids(final(self).calls().skip(old(self).calls().len() as int)),
            ),
    {
        let ghost cs = self.coordinator.calls();
        let ghost reqs = self.buffered@;
        let ghost base = cs.len() as int;
        let ghost max = self.coordinator.max_in_flight();
        let ghost timeout = self.coordinator.timeout();
        let ghost registry = self.registry;
        let ghost before = self.thread.messages();
        proof {
            lemma_dispatch_fresh(cs, registry, reqs, now, max, timeout);
            self.coordinator.slots_are_used();
        }
        let ds = self.coordinator.dispatch(&self.registry, &self.buffered, now);
        let ghost cs2 = self.coordinator.calls();
        let ghost news = cs2.skip(base);
        let ghost mid = *self;
        let n = self.buffered.len();
        let mut actions: Vec<Action> = Vec::new();
        let mut k: usize = 0;
        proof {
            self.coordinator.slots_are_used();
            assert(news.take(0) =~= Seq::<Call>::empty());
            assert(actions@ =~= invoke_all(running_ids(news.take(0))));
            assert(self.awaiting@ =~= request_ids(reqs).take(0));
        }
        while k < n
            invariant
                self.thread == mid.thread,
                self.registry == mid.registry,
                self.coordinator == mid.coordinator,
                self.context == mid.context,
                self.segments == mid.segments,
                self.buffered == mid.buffered,
                self.edit == mid.edit,
                self.streamed == mid.streamed,
                self.turn == mid.turn,
                n == self.buffered.len(),
                reqs == self.buffered@,
                k <= n,
                ds@.len() == n,
                news.len() == n,
                news == cs2.skip(base),
                cs2.len() == base + n,
                fresh(reqs, cs),
                base == cs.len(),
                forall|j: int|
                    0 <= j < n ==> #[trigger] ds@[j] == disposition_of(
                        stage(cs, registry, reqs, now, max, timeout, j),
                        reqs[j].id,
                        registry.verdict(reqs[j]),
                        max,
                    ),
                forall|i: int|
                    base <= i < cs2.len() ==> #[trigger] cs2[i] == entering(
                        stage(cs, registry, reqs, now, max, timeout, i - base),
                        reqs[i - base].id,
                        registry.verdict(reqs[i - base]),
                        now,
                        max,
                        timeout,
                    ),
                actions@ == invoke_all(running_ids(news.take(k as int))),
                self.awaiting@ == request_ids(reqs).take(k as int),
            decreases n - k,
        {
            let id = self.buffered[k].id;
            proof {
                lemma_stage_fresh(cs, registry, reqs, now, max, timeout, k as int);
                assert(news[k as int] == cs2[base + k]);
                assert(news.take(k as int + 1) =~= news.take(k as int).push(news[k as int]));
                lemma_running_push(news.take(k as int), news[k as int]);
            }
            let begun = match ds[k] {
                Disposition::Started => true,
                _ => false,
            };
            let ghost so_far = actions@;
            if begun {
                actions.push(Action::InvokeTool(id));
            }
            self.awaiting.push(id);
            proof {
                assert(actions@ =~= invoke_all(running_ids(news.take(k as int + 1))));
                assert(self.awaiting@ =~= request_ids(reqs).take(k as int + 1));
            }
            k = k + 1;
        }
        proof {
            assert(news.take(n as int) =~= news);
            assert(request_ids(reqs).take(n as int) =~= request_ids(reqs));
        }
        self.close_reply();
        proof {
            let i = self.thread.messages().len() - 1;
            assert(self.thread.messages().drop_last() == before);
            assert(self.thread.messages() =~= before.push(self.thread.messages().last()));
            lemma_results_push(before, self.thread.messages().last());
            let rs = results_of(before);
            assert(rs.len() == base);
            assert forall|j: int| 0 <= j < self.awaiting@.len() implies #[trigger] self.awaiting@[j]
                == cs2[rs.len() + j].id by {
                assert(cs2[base + j].id == reqs[j].id);
            }
        }
        actions
    }

    /// Appends what the assistant said as one message: the text in the
    /// order in which it arrived, then the calls in the order in which they
    /// were asked for.
    fn close_reply(&mut self)
        requires
            old(self).thread.wf(),
        ensures
            final(self).thread.wf(),
            final(self).thread.id() == old(self).thread.id(),
            final(self).thread.parent() == old(self).thread.parent(),
            final(self).thread.status() == old(self).thread.status(),
            final(self).registry == old(self).registry,
            final(self).coordinator == old(self).coordinator,
            final(self).context == old(self).context,
            final(self).awaiting == old(self).awaiting,
            final(self).edit == old(self).edit,
            final(self).streamed == old(self).streamed,
            final(self).turn == old(self).turn,
            final(self).segments@.len() == 0,
            final(self).buffered@.len() == 0,
            final(self).thread.messages().len() == old(self).thread.messages().len() + 1,
            final(self).thread.messages().drop_last() == old(self).thread.messages(),
            is_reply(
                final(self).thread.messages().last(),
                old(self).thread.messages().len() as int,
                old(self).segments@ + call_segments(old(self).buffered@),
            ),
    {
        let ghost text = self.segments@;
        let ghost reqs = self.buffered@;
        let mut said: Vec<Segment> = Vec::new();
        said.append(&mut self.segments);
        let ghost mut k: int = 0;
        proof {
            assert(said@ =~= text + call_segments(reqs.take(0)));
        }
        while self.buffered.len() > 0
            invariant
                0 <= k <= reqs.len(),
                self.buffered@ == reqs.skip(k),
                said@ == text + call_segments(reqs.take(k)),
                self.segments@.len() == 0,
                self.thread == old(self).thread,
                self.registry == old(self).registry,
                self.coordinator == old(self).coordinator,
                self.context == old(self).context,
                self.awaiting == old(self).awaiting,
                self.edit == old(self).edit,
                self.streamed == old(self).streamed,
                self.turn == old(self).turn,
            decreases self.buffered.len(),
        {
            let request = self.buffered.remove(0);
            said.push(Segment::ToolCall(request));
            proof {
                assert(request == reqs[k]);
                assert(self.buffered@ =~= reqs.skip(k + 1));
                assert(reqs.take(k + 1) =~= reqs.take(k).push(reqs[k]));
                assert(said@ =~= text + call_segments(reqs.take(k + 1)));
                k = k + 1;
            }
        }
        proof {
            assert(reqs.take(reqs.len() as int) =~= reqs);
        }
        let ghost before = self.thread.messages();
        self.thread.append(Body::Assistant { segments: said });
        proof {
            assert(self.thread.messages().drop_last() =~= before);
        }
    }
}

/// The calls from position `base` on have all ended exactly when every
/// one of the ids, which are theirs, is the id of a call that has ended.
proof fn lemma_round_over(calls: Seq<Call>, base: int, ids: Seq<u64>)
    requires
        distinct_ids(calls),
        0 <= base,
        base + ids.len() == calls.len(),
        forall|k: int| 0 <= k < ids.len() ==> #[trigger] ids[k] == calls[base + k].id,
    ensures
        (forall|k: int| 0 <= k < ids.len() ==> has_ended(calls, #[trigger] ids[k])) <==> (forall|
            i: int,
        | base <= i < calls.len() ==> (#[trigger] calls[i]).status.is_terminal()),
        forall|k: int| 0 <= k < ids.len() ==> index_of_call(calls, #[trigger] ids[k]) == base + k,
{
    assert forall|k: int| 0 <= k < ids.len() implies index_of_call(calls, #[trigger] ids[k]) == base
        + k by {
        lemma_index_of_call(calls, ids[k], base + k);
    }
    if forall|k: int| 0 <= k < ids.len() ==> has_ended(calls, #[trigger] ids[k]) {
        assert forall|i: int| base <= i < calls.len() implies (#[trigger] calls[i]).status.is_terminal() by {
            assert(has_ended(calls, ids[i - base]));
        }
    }
    if forall|i: int| base <= i < calls.len() ==> (#[trigger] calls[i]).status.is_terminal() {
        assert forall|k: int| 0 <= k < ids.len() implies has_ended(calls, #[trigger] ids[k]) by {
            lemma_index_of_call(calls, ids[k], base + k);
            assert(calls[base + k].status.is_terminal());
        }
    }
}

impl ThreadEngine {
    /// What a content delta does: the text is noted, and in a turn that
    /// produces edits it is handed on at once, behind the start of a
    /// session where it is the first of its response.
    pub open spec fn delta_applied(&self, post: &ThreadEngine, text: String, actions: Seq<Action>) -> bool {
        &&& post.messages() == self.messages()
        &&& post.status() == ThreadStatus::Streaming
        &&& post.coordinator() == self.coordinator()
        &&& post.segments() == self.segments().push(Segment::Text(text))
        &&& post.buffered() == self.buffered()
        &&& post.awaiting() == self.awaiting()
        &&& post.edit() == self.edit()
        &&& post.turn() == self.turn()
        &&& post.streamed()
        &&& actions == (if !self.edit() {
            Seq::<Action>::empty()
        } else if self.streamed() {
            seq![Action::ForwardContent(text)]
        } else {
            seq![Action::BeginSession { turn: self.turn() }, Action::ForwardContent(text)]
        })
    }

    /// What a request for a tool call does: it is kept until the response
    /// is complete, so that content that arrives with it goes out first.
    pub open spec fn call_buffered(&self, post: &ThreadEngine, request: ToolRequest, actions: Seq<Action>) -> bool {
        &&& post.messages() == self.messages()
        &&& post.status() == ThreadStatus::Streaming
        &&& post.coordinator() == self.coordinator()
        &&& post.segments() == self.segments()
        &&& post.buffered() == self.buffered().push(request)
        &&& post.awaiting() == self.awaiting()
        &&& post.edit() == self.edit()
        &&& post.turn() == self.turn()
        &&& post.streamed() == self.streamed()
        &&& actions.len() == 0
    }

    /// What stopping the turn does, by cancelling it or because the model
    /// or the transport failed. Calls that have not ended are cancelled and
    /// reported as such in the history, which is otherwise untouched; what
    /// had arrived of a response is let go; in a turn that produces edits
    /// the generation session is to be cancelled, and what it wrote stays
    /// for review.
    pub open spec fn turn_stopped(
        &self,
        post: &ThreadEngine,
        status: ThreadStatus,
        actions: Seq<Action>,
    ) -> bool {
        &&& post.status() == status
        &&& post.segments().len() == 0
        &&& post.buffered().len() == 0
        &&& post.awaiting().len() == 0
        &&& post.edit() == self.edit()
        &&& post.turn() == self.turn()
        &&& post.calls() == crate::tool_use::all_cancelled(self.calls())
        &&& post.coordinator().payloads() == self.coordinator().payloads()
        &&& post.messages() == self.messages() + tool_messages(
            self.messages().len() as int,
            round_results(self.awaiting(), post.calls(), post.coordinator().payloads()),
        )
        &&& actions == cancel_each(open_ids(self.calls())) + (if self.edit() {
            seq![Action::CancelSession]
        } else {
            Seq::<Action>::empty()
        })
    }

    /// Why an event of the model is refused, if it is. A failure is taken
    /// whenever a turn is under way; anything else only while the thread
    /// listens to the model, and a call only under an id that is free.
    pub open spec fn event_refusal(&self, event: ModelEvent) -> Option<EngineError> {
        match event {
            ModelEvent::Error => if self.status().is_at_rest() {
                Some(EngineError::NotListening)
            } else {
                None
            },
            ModelEvent::ToolCallRequest(request) => if !self.status().is_listening() {
                Some(EngineError::NotListening)
            } else if self.knows_call(request.id) {
                Some(EngineError::DuplicateCall)
            } else {
                None
            },
            _ => if !self.status().is_listening() {
                Some(EngineError::NotListening)
            } else {
                None
            },
        }
    }

    /// What the end of a response does. The assistant's message is
    /// appended. Without calls the turn is done. With calls, they are
    /// dispatched in the order asked for; where every one of them has ended
    /// at once, their results are appended and the model is asked again,
    /// else the thread waits for the tools.
    pub open spec fn reply_completed(&self, post: &ThreadEngine, now: u64, actions: Seq<Action>) -> bool {
        let n = self.messages().len() as int;
        let requests = self.buffered();
        let base = self.calls().len() as int;
        let calls = dispatched(
            self.calls(),
            self.registry(),
            requests,
            now,
            self.coordinator().max_in_flight(),
            self.coordinator().timeout(),
        );
        &&& post.calls() == calls
        &&& calls.len() == base + requests.len()
        &&& post.messages().len() > n
        &&& post.messages().take(n) == self.messages()
        &&& is_reply(post.messages()[n], n, self.segments() + call_segments(requests))
        &&& post.segments().len() == 0
        &&& post.buffered().len() == 0
        &&& post.edit() == self.edit()
        &&& post.turn() == self.turn()
        &&& !post.streamed()
        &&& if requests.len() == 0 {
            &&& post.messages().len() == n + 1
            &&& post.status() == ThreadStatus::Done
            &&& post.awaiting().len() == 0
            &&& actions.len() == 0
        } else if forall|i: int| base <= i < calls.len() ==> (#[trigger] calls[i]).status.is_terminal() {
            &&& post.messages().skip(n + 1) == tool_messages(
                n + 1,
                round_results(request_ids(requests), calls, post.coordinator().payloads()),
            )
            &&& post.status() == ThreadStatus::AwaitingModel
            &&& post.awaiting().len() == 0
            &&& actions == invoke_all(running_ids(calls.skip(base))).push(Action::SendRequest)
        } else {
            &&& post.messages().len() == n + 1
            &&& post.status() == ThreadStatus::AwaitingTools
            &&& post.awaiting() == request_ids(requests)
            &&& actions == invoke_all(running_ids(calls.skip(base)))
        }
    }

    /// Takes one event of the model's response.
    pub fn on_model_event(&mut self, event: ModelEvent, now: u64) -> (r: Result<
        Vec<Action>,
        EngineError,
    >)
        requires
            old(self).wf(),
        ensures
            final(self).wf(),
            final(self).same_setup(old(self)),
            advances(old(self).calls(), final(self).calls()),
            extends(old(self).messages(), final(self).messages()),
            match r {
                Ok(actions) => {
                    &&& old(self).event_refusal(event) is None
                    &&& match event {
                        ModelEvent::ContentDelta(text) => old(self).delta_applied(
                            final(self),
                            text,
                            actions@,
                        ),
                        ModelEvent::ToolCallRequest(request) => old(self).call_buffered(
                            final(self),
                            request,
                            actions@,
                        ),
                        ModelEvent::TurnComplete => old(self).reply_completed(
                            final(self),
                            now,
                            actions@,
                        ),
                        ModelEvent::Error => old(self).turn_stopped(
                            final(self),
                            ThreadStatus::Errored,
                            actions@,
                        ),
                    }
                },
                Err(e) => {
                    &&& *final(self) == *old(self)
                    &&& old(self).event_refusal(event) == Some(e)
                },
            },
    {
        let status = self.thread.current_status();
        let failed = match &event {
            ModelEvent::Error => true,
            _ => false,
        };
        if (failed && status.at_rest()) || (!failed && !status.listening()) {
            return Err(EngineError::NotListening);
        }
        match event {
            ModelEvent::ContentDelta(text) => {
                let mut actions: Vec<Action> = Vec::new();
                if self.edit {
                    if !self.streamed {
                        actions.push(Action::BeginSession { turn: self.turn });
                    }
                    actions.push(Action::ForwardContent(text.clone()));
                }
                self.segments.push(Segment::Text(text));
                self.streamed = true;
                self.thread.set_status(ThreadStatus::Streaming);
                proof {
                    assert(actions@ =~= (if !old(self).edit() {
                        Seq::<Action>::empty()
                    } else if old(self).streamed() {
                        seq![Action::ForwardContent(text)]
                    } else {
                        seq![
                            Action::BeginSession { turn: old(self).turn() },
                            Action::ForwardContent(text),
                        ]
                    }));
                }
                Ok(actions)
            },
            ModelEvent::ToolCallRequest(request) => {
                if self.is_known(request.id) {
                    return Err(EngineError::DuplicateCall);
                }
                let ghost before = self.buffered@;
                self.buffered.push(request);
                self.thread.set_status(ThreadStatus::Streaming);
                proof {
                    let now_buffered = self.buffered@;
                    assert forall|k: int| 0 <= k < now_buffered.len() implies !has_call(
                        self.calls(),
                        (#[trigger] now_buffered[k]).id,
                    ) by {
                        if k < before.len() {
                            assert(now_buffered[k] == before[k]);
                        }
                    }
                    assert forall|j: int, k: int| 0 <= j < k < now_buffered.len() implies (
                    #[trigger] now_buffered[j]).id != (#[trigger] now_buffered[k]).id by {
                        assert(now_buffered[j] == before[j]);
                        if k < before.len() {
                            assert(now_buffered[k] == before[k]);
                        } else {
                            assert(old(self).buffered()[j].id != request.id);
                        }
                    }
                }
                Ok(Vec::new())
            },
            ModelEvent::TurnComplete => {
                let with_calls = self.buffered.len() > 0;
                let ghost n = self.thread.messages().len() as int;
                let ghost base = self.calls().len() as int;
                let mut actions = self.complete_reply(now);
                self.streamed = false;
                let ghost mid = *self;
                proof {
                    assert(mid.messages().take(n) =~= old(self).messages());
                    assert(mid.messages()[n] == mid.messages().last());
                    self.coordinator.slots_are_used();
                    lemma_round_over(self.calls(), base, self.awaiting());
                }
                if !with_calls {
                    self.thread.set_status(ThreadStatus::Done);
                } else if self.settle_round() {
                    actions.push(Action::SendRequest);
                    proof {
                        assert(self.messages().take(n) =~= old(self).messages());
                        assert(self.messages()[n] == mid.messages()[n]);
                        assert(self.messages().skip(n + 1) =~= tool_messages(
                            n + 1,
                            round_results(
                                mid.awaiting(),
                                mid.calls(),
                                mid.coordinator().payloads(),
                            ),
                        ));
                    }
                } else {
                    self.thread.set_status(ThreadStatus::AwaitingTools);
                }
                Ok(actions)
            },
            ModelEvent::Error => Ok(self.stop_turn(ThreadStatus::Errored)),
        }
    }
}

/// History is only appended to: what stood in it stands there unchanged.
pub open spec fn extends(before: Seq<Message>, after: Seq<Message>) -> bool {
    &&& before.len() <= after.len()
    &&& forall|i: int| 0 <= i < before.len() ==> #[trigger] after[i] == before[i]
}

impl ThreadEngine {
    /// What the thread makes of a change to its calls while it waits for
    /// tools. Once every awaited call has ended, one tool message for each
    /// is appended, in the order in which the calls were asked for, and the
    /// model is to be asked again. Until then the thread goes on waiting.
    pub open spec fn round_settled(&self, post: &ThreadEngine) -> bool {
        if forall|k: int|
            0 <= k < self.awaiting().len() ==> has_ended(post.calls(), #[trigger] self.awaiting()[k]) {
            &&& post.messages() == self.messages() + tool_messages(
                self.messages().len() as int,
                round_results(self.awaiting(), post.calls(), post.coordinator().payloads()),
            )
            &&& post.awaiting().len() == 0
            &&& post.status() == ThreadStatus::AwaitingModel
        } else {
            &&& post.messages() == self.messages()
            &&& post.awaiting() == self.awaiting()
            &&& post.status() == self.status()
        }
    }

    /// The parts of the turn that tools do not touch are as in `other`.
    pub open spec fn same_turn(&self, other: &ThreadEngine) -> bool {
        &&& self.segments() == other.segments()
        &&& self.buffered() == other.buffered()
        &&& self.edit() == other.edit()
        &&& self.streamed() == other.streamed()
        &&& self.turn() == other.turn()
    }

    /// After the coordinator has moved calls on, the history still reports
    /// the calls that it reported, and the awaited calls are still there.
    proof fn lemma_still_reported(&self, post: ToolUseCoordinator)
        requires
            self.sound(),
            post.wf(),
            advances(self.coordinator.calls(), post.calls()),
            post.calls().len() == self.coordinator.calls().len(),
            forall|k: int|
                0 <= k < results_of(self.thread.messages()).len() ==> #[trigger] post.payloads()[k]
                    == self.coordinator.payloads()[k],
        ensures
            reported(self.thread.messages(), self.awaiting@, post.calls(), post.payloads()),
    {
        post.slots_are_used();
        let rs = results_of(self.thread.messages());
        let before = self.coordinator.calls();
        let after = post.calls();
        assert forall|k: int| 0 <= k < rs.len() implies (#[trigger] rs[k]).id == after[k].id
            && rs[k].status == after[k].status && after[k].status.is_terminal() && rs[k].payload
            == post.payloads()[k] by {
            assert(after[k].id == before[k].id);
        }
        assert forall|k: int| 0 <= k < self.awaiting@.len() implies #[trigger] self.awaiting@[k]
            == after[rs.len() + k].id by {
            assert(after[rs.len() + k].id == before[rs.len() + k].id);
        }
    }

    /// Takes in what a tool returned for the call `id`.
    pub fn on_tool_result(&mut self, id: u64, ok: bool, payload: String, now: u64) -> (r: Result<
        Vec<Action>,
        EngineError,
    >)
        requires
            old(self).wf(),
        ensures
            final(self).wf(),
            final(self).same_setup(old(self)),
            final(self).same_turn(old(self)),
            advances(old(self).calls(), final(self).calls()),
            extends(old(self).messages(), final(self).messages()),
            match r {
                Ok(actions) => {
                    let i = index_of_call(old(self).calls(), id);
                    let mid = old(self).calls().update(
                        i,
                        Call { status: crate::tool_use::ended(ok), ..old(self).calls()[i] },
                    );
                    &&& old(self).status() is AwaitingTools
                    &&& has_call(old(self).calls(), id)
                    &&& old(self).calls()[i].status is Running
                    &&& final(self).coordinator().payloads() == old(self).coordinator().payloads().update(
                        i,
                        payload,
                    )
                    &&& old(self).round_settled(final(self))
                    &&& exists|cut: int|
                        #[trigger] filled(
                            mid,
                            final(self).calls(),
                            now,
                            old(self).coordinator().max_in_flight(),
                            old(self).coordinator().timeout(),
                            cut,
                        ) && actions@ == invoke_all(queued_ids(mid.take(cut))) + (if final(self).status() is AwaitingModel {
                            seq![Action::SendRequest]
                        } else {
                            Seq::<Action>::empty()
                        })
                },
                Err(e) => {
                    &&& *final(self) == *old(self)
                    &&& e == (if !(old(self).status() is AwaitingTools) {
                        EngineError::NotAwaitingTools
                    } else if has_call(old(self).calls(), id) {
                        EngineError::Coordinator(CoordinatorError::NotRunning)
                    } else {
                        EngineError::Coordinator(CoordinatorError::UnknownCall)
                    })
                    &&& !(old(self).status() is AwaitingTools && has_call(old(self).calls(), id)
                        && old(self).calls()[index_of_call(old(self).calls(), id)].status is Running)
                },
            },
    {
        match self.thread.current_status() {
            ThreadStatus::AwaitingTools => {},
            _ => {
                return Err(EngineError::NotAwaitingTools);
            },
        }
        let ghost before = *self;
        let ghost i = index_of_call(self.calls(), id);
        match self.coordinator.complete(id, ok, payload, now) {
            Err(e) => Err(EngineError::Coordinator(e)),
            Ok(begun) => {
                proof {
                    before.coordinator.slots_are_used();
                    let rs = results_of(before.thread.messages());
                    assert(i >= rs.len()) by {
                        if i < rs.len() {
                            assert(rs[i].id == before.calls()[i].id);
                        }
                    }
                    before.lemma_still_reported(self.coordinator);
                }
                let mut actions = invoke(&begun);
                let ghost started = actions@;
                if self.settle_round() {
                    actions.push(Action::SendRequest);
                    proof {
                        assert(actions@ =~= started + seq![Action::SendRequest]);
                        assert(self.messages().take(before.messages().len() as int)
                            =~= before.messages());
                    }
                } else {
                    proof {
                        assert(actions@ =~= started + Seq::<Action>::empty());
                        assert(self.messages().take(before.messages().len() as int)
                            =~= before.messages());
                    }
                }
                Ok(actions)
            },
        }
    }

    /// Lets time pass: running calls whose deadline has come are timed out,
    /// their slots go to waiting calls, and the round is settled if that
    /// ended it. The host is to stop the tools that timed out and to invoke
    /// those that start.
    pub fn on_tick(&mut self, now: u64) -> (actions: Vec<Action>)
        requires
            old(self).wf(),
        ensures
            final(self).wf(),
            final(self).same_setup(old(self)),
            final(self).same_turn(old(self)),
            advances(old(self).calls(), final(self).calls()),
            extends(old(self).messages(), final(self).messages()),
            final(self).coordinator().payloads() == old(self).coordinator().payloads(),
            if old(self).status() is AwaitingTools {
                old(self).round_settled(final(self))
            } else {
                final(self).thread() == old(self).thread() && final(self).awaiting() == old(self).awaiting()
            },
            exists|cut: int|
                #[trigger] filled(
                    expired(old(self).calls(), now),
                    final(self).calls(),
                    now,
                    old(self).coordinator().max_in_flight(),
                    old(self).coordinator().timeout(),
                    cut,
                ) && actions@ == cancel_each(overdue_ids(old(self).calls(), now)) + invoke_all(
                    queued_ids(expired(old(self).calls(), now).take(cut)),
                ) + (if old(self).status() is AwaitingTools && final(self).status() is AwaitingModel {
                    seq![Action::SendRequest]
                } else {
                    Seq::<Action>::empty()
                }),
    {
        let ghost before = *self;
        let out = self.coordinator.expire(now);
        proof {
            before.lemma_still_reported(self.coordinator);
        }
        let mut actions = cancel(&out.timed_out);
        let mut starts = invoke(&out.started);
        let ghost cancelled = actions@;
        let ghost begun = starts@;
        actions.append(&mut starts);
        let waiting = match self.thread.current_status() {
            ThreadStatus::AwaitingTools => true,
            _ => false,
        };
        if waiting && self.settle_round() {
            actions.push(Action::SendRequest);
            proof {
                assert(actions@ =~= cancelled + begun + seq![Action::SendRequest]);
            }
        } else {
            proof {
                assert(actions@ =~= cancelled + begun + Seq::<Action>::empty());
            }
        }
        proof {
            assert(self.messages().take(before.messages().len() as int) =~= before.messages());
        }
        actions
    }

    /// Stops the turn under way and leaves the thread in `status`.
    fn stop_turn(&mut self, status: ThreadStatus) -> (actions: Vec<Action>)
        requires
            old(self).wf(),
            !old(self).status().is_at_rest(),
            status.is_at_rest(),
        ensures
            final(self).wf(),
            final(self).same_setup(old(self)),
            advances(old(self).calls(), final(self).calls()),
            extends(old(self).messages(), final(self).messages()),
            old(self).turn_stopped(final(self), status, actions@),
    {
        let ghost before = *self;
        let ids = self.coordinator.cancel_all();
        proof {
            before.lemma_still_reported(self.coordinator);
        }
        self.segments.clear();
        self.buffered.clear();
        let mut actions = cancel(&ids);
        let ghost cancelled = actions@;
        if self.edit {
            actions.push(Action::CancelSession);
        }
        proof {
            assert(actions@ =~= cancelled + (if self.edit {
                seq![Action::CancelSession]
            } else {
                Seq::<Action>::empty()
            }));
            self.coordinator.slots_are_used();
            let rs = results_of(self.thread.messages());
            lemma_round_over(self.calls(), rs.len() as int, self.awaiting());
        }
        let over = self.settle_round();
        self.thread.set_status(status);
        proof {
            assert(over);
        }
        actions
    }

    /// Cancels the turn under way. A new turn may start after.
    pub fn cancel_turn(&mut self) -> (r: Result<Vec<Action>, EngineError>)
        requires
            old(self).wf(),
        ensures
            final(self).wf(),
            final(self).same_setup(old(self)),
            advances(old(self).calls(), final(self).calls()),
            extends(old(self).messages(), final(self).messages()),
            match r {
                Ok(actions) => {
                    &&& !old(self).status().is_at_rest()
                    &&& old(self).turn_stopped(final(self), ThreadStatus::Idle, actions@)
                },
                Err(e) => {
                    &&& old(self).status().is_at_rest()
                    &&& e == EngineError::NoTurnInProgress
                    &&& *final(self) == *old(self)
                },
            },
    {
        if self.thread.current_status().at_rest() {
            return Err(EngineError::NoTurnInProgress);
        }
        Ok(self.stop_turn(ThreadStatus::Idle))
    }

    /// Every call that has ended and is not awaited any more stands in the
    /// history exactly once, as a tool message that gives the status the
    /// call ended in; a call that is still awaited stands in none. At rest
    /// no call is awaited, so then every call is reported exactly once.
    pub proof fn calls_are_reported_once(&self)
        requires
            self.wf(),
        ensures
            reported(self.messages(), self.awaiting(), self.calls(), self.coordinator().payloads()),
            distinct_ids(self.calls()),
            forall|j: int, k: int|
                0 <= j < k < results_of(self.messages()).len() ==> (#[trigger] results_of(
                    self.messages(),
                )[j]).id != (#[trigger] results_of(self.messages())[k]).id,
            !(self.status() is AwaitingTools) ==> results_of(self.messages()).len()
                == self.calls().len(),
    {
        self.coordinator().slots_are_used();
        let rs = results_of(self.messages());
        assert forall|j: int, k: int| 0 <= j < k < rs.len() implies (#[trigger] rs[j]).id != (
        #[trigger] rs[k]).id by {
            assert(self.calls()[j].id != self.calls()[k].id);
        }
    }
}

/// An order to invoke, for each id.
fn invoke(ids: &Vec<u64>) -> (out: Vec<Action>)
    ensures
        out@ == invoke_all(ids@),
{
    let n = ids.len();
    let mut out: Vec<Action> = Vec::new();
    let mut k: usize = 0;
    while k < n
        invariant
            n == ids.len(),
            k <= n,
            out@ == invoke_all(ids@.take(k as int)),
        decreases n - k,
    {
        out.push(Action::InvokeTool(ids[k]));
        proof {
            assert(out@ =~= invoke_all(ids@.take(k as int + 1)));
        }
        k = k + 1;
    }
    proof {
        assert(ids@.take(n as int) =~= ids@);
    }
    out
}

/// An order to cancel, for each id.
fn cancel(ids: &Vec<u64>) -> (out: Vec<Action>)
    ensures
        out@ == cancel_each(ids@),
{
    let n = ids.len();
    let mut out: Vec<Action> = Vec::new();
    let mut k: usize = 0;
    while k < n
        invariant
            n == ids.len(),
            k <= n,
            out@ == cancel_each(ids@.take(k as int)),
        decreases n - k,
    {
        out.push(Action::CancelTool(ids[k]));
        proof {
            assert(out@ =~= cancel_each(ids@.take(k as int + 1)));
        }
        k = k + 1;
    }
    proof {
        assert(ids@.take(n as int) =~= ids@);
    }
    out
}

impl ThreadEngine {
    /// Starts a turn with the context that is attached to the thread: the
    /// attached items that fit the limit go with the user's message, as
    /// copies, and the identities of those that had to stay out are handed
    /// back for the user to see. What is attached stays attached.
    pub fn start_turn_attached(&mut self, text: String, edit: bool) -> (r: Result<
        (Vec<Action>, Vec<ContextId>),
        EngineError,
    >)
        requires
            old(self).wf(),
        ensures
            final(self).wf(),
            final(self).same_setup(old(self)),
            final(self).coordinator() == old(self).coordinator(),
            extends(old(self).messages(), final(self).messages()),
            match r {
                Ok((actions, dropped)) => {
                    let n = old(self).messages().len() as int;
                    let attached = views(old(self).context().attached());
                    let limit = old(self).context().limit() as int;
                    &&& old(self).status().is_at_rest()
                    &&& final(self).messages().len() == n + 1
                    &&& final(self).messages()[n].sequence_index == n
                    &&& final(self).messages()[n].body matches Body::User { text: said, context }
                    &&& said == text
                    &&& views(context@) == kept_of(attached, limit, attached.len() as int)
                    &&& dropped@ == dropped_of(attached, limit, attached.len() as int)
                    &&& final(self).status() == ThreadStatus::AwaitingModel
                    &&& final(self).turn() == n
                    &&& final(self).edit() == edit
                    &&& !final(self).streamed()
                    &&& final(self).segments().len() == 0
                    &&& final(self).buffered().len() == 0
                    &&& actions@ == seq![Action::SendRequest]
                },
                Err(e) => {
                    &&& !old(self).status().is_at_rest()
                    &&& e == EngineError::TurnInProgress
                    &&& *final(self) == *old(self)
                },
            },
    {
        if !self.thread.current_status().at_rest() {
            return Err(EngineError::TurnInProgress);
        }
        let out = self.context.materialize();
        let dropped = out.dropped;
        match self.start_turn(text, out.items, edit) {
            Ok(actions) => Ok((actions, dropped)),
            Err(e) => Err(e),
        }
    }

    /// Attaches an item to the thread. It stands last; an item of the same
    /// identity that was attached before gives way to it.
    pub fn attach_context(&mut self, item: ContextItem)
        requires
            old(self).wf(),
        ensures
            final(self).wf(),
            final(self).same_conversation(old(self)),
            final(self).context().attached() == with_attached(old(self).context().attached(), item),
            final(self).context().suggested() == without(old(self).context().suggested(), item.id),
            final(self).context().limit() == old(self).context().limit(),
    {
        self.context.attach(item);
    }

    /// Takes the attached item of identity `id` away. Returns whether there
    /// was one.
    pub fn remove_context(&mut self, id: ContextId) -> (removed: bool)
        requires
            old(self).wf(),
        ensures
            final(self).wf(),
            final(self).same_conversation(old(self)),
            removed == holds(old(self).context().attached(), id),
            final(self).context().attached() == without(old(self).context().attached(), id),
            final(self).context().suggested() == old(self).context().suggested(),
            final(self).context().limit() == old(self).context().limit(),
    {
        self.context.remove(id)
    }

    /// Takes every attached item away. Suggestions stay.
    pub fn remove_all_context(&mut self)
        requires
            old(self).wf(),
        ensures
            final(self).wf(),
            final(self).same_conversation(old(self)),
            final(self).context().attached() == Seq::<ContextItem>::empty(),
            final(self).context().suggested() == old(self).context().suggested(),
            final(self).context().limit() == old(self).context().limit(),
    {
        self.context.remove_all();
    }

    /// Notes an item that might be worth attaching. Returns whether it was
    /// noted: an identity that is attached or suggested already is not.
    pub fn suggest_context(&mut self, item: ContextItem) -> (noted: bool)
        requires
            old(self).wf(),
        ensures
            final(self).wf(),
            final(self).same_conversation(old(self)),
            noted == (!holds(old(self).context().attached(), item.id) && !holds(
                old(self).context().suggested(),
                item.id,
            )),
            final(self).context().attached() == old(self).context().attached(),
            final(self).context().suggested() == (if noted {
                old(self).context().suggested().push(item)
            } else {
                old(self).context().suggested()
            }),
            final(self).context().limit() == old(self).context().limit(),
    {
        self.context.suggest(item)
    }

    /// Accepts the suggestion of identity `id`: the item is attached, last.
    /// Returns whether there was such a suggestion.
    pub fn accept_suggested_context(&mut self, id: ContextId) -> (accepted: bool)
        requires
            old(self).wf(),
        ensures
            final(self).wf(),
            final(self).same_conversation(old(self)),
            accepted == holds(old(self).context().suggested(), id),
            final(self).context().suggested() == without(old(self).context().suggested(), id),
            final(self).context().attached() == (if accepted {
                old(self).context().attached().push(
                    old(self).context().suggested()[position_of(
                        old(self).context().suggested(),
                        id,
                    )],
                )
            } else {
                old(self).context().attached()
            }),
            final(self).context().limit() == old(self).context().limit(),
    {
        self.context.accept_suggested(id)
    }
}

impl ThreadEngine {
    /// Cancels one awaited call that has not ended; the turn goes on. The
    /// host is to stop the tool, and to invoke what starts in its slot.
    pub fn cancel_call(&mut self, id: u64, now: u64) -> (r: Result<Vec<Action>, EngineError>)
        requires
            old(self).wf(),
        ensures
            final(self).wf(),
            final(self).same_setup(old(self)),
            final(self).same_turn(old(self)),
            advances(old(self).calls(), final(self).calls()),
            extends(old(self).messages(), final(self).messages()),
            match r {
                Ok(actions) => {
                    let i = index_of_call(old(self).calls(), id);
                    let mid = old(self).calls().update(
                        i,
                        Call {
                            status: CallStatus::Failed(crate::registry::Failure::Cancelled),
                            ..old(self).calls()[i]
                        },
                    );
                    &&& old(self).status() is AwaitingTools
                    &&& has_call(old(self).calls(), id)
                    &&& !old(self).calls()[i].status.is_terminal()
                    &&& final(self).coordinator().payloads() == old(self).coordinator().payloads()
                    &&& old(self).round_settled(final(self))
                    &&& exists|cut: int|
                        #[trigger] filled(
                            mid,
                            final(self).calls(),
                            now,
                            old(self).coordinator().max_in_flight(),
                            old(self).coordinator().timeout(),
                            cut,
                        ) && actions@ == seq![Action::CancelTool(id)] + invoke_all(
                            queued_ids(mid.take(cut)),
                        ) + (if final(self).status() is AwaitingModel {
                            seq![Action::SendRequest]
                        } else {
                            Seq::<Action>::empty()
                        })
                },
                Err(e) => {
                    &&& *final(self) == *old(self)
                    &&& e == (if !(old(self).status() is AwaitingTools) {
                        EngineError::NotAwaitingTools
                    } else if has_call(old(self).calls(), id) {
                        EngineError::Coordinator(CoordinatorError::AlreadyEnded)
                    } else {
                        EngineError::Coordinator(CoordinatorError::UnknownCall)
                    })
                    &&& !(old(self).status() is AwaitingTools && has_call(old(self).calls(), id)
                        && !old(self).calls()[index_of_call(old(self).calls(), id)].status.is_terminal())
                },
            },
    {
        match self.thread.current_status() {
            ThreadStatus::AwaitingTools => {},
            _ => {
                return Err(EngineError::NotAwaitingTools);
            },
        }
        let ghost before = *self;
        match self.coordinator.cancel(id, now) {
            Err(e) => Err(EngineError::Coordinator(e)),
            Ok(begun) => {
                proof {
                    before.lemma_still_reported(self.coordinator);
                }
                let mut actions: Vec<Action> = Vec::new();
                actions.push(Action::CancelTool(id));
                let mut starts = invoke(&begun);
                let ghost started = starts@;
                actions.append(&mut starts);
                if self.settle_round() {
                    actions.push(Action::SendRequest);
                    proof {
                        assert(actions@ =~= seq![Action::CancelTool(id)] + started
                            + seq![Action::SendRequest]);
                    }
                } else {
                    proof {
                        assert(actions@ =~= seq![Action::CancelTool(id)] + started
                            + Seq::<Action>::empty());
                    }
                }
                Ok(actions)
            },
        }
    }
}

/// Why stored messages cannot be taken up again.
#[derive(Clone, Copy, Debug, PartialEq, Eq, Structural)]
pub enum RestoreError {
    /// The settings allow no tool call to run.
    NoSlot,
    /// The messages are not numbered from 0 without a gap.
    BrokenSequence,
    /// A tool message reports a call that has not ended, or two of them
    /// report the same call.
    BadToolResult,
}

/// Why these stored messages cannot be taken up again, if they cannot.
pub open spec fn restore_refusal(config: EngineConfig, messages: Seq<Message>) -> Option<
    RestoreError,
> {
    if !config.is_valid() {
        Some(RestoreError::NoSlot)
    } else if !gapless(messages) {
        Some(RestoreError::BrokenSequence)
    } else if !restorable(results_of(messages)) {
        Some(RestoreError::BadToolResult)
    } else {
        None
    }
}

fn is_gapless(messages: &Vec<Message>) -> (ok: bool)
    ensures
        ok == gapless(messages@),
{
    let n = messages.len();
    let mut i: usize = 0;
    while i < n
        invariant
            n == messages.len(),
            i <= n,
            forall|j: int| 0 <= j < i ==> (#[trigger] messages@[j]).sequence_index == j,
        decreases n - i,
    {
        if messages[i].sequence_index != i as u64 {
            return false;
        }
        i = i + 1;
    }
    true
}

/// The tool results that the messages report, as copies.
fn reports(messages: &Vec<Message>) -> (out: Vec<ToolResult>)
    ensures
        out@ == results_of(messages@),
{
    let n = messages.len();
    let mut out: Vec<ToolResult> = Vec::new();
    let mut i: usize = 0;
    proof {
        assert(messages@.take(0) =~= Seq::<Message>::empty());
    }
    while i < n
        invariant
            n == messages.len(),
            i <= n,
            out@ == results_of(messages@.take(i as int)),
        decreases n - i,
    {
        proof {
            assert(messages@.take(i as int + 1) =~= messages@.take(i as int).push(messages@[i as int]));
            lemma_results_push(messages@.take(i as int), messages@[i as int]);
        }
        match &messages[i].body {
            Body::Tool { result } => {
                out.push(
                    ToolResult { id: result.id, status: result.status, payload: result.payload.clone() },
                );
            },
            _ => {},
        }
        i = i + 1;
    }
    proof {
        assert(messages@.take(n as int) =~= messages@);
    }
    out
}

impl ThreadEngine {
    /// An engine that takes a stored thread up again. The messages must be
    /// numbered from 0 without a gap, and their tool messages must report
    /// ended calls, each call once. The thread is at rest: a new turn may
    /// start. Every call that the history reports is known to the engine,
    /// so that its id is not given to another call.
    pub fn restore(
        id: ThreadId,
        parent: Option<ThreadId>,
        registry: ToolRegistry,
        config: EngineConfig,
        messages: Vec<Message>,
    ) -> (r: Result<ThreadEngine, RestoreError>)
        requires
            registry.wf(),
        ensures
            match r {
                Ok(engine) => {
                    &&& restore_refusal(config, messages@) is None
                    &&& engine.wf()
                    &&& engine.thread().id() == id
                    &&& engine.thread().parent() == parent
                    &&& engine.messages() == messages@
                    &&& engine.status() == ThreadStatus::Idle
                    &&& engine.registry() == registry
                    &&& engine.calls() == calls_of(results_of(messages@))
                    &&& engine.coordinator().payloads() == payloads_of(results_of(messages@))
                    &&& engine.configured(config)
                    &&& engine.segments().len() == 0
                    &&& engine.buffered().len() == 0
                    &&& engine.awaiting().len() == 0
                },
                Err(e) => restore_refusal(config, messages@) == Some(e),
            },
    {
        if !config.valid() {
            return Err(RestoreError::NoSlot);
        }
        if !is_gapless(&messages) {
            return Err(RestoreError::BrokenSequence);
        }
        let results = reports(&messages);
        let coordinator = match ToolUseCoordinator::restore(
            config.max_concurrent_tool_calls,
            config.tool_timeout,
            &results,
        ) {
            Some(coordinator) => coordinator,
            None => {
                return Err(RestoreError::BadToolResult);
            },
        };
        proof {
            coordinator.slots_are_used();
        }
        Ok(
            ThreadEngine {
                thread: Thread::restore(id, parent, messages),
                registry,
                coordinator,
                context: ContextAssembler::new(config.context_size_limit),
                segments: Vec::new(),
                buffered: Vec::new(),
                awaiting: Vec::new(),
                edit: false,
                streamed: false,
                turn: 0,
            },
        )
    }
}

} // verus!
