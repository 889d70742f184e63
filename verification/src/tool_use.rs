use crate::registry::{Failure, ToolRegistry, ToolRequest};
use vstd::prelude::*;

verus! {

/// Where a tool call stands. A call starts as `Requested`, may run, and ends
/// in exactly one of `Completed`, `Failed` and `TimedOut`.
#[derive(Clone, Copy, Debug, PartialEq, Eq, Structural)]
pub enum CallStatus {
    Requested,
    Running,
    Completed,
    Failed(Failure),
    TimedOut,
}

impl CallStatus {
    /// The call has ended.
    pub open spec fn is_terminal(self) -> bool {
        self is Completed || self is Failed || self is TimedOut
    }

    /// Whether the call has ended.
    pub fn terminal(&self) -> (t: bool)
        ensures
            t == self.is_terminal(),
    {
        match self {
            CallStatus::Requested => false,
            CallStatus::Running => false,
            _ => true,
        }
    }

    /// What a call may come to be: a waiting call may start and then end,
    /// or be cancelled; a running call may end in any way; a call that has
    /// ended stays as it is. A call that was taken into the queue does not
    /// fail for an unknown tool or bad arguments: those fail at dispatch.
    pub open spec fn may_become(self, next: CallStatus) -> bool {
        self == next || match self {
            CallStatus::Requested => next is Running || next is Completed || next is TimedOut
                || next == CallStatus::Failed(Failure::ToolFailure) || next == CallStatus::Failed(
                Failure::Cancelled,
            ),
            CallStatus::Running => next is Completed || next is TimedOut || next
                == CallStatus::Failed(Failure::ToolFailure) || next == CallStatus::Failed(
                Failure::Cancelled,
            ),
            _ => false,
        }
    }
}

/// A tool call as the coordinator tracks it. `deadline` is the time at
/// which a running call times out.
#[derive(Clone, Copy, Debug, PartialEq, Eq, Structural)]
pub struct Call {
    pub id: u64,
    pub status: CallStatus,
    pub deadline: u64,
}

/// What became of a request at dispatch.
#[derive(Clone, Copy, Debug, PartialEq, Eq, Structural)]
pub enum Disposition {
    /// A call with this id exists already; the request was not taken.
    Duplicate,
    /// The call failed at once; no tool was run.
    Failed(Failure),
    /// The call is running; the tool is to be invoked now.
    Started,
    /// All slots are taken; the call waits its turn.
    Queued,
}

/// Why the coordinator refuses.
#[derive(Clone, Copy, Debug, PartialEq, Eq, Structural)]
pub enum CoordinatorError {
    /// No call with this id was ever dispatched.
    UnknownCall,
    /// The call is not running: it waits, or it has ended already.
    NotRunning,
    /// The call has ended already.
    AlreadyEnded,
}

/// The result of a call that has ended, successful or not.
#[derive(Clone, Debug, PartialEq)]
pub struct ToolResult {
    pub id: u64,
    pub status: CallStatus,
    pub payload: String,
}

/// How many of the calls are running.
pub open spec fn count_running(cs: Seq<Call>) -> nat
    decreases cs.len(),
{
    if cs.len() == 0 {
        0
    } else if cs.last().status is Running {
        count_running(cs.drop_last()) + 1
    } else {
        count_running(cs.drop_last())
    }
}

/// The ids of the calls that wait, in arrival order.
pub open spec fn queued_ids(cs: Seq<Call>) -> Seq<u64>
    decreases cs.len(),
{
    if cs.len() == 0 {
        Seq::empty()
    } else if cs.last().status is Requested {
        queued_ids(cs.drop_last()).push(cs.last().id)
    } else {
        queued_ids(cs.drop_last())
    }
}

/// A call with this id is among the calls.
pub open spec fn has_call(cs: Seq<Call>, id: u64) -> bool {
    exists|i: int| 0 <= i < cs.len() && #[trigger] cs[i].id == id
}

/// Position of the call `id`.
pub open spec fn index_of_call(cs: Seq<Call>, id: u64) -> int {
    choose|i: int| 0 <= i < cs.len() && #[trigger] cs[i].id == id
}

/// No two calls share an id.
pub open spec fn distinct_ids(cs: Seq<Call>) -> bool {
    forall|i: int, j: int| 0 <= i < j < cs.len() ==> (#[trigger] cs[i]).id != (#[trigger] cs[j]).id
}

/// When a call that starts at `now` times out.
pub open spec fn deadline_for(now: u64, timeout: u64) -> u64 {
    if now + timeout > u64::MAX {
        u64::MAX
    } else {
        (now + timeout) as u64
    }
}

/// A call as it starts to run at `now`.
pub open spec fn started(c: Call, now: u64, timeout: u64) -> Call {
    Call { status: CallStatus::Running, deadline: deadline_for(now, timeout), ..c }
}

/// Every call of `before` is still there, under its id, and took only steps
/// that a call may take. In particular a call that had ended is unchanged.
pub open spec fn advances(before: Seq<Call>, after: Seq<Call>) -> bool {
    &&& before.len() <= after.len()
    &&& forall|i: int|
        0 <= i < before.len() ==> (#[trigger] after[i]).id == before[i].id
            && before[i].status.may_become(after[i].status) && (before[i].status.is_terminal()
            ==> after[i] == before[i])
}

/// The calls after one request was dispatched: a known id changes nothing;
/// a new call fails at once where `verdict` says so, runs where a slot is
/// free, and waits otherwise.
pub open spec fn admitted(
    cs: Seq<Call>,
    id: u64,
    verdict: Option<Failure>,
    now: u64,
    max: nat,
    timeout: u64,
) -> Seq<Call> {
    if has_call(cs, id) {
        cs
    } else {
        match verdict {
            Some(f) => cs.push(Call { id, status: CallStatus::Failed(f), deadline: 0 }),
            None => if count_running(cs) < max {
                cs.push(Call { id, status: CallStatus::Running, deadline: deadline_for(now, timeout) })
            } else {
                cs.push(Call { id, status: CallStatus::Requested, deadline: 0 })
            },
        }
    }
}

/// What dispatch answers for one request.
pub open spec fn disposition_of(cs: Seq<Call>, id: u64, verdict: Option<Failure>, max: nat) -> Disposition {
    if has_call(cs, id) {
        Disposition::Duplicate
    } else {
        match verdict {
            Some(f) => Disposition::Failed(f),
            None => if count_running(cs) < max {
                Disposition::Started
            } else {
                Disposition::Queued
            },
        }
    }
}

/// The calls after the requests were dispatched one after the other.
pub open spec fn dispatched(
    cs: Seq<Call>,
    registry: ToolRegistry,
    requests: Seq<ToolRequest>,
    now: u64,
    max: nat,
    timeout: u64,
) -> Seq<Call>
    decreases requests.len(),
{
    if requests.len() == 0 {
        cs
    } else {
        admitted(
            dispatched(cs, registry, requests.drop_last(), now, max, timeout),
            requests.last().id,
            registry.verdict(requests.last()),
            now,
            max,
            timeout,
        )
    }
}

/// Free slots were filled from the queue, in arrival order: every call
/// that waited before position `cut` runs now, the calls from `cut` on are
/// as they were, and either the queue was walked to its end or all slots
/// are taken.
pub open spec fn filled(
    before: Seq<Call>,
    after: Seq<Call>,
    now: u64,
    max: nat,
    timeout: u64,
    cut: int,
) -> bool {
    &&& after.len() == before.len()
    &&& 0 <= cut <= before.len()
    &&& forall|j: int|
        0 <= j < cut ==> #[trigger] after[j] == (if before[j].status is Requested {
            started(before[j], now, timeout)
        } else {
            before[j]
        })
    &&& forall|j: int| cut <= j < before.len() ==> #[trigger] after[j] == before[j]
    &&& cut == before.len() || count_running(after) == max
}

/// The calls with every running call whose deadline has come timed out.
pub open spec fn expired(cs: Seq<Call>, now: u64) -> Seq<Call> {
    Seq::new(
        cs.len(),
        |i: int|
            if cs[i].status is Running && cs[i].deadline <= now {
                Call { status: CallStatus::TimedOut, ..cs[i] }
            } else {
                cs[i]
            },
    )
}

/// The ids of the running calls whose deadline has come, in arrival order.
pub open spec fn overdue_ids(cs: Seq<Call>, now: u64) -> Seq<u64>
    decreases cs.len(),
{
    if cs.len() == 0 {
        Seq::empty()
    } else if cs.last().status is Running && cs.last().deadline <= now {
        overdue_ids(cs.drop_last(), now).push(cs.last().id)
    } else {
        overdue_ids(cs.drop_last(), now)
    }
}

/// The calls with every call that has not ended cancelled.
pub open spec fn all_cancelled(cs: Seq<Call>) -> Seq<Call> {
    Seq::new(
        cs.len(),
        |i: int|
            if cs[i].status.is_terminal() {
                cs[i]
            } else {
                Call { status: CallStatus::Failed(Failure::Cancelled), ..cs[i] }
            },
    )
}

/// One more call counts as running if it runs, and joins the queue if it
/// waits.
pub proof fn lemma_count_push(cs: Seq<Call>, c: Call)
    ensures
        count_running(cs.push(c)) == count_running(cs) + (if c.status is Running { 1nat } else { 0nat }),
        queued_ids(cs.push(c)) == (if c.status is Requested {
            queued_ids(cs).push(c.id)
        } else {
            queued_ids(cs)
        }),
{
    assert(cs.push(c).drop_last() =~= cs);
}

/// No more calls run than there are.
pub proof fn lemma_count_bound(cs: Seq<Call>)
    ensures
        count_running(cs) <= cs.len(),
    decreases cs.len(),
{
    if cs.len() > 0 {
        lemma_count_bound(cs.drop_last());
    }
}

/// Replacing one call changes the count of running calls by that call.
pub proof fn lemma_count_update(cs: Seq<Call>, i: int, c: Call)
    requires
        0 <= i < cs.len(),
    ensures
        count_running(cs.update(i, c)) + (if cs[i].status is Running { 1nat } else { 0nat })
            == count_running(cs) + (if c.status is Running { 1nat } else { 0nat }),
    decreases cs.len(),
{
    if i == cs.len() - 1 {
        assert(cs.update(i, c).drop_last() =~= cs.drop_last());
    } else {
        assert(cs.update(i, c).drop_last() =~= cs.drop_last().update(i, c));
        lemma_count_update(cs.drop_last(), i, c);
    }
}

/// Where no call waits, the queue is empty, and the other way round.
pub proof fn lemma_queue_empty(cs: Seq<Call>)
    ensures
        queued_ids(cs).len() == 0 <==> forall|i: int|
            0 <= i < cs.len() ==> !((#[trigger] cs[i]).status is Requested),
    decreases cs.len(),
{
    if cs.len() > 0 {
        lemma_queue_empty(cs.drop_last());
        if queued_ids(cs).len() == 0 {
            assert forall|i: int| 0 <= i < cs.len() implies !((#[trigger] cs[i]).status is Requested) by {
                if i < cs.len() - 1 {
                    assert(cs.drop_last()[i] == cs[i]);
                }
            }
        } else if !(cs.last().status is Requested) {
            let i = choose|i: int|
                0 <= i < cs.drop_last().len() && (#[trigger] cs.drop_last()[i]).status is Requested;
            assert(cs[i] == cs.drop_last()[i]);
        } else {
            assert(cs[cs.len() - 1].status is Requested);
        }
    }
}

/// Among calls with distinct ids an id has one position.
pub proof fn lemma_index_of_call(cs: Seq<Call>, id: u64, i: int)
    requires
        distinct_ids(cs),
        0 <= i < cs.len(),
        cs[i].id == id,
    ensures
        has_call(cs, id),
        index_of_call(cs, id) == i,
{
    let c = index_of_call(cs, id);
    if c < i {
        assert(cs[c].id != cs[i].id);
    } else if i < c {
        assert(cs[i].id != cs[c].id);
    }
}

/// Steps that calls may take, one after the other, are steps they may take.
pub proof fn lemma_advances_trans(a: Seq<Call>, b: Seq<Call>, c: Seq<Call>)
    requires
        advances(a, b),
        advances(b, c),
    ensures
        advances(a, c),
{
    assert forall|i: int| 0 <= i < a.len() implies (#[trigger] c[i]).id == a[i].id
        && a[i].status.may_become(c[i].status) && (a[i].status.is_terminal() ==> c[i] == a[i]) by {
        assert(b[i].id == a[i].id);
        assert(c[i].id == b[i].id);
    }
}

/// What `expire` hands back: the calls that timed out, and the calls that
/// started in the slots they left.
pub struct Expired {
    pub timed_out: Vec<u64>,
    pub started: Vec<u64>,
}

/// Runs tool calls side by side, up to a fixed number at a time, and keeps
/// the rest waiting in arrival order. It decides; the caller invokes the
/// tools and reports back.
pub struct ToolUseCoordinator {
    calls: Vec<Call>,
    payloads: Vec<String>,
    running: usize,
    max_in_flight: usize,
    timeout: u64,
}

impl ToolUseCoordinator {
    /// Every call that was dispatched, in arrival order.
    pub closed spec fn calls(&self) -> Seq<Call> {
        self.calls@
    }

    /// What each call returned, by position. Empty until the call ends with
    /// a payload.
    pub closed spec fn payloads(&self) -> Seq<String> {
        self.payloads@
    }

    /// How many calls may run at a time.
    pub closed spec fn max_in_flight(&self) -> nat {
        self.max_in_flight as nat
    }

    /// How long a call may run.
    pub closed spec fn timeout(&self) -> u64 {
        self.timeout
    }

    /// The limit and the timeout are those of `other`.
    pub open spec fn same_settings(&self, other: &ToolUseCoordinator) -> bool {
        self.max_in_flight() == other.max_in_flight() && self.timeout() == other.timeout()
    }

    /// The bookkeeping is right; the queue may still hold calls that could
    /// start.
    closed spec fn sound(&self) -> bool {
        &&& self.payloads@.len() == self.calls@.len()
        &&& distinct_ids(self.calls@)
        &&& self.running == count_running(self.calls@)
        &&& 1 <= self.max_in_flight
        &&& self.running <= self.max_in_flight
    }

    /// The bookkeeping is right, and no call waits while a slot is free.
    pub closed spec fn wf(&self) -> bool {
        &&& self.sound()
        &&& queued_ids(self.calls@).len() > 0 ==> self.running == self.max_in_flight
    }

    /// No two calls share an id, no more calls run than may, and a call
    /// waits only while every slot is taken.
    pub proof fn slots_are_used(&self)
        requires
            self.wf(),
        ensures
            distinct_ids(self.calls()),
            self.payloads().len() == self.calls().len(),
            1 <= self.max_in_flight(),
            count_running(self.calls()) <= self.max_in_flight(),
            forall|i: int|
                0 <= i < self.calls().len() && (#[trigger] self.calls()[i]).status is Requested
                    ==> count_running(self.calls()) == self.max_in_flight(),
    {
        lemma_queue_empty(self.calls@);
    }

    /// A coordinator that runs up to `max_in_flight` calls at a time, each
    /// for at most `timeout`. There is none that runs no call at all.
    pub fn new(max_in_flight: usize, timeout: u64) -> (made: Option<ToolUseCoordinator>)
        ensures
            made is Some <==> max_in_flight >= 1,
            made matches Some(c) ==> c.wf() && c.calls() == Seq::<Call>::empty()
                && c.max_in_flight() == max_in_flight && c.timeout() == timeout,
    {
        if max_in_flight == 0 {
            return None;
        }
        Some(
            ToolUseCoordinator {
                calls: Vec::new(),
                payloads: Vec::new(),
                running: 0,
                max_in_flight,
                timeout,
            },
        )
    }

    fn find(&self, id: u64) -> (found: Option<usize>)
        requires
            self.sound(),
        ensures
            match found {
                Some(i) => i < self.calls().len() && self.calls()[i as int].id == id && has_call(
                    self.calls(),
                    id,
                ) && index_of_call(self.calls(), id) == i,
                None => !has_call(self.calls(), id),
            },
    {
        let n = self.calls.len();
        let mut i: usize = 0;
        while i < n
            invariant
                self.sound(),
                n == self.calls.len(),
                i <= n,
                forall|j: int| 0 <= j < i ==> (#[trigger] self.calls@[j]).id != id,
            decreases n - i,
        {
            if self.calls[i].id == id {
                proof {
                    lemma_index_of_call(self.calls@, id, i as int);
                }
                return Some(i);
            }
            i = i + 1;
        }
        None
    }

    fn deadline(&self, now: u64) -> (d: u64)
        ensures
            d == deadline_for(now, self.timeout),
    {
        if now > u64::MAX - self.timeout {
            u64::MAX
        } else {
            now + self.timeout
        }
    }

    /// Gives call `i` a new status and deadline.
    fn set_call(&mut self, i: usize, status: CallStatus, deadline: u64)
        requires
            old(self).sound(),
            i < old(self).calls().len(),
            status is Running ==> !(old(self).calls()[i as int].status is Running)
                && count_running(old(self).calls()) < old(self).max_in_flight(),
        ensures
            final(self).sound(),
            final(self).calls() == old(self).calls().update(
                i as int,
                Call { id: old(self).calls()[i as int].id, status, deadline },
            ),
            final(self).payloads() == old(self).payloads(),
            final(self).same_settings(old(self)),
    {
        let ghost before = self.calls@;
        let c = self.calls[i];
        let next = Call { id: c.id, status, deadline };
        proof {
            lemma_count_update(before, i as int, next);
            lemma_count_bound(before);
        }
        let was = match c.status {
            CallStatus::Running => true,
            _ => false,
        };
        let runs = match status {
            CallStatus::Running => true,
            _ => false,
        };
        if was && !runs {
            self.running = self.running - 1;
        } else if !was && runs {
            self.running = self.running + 1;
        }
        self.calls[i] = next;
        proof {
            assert(self.calls@ =~= before.update(i as int, next));
            assert forall|a: int, b: int| 0 <= a < b < self.calls@.len() implies (
            #[trigger] self.calls@[a]).id != (#[trigger] self.calls@[b]).id by {
                assert(self.calls@[a].id == before[a].id);
                assert(self.calls@[b].id == before[b].id);
            }
        }
    }

    /// Starts waiting calls, earliest first, while a slot is free.
    fn fill_slots(&mut self, now: u64) -> (out: Vec<u64>)
        requires
            old(self).sound(),
        ensures
            final(self).wf(),
            final(self).payloads() == old(self).payloads(),
            final(self).same_settings(old(self)),
            advances(old(self).calls(), final(self).calls()),
            exists|cut: int|
                #[trigger] filled(
                    old(self).calls(),
                    final(self).calls(),
                    now,
                    old(self).max_in_flight(),
                    old(self).timeout(),
                    cut,
                ) && out@ == queued_ids(old(self).calls().take(cut)),
    {
        let ghost before = self.calls@;
        let n = self.calls.len();
        let deadline = self.deadline(now);
        let mut out: Vec<u64> = Vec::new();
        let mut i: usize = 0;
        proof {
            assert(before.take(0) =~= Seq::<Call>::empty());
        }
        while i < n && self.running < self.max_in_flight
            invariant
                self.sound(),
                n == self.calls.len(),
                before.len() == n,
                i <= n,
                self.payloads@ == old(self).payloads@,
                self.same_settings(old(self)),
                deadline == deadline_for(now, self.timeout),
                forall|j: int|
                    0 <= j < i ==> #[trigger] self.calls@[j] == (if before[j].status is Requested {
                        started(before[j], now, self.timeout)
                    } else {
                        before[j]
                    }),
                forall|j: int| i <= j < n ==> #[trigger] self.calls@[j] == before[j],
                out@ == queued_ids(before.take(i as int)),
            decreases n - i,
        {
            proof {
                assert(before.take(i as int + 1) =~= before.take(i as int).push(before[i as int]));
                lemma_count_push(before.take(i as int), before[i as int]);
            }
            let c = self.calls[i];
            let waits = match c.status {
                CallStatus::Requested => true,
                _ => false,
            };
            if waits {
                self.set_call(i, CallStatus::Running, deadline);
                out.push(c.id);
            }
            i = i + 1;
        }
        proof {
            let after = self.calls@;
            assert(filled(
                old(self).calls(),
                self.calls(),
                now,
                old(self).max_in_flight(),
                old(self).timeout(),
                i as int,
            ));
            assert forall|j: int| 0 <= j < before.len() implies (#[trigger] after[j]).id
                == before[j].id && before[j].status.may_become(after[j].status) && (
            before[j].status.is_terminal() ==> after[j] == before[j]) by {
                if j < i {
                    assert(after[j] == (if before[j].status is Requested {
                        started(before[j], now, self.timeout)
                    } else {
                        before[j]
                    }));
                } else {
                    assert(after[j] == before[j]);
                }
            }
            lemma_queue_empty(after);
            if i == n && self.running < self.max_in_flight {
                assert forall|j: int| 0 <= j < after.len() implies !((#[trigger] after[j]).status is Requested) by {
                    assert(after[j] == (if before[j].status is Requested {
                        started(before[j], now, self.timeout)
                    } else {
                        before[j]
                    }));
                }
            }
        }
        out
    }
}

/// How a call that ran ends: completed, or failed by the tool.
pub open spec fn ended(ok: bool) -> CallStatus {
    if ok {
        CallStatus::Completed
    } else {
        CallStatus::Failed(Failure::ToolFailure)
    }
}

/// The call `id` exists and has ended.
pub open spec fn has_ended(cs: Seq<Call>, id: u64) -> bool {
    has_call(cs, id) && cs[index_of_call(cs, id)].status.is_terminal()
}

/// The ids of the calls that have not ended, in arrival order.
pub open spec fn open_ids(cs: Seq<Call>) -> Seq<u64>
    decreases cs.len(),
{
    if cs.len() == 0 {
        Seq::empty()
    } else if !cs.last().status.is_terminal() {
        open_ids(cs.drop_last()).push(cs.last().id)
    } else {
        open_ids(cs.drop_last())
    }
}

impl ToolUseCoordinator {
    /// Takes one request. A request whose id is known is not taken. A new
    /// call fails at once, without any tool being run, where the registry
    /// does not know the tool or the arguments do not fit it; else it runs
    /// if a slot is free and waits if none is.
    pub fn submit(&mut self, registry: &ToolRegistry, request: &ToolRequest, now: u64) -> (d:
        Disposition)
        requires
            old(self).wf(),
            registry.wf(),
        ensures
            final(self).wf(),
            final(self).same_settings(old(self)),
            final(self).calls() == admitted(
                old(self).calls(),
                request.id,
                registry.verdict(*request),
                now,
                old(self).max_in_flight(),
                old(self).timeout(),
            ),
            d == disposition_of(
                old(self).calls(),
                request.id,
                registry.verdict(*request),
                old(self).max_in_flight(),
            ),
            advances(old(self).calls(), final(self).calls()),
            forall|i: int|
                0 <= i < old(self).payloads().len() ==> #[trigger] final(self).payloads()[i] == old(self).payloads()[i],
            forall|i: int|
                old(self).payloads().len() <= i < final(self).payloads().len() ==> (
                #[trigger] final(self).payloads()[i])@.len() == 0,
    {
        if self.find(request.id).is_some() {
            return Disposition::Duplicate;
        }
        let ghost before = self.calls@;
        let (call, d) = match registry.check(request) {
            Some(f) => (
                Call { id: request.id, status: CallStatus::Failed(f), deadline: 0 },
                Disposition::Failed(f),
            ),
            None => {
                if self.running < self.max_in_flight {
                    self.running = self.running + 1;
                    (
                        Call {
                            id: request.id,
                            status: CallStatus::Running,
                            deadline: self.deadline(now),
                        },
                        Disposition::Started,
                    )
                } else {
                    (
                        Call { id: request.id, status: CallStatus::Requested, deadline: 0 },
                        Disposition::Queued,
                    )
                }
            },
        };
        self.calls.push(call);
        self.payloads.push(String::new());
        proof {
            lemma_count_push(before, call);
            assert forall|a: int, b: int| 0 <= a < b < self.calls@.len() implies (
            #[trigger] self.calls@[a]).id != (#[trigger] self.calls@[b]).id by {
                assert(self.calls@[a] == before[a]);
                if b < before.len() {
                    assert(self.calls@[b] == before[b]);
                } else {
                    assert(before[a].id != request.id);
                }
            }
        }
        d
    }

    /// Takes the requests one after the other, in the order given, and
    /// answers for each what became of it.
    pub fn dispatch(&mut self, registry: &ToolRegistry, requests: &Vec<ToolRequest>, now: u64) -> (out:
        Vec<Disposition>)
        requires
            old(self).wf(),
            registry.wf(),
        ensures
            final(self).wf(),
            final(self).same_settings(old(self)),
            final(self).calls() == dispatched(
                old(self).calls(),
                *registry,
                requests@,
                now,
                old(self).max_in_flight(),
                old(self).timeout(),
            ),
            out@.len() == requests@.len(),
            forall|k: int|
                0 <= k < requests@.len() ==> #[trigger] out@[k] == disposition_of(
                    dispatched(
                        old(self).calls(),
                        *registry,
                        requests@.take(k),
                        now,
                        old(self).max_in_flight(),
                        old(self).timeout(),
                    ),
                    requests@[k].id,
                    registry.verdict(requests@[k]),
                    old(self).max_in_flight(),
                ),
            advances(old(self).calls(), final(self).calls()),
            forall|i: int|
                0 <= i < old(self).payloads().len() ==> #[trigger] final(self).payloads()[i] == old(self).payloads()[i],
            forall|i: int|
                old(self).payloads().len() <= i < final(self).payloads().len() ==> (
                #[trigger] final(self).payloads()[i])@.len() == 0,
    {
        let ghost before = self.calls@;
        let ghost max = self.max_in_flight();
        let ghost timeout = self.timeout();
        let n = requests.len();
        let mut out: Vec<Disposition> = Vec::new();
        let mut i: usize = 0;
        proof {
            assert(requests@.take(0) =~= Seq::<ToolRequest>::empty());
        }
        while i < n
            invariant
                self.wf(),
                registry.wf(),
                n == requests.len(),
                i <= n,
                self.same_settings(old(self)),
                max == old(self).max_in_flight(),
                timeout == old(self).timeout(),
                before == old(self).calls(),
                self.calls() == dispatched(before, *registry, requests@.take(i as int), now, max, timeout),
                out@.len() == i,
                forall|k: int|
                    0 <= k < i ==> #[trigger] out@[k] == disposition_of(
                        dispatched(before, *registry, requests@.take(k), now, max, timeout),
                        requests@[k].id,
                        registry.verdict(requests@[k]),
                        max,
                    ),
                advances(before, self.calls()),
                old(self).payloads().len() <= self.payloads().len(),
                forall|j: int|
                    0 <= j < old(self).payloads().len() ==> #[trigger] self.payloads()[j] == old(self).payloads()[j],
                forall|j: int|
                    old(self).payloads().len() <= j < self.payloads().len() ==> (
                    #[trigger] self.payloads()[j])@.len() == 0,
            decreases n - i,
        {
            let ghost mid = self.calls@;
            proof {
                assert(requests@.take(i as int + 1).drop_last() =~= requests@.take(i as int));
                assert(requests@.take(i as int + 1).last() == requests@[i as int]);
            }
            let d = self.submit(registry, &requests[i], now);
            out.push(d);
            proof {
                lemma_advances_trans(before, mid, self.calls@);
            }
            i = i + 1;
        }
        proof {
            assert(requests@.take(n as int) =~= requests@);
        }
        out
    }

    /// Takes in what a running call returned: the call is completed where
    /// `ok` holds and failed where it does not, and keeps `payload` either
    /// way. The slot it leaves goes to the call that waited longest. Returns
    /// the ids of the calls that start.
    pub fn complete(&mut self, id: u64, ok: bool, payload: String, now: u64) -> (r: Result<
        Vec<u64>,
        CoordinatorError,
    >)
        requires
            old(self).wf(),
        ensures
            final(self).wf(),
            final(self).same_settings(old(self)),
            advances(old(self).calls(), final(self).calls()),
            match r {
                Ok(begun) => {
                    let i = index_of_call(old(self).calls(), id);
                    let mid = old(self).calls().update(
                        i,
                        Call { status: ended(ok), ..old(self).calls()[i] },
                    );
                    &&& has_call(old(self).calls(), id)
                    &&& old(self).calls()[i].status is Running
                    &&& final(self).payloads() == old(self).payloads().update(i, payload)
                    &&& exists|cut: int|
                        #[trigger] filled(
                            mid,
                            final(self).calls(),
                            now,
                            old(self).max_in_flight(),
                            old(self).timeout(),
                            cut,
                        ) && begun@ == queued_ids(mid.take(cut))
                },
                Err(e) => {
                    &&& *final(self) == *old(self)
                    &&& e == (if has_call(old(self).calls(), id) {
                        CoordinatorError::NotRunning
                    } else {
                        CoordinatorError::UnknownCall
                    })
                    &&& !(has_call(old(self).calls(), id) && old(self).calls()[index_of_call(
                        old(self).calls(),
                        id,
                    )].status is Running)
                },
            },
    {
        let i = match self.find(id) {
            Some(i) => i,
            None => {
                return Err(CoordinatorError::UnknownCall);
            },
        };
        let c = self.calls[i];
        match c.status {
            CallStatus::Running => {},
            _ => {
                return Err(CoordinatorError::NotRunning);
            },
        }
        let status = if ok {
            CallStatus::Completed
        } else {
            CallStatus::Failed(Failure::ToolFailure)
        };
        let ghost before = self.calls@;
        self.set_call(i, status, c.deadline);
        self.payloads[i] = payload;
        let ghost mid = self.calls@;
        let begun = self.fill_slots(now);
        proof {
            assert(advances(before, mid));
            lemma_advances_trans(before, mid, self.calls@);
        }
        Ok(begun)
    }

    /// Cancels one call that has not ended. The slot it leaves, if it ran,
    /// goes to the call that waited longest. Returns the ids of the calls
    /// that start.
    pub fn cancel(&mut self, id: u64, now: u64) -> (r: Result<Vec<u64>, CoordinatorError>)
        requires
            old(self).wf(),
        ensures
            final(self).wf(),
            final(self).same_settings(old(self)),
            advances(old(self).calls(), final(self).calls()),
            match r {
                Ok(begun) => {
                    let i = index_of_call(old(self).calls(), id);
                    let mid = old(self).calls().update(
                        i,
                        Call { status: CallStatus::Failed(Failure::Cancelled), ..old(self).calls()[i] },
                    );
                    &&& has_call(old(self).calls(), id)
                    &&& !old(self).calls()[i].status.is_terminal()
                    &&& final(self).payloads() == old(self).payloads()
                    &&& exists|cut: int|
                        #[trigger] filled(
                            mid,
                            final(self).calls(),
                            now,
                            old(self).max_in_flight(),
                            old(self).timeout(),
                            cut,
                        ) && begun@ == queued_ids(mid.take(cut))
                },
                Err(e) => {
                    &&& *final(self) == *old(self)
                    &&& e == (if has_call(old(self).calls(), id) {
                        CoordinatorError::AlreadyEnded
                    } else {
                        CoordinatorError::UnknownCall
                    })
                    &&& !(has_call(old(self).calls(), id) && !old(self).calls()[index_of_call(
                        old(self).calls(),
                        id,
                    )].status.is_terminal())
                },
            },
    {
        let i = match self.find(id) {
            Some(i) => i,
            None => {
                return Err(CoordinatorError::UnknownCall);
            },
        };
        let c = self.calls[i];
        if c.status.terminal() {
            return Err(CoordinatorError::AlreadyEnded);
        }
        let ghost before = self.calls@;
        self.set_call(i, CallStatus::Failed(Failure::Cancelled), c.deadline);
        let ghost mid = self.calls@;
        let begun = self.fill_slots(now);
        proof {
            assert(advances(before, mid));
            lemma_advances_trans(before, mid, self.calls@);
        }
        Ok(begun)
    }

    /// Cancels every call that has not ended. Returns their ids.
    pub fn cancel_all(&mut self) -> (out: Vec<u64>)
        requires
            old(self).wf(),
        ensures
            final(self).wf(),
            final(self).same_settings(old(self)),
            final(self).calls() == all_cancelled(old(self).calls()),
            final(self).payloads() == old(self).payloads(),
            out@ == open_ids(old(self).calls()),
            advances(old(self).calls(), final(self).calls()),
            forall|i: int|
                0 <= i < final(self).calls().len() ==> (#[trigger] final(self).calls()[i]).status.is_terminal(),
    {
        let ghost before = self.calls@;
        let n = self.calls.len();
        let mut out: Vec<u64> = Vec::new();
        let mut i: usize = 0;
        proof {
            assert(before.take(0) =~= Seq::<Call>::empty());
        }
        while i < n
            invariant
                self.sound(),
                n == self.calls.len(),
                before.len() == n,
                i <= n,
                self.payloads@ == old(self).payloads@,
                self.same_settings(old(self)),
                forall|j: int| 0 <= j < i ==> #[trigger] self.calls@[j] == all_cancelled(before)[j],
                forall|j: int| i <= j < n ==> #[trigger] self.calls@[j] == before[j],
                out@ == open_ids(before.take(i as int)),
            decreases n - i,
        {
            proof {
                assert(before.take(i as int + 1).drop_last() =~= before.take(i as int));
                assert(before.take(i as int + 1).last() == before[i as int]);
            }
            let c = self.calls[i];
            if !c.status.terminal() {
                self.set_call(i, CallStatus::Failed(Failure::Cancelled), c.deadline);
                out.push(c.id);
            }
            i = i + 1;
        }
        proof {
            assert(before.take(n as int) =~= before);
            assert(self.calls@ =~= all_cancelled(before));
            lemma_queue_empty(self.calls@);
        }
        out
    }

    /// Times out every running call whose deadline has come, and gives the
    /// slots they leave to the calls that waited longest.
    pub fn expire(&mut self, now: u64) -> (out: Expired)
        requires
            old(self).wf(),
        ensures
            final(self).wf(),
            final(self).same_settings(old(self)),
            final(self).payloads() == old(self).payloads(),
            advances(old(self).calls(), final(self).calls()),
            out.timed_out@ == overdue_ids(old(self).calls(), now),
            exists|cut: int|
                #[trigger] filled(
                    expired(old(self).calls(), now),
                    final(self).calls(),
                    now,
                    old(self).max_in_flight(),
                    old(self).timeout(),
                    cut,
                ) && out.started@ == queued_ids(expired(old(self).calls(), now).take(cut)),
    {
        let ghost before = self.calls@;
        let n = self.calls.len();
        let mut timed_out: Vec<u64> = Vec::new();
        let mut i: usize = 0;
        proof {
            assert(before.take(0) =~= Seq::<Call>::empty());
        }
        while i < n
            invariant
                self.sound(),
                n == self.calls.len(),
                before.len() == n,
                i <= n,
                self.payloads@ == old(self).payloads@,
                self.same_settings(old(self)),
                forall|j: int| 0 <= j < i ==> #[trigger] self.calls@[j] == expired(before, now)[j],
                forall|j: int| i <= j < n ==> #[trigger] self.calls@[j] == before[j],
                timed_out@ == overdue_ids(before.take(i as int), now),
            decreases n - i,
        {
            proof {
                assert(before.take(i as int + 1).drop_last() =~= before.take(i as int));
                assert(before.take(i as int + 1).last() == before[i as int]);
            }
            let c = self.calls[i];
            let runs = match c.status {
                CallStatus::Running => true,
                _ => false,
            };
            if runs && c.deadline <= now {
                self.set_call(i, CallStatus::TimedOut, c.deadline);
                timed_out.push(c.id);
            }
            i = i + 1;
        }
        let ghost mid = self.calls@;
        proof {
            assert(before.take(n as int) =~= before);
            assert(mid =~= expired(before, now));
        }
        let started = self.fill_slots(now);
        proof {
            assert(advances(before, mid));
            lemma_advances_trans(before, mid, self.calls@);
        }
        Expired { timed_out, started }
    }

    /// The status of the call `id`, if there is such a call.
    pub fn status(&self, id: u64) -> (r: Option<CallStatus>)
        requires
            self.wf(),
        ensures
            r is Some <==> has_call(self.calls(), id),
            r matches Some(s) ==> s == self.calls()[index_of_call(self.calls(), id)].status,
    {
        match self.find(id) {
            Some(i) => Some(self.calls[i].status),
            None => None,
        }
    }

    /// The results of the calls `ids`, once every one of them has ended:
    /// one result for each id, in the order of `ids`, whether the call
    /// succeeded, failed or timed out. Until then, nothing.
    pub fn await_all(&self, ids: &Vec<u64>) -> (r: Option<Vec<ToolResult>>)
        requires
            self.wf(),
        ensures
            r is Some <==> forall|k: int|
                0 <= k < ids@.len() ==> has_ended(self.calls(), #[trigger] ids@[k]),
            r matches Some(results) ==> {
                &&& results@.len() == ids@.len()
                &&& forall|k: int|
                    0 <= k < ids@.len() ==> {
                        let i = index_of_call(self.calls(), ids@[k]);
                        &&& (#[trigger] results@[k]).id == ids@[k]
                        &&& results@[k].status == self.calls()[i].status
                        &&& results@[k].payload == self.payloads()[i]
                    }
            },
    {
        let n = ids.len();
        let mut out: Vec<ToolResult> = Vec::new();
        let mut k: usize = 0;
        while k < n
            invariant
                self.wf(),
                n == ids.len(),
                k <= n,
                out@.len() == k,
                forall|j: int| 0 <= j < k ==> has_ended(self.calls(), #[trigger] ids@[j]),
                forall|j: int|
                    0 <= j < k ==> {
                        let i = index_of_call(self.calls(), ids@[j]);
                        &&& (#[trigger] out@[j]).id == ids@[j]
                        &&& out@[j].status == self.calls()[i].status
                        &&& out@[j].payload == self.payloads()[i]
                    },
            decreases n - k,
        {
            let id = ids[k];
            match self.find(id) {
                None => {
                    proof {
                        assert(!has_ended(self.calls(), ids@[k as int]));
                    }
                    return None;
                },
                Some(i) => {
                    let c = self.calls[i];
                    if !c.status.terminal() {
                        proof {
                            assert(!has_ended(self.calls(), ids@[k as int]));
                        }
                        return None;
                    }
                    out.push(ToolResult { id, status: c.status, payload: self.payloads[i].clone() });
                },
            }
            k = k + 1;
        }
        Some(out)
    }
}

/// The calls that stored results tell of: each has ended, with the status
/// that its result gives.
pub open spec fn calls_of(results: Seq<ToolResult>) -> Seq<Call> {
    Seq::new(
        results.len(),
        |i: int| Call { id: results[i].id, status: results[i].status, deadline: 0 },
    )
}

/// The payloads of stored results.
pub open spec fn payloads_of(results: Seq<ToolResult>) -> Seq<String> {
    Seq::new(results.len(), |i: int| results[i].payload)
}

/// Stored results can be taken up again: each gives a status that a call
/// ends in, and no two of them are for the same call.
pub open spec fn restorable(results: Seq<ToolResult>) -> bool {
    &&& forall|i: int| 0 <= i < results.len() ==> (#[trigger] results[i]).status.is_terminal()
    &&& forall|i: int, j: int|
        0 <= i < j < results.len() ==> (#[trigger] results[i]).id != (#[trigger] results[j]).id
}

/// Where no call runs or waits, nothing is counted and nothing is queued.
pub proof fn lemma_all_ended(cs: Seq<Call>)
    requires
        forall|i: int| 0 <= i < cs.len() ==> (#[trigger] cs[i]).status.is_terminal(),
    ensures
        count_running(cs) == 0,
        queued_ids(cs).len() == 0,
    decreases cs.len(),
{
    if cs.len() > 0 {
        assert(cs[cs.len() - 1].status.is_terminal());
        assert forall|i: int| 0 <= i < cs.drop_last().len() implies (#[trigger] cs.drop_last()[i]).status.is_terminal() by {
            assert(cs.drop_last()[i] == cs[i]);
        }
        lemma_all_ended(cs.drop_last());
    }
}

/// Whether the results can be taken up again.
pub fn can_restore(results: &Vec<ToolResult>) -> (ok: bool)
    ensures
        ok == restorable(results@),
{
    let n = results.len();
    let mut i: usize = 0;
    while i < n
        invariant
            n == results.len(),
            i <= n,
            forall|a: int| 0 <= a < i ==> (#[trigger] results@[a]).status.is_terminal(),
            forall|a: int, b: int|
                0 <= a < b < i ==> (#[trigger] results@[a]).id != (#[trigger] results@[b]).id,
        decreases n - i,
    {
        if !results[i].status.terminal() {
            return false;
        }
        let mut j: usize = 0;
        while j < i
            invariant
                n == results.len(),
                i < n,
                j <= i,
                forall|a: int| 0 <= a < j ==> (#[trigger] results@[a]).id != results@[i as int].id,
            decreases i - j,
        {
            if results[j].id == results[i].id {
                return false;
            }
            j = j + 1;
        }
        i = i + 1;
    }
    true
}

impl ToolUseCoordinator {
    /// A coordinator that takes up where stored results leave off: it holds
    /// one ended call for each of them, in their order, and none that runs
    /// or waits.
    pub fn restore(max_in_flight: usize, timeout: u64, results: &Vec<ToolResult>) -> (made: Option<
        ToolUseCoordinator,
    >)
        ensures
            made is Some <==> max_in_flight >= 1 && restorable(results@),
            made matches Some(c) ==> c.wf() && c.calls() == calls_of(results@) && c.payloads()
                == payloads_of(results@) && c.max_in_flight() == max_in_flight && c.timeout()
                == timeout,
    {
        if max_in_flight == 0 || !can_restore(results) {
            return None;
        }
        let n = results.len();
        let mut calls: Vec<Call> = Vec::new();
        let mut payloads: Vec<String> = Vec::new();
        let mut i: usize = 0;
        while i < n
            invariant
                n == results.len(),
                i <= n,
                calls@ == calls_of(results@.take(i as int)),
                payloads@ == payloads_of(results@.take(i as int)),
            decreases n - i,
        {
            calls.push(Call { id: results[i].id, status: results[i].status, deadline: 0 });
            payloads.push(results[i].payload.clone());
            proof {
                assert(calls@ =~= calls_of(results@.take(i as int + 1)));
                assert(payloads@ =~= payloads_of(results@.take(i as int + 1)));
            }
            i = i + 1;
        }
        proof {
            assert(results@.take(n as int) =~= results@);
            lemma_all_ended(calls@);
        }
        Some(ToolUseCoordinator { calls, payloads, running: 0, max_in_flight, timeout })
    }
}

} // verus!
