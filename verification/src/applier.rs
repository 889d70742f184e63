use crate::region::{reverted, spliced, HunkView};
use crate::review::{edited_hunks, snapshot_taken, verdicts_for, DiffReviewState, EditError, HunkStatus};
use vstd::prelude::*;

verus! {

/// One generated edit, addressed by byte offsets into the target as it
/// reads when the edit arrives.
pub enum EditOp {
    Insert { at: usize, text: Vec<u8> },
    Replace { start: usize, end: usize, text: Vec<u8> },
    Delete { start: usize, end: usize },
}

impl EditOp {
    /// Where the span that the edit replaces starts.
    pub open spec fn from(&self) -> int {
        match self {
            EditOp::Insert { at, .. } => *at as int,
            EditOp::Replace { start, .. } => *start as int,
            EditOp::Delete { start, .. } => *start as int,
        }
    }

    /// Where the span that the edit replaces ends.
    pub open spec fn to(&self) -> int {
        match self {
            EditOp::Insert { at, .. } => *at as int,
            EditOp::Replace { end, .. } => *end as int,
            EditOp::Delete { end, .. } => *end as int,
        }
    }

    /// The text that the edit puts there.
    pub open spec fn text(&self) -> Seq<u8> {
        match self {
            EditOp::Insert { text, .. } => text@,
            EditOp::Replace { text, .. } => text@,
            EditOp::Delete { .. } => Seq::empty(),
        }
    }
}

/// One streaming pass of generation over the target, made for one turn of a
/// thread.
#[derive(Clone, Copy, Debug, PartialEq, Eq, Structural)]
pub struct Session {
    pub id: u64,
    pub turn: u64,
}

/// Why the applier refuses.
#[derive(Clone, Copy, Debug, PartialEq, Eq, Structural)]
pub enum ApplyError {
    /// The session is not the one that is active on the target: it has
    /// ended, was cancelled or superseded, or never began.
    StaleSession,
    /// No session id is left to give out.
    SessionsExhausted,
    /// The edit itself was refused.
    Refused(EditError),
}

/// What `begin_session` reports: the new session, and the session that was
/// still streaming into the target and had to give way, if there was one.
#[derive(Clone, Copy, Debug, PartialEq, Eq, Structural)]
pub struct Began {
    pub session: u64,
    pub superseded: Option<u64>,
}

/// Applies generated edits to one target as they stream in, and keeps what
/// they changed reviewable.
pub struct CodegenStreamApplier {
    /// The target's text, its pending hunks and the verdicts given.
    pub review: DiffReviewState,
    /// The session that may write to the target now, if any.
    pub active: Option<Session>,
    /// The id that the next session gets.
    pub next_session: u64,
}

impl CodegenStreamApplier {
    /// The target is well formed, and the active session has an id that was
    /// given out.
    pub open spec fn wf(&self) -> bool {
        &&& self.review.wf()
        &&& self.active matches Some(s) ==> s.id < self.next_session
    }

    /// An applier for a target that holds `text`, with no session yet.
    pub fn new(text: Vec<u8>) -> (applier: CodegenStreamApplier)
        ensures
            applier.wf(),
            applier.active is None,
            applier.next_session == 0,
            applier.review.content() == text@,
            applier.review.baseline() == text@,
            applier.review.hunks() == Seq::<HunkView>::empty(),
            applier.review.verdicts() == Seq::<crate::review::Verdict>::empty(),
    {
        CodegenStreamApplier { review: DiffReviewState::new(text), active: None, next_session: 0 }
    }

    /// The session that may write to the target now, if any.
    pub fn active_session(&self) -> (s: Option<Session>)
        ensures
            s == self.active,
    {
        self.active
    }

    /// Starts a session for the turn `turn`. Whatever an earlier session
    /// left unreviewed is discarded first: those hunks are rejected, so the
    /// target reads as its baseline and holds no pending hunk when the new
    /// session starts to write.
    pub fn begin_session(&mut self, turn: u64) -> (r: Result<Began, ApplyError>)
        requires
            old(self).wf(),
        ensures
            final(self).wf(),
            match r {
                Ok(began) => {
                    &&& old(self).next_session < u64::MAX
                    &&& began.session == old(self).next_session
                    &&& began.superseded == (match old(self).active {
                        Some(s) => Some(s.id),
                        None => None,
                    })
                    &&& final(self).active == Some(Session { id: began.session, turn })
                    &&& final(self).next_session == old(self).next_session + 1
                    &&& final(self).review.content() == old(self).review.baseline()
                    &&& final(self).review.baseline() == old(self).review.baseline()
                    &&& final(self).review.hunks() == Seq::<HunkView>::empty()
                    &&& final(self).review.verdicts() == old(self).review.verdicts() + verdicts_for(
                        old(self).review.hunks(),
                        None,
                        HunkStatus::Rejected,
                    )
                    &&& final(self).review.next_hunk() == old(self).review.next_hunk()
                    &&& forall|session: u64| final(self).review.resolved(session)
                },
                Err(e) => {
                    &&& *final(self) == *old(self)
                    &&& e == ApplyError::SessionsExhausted
                    &&& old(self).next_session == u64::MAX
                },
            },
    {
        if self.next_session == u64::MAX {
            return Err(ApplyError::SessionsExhausted);
        }
        let superseded = match self.active {
            Some(s) => Some(s.id),
            None => None,
        };
        self.review.discard_pending();
        let session = self.next_session;
        self.next_session = self.next_session + 1;
        self.active = Some(Session { id: session, turn });
        Ok(Began { session, superseded })
    }

    /// Why a delta of `session` is refused, if it is.
    pub open spec fn delta_refusal(&self, session: u64, op: &EditOp) -> Option<ApplyError> {
        if !(self.active matches Some(s) && s.id == session) {
            Some(ApplyError::StaleSession)
        } else {
            match self.review.edit_refusal(op.from(), op.to(), op.text().len() as int) {
                Some(e) => Some(ApplyError::Refused(e)),
                None => None,
            }
        }
    }

    /// Applies one edit of the active session to the target, at once, and
    /// records the span it changed as a pending hunk: a new one, or the
    /// hunks that the edit touches grown into one. Returns that hunk's id.
    /// Review decisions are never waited for.
    pub fn apply_delta(&mut self, session: u64, op: &EditOp) -> (r: Result<u64, ApplyError>)
        requires
            old(self).wf(),
        ensures
            final(self).wf(),
            final(self).active == old(self).active,
            final(self).next_session == old(self).next_session,
            match r {
                Ok(id) => {
                    &&& old(self).delta_refusal(session, op) is None
                    &&& final(self).review.content() == spliced(
                        old(self).review.content(),
                        op.from(),
                        op.to(),
                        op.text(),
                    )
                    &&& final(self).review.baseline() == old(self).review.baseline()
                    &&& final(self).review.verdicts() == old(self).review.verdicts()
                    &&& exists|m: int, n: int|
                        #[trigger] edited_hunks(
                            old(self).review.hunks(),
                            final(self).review.hunks(),
                            op.from(),
                            op.to(),
                            op.text().len() as int,
                            session,
                            old(self).review.next_hunk(),
                            m,
                            n,
                        ) && final(self).review.hunks()[m].id == id
                            && final(self).review.next_hunk() == (if m < n {
                            old(self).review.next_hunk() as int
                        } else {
                            old(self).review.next_hunk() + 1
                        }) && snapshot_taken(
                            old(self).review.hunks(),
                            final(self).review.hunks()[m],
                            old(self).review.content(),
                            final(self).review.hunks()[m].start,
                            final(self).review.hunks()[m].end - (op.text().len() - (op.to()
                                - op.from())),
                            m,
                            n,
                        )
                },
                Err(e) => {
                    &&& *final(self) == *old(self)
                    &&& old(self).delta_refusal(session, op) == Some(e)
                },
            },
    {
        let live = match self.active {
            Some(s) => s.id == session,
            None => false,
        };
        if !live {
            return Err(ApplyError::StaleSession);
        }
        let outcome = match op {
            EditOp::Insert { at, text } => self.review.apply_edit(session, *at, *at, text),
            EditOp::Replace { start, end, text } => self.review.apply_edit(
                session,
                *start,
                *end,
                text,
            ),
            EditOp::Delete { start, end } => {
                let nothing: Vec<u8> = Vec::new();
                self.review.apply_edit(session, *start, *end, &nothing)
            },
        };
        match outcome {
            Ok(id) => Ok(id),
            Err(e) => Err(ApplyError::Refused(e)),
        }
    }

    /// Ends the active session. Its hunks stay as they are, for review, and
    /// every byte that the session changed lies inside one of them.
    pub fn end_session(&mut self, session: u64) -> (r: Result<(), ApplyError>)
        requires
            old(self).wf(),
        ensures
            final(self).wf(),
            final(self).review == old(self).review,
            final(self).next_session == old(self).next_session,
            final(self).review.baseline() == reverted(
                final(self).review.content(),
                final(self).review.hunks(),
            ),
            match r {
                Ok(()) => {
                    &&& old(self).active matches Some(s) && s.id == session
                    &&& final(self).active is None
                },
                Err(e) => {
                    &&& !(old(self).active matches Some(s) && s.id == session)
                    &&& e == ApplyError::StaleSession
                    &&& final(self).active == old(self).active
                },
            },
    {
        proof {
            self.review.edits_lie_in_hunks();
        }
        let live = match self.active {
            Some(s) => s.id == session,
            None => false,
        };
        if !live {
            return Err(ApplyError::StaleSession);
        }
        self.active = None;
        Ok(())
    }

    /// Cancels whatever session is active. What it wrote stays in the
    /// target as last written, and its hunks stay open for review. Returns
    /// the session that was cancelled.
    pub fn cancel_session(&mut self) -> (cancelled: Option<Session>)
        requires
            old(self).wf(),
        ensures
            final(self).wf(),
            final(self).review == old(self).review,
            final(self).next_session == old(self).next_session,
            final(self).active is None,
            cancelled == old(self).active,
    {
        let cancelled = self.active;
        self.active = None;
        cancelled
    }
}

} // verus!
