use assistant2::applier::{ApplyError, CodegenStreamApplier, EditOp};
use assistant2::review::{DiffReviewState, EditError, HunkStatus, ReviewError};

fn bytes(s: &str) -> Vec<u8> {
    s.as_bytes().to_vec()
}

fn replace(start: usize, end: usize, text: &str) -> EditOp {
    EditOp::Replace { start, end, text: bytes(text) }
}

#[test]
fn rename_rejecting_first_hunk_and_keeping_second() {
    let original = "let foo = 1; print(foo);";
    let mut applier = CodegenStreamApplier::new(bytes(original));
    let session = applier.begin_session(0).unwrap().session;
    let first = applier.apply_delta(session, &replace(4, 7, "bar")).unwrap();
    let second = applier.apply_delta(session, &replace(19, 22, "bar")).unwrap();
    assert_ne!(first, second);
    assert_eq!(applier.review.text(), bytes("let bar = 1; print(bar);"));
    applier.end_session(session).unwrap();

    applier.review.reject(first).unwrap();
    assert!(!applier.review.is_resolved(session));
    applier.review.keep(second).unwrap();

    assert_eq!(applier.review.text(), bytes("let foo = 1; print(bar);"));
    assert!(applier.review.is_resolved(session));
    assert_eq!(applier.review.status(first), Some(HunkStatus::Rejected));
    assert_eq!(applier.review.status(second), Some(HunkStatus::Kept));
    assert!(applier.review.pending().is_empty());
}

#[test]
fn reject_restores_text_of_other_length_and_moves_later_hunks() {
    let mut state = DiffReviewState::new(bytes("0123456789"));
    let a = state.apply_edit(1, 2, 4, &bytes("ABCDE")).unwrap();
    // "01ABCDE456789"
    let b = state.apply_edit(1, 9, 11, &bytes("x")).unwrap();
    assert_eq!(state.text(), bytes("01ABCDE45x89"));
    let pending = state.pending();
    assert_eq!(pending.len(), 2);
    assert_eq!((pending[0].id, pending[0].start, pending[0].end), (a, 2, 7));
    assert_eq!(pending[0].original, bytes("23"));
    assert_eq!((pending[1].id, pending[1].start, pending[1].end), (b, 9, 10));
    assert_eq!(pending[1].original, bytes("67"));

    state.reject(a).unwrap();
    assert_eq!(state.text(), bytes("012345x89"));
    let pending = state.pending();
    assert_eq!(pending.len(), 1);
    assert_eq!((pending[0].id, pending[0].start, pending[0].end), (b, 6, 7));
    assert_eq!(pending[0].session, 1);

    state.reject(b).unwrap();
    assert_eq!(state.text(), bytes("0123456789"));
}

#[test]
fn keep_leaves_text_as_streamed() {
    let mut state = DiffReviewState::new(bytes("abc"));
    let h = state.apply_edit(7, 1, 2, &bytes("XYZ")).unwrap();
    let streamed = state.text();
    state.keep(h).unwrap();
    assert_eq!(state.text(), streamed);
    assert_eq!(state.text(), bytes("aXYZc"));
    assert_eq!(state.status(h), Some(HunkStatus::Kept));
}

#[test]
fn edits_that_touch_grow_one_hunk() {
    let mut state = DiffReviewState::new(bytes("hello world"));
    let h = state.apply_edit(1, 0, 5, &bytes("HELLO")).unwrap();
    // an insert right behind the hunk extends it
    let again = state.apply_edit(1, 5, 5, &bytes("!")).unwrap();
    assert_eq!(again, h);
    assert_eq!(state.text(), bytes("HELLO! world"));
    let pending = state.pending();
    assert_eq!(pending.len(), 1);
    assert_eq!((pending[0].start, pending[0].end), (0, 6));
    assert_eq!(pending[0].original, bytes("hello"));
    // an edit inside the hunk keeps the snapshot
    let inside = state.apply_edit(1, 1, 3, &bytes("")).unwrap();
    assert_eq!(inside, h);
    assert_eq!(state.text(), bytes("HLO! world"));
    state.reject(h).unwrap();
    assert_eq!(state.text(), bytes("hello world"));
}

#[test]
fn edit_across_two_hunks_merges_them() {
    let mut state = DiffReviewState::new(bytes("aaa bbb ccc"));
    let first = state.apply_edit(1, 0, 3, &bytes("A")).unwrap();
    // "A bbb ccc"
    let second = state.apply_edit(1, 6, 9, &bytes("C")).unwrap();
    assert_eq!(state.text(), bytes("A bbb C"));
    assert_eq!(state.pending().len(), 2);
    // replaces "A bbb C" from inside the first hunk to inside the second
    let merged = state.apply_edit(1, 0, 7, &bytes("Z")).unwrap();
    assert_eq!(merged, first);
    assert_eq!(state.text(), bytes("Z"));
    let pending = state.pending();
    assert_eq!(pending.len(), 1);
    assert_eq!(pending[0].original, bytes("aaa bbb ccc"));
    assert_eq!(state.status(second), None);
    state.reject(merged).unwrap();
    assert_eq!(state.text(), bytes("aaa bbb ccc"));
}

#[test]
fn insert_and_delete_are_hunks_too() {
    let mut applier = CodegenStreamApplier::new(bytes("abcdef"));
    let s = applier.begin_session(3).unwrap().session;
    let ins = applier.apply_delta(s, &EditOp::Insert { at: 6, text: bytes("!") }).unwrap();
    let del = applier.apply_delta(s, &EditOp::Delete { start: 0, end: 2 }).unwrap();
    assert_eq!(applier.review.text(), bytes("cdef!"));
    let pending = applier.review.pending();
    assert_eq!(pending.len(), 2);
    assert_eq!((pending[0].id, pending[0].start, pending[0].end), (del, 0, 0));
    assert_eq!(pending[0].original, bytes("ab"));
    assert_eq!((pending[1].id, pending[1].start, pending[1].end), (ins, 4, 5));
    assert_eq!(pending[1].original, bytes(""));
    applier.review.reject_all(s);
    assert_eq!(applier.review.text(), bytes("abcdef"));
    assert!(applier.review.is_resolved(s));
}

#[test]
fn new_session_discards_pending_hunks_of_the_old() {
    let mut applier = CodegenStreamApplier::new(bytes("one two three"));
    let a = applier.begin_session(0).unwrap();
    assert_eq!(a.superseded, None);
    let kept = applier.apply_delta(a.session, &replace(0, 3, "ONE")).unwrap();
    let open = applier.apply_delta(a.session, &replace(8, 13, "3")).unwrap();
    applier.review.keep(kept).unwrap();
    assert_eq!(applier.review.text(), bytes("ONE two 3"));

    let b = applier.begin_session(1).unwrap();
    assert_eq!(b.superseded, Some(a.session));
    assert_ne!(b.session, a.session);
    // the kept hunk is part of the text, the pending one is gone without residue
    assert_eq!(applier.review.text(), bytes("ONE two three"));
    assert!(applier.review.pending().is_empty());
    assert!(applier.review.is_resolved(a.session));
    assert_eq!(applier.review.status(open), Some(HunkStatus::Rejected));
    // the old session can no longer write
    assert_eq!(
        applier.apply_delta(a.session, &replace(0, 1, "x")),
        Err(ApplyError::StaleSession)
    );
    assert_eq!(applier.review.text(), bytes("ONE two three"));
    assert!(applier.apply_delta(b.session, &replace(0, 1, "x")).is_ok());
}

#[test]
fn cancelled_session_leaves_content_for_review() {
    let mut applier = CodegenStreamApplier::new(bytes("abc"));
    let s = applier.begin_session(9).unwrap().session;
    let h = applier.apply_delta(s, &replace(1, 2, "B")).unwrap();
    let cancelled = applier.cancel_session().unwrap();
    assert_eq!((cancelled.id, cancelled.turn), (s, 9));
    assert_eq!(applier.active_session(), None);
    assert_eq!(applier.review.text(), bytes("aBc"));
    assert_eq!(applier.review.status(h), Some(HunkStatus::Pending));
    assert_eq!(applier.apply_delta(s, &replace(0, 1, "x")), Err(ApplyError::StaleSession));
    assert_eq!(applier.end_session(s), Err(ApplyError::StaleSession));
    applier.review.reject(h).unwrap();
    assert_eq!(applier.review.text(), bytes("abc"));
}

#[test]
fn keep_all_and_reject_all_take_one_session_only() {
    let mut state = DiffReviewState::new(bytes("0123456789"));
    let a = state.apply_edit(1, 0, 1, &bytes("aa")).unwrap();
    let b = state.apply_edit(2, 4, 5, &bytes("")).unwrap();
    let c = state.apply_edit(1, 8, 9, &bytes("ccc")).unwrap();
    assert_eq!(state.text(), bytes("aa124567ccc9"));
    state.reject_all(1);
    assert_eq!(state.text(), bytes("012456789"));
    assert!(state.is_resolved(1));
    assert!(!state.is_resolved(2));
    let pending = state.pending();
    assert_eq!(pending.len(), 1);
    assert_eq!((pending[0].id, pending[0].start, pending[0].end), (b, 3, 3));
    assert_eq!(state.status(a), Some(HunkStatus::Rejected));
    assert_eq!(state.status(c), Some(HunkStatus::Rejected));
    state.keep_all(2);
    assert_eq!(state.text(), bytes("012456789"));
    assert_eq!(state.status(b), Some(HunkStatus::Kept));
    assert!(state.is_resolved(2));
}

#[test]
fn review_errors() {
    let mut state = DiffReviewState::new(bytes("abc"));
    assert_eq!(state.keep(0), Err(ReviewError::UnknownHunk));
    assert_eq!(state.reject(5), Err(ReviewError::UnknownHunk));
    let h = state.apply_edit(1, 0, 1, &bytes("x")).unwrap();
    state.keep(h).unwrap();
    assert_eq!(state.keep(h), Err(ReviewError::AlreadyResolved));
    assert_eq!(state.reject(h), Err(ReviewError::AlreadyResolved));
    assert_eq!(state.text(), bytes("xbc"));
    assert_eq!(state.status(77), None);
}

#[test]
fn edit_out_of_bounds_is_refused_and_changes_nothing() {
    let mut state = DiffReviewState::new(bytes("abc"));
    assert_eq!(state.apply_edit(1, 2, 1, &bytes("x")), Err(EditError::OutOfBounds));
    assert_eq!(state.apply_edit(1, 0, 4, &bytes("x")), Err(EditError::OutOfBounds));
    assert_eq!(state.apply_edit(1, 4, 4, &bytes("x")), Err(EditError::OutOfBounds));
    assert_eq!(state.text(), bytes("abc"));
    assert!(state.pending().is_empty());
    let mut applier = CodegenStreamApplier::new(bytes("abc"));
    let s = applier.begin_session(0).unwrap().session;
    assert_eq!(
        applier.apply_delta(s, &EditOp::Delete { start: 1, end: 9 }),
        Err(ApplyError::Refused(EditError::OutOfBounds))
    );
    // an insert at the very end is in bounds
    assert!(applier.apply_delta(s, &EditOp::Insert { at: 3, text: bytes("d") }).is_ok());
    assert_eq!(applier.review.text(), bytes("abcd"));
}

#[test]
fn delta_without_session_is_stale() {
    let mut applier = CodegenStreamApplier::new(bytes("abc"));
    assert_eq!(applier.apply_delta(0, &replace(0, 1, "x")), Err(ApplyError::StaleSession));
    assert_eq!(applier.end_session(0), Err(ApplyError::StaleSession));
    assert_eq!(applier.cancel_session(), None);
}

#[test]
fn empty_document_takes_an_insert() {
    let mut state = DiffReviewState::new(Vec::new());
    let h = state.apply_edit(1, 0, 0, &bytes("hi")).unwrap();
    assert_eq!(state.text(), bytes("hi"));
    state.reject(h).unwrap();
    assert_eq!(state.text(), bytes(""));
}

#[test]
fn discard_pending_gives_the_baseline() {
    let mut state = DiffReviewState::new(bytes("abcdef"));
    state.apply_edit(1, 0, 1, &bytes("A")).unwrap();
    state.apply_edit(2, 3, 6, &bytes("")).unwrap();
    assert_eq!(state.text(), bytes("Abc"));
    assert!(!state.is_settled());
    state.discard_pending();
    assert_eq!(state.text(), bytes("abcdef"));
    assert!(state.pending().is_empty());
    assert!(state.is_settled());
}

#[test]
fn session_ids_run_out_at_the_end_of_the_range() {
    let mut applier = CodegenStreamApplier::new(bytes("abc"));
    applier.next_session = u64::MAX - 1;
    let last = applier.begin_session(0).unwrap();
    assert_eq!(last.session, u64::MAX - 1);
    applier.apply_delta(last.session, &replace(0, 1, "x")).unwrap();
    assert_eq!(applier.begin_session(1), Err(ApplyError::SessionsExhausted));
    // the refused start changes nothing: the session goes on
    assert_eq!(applier.review.text(), bytes("xbc"));
    assert!(applier.apply_delta(last.session, &replace(1, 2, "y")).is_ok());
}
