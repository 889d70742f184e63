use crate::bytes::{append_range, copy_range};
use crate::region::{
    baseline_of, content_of, drift, hunk_at, hunks_of, judged, lemma_baseline_is_reverted,
    lemma_baseline_len,
    lemma_content_push, lemma_judged, lemma_pick_all, remaining, reverted_where,
    lemma_hunk_of_region, lemma_hunks_after_plain, lemma_hunks_ordered, lemma_hunks_push,
    lemma_prefix_len, lemma_region_of_hunk, lemma_reverted_prefix, lemma_single, lemma_snapshot_concat,
    lemma_snapshot_shift, lemma_snapshot_single, lemma_three_parts, plain_regions_agree, rank_of,
    reverted, shift_all, snapshot_len, spliced, well_placed, HunkView, Region, Tag,
};
use vstd::pervasive::unreached;
use vstd::prelude::*;

verus! {

/// Where a generated hunk stands in review.
#[derive(Clone, Copy, Debug, PartialEq, Eq, Structural)]
pub enum HunkStatus {
    Pending,
    Kept,
    Rejected,
}

/// The outcome of reviewing one hunk.
#[derive(Clone, Copy, Debug, PartialEq, Eq, Structural)]
pub struct Verdict {
    pub id: u64,
    pub session: u64,
    pub status: HunkStatus,
}

/// Why a hunk cannot be judged.
#[derive(Clone, Copy, Debug, PartialEq, Eq, Structural)]
pub enum ReviewError {
    /// No hunk with this id was ever recorded, or it was merged away.
    UnknownHunk,
    /// The hunk was kept or rejected before.
    AlreadyResolved,
}

/// A stretch of the document: untouched text, or a pending hunk with the
/// text it replaced.
enum Piece {
    Plain(Vec<u8>),
    Edited { tag: Tag, original: Vec<u8>, current: Vec<u8> },
}

impl Piece {
    spec fn region(self) -> Region {
        match self {
            Piece::Plain(text) => Region { tag: None, original: text@, current: text@ },
            Piece::Edited { tag, original, current } => Region {
                tag: Some(tag),
                original: original@,
                current: current@,
            },
        }
    }
}

spec fn regions_of(pieces: Seq<Piece>) -> Seq<Region> {
    Seq::new(pieces.len(), |i: int| pieces[i].region())
}

/// A document under review: its text, the hunks that generation has written
/// into it and that nobody has judged yet, and the verdicts given so far.
pub struct DiffReviewState {
    pieces: Vec<Piece>,
    verdicts: Vec<Verdict>,
    next_hunk: u64,
    length: usize,
    held: usize,
}

impl DiffReviewState {
    spec fn regions(&self) -> Seq<Region> {
        regions_of(self.pieces@)
    }

    /// The text of the document as it reads now.
    pub closed spec fn content(&self) -> Seq<u8> {
        content_of(self.regions())
    }

    /// The text the document would have with every pending hunk rejected.
    pub closed spec fn baseline(&self) -> Seq<u8> {
        baseline_of(self.regions())
    }

    /// The pending hunks, in document order.
    pub closed spec fn hunks(&self) -> Seq<HunkView> {
        hunks_of(self.regions())
    }

    /// The verdicts given so far, oldest first.
    pub closed spec fn verdicts(&self) -> Seq<Verdict> {
        self.verdicts@
    }

    /// The id that the next new hunk gets.
    pub closed spec fn next_hunk(&self) -> u64 {
        self.next_hunk
    }

    /// Hunk `id` is pending.
    pub open spec fn is_pending(&self, id: u64) -> bool {
        exists|k: int| 0 <= k < self.hunks().len() && #[trigger] self.hunks()[k].id == id
    }

    /// Position of the pending hunk `id` among the pending hunks.
    pub open spec fn index_of(&self, id: u64) -> int {
        choose|k: int| 0 <= k < self.hunks().len() && #[trigger] self.hunks()[k].id == id
    }

    /// Hunk `id` was kept or rejected.
    pub open spec fn has_verdict(&self, id: u64) -> bool {
        exists|k: int| 0 <= k < self.verdicts().len() && #[trigger] self.verdicts()[k].id == id
    }

    /// How hunk `id` was judged.
    pub open spec fn verdict_of(&self, id: u64) -> HunkStatus {
        self.verdicts()[choose|k: int|
            0 <= k < self.verdicts().len() && #[trigger] self.verdicts()[k].id == id].status
    }

    /// The status of hunk `id`, if such a hunk is known.
    pub open spec fn status_of(&self, id: u64) -> Option<HunkStatus> {
        if self.is_pending(id) {
            Some(HunkStatus::Pending)
        } else if self.has_verdict(id) {
            Some(self.verdict_of(id))
        } else {
            None
        }
    }

    /// Whether every hunk that `session` wrote has been kept or rejected.
    pub open spec fn resolved(&self, session: u64) -> bool {
        forall|k: int| 0 <= k < self.hunks().len() ==> (#[trigger] self.hunks()[k]).session != session
    }

    /// The bookkeeping is right: untouched text has no snapshot, the sizes
    /// held are the sizes of text and snapshots and fit the address space,
    /// and every id, pending or judged, was given out once.
    pub closed spec fn wf(&self) -> bool {
        let hs = self.hunks();
        let vs = self.verdicts@;
        &&& plain_regions_agree(self.regions())
        &&& self.length == self.content().len()
        &&& self.held == snapshot_len(hs)
        &&& self.length + self.held <= usize::MAX
        &&& forall|k: int| 0 <= k < hs.len() ==> (#[trigger] hs[k]).id < self.next_hunk
        &&& forall|j: int, k: int|
            0 <= j < k < hs.len() ==> (#[trigger] hs[j]).id != (#[trigger] hs[k]).id
        &&& forall|k: int|
            0 <= k < vs.len() ==> (#[trigger] vs[k]).id < self.next_hunk && vs[k].status
                != HunkStatus::Pending
        &&& forall|j: int, k: int|
            0 <= j < k < vs.len() ==> (#[trigger] vs[j]).id != (#[trigger] vs[k]).id
        &&& forall|j: int, k: int|
            0 <= j < hs.len() && 0 <= k < vs.len() ==> (#[trigger] hs[j]).id != (#[trigger] vs[k]).id
    }

    /// A document with the given text and nothing to review.
    pub fn new(text: Vec<u8>) -> (state: DiffReviewState)
        ensures
            state.wf(),
            state.content() == text@,
            state.baseline() == text@,
            state.hunks() == Seq::<HunkView>::empty(),
            state.verdicts() == Seq::<Verdict>::empty(),
            state.next_hunk() == 0,
    {
        let len = text.len();
        let ghost region = Region { tag: None, original: text@, current: text@ };
        let mut pieces: Vec<Piece> = Vec::new();
        pieces.push(Piece::Plain(text));
        let state = DiffReviewState {
            pieces,
            verdicts: Vec::new(),
            next_hunk: 0,
            length: len,
            held: 0,
        };
        proof {
            assert(state.regions() =~= seq![region]);
            lemma_single(region);
        }
        state
    }

    /// What rejecting the pending hunk at position `k` makes of the document:
    /// the hunk's span holds its snapshot again, the hunks after it move with
    /// the text, and nothing else changes.
    pub open spec fn rejected_at(&self, after: DiffReviewState, k: int) -> bool {
        let h = self.hunks()[k];
        &&& after.content() == spliced(self.content(), h.start, h.end, h.original)
        &&& after.baseline() == self.baseline()
        &&& after.hunks() == self.hunks().take(k) + shift_all(
            self.hunks().skip(k + 1),
            h.original.len() - (h.end - h.start),
        )
        &&& after.verdicts() == self.verdicts().push(
            Verdict { id: h.id, session: h.session, status: HunkStatus::Rejected },
        )
        &&& after.next_hunk() == self.next_hunk()
    }

    /// What keeping the pending hunk at position `k` makes of the document:
    /// the text stays as it is, the hunk is no longer pending, and what it
    /// wrote stands in the baseline where its snapshot stood.
    pub open spec fn kept_at(&self, after: DiffReviewState, k: int) -> bool {
        let h = self.hunks()[k];
        let at = h.start + drift(self.hunks().take(k), None);
        &&& after.content() == self.content()
        &&& after.baseline() == spliced(
            self.baseline(),
            at,
            at + h.original.len(),
            self.content().subrange(h.start, h.end),
        )
        &&& after.hunks() == self.hunks().take(k) + self.hunks().skip(k + 1)
        &&& after.verdicts() == self.verdicts().push(
            Verdict { id: h.id, session: h.session, status: HunkStatus::Kept },
        )
        &&& after.next_hunk() == self.next_hunk()
    }

    proof fn lemma_index_of(&self, id: u64, k: int)
        requires
            self.wf(),
            0 <= k < self.hunks().len(),
            self.hunks()[k].id == id,
        ensures
            self.is_pending(id),
            self.index_of(id) == k,
    {
        let c = self.index_of(id);
        assert(0 <= c < self.hunks().len() && self.hunks()[c].id == id);
        if c < k {
            assert(self.hunks()[c].id != self.hunks()[k].id);
        } else if k < c {
            assert(self.hunks()[k].id != self.hunks()[c].id);
        }
    }

    /// Turns the pending hunk in piece `i` into settled text.
    fn settle_piece(&mut self, i: usize, keep: bool)
        requires
            old(self).wf(),
            i < old(self).pieces.len(),
            old(self).regions()[i as int].tag is Some,
        ensures
            final(self).wf(),
            final(self).pieces.len() == old(self).pieces.len(),
            rank_of(old(self).regions(), i as int) == old(self).index_of(
                old(self).regions()[i as int].tag->0.id,
            ),
            keep ==> old(self).kept_at(*final(self), rank_of(old(self).regions(), i as int)),
            !keep ==> old(self).rejected_at(*final(self), rank_of(old(self).regions(), i as int)),
            final(self).regions() == old(self).regions().update(
                i as int,
                settled(old(self).regions()[i as int], keep),
            ),
            final(self).status_of(old(self).regions()[i as int].tag->0.id) == Some(
                if keep {
                    HunkStatus::Kept
                } else {
                    HunkStatus::Rejected
                },
            ),
    {
        let ghost pre = *self;
        proof {
            lemma_settle_sizes(pre, i as int);
        }
        let piece = self.pieces.remove(i);
        match piece {
            Piece::Edited { tag, original, current } => {
                let status = if keep {
                    HunkStatus::Kept
                } else {
                    HunkStatus::Rejected
                };
                self.held = self.held - original.len();
                let text = if keep {
                    current
                } else {
                    self.length = self.length - current.len() + original.len();
                    original
                };
                self.pieces.insert(i, Piece::Plain(text));
                self.verdicts.push(Verdict { id: tag.id, session: tag.session, status });
                proof {
                    assert(self.regions() =~= pre.regions().update(
                        i as int,
                        settled(pre.regions()[i as int], keep),
                    ));
                    lemma_settle_text(pre, *self, i as int, keep);
                    let h = hunk_at(pre.regions(), i as int);
                    lemma_settle_ids(
                        pre,
                        *self,
                        i as int,
                        keep,
                        settled(pre.regions()[i as int], keep).current.len() - (h.end - h.start),
                    );
                }
            },
            Piece::Plain(_) => {
                unreached()
            },
        }
    }
}

/// The sizes held allow a hunk to be settled.
proof fn lemma_settle_sizes(pre: DiffReviewState, i: int)
    requires
        pre.wf(),
        0 <= i < pre.regions().len(),
        pre.regions()[i].tag is Some,
    ensures
        pre.held >= pre.regions()[i].original.len(),
        pre.length >= pre.regions()[i].current.len(),
{
    let rs = pre.regions();
    let x = rs.take(i);
    let z = rs.skip(i + 1);
    assert(rs =~= x + seq![rs[i]] + z);
    lemma_three_parts(x, seq![rs[i]], z);
    lemma_single(rs[i]);
    lemma_snapshot_three(x, seq![rs[i]], z);
    lemma_snapshot_single(hunks_of(seq![rs[i]])[0]);
    assert(hunks_of(seq![rs[i]]) =~= seq![hunks_of(seq![rs[i]])[0]]);
}

/// What settling the hunk in region `i` does to text, baseline and hunks.
proof fn lemma_settle_text(pre: DiffReviewState, post: DiffReviewState, i: int, keep: bool)
    requires
        pre.wf(),
        0 <= i < pre.regions().len(),
        pre.regions()[i].tag is Some,
        post.regions() == pre.regions().update(i, settled(pre.regions()[i], keep)),
        post.held == pre.held - pre.regions()[i].original.len(),
        post.length == (if keep {
            pre.length as int
        } else {
            pre.length - pre.regions()[i].current.len() + pre.regions()[i].original.len()
        }),
    ensures
        ({
            let k = rank_of(pre.regions(), i);
            let h = pre.hunks()[k];
            let at = h.start + drift(pre.hunks().take(k), None);
            &&& 0 <= k < pre.hunks().len()
            &&& h == hunk_at(pre.regions(), i)
            &&& plain_regions_agree(post.regions())
            &&& post.length == post.content().len()
            &&& post.held == snapshot_len(post.hunks())
            &&& post.length + post.held <= usize::MAX
            &&& post.hunks() == pre.hunks().take(k) + shift_all(
                pre.hunks().skip(k + 1),
                settled(pre.regions()[i], keep).current.len() - (h.end - h.start),
            )
            &&& keep ==> post.content() == pre.content() && post.hunks() == pre.hunks().take(k)
                + pre.hunks().skip(k + 1) && post.baseline() == spliced(
                pre.baseline(),
                at,
                at + h.original.len(),
                pre.content().subrange(h.start, h.end),
            )
            &&& !keep ==> post.content() == spliced(pre.content(), h.start, h.end, h.original)
                && post.baseline() == pre.baseline() && post.hunks() == pre.hunks().take(k)
                + shift_all(pre.hunks().skip(k + 1), h.original.len() - (h.end - h.start))
        }),
{
    let rs = pre.regions();
    let rs2 = post.regions();
    let hs = pre.hunks();
    let k = rank_of(rs, i);
    let h = hunk_at(rs, i);
    let x = rs.take(i);
    let z = rs.skip(i + 1);
    let r = settled(rs[i], keep);
    let d = r.current.len() - (h.end - h.start);
    lemma_hunk_of_region(rs, i);
    assert(rs =~= x + seq![rs[i]] + z);
    assert(rs2 =~= x + seq![r] + z);
    lemma_three_parts(x, seq![rs[i]], z);
    lemma_three_parts(x, seq![r], z);
    lemma_single(rs[i]);
    lemma_single(r);
    lemma_snapshot_three(x, seq![rs[i]], z);
    lemma_snapshot_three(x, seq![r], z);
    lemma_snapshot_single(hunks_of(seq![rs[i]])[0]);
    assert(hunks_of(seq![rs[i]]) =~= seq![hunks_of(seq![rs[i]])[0]]);
    lemma_agree_three(x, seq![rs[i]], seq![r], z);
    assert(post.hunks() =~= hs.take(k) + shift_all(hs.skip(k + 1), d));
    if keep {
        assert(shift_all(hs.skip(k + 1), 0) =~= hs.skip(k + 1));
        assert(plain_regions_agree(x)) by {
            assert forall|j: int| 0 <= j < x.len() && x[j].tag is None implies (#[trigger] x[j]).original
                == x[j].current by {
                assert(x[j] == rs[j]);
            }
        }
        lemma_baseline_len(x);
        assert(content_of(rs).subrange(h.start, h.end) =~= rs[i].current);
        assert(post.baseline() =~= spliced(
            baseline_of(rs),
            h.start + drift(hs.take(k), None),
            h.start + drift(hs.take(k), None) + h.original.len(),
            content_of(rs).subrange(h.start, h.end),
        ));
    } else {
        assert(post.content() =~= spliced(content_of(rs), h.start, h.end, h.original));
    }
}

/// What settling the hunk in region `i` does to the ids and the verdicts.
proof fn lemma_settle_ids(
    pre: DiffReviewState,
    post: DiffReviewState,
    i: int,
    keep: bool,
    moved: int,
)
    requires
        pre.wf(),
        0 <= i < pre.regions().len(),
        pre.regions()[i].tag is Some,
        post.next_hunk == pre.next_hunk,
        post.verdicts@ == pre.verdicts@.push(
            Verdict {
                id: pre.regions()[i].tag->0.id,
                session: pre.regions()[i].tag->0.session,
                status: if keep { HunkStatus::Kept } else { HunkStatus::Rejected },
            },
        ),
        post.hunks() == pre.hunks().take(rank_of(pre.regions(), i)) + shift_all(
            pre.hunks().skip(rank_of(pre.regions(), i) + 1),
            moved,
        ),
        plain_regions_agree(post.regions()),
        post.length == post.content().len(),
        post.held == snapshot_len(post.hunks()),
        post.length + post.held <= usize::MAX,
    ensures
        post.wf(),
        rank_of(pre.regions(), i) == pre.index_of(pre.regions()[i].tag->0.id),
        post.verdicts() == pre.verdicts().push(
            Verdict {
                id: pre.hunks()[rank_of(pre.regions(), i)].id,
                session: pre.hunks()[rank_of(pre.regions(), i)].session,
                status: if keep { HunkStatus::Kept } else { HunkStatus::Rejected },
            },
        ),
        post.next_hunk() == pre.next_hunk(),
        post.status_of(pre.regions()[i].tag->0.id) == Some(
            if keep {
                HunkStatus::Kept
            } else {
                HunkStatus::Rejected
            },
        ),
{
    let rs = pre.regions();
    let hs = pre.hunks();
    let vs = pre.verdicts@;
    let k = rank_of(rs, i);
    let h = hunk_at(rs, i);
    let status = if keep { HunkStatus::Kept } else { HunkStatus::Rejected };
    lemma_hunk_of_region(rs, i);
    pre.lemma_index_of(h.id, k);
    let hs2 = post.hunks();
    let vs2 = post.verdicts@;
    assert forall|j: int| 0 <= j < hs2.len() implies (#[trigger] hs2[j]).id == hs[if j < k {
        j
    } else {
        j + 1
    }].id by {}
    assert forall|j: int, m: int| 0 <= j < m < hs2.len() implies (#[trigger] hs2[j]).id != (
    #[trigger] hs2[m]).id by {
        let j0 = if j < k { j } else { j + 1 };
        let m0 = if m < k { m } else { m + 1 };
        assert(hs[j0].id != hs[m0].id);
    }
    assert forall|j: int, m: int| 0 <= j < m < vs2.len() implies (#[trigger] vs2[j]).id != (
    #[trigger] vs2[m]).id by {
        if m == vs.len() {
            assert(hs[k].id != vs[j].id);
        } else {
            assert(vs[j].id != vs[m].id);
        }
    }
    assert forall|j: int, m: int| 0 <= j < hs2.len() && 0 <= m < vs2.len() implies (
    #[trigger] hs2[j]).id != (#[trigger] vs2[m]).id by {
        let j0 = if j < k { j } else { j + 1 };
        if m == vs.len() {
            if j0 < k {
                assert(hs[j0].id != hs[k].id);
            } else {
                assert(hs[k].id != hs[j0].id);
            }
        } else {
            assert(hs[j0].id != vs[m].id);
        }
    }
    assert forall|m: int| 0 <= m < vs2.len() implies (#[trigger] vs2[m]).id < post.next_hunk
        && vs2[m].status != HunkStatus::Pending by {
        if m == vs.len() {
            assert(hs[k].id < pre.next_hunk);
        } else {
            assert(vs2[m] == vs[m]);
        }
    }
    assert forall|j: int| 0 <= j < hs2.len() implies (#[trigger] hs2[j]).id < post.next_hunk by {
        let j0 = if j < k { j } else { j + 1 };
        assert(hs[j0].id < pre.next_hunk);
    }
    assert(!post.is_pending(h.id)) by {
        if post.is_pending(h.id) {
            let j = post.index_of(h.id);
            assert(hs2[j].id != vs2[vs.len() as int].id);
        }
    }
    assert(vs2[vs.len() as int].id == h.id);
    assert(post.has_verdict(h.id));
    assert(post.verdict_of(h.id) == status) by {
        let c = choose|c: int|
            0 <= c < post.verdicts().len() && #[trigger] post.verdicts()[c].id == h.id;
        if c < vs.len() {
            assert(vs2[c].id != vs2[vs.len() as int].id);
        }
    }
}

/// A region once its hunk is judged: the text that stays, with no tag.
spec fn settled(r: Region, keep: bool) -> Region {
    if r.tag is Some {
        let text = if keep { r.current } else { r.original };
        Region { tag: None, original: text, current: text }
    } else {
        r
    }
}

impl Piece {
    fn len(&self) -> (n: usize)
        ensures
            n == self.region().current.len(),
    {
        match self {
            Piece::Plain(text) => text.len(),
            Piece::Edited { current, .. } => current.len(),
        }
    }

    fn is_edited(&self) -> (b: bool)
        ensures
            b == (self.region().tag is Some),
    {
        match self {
            Piece::Plain(_) => false,
            Piece::Edited { .. } => true,
        }
    }
}

/// The region that starts at `off` ends before an edit at `from` and does
/// not touch it. Text that ends where the edit starts is untouched; a hunk
/// that ends there is touched.
spec fn stands_before(r: Region, off: int, from: int) -> bool {
    if r.tag is Some {
        off + r.current.len() < from
    } else {
        off + r.current.len() <= from
    }
}

/// What an edit takes in: the regions `first..next` of the document, with
/// the text of the first and last that lies outside the edit split off.
struct Absorbed {
    next: usize,
    left: Vec<u8>,
    right: Vec<u8>,
    original: Vec<u8>,
    current: Vec<u8>,
    first_id: Option<u64>,
    plain: usize,
}

spec fn absorbed_ok(
    rs: Seq<Region>,
    first: int,
    off0: int,
    from: int,
    to: int,
    a: Absorbed,
) -> bool {
    let mid = rs.subrange(first, a.next as int);
    let hm = hunks_of(mid);
    let rest = hunks_of(rs.skip(a.next as int));
    let off = off0 + content_of(mid).len();
    let start = off0 + a.left@.len();
    let end = start + a.current@.len();
    &&& first <= a.next <= rs.len()
    &&& content_of(mid) == a.left@ + a.current@ + a.right@
    &&& baseline_of(mid) == a.left@ + a.original@ + a.right@
    &&& a.original@.len() == snapshot_len(hm) + a.plain
    &&& from + a.plain <= to
    &&& start <= from <= to <= end
    &&& forall|k: int|
        0 <= k < hm.len() ==> (#[trigger] hm[k]).start + off0 <= to && from <= hm[k].end + off0
    &&& forall|k: int| 0 <= k < hm.len() ==> (#[trigger] hm[k]).end + off0 <= end
    &&& forall|k: int| 0 <= k < rest.len() ==> (#[trigger] rest[k]).start + off > to
    &&& (start == from && forall|k: int| 0 <= k < hm.len() ==> (#[trigger] hm[k]).start + off0 >= from)
        || (hm.len() > 0 && hm[0].start + off0 == start)
    &&& end == to || (hm.len() > 0 && hm.last().end + off0 == end)
    &&& a.first_id == (if hm.len() > 0 {
        Some(hm[0].id)
    } else {
        None
    })
}

impl DiffReviewState {
    /// Finds the first region that an edit starting at `from` reaches.
    fn scan_before(&self, from: usize) -> (r: (usize, usize))
        requires
            self.wf(),
            from <= self.content().len(),
        ensures
            r.0 <= self.pieces.len(),
            r.1 == content_of(self.regions().take(r.0 as int)).len(),
            r.1 <= from,
            forall|k: int|
                0 <= k < hunks_of(self.regions().take(r.0 as int)).len() ==> (#[trigger] hunks_of(
                    self.regions().take(r.0 as int),
                )[k]).end < from,
            r.0 < self.pieces.len() ==> !stands_before(
                self.regions()[r.0 as int],
                r.1 as int,
                from as int,
            ),
    {
        let ghost rs = self.regions();
        let n = self.pieces.len();
        let mut i: usize = 0;
        let mut off: usize = 0;
        proof {
            assert(rs.take(0) =~= Seq::<Region>::empty());
        }
        loop
            invariant_except_break
                i <= n,
            invariant
                n == self.pieces.len(),
                rs == self.regions(),
                self.wf(),
                from <= self.content().len(),
                i <= n,
                off == content_of(rs.take(i as int)).len(),
                off <= from,
                forall|k: int|
                    0 <= k < hunks_of(rs.take(i as int)).len() ==> (#[trigger] hunks_of(
                        rs.take(i as int),
                    )[k]).end < from,
            ensures
                i < n ==> !stands_before(rs[i as int], off as int, from as int),
            decreases n - i,
        {
            if i >= n {
                break ;
            }
            let len = self.pieces[i].len();
            let edited = self.pieces[i].is_edited();
            proof {
                lemma_prefix_len(rs, i as int + 1);
                assert(rs.take(i as int + 1) =~= rs.take(i as int).push(rs[i as int]));
                lemma_content_push(rs.take(i as int), rs[i as int]);
                lemma_hunks_push(rs.take(i as int), rs[i as int]);
            }
            let before = if edited {
                len < from - off
            } else {
                len <= from - off
            };
            if !before {
                break ;
            }
            off = off + len;
            i = i + 1;
        }
        (i, off)
    }

    /// Gathers what an edit of `from..to` takes in, beginning at region
    /// `first`, which starts at `off0`.
    fn absorb(&self, first: usize, off0: usize, from: usize, to: usize) -> (a: Absorbed)
        requires
            self.wf(),
            from <= to <= self.content().len(),
            first <= self.pieces.len(),
            off0 == content_of(self.regions().take(first as int)).len(),
            off0 <= from,
            first < self.pieces.len() ==> !stands_before(
                self.regions()[first as int],
                off0 as int,
                from as int,
            ),
        ensures
            absorbed_ok(self.regions(), first as int, off0 as int, from as int, to as int, a),
    {
        let ghost rs = self.regions();
        let ghost fr = Frame { first: first as int, off0: off0 as int, from: from as int, to: to as int };
        let n = self.pieces.len();
        let mut i: usize = first;
        let mut off: usize = off0;
        let mut left: Vec<u8> = Vec::new();
        let mut right: Vec<u8> = Vec::new();
        let mut original: Vec<u8> = Vec::new();
        let mut current: Vec<u8> = Vec::new();
        let mut first_id: Option<u64> = None;
        let mut plain: usize = 0;
        let mut done = false;
        proof {
            lemma_scan_start(rs, fr);
        }
        while i < n && !done
            invariant
                n == self.pieces.len(),
                rs == self.regions(),
                self.wf(),
                i <= n,
                off <= self.content().len(),
                plain <= to,
                fr == (Frame {
                    first: first as int,
                    off0: off0 as int,
                    from: from as int,
                    to: to as int,
                }),
                scanning(
                    rs,
                    fr,
                    Scan {
                        i: i as int,
                        off: off as int,
                        left: left@,
                        right: right@,
                        original: original@,
                        current: current@,
                        first_id,
                        plain: plain as int,
                        done,
                    },
                ),
            decreases n - i, if done { 0int } else { 1int },
        {
            let ghost s0 = Scan {
                i: i as int,
                off: off as int,
                left: left@,
                right: right@,
                original: original@,
                current: current@,
                first_id,
                plain: plain as int,
                done,
            };
            match &self.pieces[i] {
                Piece::Plain(text) => {
                    let len = text.len();
                    if len == 0 {
                        proof {
                            lemma_scan_skip(rs, fr, s0);
                        }
                        i = i + 1;
                    } else if off >= to {
                        proof {
                            lemma_scan_stop(rs, fr, s0);
                        }
                        done = true;
                    } else {
                        proof {
                            lemma_scan_plain(rs, fr, s0);
                        }
                        let lo = if off < from {
                            from - off
                        } else {
                            0
                        };
                        let hi = if len > to - off {
                            to - off
                        } else {
                            len
                        };
                        if lo > 0 {
                            left = copy_range(text, 0, lo);
                        }
                        append_range(&mut original, text, lo, hi);
                        append_range(&mut current, text, lo, hi);
                        if hi < len {
                            right = copy_range(text, hi, len);
                            done = true;
                        }
                        plain = plain + (hi - lo);
                        off = off + len;
                        i = i + 1;
                    }
                },
                Piece::Edited { tag, original: before, current: now } => {
                    if off > to {
                        proof {
                            lemma_scan_stop(rs, fr, s0);
                        }
                        done = true;
                    } else {
                        proof {
                            lemma_scan_hunk(rs, fr, s0);
                            assert(before@.subrange(0, before@.len() as int) =~= before@);
                            assert(now@.subrange(0, now@.len() as int) =~= now@);
                        }
                        if first_id.is_none() {
                            first_id = Some(tag.id);
                        }
                        append_range(&mut original, before, 0, before.len());
                        append_range(&mut current, now, 0, now.len());
                        off = off + now.len();
                        i = i + 1;
                    }
                },
            }
        }
        let a = Absorbed { next: i, left, right, original, current, first_id, plain };
        proof {
            lemma_scan_end(
                rs,
                fr,
                Scan {
                    i: i as int,
                    off: off as int,
                    left: left@,
                    right: right@,
                    original: original@,
                    current: current@,
                    first_id,
                    plain: plain as int,
                    done,
                },
            );
        }
        a
    }
}

/// An edit of `from..to` whose scan begins at region `first`, at `off0`.
struct Frame {
    first: int,
    off0: int,
    from: int,
    to: int,
}

/// How far the scan has come: it stands before region `i`, at `off`, and
/// has gathered the rest.
struct Scan {
    i: int,
    off: int,
    left: Seq<u8>,
    right: Seq<u8>,
    original: Seq<u8>,
    current: Seq<u8>,
    first_id: Option<u64>,
    plain: int,
    done: bool,
}

spec fn scanning(rs: Seq<Region>, fr: Frame, s: Scan) -> bool {
    let mid = rs.subrange(fr.first, s.i);
    let hm = hunks_of(mid);
    let rest = hunks_of(rs.skip(s.i));
    &&& 0 <= fr.first <= s.i <= rs.len()
    &&& 0 <= fr.off0 <= fr.from <= fr.to <= content_of(rs).len()
    &&& fr.off0 == content_of(rs.take(fr.first)).len()
    &&& s.off == fr.off0 + content_of(mid).len()
    &&& s.off == content_of(rs.take(s.i)).len()
    &&& content_of(mid) == s.left + s.current + s.right
    &&& baseline_of(mid) == s.left + s.original + s.right
    &&& !s.done ==> s.right.len() == 0
    &&& fr.off0 + s.left.len() <= fr.from
    &&& s.left.len() > 0 ==> fr.off0 + s.left.len() == fr.from
    &&& s.i == fr.first ==> s.left.len() == 0 && s.current.len() == 0 && s.original.len() == 0
        && s.right.len() == 0 && s.plain == 0
    &&& s.i > fr.first ==> s.off >= fr.from
    &&& s.i == fr.first && s.i < rs.len() ==> !stands_before(rs[s.i], fr.off0, fr.from)
    &&& s.original.len() == snapshot_len(hm) + s.plain
    &&& 0 <= s.plain
    &&& fr.from + s.plain <= fr.to
    &&& s.i > fr.first ==> fr.from + s.plain <= s.off
    &&& forall|k: int|
        0 <= k < hm.len() ==> (#[trigger] hm[k]).start + fr.off0 <= fr.to && fr.from <= hm[k].end
            + fr.off0
    &&& forall|k: int| 0 <= k < hm.len() ==> (#[trigger] hm[k]).end + fr.off0 <= s.off - s.right.len()
    &&& s.i > fr.first ==> (fr.off0 + s.left.len() == fr.from && forall|k: int|
        0 <= k < hm.len() ==> (#[trigger] hm[k]).start + fr.off0 >= fr.from) || (hm.len() > 0
        && hm[0].start == 0 && s.left.len() == 0)
    &&& s.right.len() > 0 ==> fr.off0 + s.left.len() + s.current.len() == fr.to
    &&& s.right.len() == 0 && s.i > fr.first ==> s.off <= fr.to || (hm.len() > 0 && hm.last().end
        + fr.off0 == s.off)
    &&& s.done ==> forall|k: int| 0 <= k < rest.len() ==> (#[trigger] rest[k]).start + s.off > fr.to
    &&& s.done && s.right.len() == 0 ==> s.off >= fr.to
    &&& s.first_id == (if hm.len() > 0 {
        Some(hm[0].id)
    } else {
        None
    })
}

proof fn lemma_scan_start(rs: Seq<Region>, fr: Frame)
    requires
        0 <= fr.first <= rs.len(),
        0 <= fr.off0 <= fr.from <= fr.to <= content_of(rs).len(),
        fr.off0 == content_of(rs.take(fr.first)).len(),
        fr.first < rs.len() ==> !stands_before(rs[fr.first], fr.off0, fr.from),
    ensures
        scanning(
            rs,
            fr,
            Scan {
                i: fr.first,
                off: fr.off0,
                left: Seq::empty(),
                right: Seq::empty(),
                original: Seq::empty(),
                current: Seq::empty(),
                first_id: None,
                plain: 0,
                done: false,
            },
        ),
{
    let none = Seq::<u8>::empty();
    assert(rs.subrange(fr.first, fr.first) =~= Seq::<Region>::empty());
    assert(content_of(Seq::<Region>::empty()) =~= none + none + none);
    assert(baseline_of(Seq::<Region>::empty()) =~= none + none + none);
    assert(snapshot_len(Seq::<HunkView>::empty()) == 0);
}

/// One step of the scan: what is known of the regions up to and after `i`.
proof fn lemma_scan_step(rs: Seq<Region>, fr: Frame, s: Scan)
    requires
        scanning(rs, fr, s),
        s.i < rs.len(),
    ensures
        rs.subrange(fr.first, s.i + 1) == rs.subrange(fr.first, s.i).push(rs[s.i]),
        content_of(rs.take(s.i + 1)) == content_of(rs.take(s.i)) + rs[s.i].current,
        content_of(rs.take(s.i + 1)).len() <= content_of(rs).len(),
        content_of(rs.subrange(fr.first, s.i + 1)) == content_of(rs.subrange(fr.first, s.i))
            + rs[s.i].current,
        baseline_of(rs.subrange(fr.first, s.i + 1)) == baseline_of(rs.subrange(fr.first, s.i))
            + rs[s.i].original,
        well_placed(
            hunks_of(rs.subrange(fr.first, s.i)),
            content_of(rs.subrange(fr.first, s.i)).len() as int,
        ),
        well_placed(hunks_of(rs.skip(s.i)), content_of(rs.skip(s.i)).len() as int),
        well_placed(hunks_of(rs.skip(s.i + 1)), content_of(rs.skip(s.i + 1)).len() as int),
{
    let mid = rs.subrange(fr.first, s.i);
    lemma_prefix_len(rs, s.i + 1);
    assert(rs.take(s.i + 1) =~= rs.take(s.i).push(rs[s.i]));
    assert(rs.subrange(fr.first, s.i + 1) =~= mid.push(rs[s.i]));
    lemma_content_push(rs.take(s.i), rs[s.i]);
    lemma_content_push(mid, rs[s.i]);
    lemma_hunks_ordered(mid);
    lemma_hunks_ordered(rs.skip(s.i));
    lemma_hunks_ordered(rs.skip(s.i + 1));
}

proof fn lemma_scan_skip(rs: Seq<Region>, fr: Frame, s: Scan)
    requires
        scanning(rs, fr, s),
        s.i < rs.len(),
        !s.done,
        rs[s.i].tag is None,
        rs[s.i].current.len() == 0,
        rs[s.i].original.len() == 0,
    ensures
        scanning(rs, fr, Scan { i: s.i + 1, ..s }),
{
    lemma_scan_step(rs, fr, s);
    let mid = rs.subrange(fr.first, s.i);
    let mid2 = rs.subrange(fr.first, s.i + 1);
    lemma_hunks_push(mid, rs[s.i]);
    assert(content_of(mid2) =~= s.left + s.current + s.right);
    assert(baseline_of(mid2) =~= s.left + s.original + s.right);
}

proof fn lemma_scan_stop(rs: Seq<Region>, fr: Frame, s: Scan)
    requires
        scanning(rs, fr, s),
        s.i < rs.len(),
        !s.done,
        rs[s.i].tag is None ==> rs[s.i].current.len() > 0 && s.off >= fr.to,
        rs[s.i].tag is Some ==> s.off > fr.to,
    ensures
        scanning(rs, fr, Scan { done: true, ..s }),
{
    lemma_scan_step(rs, fr, s);
    if rs[s.i].tag is None {
        lemma_hunks_after_plain(rs.skip(s.i));
    }
}

proof fn lemma_scan_plain(rs: Seq<Region>, fr: Frame, s: Scan)
    requires
        scanning(rs, fr, s),
        s.i < rs.len(),
        !s.done,
        rs[s.i].tag is None,
        rs[s.i].original == rs[s.i].current,
        rs[s.i].current.len() > 0,
        s.off < fr.to,
    ensures
        ({
            let text = rs[s.i].current;
            let len = text.len() as int;
            let lo = if s.off < fr.from { fr.from - s.off } else { 0 };
            let hi = if len > fr.to - s.off { fr.to - s.off } else { len };
            &&& 0 <= lo <= hi <= len
            &&& s.plain + (hi - lo) <= fr.to
            &&& s.off + len <= content_of(rs).len()
            &&& scanning(
                rs,
                fr,
                Scan {
                    i: s.i + 1,
                    off: s.off + len,
                    left: if lo > 0 { text.subrange(0, lo) } else { s.left },
                    right: if hi < len { text.subrange(hi, len) } else { s.right },
                    original: s.original + text.subrange(lo, hi),
                    current: s.current + text.subrange(lo, hi),
                    first_id: s.first_id,
                    plain: s.plain + (hi - lo),
                    done: hi < len,
                },
            )
        }),
{
    lemma_scan_step(rs, fr, s);
    let text = rs[s.i].current;
    let len = text.len() as int;
    let lo = if s.off < fr.from { fr.from - s.off } else { 0 };
    let hi = if len > fr.to - s.off { fr.to - s.off } else { len };
    let mid = rs.subrange(fr.first, s.i);
    let mid2 = rs.subrange(fr.first, s.i + 1);
    let s2 = Scan {
        i: s.i + 1,
        off: s.off + len,
        left: if lo > 0 { text.subrange(0, lo) } else { s.left },
        right: if hi < len { text.subrange(hi, len) } else { s.right },
        original: s.original + text.subrange(lo, hi),
        current: s.current + text.subrange(lo, hi),
        first_id: s.first_id,
        plain: s.plain + (hi - lo),
        done: hi < len,
    };
    lemma_hunks_push(mid, rs[s.i]);
    assert(text =~= text.subrange(0, lo) + text.subrange(lo, hi) + text.subrange(hi, len));
    if lo > 0 {
        assert(s.i == fr.first);
    }
    assert(content_of(mid2) =~= s2.left + s2.current + s2.right);
    assert(baseline_of(mid2) =~= s2.left + s2.original + s2.right);
}

proof fn lemma_scan_hunk(rs: Seq<Region>, fr: Frame, s: Scan)
    requires
        scanning(rs, fr, s),
        s.i < rs.len(),
        !s.done,
        rs[s.i].tag is Some,
        s.off <= fr.to,
    ensures
        s.off + rs[s.i].current.len() <= content_of(rs).len(),
        scanning(
            rs,
            fr,
            Scan {
                i: s.i + 1,
                off: s.off + rs[s.i].current.len(),
                original: s.original + rs[s.i].original,
                current: s.current + rs[s.i].current,
                first_id: if s.first_id is None { Some(rs[s.i].tag->0.id) } else { s.first_id },
                ..s
            },
        ),
{
    lemma_scan_step(rs, fr, s);
    let r = rs[s.i];
    let mid = rs.subrange(fr.first, s.i);
    let mid2 = rs.subrange(fr.first, s.i + 1);
    let s2 = Scan {
        i: s.i + 1,
        off: s.off + r.current.len(),
        original: s.original + r.original,
        current: s.current + r.current,
        first_id: if s.first_id is None { Some(r.tag->0.id) } else { s.first_id },
        ..s
    };
    lemma_hunks_push(mid, r);
    assert(hunks_of(mid2).drop_last() =~= hunks_of(mid));
    assert(content_of(mid2) =~= s2.left + s2.current + s2.right);
    assert(baseline_of(mid2) =~= s2.left + s2.original + s2.right);
    let hm = hunks_of(mid);
    let hm2 = hunks_of(mid2);
    assert forall|k: int| 0 <= k < hm2.len() implies (#[trigger] hm2[k]).start + fr.off0 <= fr.to
        && fr.from <= hm2[k].end + fr.off0 && hm2[k].end + fr.off0 <= s2.off - s2.right.len() by {
        if k < hm.len() {
            assert(hm2[k] == hm[k]);
        }
    }
    if hm.len() > 0 {
        assert(hm2[0] == hm[0]);
    }
    if fr.off0 + s.left.len() == fr.from && (forall|k: int|
        0 <= k < hm.len() ==> (#[trigger] hm[k]).start + fr.off0 >= fr.from) && s.i > fr.first {
        assert forall|k: int| 0 <= k < hm2.len() implies (#[trigger] hm2[k]).start + fr.off0
            >= fr.from by {
            if k < hm.len() {
                assert(hm2[k] == hm[k]);
            }
        }
    }
}

proof fn lemma_scan_end(rs: Seq<Region>, fr: Frame, s: Scan)
    requires
        scanning(rs, fr, s),
        s.i == rs.len() || s.done,
    ensures
        ({
            let mid = rs.subrange(fr.first, s.i);
            let hm = hunks_of(mid);
            let rest = hunks_of(rs.skip(s.i));
            let start = fr.off0 + s.left.len();
            let end = start + s.current.len();
            &&& start <= fr.from <= fr.to <= end
            &&& forall|k: int| 0 <= k < hm.len() ==> (#[trigger] hm[k]).end + fr.off0 <= end
            &&& forall|k: int| 0 <= k < rest.len() ==> (#[trigger] rest[k]).start + s.off > fr.to
            &&& (start == fr.from && forall|k: int|
                0 <= k < hm.len() ==> (#[trigger] hm[k]).start + fr.off0 >= fr.from) || (hm.len() > 0
                && hm[0].start + fr.off0 == start)
            &&& end == fr.to || (hm.len() > 0 && hm.last().end + fr.off0 == end)
        }),
{
    lemma_prefix_len(rs, s.i);
    if s.i == rs.len() {
        assert(rs.take(s.i) =~= rs);
        assert(rs.skip(s.i) =~= Seq::<Region>::empty());
    }
}

/// Why an edit is refused.
#[derive(Clone, Copy, Debug, PartialEq, Eq, Structural)]
pub enum EditError {
    /// The span does not lie inside the document.
    OutOfBounds,
    /// The document and its snapshots would outgrow the address space.
    TooLarge,
    /// No hunk id is left to give out.
    HunksExhausted,
}

/// How an edit of `from..to` that puts `added` bytes there changes the list
/// of pending hunks. The hunks `m..n` are those that the edit touches; they
/// and the edit become one hunk, which covers them all. It keeps the id of
/// the first of them, or gets the id `fresh` where the edit touches no hunk.
/// The hunks before stay as they are, those after move with the text.
pub open spec fn edited_hunks(
    before: Seq<HunkView>,
    after: Seq<HunkView>,
    from: int,
    to: int,
    added: int,
    session: u64,
    fresh: u64,
    m: int,
    n: int,
) -> bool {
    let delta = added - (to - from);
    &&& 0 <= m <= n <= before.len()
    &&& forall|k: int| 0 <= k < m ==> (#[trigger] before[k]).end < from
    &&& forall|k: int| m <= k < n ==> (#[trigger] before[k]).touches(from, to)
    &&& forall|k: int| n <= k < before.len() ==> (#[trigger] before[k]).start > to
    &&& after.len() == m + 1 + (before.len() - n)
    &&& after.take(m) == before.take(m)
    &&& after.skip(m + 1) == shift_all(before.skip(n), delta)
    &&& after[m].id == (if m < n { before[m].id } else { fresh })
    &&& after[m].session == session
    &&& after[m].start == (if m < n && before[m].start < from { before[m].start } else { from })
    &&& after[m].end == (if m < n && before[n - 1].end > to { before[n - 1].end } else { to })
        + delta
}

/// The snapshot of the hunk that an edit leaves: the text that its span
/// `start..end` held, with the snapshots of the hunks `m..n`, which the edit
/// took in, put back. Where the edit touches no hunk, that is the text
/// that it replaced.
pub open spec fn snapshot_taken(
    before: Seq<HunkView>,
    merged: HunkView,
    content: Seq<u8>,
    start: int,
    end: int,
    m: int,
    n: int,
) -> bool {
    merged.original == reverted(content.subrange(start, end), shift_all(before.subrange(m, n), -start))
}

/// What a stretch of regions held before its hunks were written, with the
/// untouched text at its ends left out.
proof fn lemma_mid_snapshot(
    mid: Seq<Region>,
    left: Seq<u8>,
    original: Seq<u8>,
    current: Seq<u8>,
    right: Seq<u8>,
)
    requires
        plain_regions_agree(mid),
        content_of(mid) == left + current + right,
        baseline_of(mid) == left + original + right,
        forall|k: int|
            0 <= k < hunks_of(mid).len() ==> (#[trigger] hunks_of(mid)[k]).start >= left.len()
                && hunks_of(mid)[k].end <= left.len() + current.len(),
    ensures
        original == reverted(current, shift_all(hunks_of(mid), -(left.len() as int))),
{
    let hm = hunks_of(mid);
    let inner = reverted(current, shift_all(hm, -(left.len() as int)));
    lemma_baseline_is_reverted(mid);
    lemma_hunks_ordered(mid);
    assert(well_placed(hm, (left.len() + current.len()) as int));
    assert((left + current) + right =~= left + current + right);
    crate::region::lemma_reverted_append(left + current, right, hm);
    lemma_reverted_prefix(left, current, hm);
    assert(left + original + right == left + inner + right);
    assert(original.len() == inner.len()) by {
        assert((left + original + right).len() == (left + inner + right).len());
    }
    assert(original =~= inner) by {
        assert forall|i: int| 0 <= i < original.len() implies original[i] == inner[i] by {
            assert((left + original + right)[left.len() + i] == original[i]);
            assert((left + inner + right)[left.len() + i] == inner[i]);
        }
    }
}

proof fn lemma_edit_hunks(
    hs: Seq<HunkView>,
    hs2: Seq<HunkView>,
    hx: Seq<HunkView>,
    hm: Seq<HunkView>,
    hz: Seq<HunkView>,
    cx: int,
    cm: int,
    merged: HunkView,
    from: int,
    to: int,
    added: int,
    session: u64,
    fresh: u64,
)
    requires
        hs == hx + shift_all(hm, cx) + shift_all(hz, cx + cm),
        hs2 == hx + seq![merged] + shift_all(hz, cx + cm + added - (to - from)),
        forall|k: int| 0 <= k < hx.len() ==> (#[trigger] hx[k]).end < from,
        forall|k: int|
            0 <= k < hm.len() ==> (#[trigger] hm[k]).start + cx <= to && from <= hm[k].end + cx,
        forall|k: int| 0 <= k < hz.len() ==> (#[trigger] hz[k]).start + cx + cm > to,
        merged.session == session,
        merged.id == (if hm.len() > 0 { hm[0].id } else { fresh }),
        merged.start <= from <= to <= merged.end - (added - (to - from)),
        (merged.start == from && forall|k: int|
            0 <= k < hm.len() ==> (#[trigger] hm[k]).start + cx >= from) || (hm.len() > 0
            && hm[0].start + cx == merged.start),
        merged.end - (added - (to - from)) == to || (hm.len() > 0 && hm.last().end + cx
            == merged.end - (added - (to - from))),
        forall|k: int|
            0 <= k < hm.len() ==> (#[trigger] hm[k]).end + cx <= merged.end - (added - (to - from)),
    ensures
        edited_hunks(
            hs,
            hs2,
            from,
            to,
            added,
            session,
            fresh,
            hx.len() as int,
            (hx.len() + hm.len()) as int,
        ),
{
    let m = hx.len() as int;
    let n = m + hm.len();
    let delta = added - (to - from);
    assert(hs2.take(m) =~= hs.take(m));
    assert(hs.skip(n) =~= shift_all(hz, cx + cm));
    assert(hs2.skip(m + 1) =~= shift_all(hs.skip(n), delta));
    assert forall|k: int| m <= k < n implies (#[trigger] hs[k]).touches(from, to) by {
        assert(hs[k] == hm[k - m].shifted(cx));
    }
    assert forall|k: int| n <= k < hs.len() implies (#[trigger] hs[k]).start > to by {
        assert(hs[k] == hz[k - n].shifted(cx + cm));
    }
    assert forall|k: int| 0 <= k < m implies (#[trigger] hs[k]).end < from by {
        assert(hs[k] == hx[k]);
    }
    assert(hs2[m] == merged);
    if m < n {
        assert(hs[m] == hm[0].shifted(cx));
        assert(hs[n - 1] == hm[hm.len() - 1].shifted(cx));
    }
}

/// After an edit the hunk ids are still distinct, below the next id, and
/// apart from the ids of the verdicts.
proof fn lemma_edit_ids(
    hs: Seq<HunkView>,
    hs2: Seq<HunkView>,
    vs: Seq<Verdict>,
    m: int,
    n: int,
    delta: int,
    next: u64,
    next2: u64,
)
    requires
        0 <= m <= n <= hs.len(),
        hs2.len() == m + 1 + (hs.len() - n),
        hs2.take(m) == hs.take(m),
        hs2.skip(m + 1) == shift_all(hs.skip(n), delta),
        m < n ==> hs2[m].id == hs[m].id && next2 == next,
        m == n ==> hs2[m].id == next && next2 == next + 1,
        forall|k: int| 0 <= k < hs.len() ==> (#[trigger] hs[k]).id < next,
        forall|j: int, k: int| 0 <= j < k < hs.len() ==> (#[trigger] hs[j]).id != (#[trigger] hs[k]).id,
        forall|k: int| 0 <= k < vs.len() ==> (#[trigger] vs[k]).id < next,
        forall|j: int, k: int|
            0 <= j < hs.len() && 0 <= k < vs.len() ==> (#[trigger] hs[j]).id != (#[trigger] vs[k]).id,
    ensures
        forall|k: int| 0 <= k < hs2.len() ==> (#[trigger] hs2[k]).id < next2,
        forall|j: int, k: int|
            0 <= j < k < hs2.len() ==> (#[trigger] hs2[j]).id != (#[trigger] hs2[k]).id,
        forall|k: int| 0 <= k < vs.len() ==> (#[trigger] vs[k]).id < next2,
        forall|j: int, k: int|
            0 <= j < hs2.len() && 0 <= k < vs.len() ==> (#[trigger] hs2[j]).id != (
            #[trigger] vs[k]).id,
{
    // where hunk `j` of the new list stood in the old one
    let origin = |j: int| if j < m { j } else if j == m { m } else { j - m - 1 + n };
    assert forall|j: int| 0 <= j < hs2.len() && j != m implies (#[trigger] hs2[j]).id == hs[origin(j)].id
        && 0 <= origin(j) < hs.len() by {
        if j < m {
            assert(hs2[j] == hs2.take(m)[j]);
            assert(hs[j] == hs.take(m)[j]);
        } else {
            assert(hs2[j] == hs2.skip(m + 1)[j - m - 1]);
            assert(hs.skip(n)[j - m - 1] == hs[j - m - 1 + n]);
        }
    }
    assert forall|k: int| 0 <= k < hs2.len() implies (#[trigger] hs2[k]).id < next2 by {
        if k != m {
            assert(hs2[k].id == hs[origin(k)].id);
        }
    }
    assert forall|j: int, k: int| 0 <= j < k < hs2.len() implies (#[trigger] hs2[j]).id != (
    #[trigger] hs2[k]).id by {
        if j != m {
            assert(hs2[j].id == hs[origin(j)].id);
        }
        if k != m {
            assert(hs2[k].id == hs[origin(k)].id);
        }
        if m < n {
            assert(hs[origin(j)].id != hs[origin(k)].id);
        } else if j != m && k != m {
            assert(hs[origin(j)].id != hs[origin(k)].id);
        }
    }
    assert forall|j: int, k: int| 0 <= j < hs2.len() && 0 <= k < vs.len() implies (
    #[trigger] hs2[j]).id != (#[trigger] vs[k]).id by {
        if j != m {
            assert(hs2[j].id == hs[origin(j)].id);
            assert(hs[origin(j)].id != vs[k].id);
        } else if m < n {
            assert(hs[m].id != vs[k].id);
        }
    }
}

/// A stretch of untouched text as a list of regions: none where it is empty.
spec fn plain_part(text: Seq<u8>) -> Seq<Region> {
    if text.len() > 0 {
        seq![Region { tag: None, original: text, current: text }]
    } else {
        Seq::empty()
    }
}

proof fn lemma_plain_part(text: Seq<u8>)
    ensures
        content_of(plain_part(text)) == text,
        baseline_of(plain_part(text)) == text,
        hunks_of(plain_part(text)) == Seq::<HunkView>::empty(),
{
    if text.len() > 0 {
        lemma_single(Region { tag: None, original: text, current: text });
    } else {
        assert(text =~= Seq::<u8>::empty());
    }
}

/// Replacing a span inside the middle of five joined texts.
proof fn lemma_splice_middle(
    head: Seq<u8>,
    left: Seq<u8>,
    current: Seq<u8>,
    right: Seq<u8>,
    tail: Seq<u8>,
    from: int,
    to: int,
    text: Seq<u8>,
)
    requires
        head.len() + left.len() <= from <= to <= head.len() + left.len() + current.len(),
    ensures
        ({
            let start = head.len() + left.len();
            let now = current.take(from - start) + text + current.skip(to - start);
            head + (left + now + right) + tail == spliced(
                head + (left + current + right) + tail,
                from,
                to,
                text,
            )
        }),
{
    let start = head.len() + left.len();
    let now = current.take(from - start) + text + current.skip(to - start);
    assert(head + (left + now + right) + tail =~= spliced(
        head + (left + current + right) + tail,
        from,
        to,
        text,
    ));
}

/// One hunk with untouched text to its left and right.
proof fn lemma_merged_part(left: Seq<u8>, merged: Region, right: Seq<u8>)
    requires
        merged.tag is Some,
    ensures
        ({
            let part = plain_part(left) + seq![merged] + plain_part(right);
            &&& content_of(part) == left + merged.current + right
            &&& baseline_of(part) == left + merged.original + right
            &&& hunks_of(part) == seq![
                HunkView {
                    id: merged.tag->0.id,
                    session: merged.tag->0.session,
                    start: left.len() as int,
                    end: (left.len() + merged.current.len()) as int,
                    original: merged.original,
                },
            ]
            &&& plain_regions_agree(part)
        }),
{
    let part = plain_part(left) + seq![merged] + plain_part(right);
    lemma_plain_part(left);
    lemma_plain_part(right);
    lemma_single(merged);
    lemma_three_parts(plain_part(left), seq![merged], plain_part(right));
    assert(hunks_of(part) =~= seq![
        HunkView {
            id: merged.tag->0.id,
            session: merged.tag->0.session,
            start: left.len() as int,
            end: (left.len() + merged.current.len()) as int,
            original: merged.original,
        },
    ]);
}

/// Snapshot bytes of a document cut in three.
proof fn lemma_snapshot_three(x: Seq<Region>, y: Seq<Region>, z: Seq<Region>)
    ensures
        snapshot_len(hunks_of(x + y + z)) == snapshot_len(hunks_of(x)) + snapshot_len(hunks_of(y))
            + snapshot_len(hunks_of(z)),
{
    let cx = content_of(x).len() as int;
    let cy = content_of(y).len() as int;
    lemma_three_parts(x, y, z);
    lemma_snapshot_concat(hunks_of(x), shift_all(hunks_of(y), cx));
    lemma_snapshot_concat(hunks_of(x) + shift_all(hunks_of(y), cx), shift_all(hunks_of(z), cx + cy));
    lemma_snapshot_shift(hunks_of(y), cx);
    lemma_snapshot_shift(hunks_of(z), cx + cy);
}

proof fn lemma_agree_three(x: Seq<Region>, y: Seq<Region>, y2: Seq<Region>, z: Seq<Region>)
    requires
        plain_regions_agree(x + y + z),
        plain_regions_agree(y2),
    ensures
        plain_regions_agree(x + y2 + z),
{
    let before = x + y + z;
    let after = x + y2 + z;
    assert forall|i: int| 0 <= i < after.len() && after[i].tag is None implies (#[trigger] after[i]).original
        == after[i].current by {
        if i < x.len() {
            assert(after[i] == before[i]);
        } else if i >= x.len() + y2.len() {
            assert(after[i] == before[i - y2.len() + y.len()]);
        } else {
            assert(after[i] == y2[i - x.len()]);
        }
    }
}

/// The regions `mid` of a document give way to one hunk that holds what
/// they held, with untouched text to its left and right.
proof fn lemma_edit_regions(
    x: Seq<Region>,
    mid: Seq<Region>,
    z: Seq<Region>,
    left: Seq<u8>,
    right: Seq<u8>,
    original: Seq<u8>,
    current: Seq<u8>,
    tag: Tag,
    from: int,
    to: int,
    text: Seq<u8>,
)
    requires
        content_of(mid) == left + current + right,
        baseline_of(mid) == left + original + right,
        content_of(x).len() + left.len() <= from <= to <= content_of(x).len() + left.len()
            + current.len(),
        plain_regions_agree(x + mid + z),
    ensures
        ({
            let start = content_of(x).len() + left.len();
            let now = current.take(from - start) + text + current.skip(to - start);
            let merged = Region { tag: Some(tag), original, current: now };
            let after = x + (plain_part(left) + seq![merged] + plain_part(right)) + z;
            &&& content_of(after) == spliced(content_of(x + mid + z), from, to, text)
            &&& baseline_of(after) == baseline_of(x + mid + z)
            &&& hunks_of(x + mid + z) == hunks_of(x) + shift_all(
                hunks_of(mid),
                content_of(x).len() as int,
            ) + shift_all(hunks_of(z), (content_of(x).len() + content_of(mid).len()) as int)
            &&& hunks_of(after) == hunks_of(x) + seq![
                HunkView {
                    id: tag.id,
                    session: tag.session,
                    start: start as int,
                    end: (start + now.len()) as int,
                    original,
                },
            ] + shift_all(
                hunks_of(z),
                content_of(x).len() + content_of(mid).len() + text.len() - (to - from),
            )
            &&& plain_regions_agree(after)
            &&& snapshot_len(hunks_of(after)) + snapshot_len(hunks_of(mid)) == snapshot_len(
                hunks_of(x + mid + z),
            ) + original.len()
            &&& content_of(after).len() == content_of(x + mid + z).len() + text.len() - (to - from)
        }),
{
    let cx = content_of(x).len() as int;
    let start = cx + left.len();
    let now = current.take(from - start) + text + current.skip(to - start);
    let merged = Region { tag: Some(tag), original, current: now };
    let mid2 = plain_part(left) + seq![merged] + plain_part(right);
    let before = x + mid + z;
    let after = x + mid2 + z;
    let view = HunkView {
        id: tag.id,
        session: tag.session,
        start: start as int,
        end: (start + now.len()) as int,
        original,
    };
    lemma_merged_part(left, merged, right);
    lemma_three_parts(x, mid, z);
    lemma_three_parts(x, mid2, z);
    lemma_splice_middle(content_of(x), left, current, right, content_of(z), from, to, text);
    lemma_agree_three(x, mid, mid2, z);
    lemma_snapshot_three(x, mid, z);
    lemma_snapshot_three(x, mid2, z);
    assert(snapshot_len(hunks_of(mid2)) == original.len()) by {
        lemma_snapshot_single(hunks_of(mid2)[0]);
        assert(hunks_of(mid2) =~= seq![hunks_of(mid2)[0]]);
    }
    assert(shift_all(hunks_of(mid2), cx) =~= seq![view]);
    assert(content_of(mid2).len() == content_of(mid).len() + text.len() - (to - from));
}

impl DiffReviewState {
    /// Why an edit of `from..to` that puts `added` bytes there is refused,
    /// if it is.
    pub open spec fn edit_refusal(&self, from: int, to: int, added: int) -> Option<EditError> {
        if !(from <= to <= self.content().len()) {
            Some(EditError::OutOfBounds)
        } else if self.content().len() + snapshot_len(self.hunks()) + added > usize::MAX {
            Some(EditError::TooLarge)
        } else if self.next_hunk() == u64::MAX {
            Some(EditError::HunksExhausted)
        } else {
            None
        }
    }

    /// Replaces the span `from..to` of the document by `text` and records
    /// the span as a pending hunk of `session`: a new one, or the hunks that
    /// the span touches, grown into one. Returns the id of that hunk.
    pub fn apply_edit(&mut self, session: u64, from: usize, to: usize, text: &Vec<u8>) -> (r: Result<
        u64,
        EditError,
    >)
        requires
            old(self).wf(),
        ensures
            final(self).wf(),
            match r {
                Ok(id) => {
                    &&& old(self).edit_refusal(from as int, to as int, text@.len() as int) is None
                    &&& final(self).content() == spliced(
                        old(self).content(),
                        from as int,
                        to as int,
                        text@,
                    )
                    &&& final(self).baseline() == old(self).baseline()
                    &&& final(self).verdicts() == old(self).verdicts()
                    &&& exists|m: int, n: int|
                        #[trigger] edited_hunks(
                            old(self).hunks(),
                            final(self).hunks(),
                            from as int,
                            to as int,
                            text@.len() as int,
                            session,
                            old(self).next_hunk(),
                            m,
                            n,
                        ) && final(self).hunks()[m].id == id && final(self).next_hunk() == (if m
                            < n {
                            old(self).next_hunk() as int
                        } else {
                            old(self).next_hunk() + 1
                        }) && snapshot_taken(
                            old(self).hunks(),
                            final(self).hunks()[m],
                            old(self).content(),
                            final(self).hunks()[m].start,
                            final(self).hunks()[m].end - (text@.len() - (to - from)),
                            m,
                            n,
                        )
                },
                Err(e) => {
                    &&& *final(self) == *old(self)
                    &&& old(self).edit_refusal(from as int, to as int, text@.len() as int) == Some(
                        e,
                    )
                },
            },
    {
        if from > to || to > self.length {
            return Err(EditError::OutOfBounds);
        }
        if text.len() > usize::MAX - self.length - self.held {
            return Err(EditError::TooLarge);
        }
        if self.next_hunk == u64::MAX {
            return Err(EditError::HunksExhausted);
        }
        let ghost pre = *self;
        let (first, off0) = self.scan_before(from);
        let a = self.absorb(first, off0, from, to);
        let ghost taken = a;
        let Absorbed { next, left, right, original, current, first_id, plain } = a;
        let start = off0 + left.len();
        let mut now: Vec<u8> = copy_range(&current, 0, from - start);
        append_range(&mut now, text, 0, text.len());
        append_range(&mut now, &current, to - start, current.len());
        proof {
            assert(text@.subrange(0, text@.len() as int) =~= text@);
            assert(now@ =~= current@.take(from - start) + text@ + current@.skip(to - start));
        }
        let id = match first_id {
            Some(id) => id,
            None => {
                let id = self.next_hunk;
                self.next_hunk = self.next_hunk + 1;
                id
            },
        };
        let tag = Tag { id, session };
        self.length = self.length - (to - from) + text.len();
        self.held = self.held + plain;
        self.rebuild(first, next, left, right, Piece::Edited { tag, original, current: now });
        proof {
            lemma_edit_final(pre, *self, first as int, off0 as int, taken, from as int, to as int, text@, tag);
        }
        Ok(id)
    }

    /// Puts `left`, `hunk` and `right` in place of the pieces `first..next`.
    fn rebuild(&mut self, first: usize, next: usize, left: Vec<u8>, right: Vec<u8>, hunk: Piece)
        requires
            first <= next <= old(self).pieces.len(),
        ensures
            final(self).regions() == old(self).regions().take(first as int) + (plain_part(left@)
                + seq![hunk.region()] + plain_part(right@)) + old(self).regions().skip(next as int),
            final(self).verdicts == old(self).verdicts,
            final(self).next_hunk == old(self).next_hunk,
            final(self).length == old(self).length,
            final(self).held == old(self).held,
    {
        let ghost rs = self.regions();
        let ghost lefts = left@;
        let ghost rights = right@;
        let ghost region = hunk.region();
        let mut tail = self.pieces.split_off(next);
        self.pieces.truncate(first);
        if left.len() > 0 {
            self.pieces.push(Piece::Plain(left));
        }
        self.pieces.push(hunk);
        if right.len() > 0 {
            self.pieces.push(Piece::Plain(right));
        }
        self.pieces.append(&mut tail);
        proof {
            assert(self.regions() =~= rs.take(first as int) + (plain_part(lefts) + seq![region]
                + plain_part(rights)) + rs.skip(next as int));
        }
    }

    /// The piece that holds the pending hunk `id`, if there is one.
    fn find_piece(&self, id: u64) -> (found: Option<usize>)
        requires
            self.wf(),
        ensures
            match found {
                Some(i) => i < self.pieces.len() && self.regions()[i as int].tag is Some
                    && self.regions()[i as int].tag->0.id == id && self.is_pending(id),
                None => !self.is_pending(id),
            },
    {
        let ghost rs = self.regions();
        let n = self.pieces.len();
        let mut i: usize = 0;
        while i < n
            invariant
                n == self.pieces.len(),
                rs == self.regions(),
                i <= n,
                forall|j: int| 0 <= j < i && rs[j].tag is Some ==> (#[trigger] rs[j]).tag->0.id != id,
            decreases n - i,
        {
            match &self.pieces[i] {
                Piece::Edited { tag, .. } => {
                    if tag.id == id {
                        proof {
                            lemma_hunk_of_region(rs, i as int);
                            assert(self.hunks()[rank_of(rs, i as int)].id == id);
                        }
                        return Some(i);
                    }
                },
                Piece::Plain(_) => {},
            }
            i = i + 1;
        }
        proof {
            if self.is_pending(id) {
                let k = self.index_of(id);
                let j = lemma_region_of_hunk(rs, k);
                assert(rs[j].tag->0.id == id);
            }
        }
        None
    }

    fn find_verdict(&self, id: u64) -> (found: bool)
        ensures
            found == self.has_verdict(id),
    {
        let n = self.verdicts.len();
        let mut i: usize = 0;
        while i < n
            invariant
                n == self.verdicts.len(),
                i <= n,
                forall|j: int| 0 <= j < i ==> (#[trigger] self.verdicts@[j]).id != id,
            decreases n - i,
        {
            if self.verdicts[i].id == id {
                return true;
            }
            i = i + 1;
        }
        false
    }

    /// Why hunk `id` cannot be judged, if it cannot.
    pub open spec fn review_refusal(&self, id: u64) -> Option<ReviewError> {
        if self.is_pending(id) {
            None
        } else if self.has_verdict(id) {
            Some(ReviewError::AlreadyResolved)
        } else {
            Some(ReviewError::UnknownHunk)
        }
    }

    fn refusal(&self, id: u64) -> (e: ReviewError)
        requires
            !self.is_pending(id),
        ensures
            self.review_refusal(id) == Some(e),
    {
        if self.find_verdict(id) {
            ReviewError::AlreadyResolved
        } else {
            ReviewError::UnknownHunk
        }
    }

    /// Keeps the pending hunk `id`: the text stays as generation left it,
    /// and the hunk is settled as kept.
    pub fn keep(&mut self, id: u64) -> (r: Result<(), ReviewError>)
        requires
            old(self).wf(),
        ensures
            final(self).wf(),
            match r {
                Ok(()) => {
                    &&& old(self).is_pending(id)
                    &&& old(self).kept_at(*final(self), old(self).index_of(id))
                    &&& final(self).status_of(id) == Some(HunkStatus::Kept)
                },
                Err(e) => *final(self) == *old(self) && old(self).review_refusal(id) == Some(e),
            },
    {
        match self.find_piece(id) {
            Some(i) => {
                self.settle_piece(i, true);
                Ok(())
            },
            None => Err(self.refusal(id)),
        }
    }

    /// Rejects the pending hunk `id`: its span gets back the text that stood
    /// there before generation wrote into it, and the hunk is settled as
    /// rejected.
    pub fn reject(&mut self, id: u64) -> (r: Result<(), ReviewError>)
        requires
            old(self).wf(),
        ensures
            final(self).wf(),
            match r {
                Ok(()) => {
                    &&& old(self).is_pending(id)
                    &&& old(self).rejected_at(*final(self), old(self).index_of(id))
                    &&& final(self).status_of(id) == Some(HunkStatus::Rejected)
                },
                Err(e) => *final(self) == *old(self) && old(self).review_refusal(id) == Some(e),
            },
    {
        match self.find_piece(id) {
            Some(i) => {
                self.settle_piece(i, false);
                Ok(())
            },
            None => Err(self.refusal(id)),
        }
    }
}

/// What `apply_edit` owes its caller, from what the scan found and how the
/// pieces were rebuilt.
proof fn lemma_edit_final(
    pre: DiffReviewState,
    post: DiffReviewState,
    first: int,
    off0: int,
    a: Absorbed,
    from: int,
    to: int,
    text: Seq<u8>,
    tag: Tag,
)
    requires
        pre.wf(),
        pre.edit_refusal(from, to, text.len() as int) is None,
        0 <= first <= pre.regions().len(),
        off0 == content_of(pre.regions().take(first)).len(),
        forall|k: int|
            0 <= k < hunks_of(pre.regions().take(first)).len() ==> (#[trigger] hunks_of(
                pre.regions().take(first),
            )[k]).end < from,
        absorbed_ok(pre.regions(), first, off0, from, to, a),
        tag.id == (match a.first_id {
            Some(id) => id,
            None => pre.next_hunk,
        }),
        post.next_hunk == (if a.first_id is Some { pre.next_hunk as int } else { pre.next_hunk + 1 }),
        post.verdicts == pre.verdicts,
        post.length == pre.length - (to - from) + text.len(),
        post.held == pre.held + a.plain,
        post.regions() == pre.regions().take(first) + (plain_part(a.left@) + seq![
            Region {
                tag: Some(tag),
                original: a.original@,
                current: a.current@.take(from - (off0 + a.left@.len())) + text + a.current@.skip(
                    to - (off0 + a.left@.len()),
                ),
            },
        ] + plain_part(a.right@)) + pre.regions().skip(a.next as int),
    ensures
        post.wf(),
        post.content() == spliced(pre.content(), from, to, text),
        post.baseline() == pre.baseline(),
        exists|m: int, n: int|
            #[trigger] edited_hunks(
                pre.hunks(),
                post.hunks(),
                from,
                to,
                text.len() as int,
                tag.session,
                pre.next_hunk(),
                m,
                n,
            ) && post.hunks()[m].id == tag.id && post.next_hunk() == (if m < n {
                pre.next_hunk() as int
            } else {
                pre.next_hunk() + 1
            }) && snapshot_taken(
                pre.hunks(),
                post.hunks()[m],
                pre.content(),
                post.hunks()[m].start,
                post.hunks()[m].end - (text.len() - (to - from)),
                m,
                n,
            ),
{
    let rs = pre.regions();
    let hs = pre.hunks();
    let rs2 = post.regions();
    let hs2 = post.hunks();
    let x = rs.take(first);
    let mid = rs.subrange(first, a.next as int);
    let z = rs.skip(a.next as int);
    let added = text.len() as int;
    let delta = added - (to - from);
    assert(rs =~= x + mid + z);
    lemma_edit_regions(x, mid, z, a.left@, a.right@, a.original@, a.current@, tag, from, to, text);
    let hx = hunks_of(x);
    let hm = hunks_of(mid);
    let hz = hunks_of(z);
    let cx = content_of(x).len() as int;
    let cm = content_of(mid).len() as int;
    let m = hx.len() as int;
    let n = (hx.len() + hm.len()) as int;
    assert(hs2[m].id == tag.id && hs2[m].session == tag.session);
    lemma_edit_hunks(
        hs,
        hs2,
        hx,
        hm,
        hz,
        cx,
        cm,
        hs2[m],
        from,
        to,
        added,
        tag.session,
        pre.next_hunk,
    );
    lemma_edit_ids(hs, hs2, pre.verdicts@, m, n, delta, pre.next_hunk, post.next_hunk);
    assert(edited_hunks(hs, hs2, from, to, added, tag.session, pre.next_hunk(), m, n));
    let start = off0 + a.left@.len();
    let end = start + a.current@.len();
    assert(hs2[m].start == start && hs2[m].end - delta == end);
    lemma_edit_snapshot(rs, first, a.next as int, a.left@, a.original@, a.current@, a.right@);
}

/// The snapshot that an edit gathers is what its span held before any of
/// the hunks in it was written.
proof fn lemma_edit_snapshot(
    rs: Seq<Region>,
    first: int,
    next: int,
    left: Seq<u8>,
    original: Seq<u8>,
    current: Seq<u8>,
    right: Seq<u8>,
)
    requires
        plain_regions_agree(rs),
        0 <= first <= next <= rs.len(),
        content_of(rs.subrange(first, next)) == left + current + right,
        baseline_of(rs.subrange(first, next)) == left + original + right,
        forall|k: int|
            0 <= k < hunks_of(rs.subrange(first, next)).len() ==> (#[trigger] hunks_of(
                rs.subrange(first, next),
            )[k]).end <= left.len() + current.len(),
        (forall|k: int|
            0 <= k < hunks_of(rs.subrange(first, next)).len() ==> (#[trigger] hunks_of(
                rs.subrange(first, next),
            )[k]).start >= left.len()) || (hunks_of(rs.subrange(first, next)).len() > 0 && hunks_of(
            rs.subrange(first, next),
        )[0].start == left.len()),
    ensures
        ({
            let start = (content_of(rs.take(first)).len() + left.len()) as int;
            let m = hunks_of(rs.take(first)).len() as int;
            let n = m + hunks_of(rs.subrange(first, next)).len();
            original == reverted(
                content_of(rs).subrange(start, start + current.len()),
                shift_all(hunks_of(rs).subrange(m, n), -start),
            )
        }),
{
    let x = rs.take(first);
    let mid = rs.subrange(first, next);
    let z = rs.skip(next);
    let hm = hunks_of(mid);
    let cx = content_of(x).len() as int;
    let start = cx + left.len();
    let m = hunks_of(x).len() as int;
    let n = m + hm.len();
    assert(rs =~= x + mid + z);
    lemma_three_parts(x, mid, z);
    lemma_hunks_ordered(mid);
    assert(plain_regions_agree(mid)) by {
        assert forall|i: int| 0 <= i < mid.len() && mid[i].tag is None implies (#[trigger] mid[i]).original
            == mid[i].current by {
            assert(mid[i] == rs[first + i]);
        }
    }
    assert forall|k: int| 0 <= k < hm.len() implies (#[trigger] hm[k]).start >= left.len() by {
        if k > 0 {
            assert(hm[0].end <= hm[k].start);
        }
    }
    lemma_mid_snapshot(mid, left, original, current, right);
    assert(content_of(rs).subrange(start, start + current.len()) =~= current);
    assert(hunks_of(rs).subrange(m, n) =~= shift_all(hm, cx));
    assert(shift_all(hunks_of(rs).subrange(m, n), -start) =~= shift_all(hm, -(left.len() as int)));
}

/// The verdicts that judging the picked hunks adds, in document order.
pub open spec fn verdicts_for(hs: Seq<HunkView>, pick: Option<u64>, status: HunkStatus) -> Seq<
    Verdict,
>
    decreases hs.len(),
{
    if hs.len() == 0 {
        Seq::empty()
    } else if hs.last().picked(pick) {
        verdicts_for(hs.drop_last(), pick, status).push(
            Verdict { id: hs.last().id, session: hs.last().session, status },
        )
    } else {
        verdicts_for(hs.drop_last(), pick, status)
    }
}

/// None of the hunks that stay is a picked one.
pub proof fn lemma_remaining_unpicked(hs: Seq<HunkView>, pick: Option<u64>, rejected: bool)
    ensures
        forall|k: int|
            0 <= k < remaining(hs, pick, rejected).len() ==> !(#[trigger] remaining(
                hs,
                pick,
                rejected,
            )[k]).picked(pick),
    decreases hs.len(),
{
    if hs.len() > 0 {
        let init = remaining(hs.drop_last(), pick, rejected);
        let all = remaining(hs, pick, rejected);
        lemma_remaining_unpicked(hs.drop_last(), pick, rejected);
        assert forall|k: int| 0 <= k < all.len() implies !(#[trigger] all[k]).picked(pick) by {
            if k < init.len() {
                assert(all[k] == init[k]);
            }
        }
    }
}

/// A pending hunk as handed to a caller.
#[derive(Debug, PartialEq)]
pub struct Hunk {
    pub id: u64,
    pub session: u64,
    pub start: usize,
    pub end: usize,
    pub original: Vec<u8>,
}

impl View for Hunk {
    type V = HunkView;

    open spec fn view(&self) -> HunkView {
        HunkView {
            id: self.id,
            session: self.session,
            start: self.start as int,
            end: self.end as int,
            original: self.original@,
        }
    }
}

impl DiffReviewState {
    /// Judges every picked hunk, in document order.
    fn judge_all(&mut self, pick: Option<u64>, keep: bool)
        requires
            old(self).wf(),
        ensures
            final(self).wf(),
            final(self).regions() == judged(old(self).regions(), pick, keep),
            final(self).verdicts() == old(self).verdicts() + verdicts_for(
                old(self).hunks(),
                pick,
                if keep {
                    HunkStatus::Kept
                } else {
                    HunkStatus::Rejected
                },
            ),
            final(self).next_hunk() == old(self).next_hunk(),
    {
        let ghost rs0 = self.regions();
        let ghost vs0 = self.verdicts@;
        let ghost status = if keep {
            HunkStatus::Kept
        } else {
            HunkStatus::Rejected
        };
        let n = self.pieces.len();
        let mut i: usize = 0;
        proof {
            assert(rs0.take(0) =~= Seq::<Region>::empty());
            assert(vs0 + verdicts_for(hunks_of(rs0.take(0)), pick, status) =~= vs0);
            assert(self.regions() =~= Seq::new(
                n as nat,
                |j: int| if j < 0 { judged(rs0, pick, keep)[j] } else { rs0[j] },
            ));
        }
        while i < n
            invariant
                self.wf(),
                self.pieces.len() == n,
                rs0.len() == n,
                i <= n,
                status == (if keep { HunkStatus::Kept } else { HunkStatus::Rejected }),
                self.regions() == Seq::new(
                    n as nat,
                    |j: int| if j < i { judged(rs0, pick, keep)[j] } else { rs0[j] },
                ),
                self.verdicts@ == vs0 + verdicts_for(hunks_of(rs0.take(i as int)), pick, status),
                self.next_hunk == old(self).next_hunk,
            decreases n - i,
        {
            let hit = match &self.pieces[i] {
                Piece::Edited { tag, .. } => match pick {
                    None => true,
                    Some(session) => tag.session == session,
                },
                Piece::Plain(_) => false,
            };
            let ghost rs = self.regions();
            let ghost vs = self.verdicts@;
            proof {
                assert(rs[i as int] == rs0[i as int]);
                assert(rs0.take(i as int + 1) =~= rs0.take(i as int).push(rs0[i as int]));
                lemma_hunks_push(rs0.take(i as int), rs0[i as int]);
                if rs0[i as int].tag is Some {
                    assert(hunks_of(rs0.take(i as int + 1)).drop_last() =~= hunks_of(
                        rs0.take(i as int),
                    ));
                    lemma_hunk_of_region(rs, i as int);
                }
            }
            if hit {
                self.settle_piece(i, keep);
                proof {
                    assert(self.verdicts@ =~= vs0 + verdicts_for(
                        hunks_of(rs0.take(i as int + 1)),
                        pick,
                        status,
                    ));
                }
            }
            i = i + 1;
            proof {
                assert(self.regions() =~= Seq::new(
                    n as nat,
                    |j: int| if j < i { judged(rs0, pick, keep)[j] } else { rs0[j] },
                ));
            }
        }
        proof {
            assert(rs0.take(n as int) =~= rs0);
            assert(self.regions() =~= judged(rs0, pick, keep));
        }
    }

    /// Keeps every pending hunk of `session`. The text does not change.
    pub fn keep_all(&mut self, session: u64)
        requires
            old(self).wf(),
        ensures
            final(self).wf(),
            final(self).content() == old(self).content(),
            final(self).hunks() == remaining(old(self).hunks(), Some(session), false),
            final(self).verdicts() == old(self).verdicts() + verdicts_for(
                old(self).hunks(),
                Some(session),
                HunkStatus::Kept,
            ),
            final(self).next_hunk() == old(self).next_hunk(),
            final(self).resolved(session),
    {
        proof {
            lemma_judged(self.regions(), Some(session), true);
            lemma_remaining_unpicked(self.hunks(), Some(session), false);
        }
        self.judge_all(Some(session), true);
    }

    /// Rejects every pending hunk of `session`: each of their spans gets its
    /// snapshot back. The hunks of other sessions keep their text.
    pub fn reject_all(&mut self, session: u64)
        requires
            old(self).wf(),
        ensures
            final(self).wf(),
            final(self).content() == reverted_where(
                old(self).content(),
                old(self).hunks(),
                Some(session),
            ),
            final(self).baseline() == old(self).baseline(),
            final(self).hunks() == remaining(old(self).hunks(), Some(session), true),
            final(self).verdicts() == old(self).verdicts() + verdicts_for(
                old(self).hunks(),
                Some(session),
                HunkStatus::Rejected,
            ),
            final(self).next_hunk() == old(self).next_hunk(),
            final(self).resolved(session),
    {
        proof {
            lemma_judged(self.regions(), Some(session), false);
            lemma_remaining_unpicked(self.hunks(), Some(session), true);
        }
        self.judge_all(Some(session), false);
    }

    /// Rejects every pending hunk, whatever session wrote it: the document
    /// reads as its baseline again and nothing is left to review.
    pub fn discard_pending(&mut self)
        requires
            old(self).wf(),
        ensures
            final(self).wf(),
            final(self).content() == old(self).baseline(),
            final(self).baseline() == old(self).baseline(),
            final(self).hunks() == Seq::<HunkView>::empty(),
            final(self).verdicts() == old(self).verdicts() + verdicts_for(
                old(self).hunks(),
                None,
                HunkStatus::Rejected,
            ),
            final(self).next_hunk() == old(self).next_hunk(),
    {
        proof {
            lemma_judged(self.regions(), None, false);
            lemma_pick_all(self.content(), self.hunks(), true);
            lemma_baseline_is_reverted(self.regions());
        }
        self.judge_all(None, false);
    }

    /// Whether every hunk that `session` wrote has been kept or rejected.
    pub fn is_resolved(&self, session: u64) -> (r: bool)
        requires
            self.wf(),
        ensures
            r == self.resolved(session),
    {
        let ghost rs = self.regions();
        let n = self.pieces.len();
        let mut i: usize = 0;
        while i < n
            invariant
                n == self.pieces.len(),
                rs == self.regions(),
                i <= n,
                forall|j: int|
                    0 <= j < i && rs[j].tag is Some ==> (#[trigger] rs[j]).tag->0.session != session,
            decreases n - i,
        {
            match &self.pieces[i] {
                Piece::Edited { tag, .. } => {
                    if tag.session == session {
                        proof {
                            lemma_hunk_of_region(rs, i as int);
                            assert(self.hunks()[rank_of(rs, i as int)].session == session);
                        }
                        return false;
                    }
                },
                Piece::Plain(_) => {},
            }
            i = i + 1;
        }
        proof {
            assert forall|k: int| 0 <= k < self.hunks().len() implies (#[trigger] self.hunks()[k]).session
                != session by {
                let j = lemma_region_of_hunk(rs, k);
                assert(rs[j].tag->0.session != session);
            }
        }
        true
    }

    /// Whether nothing is left to review, of any session.
    pub fn is_settled(&self) -> (r: bool)
        requires
            self.wf(),
        ensures
            r == (self.hunks().len() == 0),
            r ==> self.content() == self.baseline(),
    {
        let ghost rs = self.regions();
        proof {
            self.edits_lie_in_hunks();
        }
        let n = self.pieces.len();
        let mut i: usize = 0;
        while i < n
            invariant
                n == self.pieces.len(),
                rs == self.regions(),
                i <= n,
                forall|j: int| 0 <= j < i ==> (#[trigger] rs[j]).tag is None,
            decreases n - i,
        {
            if self.pieces[i].is_edited() {
                proof {
                    lemma_hunk_of_region(rs, i as int);
                }
                return false;
            }
            i = i + 1;
        }
        proof {
            if self.hunks().len() > 0 {
                let j = lemma_region_of_hunk(rs, 0);
                assert(rs[j].tag is None);
            }
        }
        true
    }

    /// The status of hunk `id`, if such a hunk is known.
    pub fn status(&self, id: u64) -> (r: Option<HunkStatus>)
        requires
            self.wf(),
        ensures
            r == self.status_of(id),
    {
        if self.find_piece(id).is_some() {
            return Some(HunkStatus::Pending);
        }
        let n = self.verdicts.len();
        let mut i: usize = 0;
        while i < n
            invariant
                self.wf(),
                n == self.verdicts.len(),
                i <= n,
                forall|j: int| 0 <= j < i ==> (#[trigger] self.verdicts@[j]).id != id,
            decreases n - i,
        {
            if self.verdicts[i].id == id {
                proof {
                    let c = choose|c: int|
                        0 <= c < self.verdicts().len() && #[trigger] self.verdicts()[c].id == id;
                    if c < i {
                        assert(self.verdicts@[c].id != self.verdicts@[i as int].id);
                    } else if c > i {
                        assert(self.verdicts@[i as int].id != self.verdicts@[c].id);
                    }
                }
                return Some(self.verdicts[i].status);
            }
            i = i + 1;
        }
        None
    }

    /// The text of the document as it reads now.
    pub fn text(&self) -> (out: Vec<u8>)
        ensures
            out@ == self.content(),
    {
        let ghost rs = self.regions();
        let n = self.pieces.len();
        let mut out: Vec<u8> = Vec::new();
        let mut i: usize = 0;
        proof {
            assert(rs.take(0) =~= Seq::<Region>::empty());
        }
        while i < n
            invariant
                n == self.pieces.len(),
                rs == self.regions(),
                i <= n,
                out@ == content_of(rs.take(i as int)),
            decreases n - i,
        {
            proof {
                assert(rs.take(i as int + 1) =~= rs.take(i as int).push(rs[i as int]));
                lemma_content_push(rs.take(i as int), rs[i as int]);
            }
            match &self.pieces[i] {
                Piece::Plain(text) => {
                    append_range(&mut out, text, 0, text.len());
                    proof {
                        assert(text@.subrange(0, text@.len() as int) =~= text@);
                    }
                },
                Piece::Edited { current, .. } => {
                    append_range(&mut out, current, 0, current.len());
                    proof {
                        assert(current@.subrange(0, current@.len() as int) =~= current@);
                    }
                },
            }
            i = i + 1;
        }
        proof {
            assert(rs.take(n as int) =~= rs);
        }
        out
    }

    /// The pending hunks, in document order.
    pub fn pending(&self) -> (out: Vec<Hunk>)
        requires
            self.wf(),
        ensures
            out@.len() == self.hunks().len(),
            forall|k: int| 0 <= k < out@.len() ==> (#[trigger] out@[k])@ == self.hunks()[k],
    {
        let ghost rs = self.regions();
        let n = self.pieces.len();
        let mut out: Vec<Hunk> = Vec::new();
        let mut i: usize = 0;
        let mut off: usize = 0;
        proof {
            assert(rs.take(0) =~= Seq::<Region>::empty());
        }
        while i < n
            invariant
                self.wf(),
                n == self.pieces.len(),
                rs == self.regions(),
                i <= n,
                off == content_of(rs.take(i as int)).len(),
                out@.len() == hunks_of(rs.take(i as int)).len(),
                forall|k: int|
                    0 <= k < out@.len() ==> (#[trigger] out@[k])@ == hunks_of(rs.take(i as int))[k],
            decreases n - i,
        {
            proof {
                assert(rs.take(i as int + 1) =~= rs.take(i as int).push(rs[i as int]));
                lemma_content_push(rs.take(i as int), rs[i as int]);
                lemma_hunks_push(rs.take(i as int), rs[i as int]);
                lemma_prefix_len(rs, i as int + 1);
            }
            match &self.pieces[i] {
                Piece::Plain(text) => {
                    off = off + text.len();
                },
                Piece::Edited { tag, original, current } => {
                    let end = off + current.len();
                    let snapshot = crate::bytes::copy_bytes(original);
                    out.push(Hunk { id: tag.id, session: tag.session, start: off, end, original: snapshot });
                    off = end;
                },
            }
            i = i + 1;
        }
        proof {
            assert(rs.take(n as int) =~= rs);
        }
        out
    }

    /// The pending hunks lie inside the document, in order, and no two of
    /// them overlap.
    pub proof fn hunks_never_overlap(&self)
        requires
            self.wf(),
        ensures
            well_placed(self.hunks(), self.content().len() as int),
    {
        lemma_hunks_ordered(self.regions());
    }

    /// Text that no pending hunk covers is as it was before generation:
    /// putting every snapshot back gives the baseline.
    pub proof fn edits_lie_in_hunks(&self)
        requires
            self.wf(),
        ensures
            self.baseline() == reverted(self.content(), self.hunks()),
    {
        lemma_baseline_is_reverted(self.regions());
    }

    /// No two pending hunks share an id, no two verdicts do, and a hunk that
    /// has a verdict is no longer pending.
    pub proof fn ids_are_unique(&self)
        requires
            self.wf(),
        ensures
            forall|j: int, k: int|
                0 <= j < k < self.hunks().len() ==> (#[trigger] self.hunks()[j]).id != (
                #[trigger] self.hunks()[k]).id,
            forall|j: int, k: int|
                0 <= j < k < self.verdicts().len() ==> (#[trigger] self.verdicts()[j]).id != (
                #[trigger] self.verdicts()[k]).id,
            forall|id: u64| !(#[trigger] self.is_pending(id) && self.has_verdict(id)),
            forall|k: int|
                0 <= k < self.verdicts().len() ==> (#[trigger] self.verdicts()[k]).status
                    != HunkStatus::Pending,
    {
        assert forall|id: u64| !(#[trigger] self.is_pending(id) && self.has_verdict(id)) by {
            if self.is_pending(id) && self.has_verdict(id) {
                let j = self.index_of(id);
                let k = choose|k: int|
                    0 <= k < self.verdicts().len() && #[trigger] self.verdicts()[k].id == id;
                assert(self.hunks()[j].id != self.verdicts()[k].id);
            }
        }
    }
}

/// Rejecting a hunk puts its snapshot where the hunk stood, byte for byte,
/// leaves the text before and after as it was, and leaves to every other
/// pending hunk the text it had.
pub proof fn reject_restores_snapshot(before: DiffReviewState, after: DiffReviewState, k: int)
    requires
        before.wf(),
        0 <= k < before.hunks().len(),
        before.rejected_at(after, k),
    ensures
        ({
            let h = before.hunks()[k];
            &&& after.content().subrange(h.start, h.start + h.original.len()) == h.original
            &&& after.content().take(h.start) == before.content().take(h.start)
            &&& after.content().skip(h.start + h.original.len()) == before.content().skip(h.end)
            &&& after.hunks().len() == before.hunks().len() - 1
            &&& forall|j: int|
                0 <= j < after.hunks().len() ==> after.content().subrange(
                    (#[trigger] after.hunks()[j]).start,
                    after.hunks()[j].end,
                ) == before.content().subrange(
                    before.hunks()[if j < k { j } else { j + 1 }].start,
                    before.hunks()[if j < k { j } else { j + 1 }].end,
                )
        }),
{
    before.hunks_never_overlap();
    let h = before.hunks()[k];
    let hs = before.hunks();
    let text = before.content();
    let now = after.content();
    assert(now.subrange(h.start, h.start + h.original.len()) =~= h.original);
    assert(now.take(h.start) =~= text.take(h.start));
    assert(now.skip(h.start + h.original.len()) =~= text.skip(h.end));
    assert forall|j: int| 0 <= j < after.hunks().len() implies now.subrange(
        (#[trigger] after.hunks()[j]).start,
        after.hunks()[j].end,
    ) == text.subrange(
        hs[if j < k { j } else { j + 1 }].start,
        hs[if j < k { j } else { j + 1 }].end,
    ) by {
        if j < k {
            assert(after.hunks()[j] == hs[j]);
            assert(hs[j].end <= hs[k].start);
            assert(now.subrange(hs[j].start, hs[j].end) =~= text.subrange(hs[j].start, hs[j].end));
        } else {
            assert(after.hunks()[j] == hs[j + 1].shifted(h.growth()));
            assert(hs[k].end <= hs[j + 1].start);
            assert(now.subrange(hs[j + 1].start + h.growth(), hs[j + 1].end + h.growth())
                =~= text.subrange(hs[j + 1].start, hs[j + 1].end));
        }
    }
}

/// An edit that touches no hunk, rejected before anything else is written,
/// leaves the text as it was before the edit.
pub proof fn reject_undoes_fresh_edit(
    before: DiffReviewState,
    edited: DiffReviewState,
    after: DiffReviewState,
    from: int,
    to: int,
    text: Seq<u8>,
    m: int,
)
    requires
        0 <= from <= to <= before.content().len(),
        edited.content() == spliced(before.content(), from, to, text),
        0 <= m < edited.hunks().len(),
        m <= before.hunks().len(),
        edited.hunks()[m].start == from,
        edited.hunks()[m].end == from + text.len(),
        snapshot_taken(before.hunks(), edited.hunks()[m], before.content(), from, to, m, m),
        edited.rejected_at(after, m),
    ensures
        after.content() == before.content(),
{
    let h = edited.hunks()[m];
    let none = before.hunks().subrange(m, m);
    assert(shift_all(none, -from) =~= Seq::<HunkView>::empty());
    assert(h.original == before.content().subrange(from, to));
    assert(after.content() =~= before.content());
}

} // verus!
