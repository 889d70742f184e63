use vstd::prelude::*;

verus! {

/// Who wrote an edited region: the hunk it belongs to and the generation
/// session that produced it.
#[derive(Clone, Copy, Debug, PartialEq, Eq, Structural)]
pub struct Tag {
    pub id: u64,
    pub session: u64,
}

/// One stretch of a document under review. A region without a tag is text
/// that no pending edit touches, and there `original` and `current` agree.
/// A tagged region is a pending hunk: `current` is what the document shows,
/// `original` is what stood there before the first edit of the hunk.
pub struct Region {
    pub tag: Option<Tag>,
    pub original: Seq<u8>,
    pub current: Seq<u8>,
}

/// A pending hunk as the user sees it: a span `start..end` of the document
/// and the text that the span replaced.
pub struct HunkView {
    pub id: u64,
    pub session: u64,
    pub start: int,
    pub end: int,
    pub original: Seq<u8>,
}

impl HunkView {
    /// The hunk with its span moved by `by` bytes.
    pub open spec fn shifted(self, by: int) -> HunkView {
        HunkView { start: self.start + by, end: self.end + by, ..self }
    }

    /// The hunk touches the span `from..to`: they overlap or share an end.
    pub open spec fn touches(self, from: int, to: int) -> bool {
        self.start <= to && from <= self.end
    }
}

/// The document as it reads now: the current text of every region, in order.
pub open spec fn content_of(rs: Seq<Region>) -> Seq<u8>
    decreases rs.len(),
{
    if rs.len() == 0 {
        Seq::empty()
    } else {
        content_of(rs.drop_last()) + rs.last().current
    }
}

/// The document as it would read with every pending hunk rejected.
pub open spec fn baseline_of(rs: Seq<Region>) -> Seq<u8>
    decreases rs.len(),
{
    if rs.len() == 0 {
        Seq::empty()
    } else {
        baseline_of(rs.drop_last()) + rs.last().original
    }
}

/// The pending hunks of a document, in document order, each with the span
/// that its current text occupies.
pub open spec fn hunks_of(rs: Seq<Region>) -> Seq<HunkView>
    decreases rs.len(),
{
    if rs.len() == 0 {
        Seq::empty()
    } else {
        let before = rs.drop_last();
        let last = rs.last();
        match last.tag {
            Some(tag) => hunks_of(before).push(
                HunkView {
                    id: tag.id,
                    session: tag.session,
                    start: content_of(before).len() as int,
                    end: (content_of(before).len() + last.current.len()) as int,
                    original: last.original,
                },
            ),
            None => hunks_of(before),
        }
    }
}

/// The hunks with their spans moved by `by` bytes.
pub open spec fn shift_all(hs: Seq<HunkView>, by: int) -> Seq<HunkView> {
    Seq::new(hs.len(), |k: int| hs[k].shifted(by))
}

/// Bytes held as pre-edit snapshots by a list of hunks.
pub open spec fn snapshot_len(hs: Seq<HunkView>) -> nat
    decreases hs.len(),
{
    if hs.len() == 0 {
        0
    } else {
        snapshot_len(hs.drop_last()) + hs.last().original.len()
    }
}

/// `text` with the span `from..to` replaced by `with`.
pub open spec fn spliced(text: Seq<u8>, from: int, to: int, with: Seq<u8>) -> Seq<u8> {
    text.take(from) + with + text.skip(to)
}

/// `text` with the span of every hunk replaced by the hunk's snapshot. The
/// hunks are taken from the last to the first, so that the spans of those
/// still to come are not moved.
pub open spec fn reverted(text: Seq<u8>, hs: Seq<HunkView>) -> Seq<u8>
    decreases hs.len(),
{
    if hs.len() == 0 {
        text
    } else {
        let h = hs.last();
        reverted(spliced(text, h.start, h.end, h.original), hs.drop_last())
    }
}

/// Untagged regions hold the same text before and after.
pub open spec fn plain_regions_agree(rs: Seq<Region>) -> bool {
    forall|i: int| 0 <= i < rs.len() && rs[i].tag is None ==> (#[trigger] rs[i]).original == rs[i].current
}

/// One more region adds its text to the document and to the baseline.
pub proof fn lemma_content_push(rs: Seq<Region>, r: Region)
    ensures
        content_of(rs.push(r)) == content_of(rs) + r.current,
        baseline_of(rs.push(r)) == baseline_of(rs) + r.original,
{
    assert(rs.push(r).drop_last() =~= rs);
}

/// The text of two stretches of regions, joined, is their texts joined.
pub proof fn lemma_content_concat(x: Seq<Region>, y: Seq<Region>)
    ensures
        content_of(x + y) == content_of(x) + content_of(y),
        baseline_of(x + y) == baseline_of(x) + baseline_of(y),
    decreases y.len(),
{
    if y.len() == 0 {
        assert(x + y =~= x);
        assert(content_of(x) + content_of(y) =~= content_of(x));
        assert(baseline_of(x) + baseline_of(y) =~= baseline_of(x));
    } else {
        assert((x + y).drop_last() =~= x + y.drop_last());
        lemma_content_concat(x, y.drop_last());
        assert(content_of(x + y) =~= content_of(x) + content_of(y));
        assert(baseline_of(x + y) =~= baseline_of(x) + baseline_of(y));
    }
}

/// One more region adds a hunk at the end of the document if it is tagged.
pub proof fn lemma_hunks_push(rs: Seq<Region>, r: Region)
    ensures
        r.tag is None ==> hunks_of(rs.push(r)) == hunks_of(rs),
        r.tag matches Some(tag) ==> hunks_of(rs.push(r)) == hunks_of(rs).push(
            HunkView {
                id: tag.id,
                session: tag.session,
                start: content_of(rs).len() as int,
                end: (content_of(rs).len() + r.current.len()) as int,
                original: r.original,
            },
        ),
{
    assert(rs.push(r).drop_last() =~= rs);
}

/// The hunks of two stretches of regions, joined: those of the second
/// stand behind the text of the first.
pub proof fn lemma_hunks_concat(x: Seq<Region>, y: Seq<Region>)
    ensures
        hunks_of(x + y) == hunks_of(x) + shift_all(hunks_of(y), content_of(x).len() as int),
    decreases y.len(),
{
    let by = content_of(x).len() as int;
    if y.len() == 0 {
        assert(x + y =~= x);
        assert(hunks_of(x) + shift_all(hunks_of(y), by) =~= hunks_of(x));
    } else {
        let yy = y.drop_last();
        assert((x + y).drop_last() =~= x + yy);
        lemma_hunks_concat(x, yy);
        lemma_content_concat(x, yy);
        assert(hunks_of(x + y) =~= hunks_of(x) + shift_all(hunks_of(y), by));
    }
}

/// The hunks lie inside a text of `len` bytes and follow one another without
/// overlap.
pub open spec fn well_placed(hs: Seq<HunkView>, len: int) -> bool {
    &&& forall|k: int| 0 <= k < hs.len() ==> 0 <= (#[trigger] hs[k]).start <= hs[k].end <= len
    &&& forall|j: int, k: int|
        0 <= j < k < hs.len() ==> (#[trigger] hs[j]).end <= (#[trigger] hs[k]).start
}

/// Every hunk lies inside the document, and the hunks follow one another
/// without overlap.
pub proof fn lemma_hunks_ordered(rs: Seq<Region>)
    ensures
        well_placed(hunks_of(rs), content_of(rs).len() as int),
    decreases rs.len(),
{
    if rs.len() > 0 {
        let before = rs.drop_last();
        lemma_hunks_ordered(before);
        let hs = hunks_of(rs);
        let hb = hunks_of(before);
        assert forall|k: int| 0 <= k < hs.len() implies 0 <= (#[trigger] hs[k]).start <= hs[k].end
            <= content_of(rs).len() by {
            if k < hb.len() {
                assert(hs[k] == hb[k]);
            }
        }
        assert forall|j: int, k: int| 0 <= j < k < hs.len() implies (#[trigger] hs[j]).end <= (
        #[trigger] hs[k]).start by {
            assert(hs[j] == hb[j]);
            if k < hb.len() {
                assert(hs[k] == hb[k]);
            }
        }
    }
}

/// Snapshot bytes add up over joined lists.
pub proof fn lemma_snapshot_concat(x: Seq<HunkView>, y: Seq<HunkView>)
    ensures
        snapshot_len(x + y) == snapshot_len(x) + snapshot_len(y),
    decreases y.len(),
{
    if y.len() == 0 {
        assert(x + y =~= x);
    } else {
        assert((x + y).drop_last() =~= x + y.drop_last());
        lemma_snapshot_concat(x, y.drop_last());
    }
}

/// One hunk holds the bytes of its snapshot; no hunk holds none.
pub proof fn lemma_snapshot_single(h: HunkView)
    ensures
        snapshot_len(seq![h]) == h.original.len(),
        snapshot_len(Seq::<HunkView>::empty()) == 0,
{
    reveal_with_fuel(snapshot_len, 2);
    assert(seq![h].drop_last() =~= Seq::<HunkView>::empty());
}

/// Moving hunks does not change their snapshots.
pub proof fn lemma_snapshot_shift(hs: Seq<HunkView>, by: int)
    ensures
        snapshot_len(shift_all(hs, by)) == snapshot_len(hs),
    decreases hs.len(),
{
    if hs.len() > 0 {
        assert(shift_all(hs, by).drop_last() =~= shift_all(hs.drop_last(), by));
        lemma_snapshot_shift(hs.drop_last(), by);
    }
}

/// Hunks that lie before a trailing stretch of text leave it as it is.
pub proof fn lemma_reverted_append(text: Seq<u8>, tail: Seq<u8>, hs: Seq<HunkView>)
    requires
        well_placed(hs, text.len() as int),
    ensures
        reverted(text + tail, hs) == reverted(text, hs) + tail,
    decreases hs.len(),
{
    if hs.len() > 0 {
        let h = hs.last();
        let rest = hs.drop_last();
        let inner = spliced(text, h.start, h.end, h.original);
        assert(spliced(text + tail, h.start, h.end, h.original) =~= inner + tail);
        assert(well_placed(rest, inner.len() as int)) by {
            assert forall|k: int| 0 <= k < rest.len() implies 0 <= (#[trigger] rest[k]).start
                <= rest[k].end <= inner.len() by {
                assert(rest[k] == hs[k]);
                assert(hs[k].end <= hs[hs.len() - 1].start);
            }
            assert forall|j: int, k: int| 0 <= j < k < rest.len() implies (#[trigger] rest[j]).end
                <= (#[trigger] rest[k]).start by {
                assert(rest[j] == hs[j] && rest[k] == hs[k]);
            }
        }
        lemma_reverted_append(inner, tail, rest);
    }
}

/// Hunks that lie behind a leading stretch of text leave it as it is.
pub proof fn lemma_reverted_prefix(head: Seq<u8>, text: Seq<u8>, hs: Seq<HunkView>)
    requires
        well_placed(hs, (head.len() + text.len()) as int),
        forall|k: int| 0 <= k < hs.len() ==> (#[trigger] hs[k]).start >= head.len(),
    ensures
        reverted(head + text, hs) == head + reverted(text, shift_all(hs, -(head.len() as int))),
    decreases hs.len(),
{
    let by = -(head.len() as int);
    if hs.len() > 0 {
        let h = hs.last();
        let rest = hs.drop_last();
        let inner = spliced(text, h.start + by, h.end + by, h.original);
        assert(hs[hs.len() - 1] == h);
        assert(spliced(head + text, h.start, h.end, h.original) =~= head + inner);
        assert(well_placed(rest, (head.len() + inner.len()) as int)) by {
            assert forall|k: int| 0 <= k < rest.len() implies 0 <= (#[trigger] rest[k]).start
                <= rest[k].end <= head.len() + inner.len() by {
                assert(rest[k] == hs[k]);
                assert(hs[k].end <= hs[hs.len() - 1].start);
            }
            assert forall|j: int, k: int| 0 <= j < k < rest.len() implies (#[trigger] rest[j]).end
                <= (#[trigger] rest[k]).start by {
                assert(rest[j] == hs[j] && rest[k] == hs[k]);
            }
        }
        assert forall|k: int| 0 <= k < rest.len() implies (#[trigger] rest[k]).start >= head.len() by {
            assert(rest[k] == hs[k]);
        }
        lemma_reverted_prefix(head, inner, rest);
        assert(shift_all(hs, by).drop_last() =~= shift_all(rest, by));
        assert(shift_all(hs, by).last() == h.shifted(by));
    } else {
        assert(shift_all(hs, by) =~= hs);
    }
}

/// What differs between the document and its baseline lies inside the
/// pending hunks: putting every snapshot back gives the baseline.
pub proof fn lemma_baseline_is_reverted(rs: Seq<Region>)
    requires
        plain_regions_agree(rs),
    ensures
        baseline_of(rs) == reverted(content_of(rs), hunks_of(rs)),
    decreases rs.len(),
{
    if rs.len() > 0 {
        let before = rs.drop_last();
        let last = rs.last();
        let text = content_of(before);
        assert(plain_regions_agree(before)) by {
            assert forall|i: int| 0 <= i < before.len() && before[i].tag is None implies (
            #[trigger] before[i]).original == before[i].current by {
                assert(before[i] == rs[i]);
            }
        }
        lemma_baseline_is_reverted(before);
        lemma_hunks_ordered(before);
        match last.tag {
            Some(tag) => {
                let hs = hunks_of(rs);
                assert(hs.drop_last() =~= hunks_of(before));
                let h = hs.last();
                assert(spliced(text + last.current, h.start, h.end, h.original) =~= text
                    + last.original);
                lemma_reverted_append(text, last.original, hunks_of(before));
            },
            None => {
                assert(last.original == last.current);
                lemma_reverted_append(text, last.current, hunks_of(before));
            },
        }
    }
}

/// How many pending hunks stand before region `i`.
pub open spec fn rank_of(rs: Seq<Region>, i: int) -> int {
    hunks_of(rs.take(i)).len() as int
}

/// The hunk that the tagged region `i` shows to the user.
pub open spec fn hunk_at(rs: Seq<Region>, i: int) -> HunkView {
    HunkView {
        id: rs[i].tag->0.id,
        session: rs[i].tag->0.session,
        start: content_of(rs.take(i)).len() as int,
        end: (content_of(rs.take(i)).len() + rs[i].current.len()) as int,
        original: rs[i].original,
    }
}

/// A document cut in three: what the parts hold adds up to the whole.
pub proof fn lemma_three_parts(x: Seq<Region>, y: Seq<Region>, z: Seq<Region>)
    ensures
        content_of(x + y + z) == content_of(x) + content_of(y) + content_of(z),
        baseline_of(x + y + z) == baseline_of(x) + baseline_of(y) + baseline_of(z),
        hunks_of(x + y + z) == hunks_of(x) + shift_all(hunks_of(y), content_of(x).len() as int)
            + shift_all(hunks_of(z), (content_of(x).len() + content_of(y).len()) as int),
{
    lemma_content_concat(x, y);
    lemma_content_concat(x + y, z);
    lemma_hunks_concat(x, y);
    lemma_hunks_concat(x + y, z);
}

/// A document of one region.
pub proof fn lemma_single(r: Region)
    ensures
        content_of(seq![r]) == r.current,
        baseline_of(seq![r]) == r.original,
        r.tag is None ==> hunks_of(seq![r]) == Seq::<HunkView>::empty(),
        r.tag matches Some(tag) ==> hunks_of(seq![r]) == seq![
            HunkView {
                id: tag.id,
                session: tag.session,
                start: 0,
                end: r.current.len() as int,
                original: r.original,
            },
        ],
{
    let none = Seq::<Region>::empty();
    assert(seq![r] =~= none.push(r));
    lemma_content_push(none, r);
    lemma_hunks_push(none, r);
    assert(content_of(none) + r.current =~= r.current);
    assert(baseline_of(none) + r.original =~= r.original);
    if r.tag is Some {
        assert(hunks_of(seq![r]) =~= seq![
            HunkView {
                id: r.tag->0.id,
                session: r.tag->0.session,
                start: 0,
                end: r.current.len() as int,
                original: r.original,
            },
        ]);
    }
}

/// A tagged region is a pending hunk, found at the region's rank.
pub proof fn lemma_hunk_of_region(rs: Seq<Region>, i: int)
    requires
        0 <= i < rs.len(),
        rs[i].tag is Some,
    ensures
        0 <= rank_of(rs, i) < hunks_of(rs).len(),
        hunks_of(rs)[rank_of(rs, i)] == hunk_at(rs, i),
        hunks_of(rs).take(rank_of(rs, i)) == hunks_of(rs.take(i)),
        hunks_of(rs).skip(rank_of(rs, i) + 1) == shift_all(
            hunks_of(rs.skip(i + 1)),
            hunk_at(rs, i).end,
        ),
{
    let x = rs.take(i);
    let y = seq![rs[i]];
    let z = rs.skip(i + 1);
    assert(rs =~= x + y + z);
    lemma_three_parts(x, y, z);
    lemma_single(rs[i]);
    let k = rank_of(rs, i);
    let hs = hunks_of(rs);
    assert(hs[k] == hunk_at(rs, i));
    assert(hs.take(k) =~= hunks_of(x));
    assert(hs.skip(k + 1) =~= shift_all(hunks_of(z), hunk_at(rs, i).end));
}

/// Every pending hunk is a tagged region.
pub proof fn lemma_region_of_hunk(rs: Seq<Region>, k: int) -> (i: int)
    requires
        0 <= k < hunks_of(rs).len(),
    ensures
        0 <= i < rs.len(),
        rs[i].tag is Some,
        rank_of(rs, i) == k,
        hunks_of(rs)[k] == hunk_at(rs, i),
    decreases rs.len(),
{
    let before = rs.drop_last();
    if rs.last().tag is Some && k == hunks_of(before).len() {
        let i = rs.len() - 1;
        assert(rs.take(i) =~= before);
        i
    } else {
        let i = lemma_region_of_hunk(before, k);
        assert(before.take(i) =~= rs.take(i));
        assert(hunks_of(rs)[k] == hunks_of(before)[k]);
        i
    }
}

/// A prefix of a document is no longer than the document.
pub proof fn lemma_prefix_len(rs: Seq<Region>, i: int)
    requires
        0 <= i <= rs.len(),
    ensures
        content_of(rs.take(i)).len() <= content_of(rs).len(),
        content_of(rs) == content_of(rs.take(i)) + content_of(rs.skip(i)),
        baseline_of(rs) == baseline_of(rs.take(i)) + baseline_of(rs.skip(i)),
        hunks_of(rs) == hunks_of(rs.take(i)) + shift_all(
            hunks_of(rs.skip(i)),
            content_of(rs.take(i)).len() as int,
        ),
{
    assert(rs =~= rs.take(i) + rs.skip(i));
    lemma_content_concat(rs.take(i), rs.skip(i));
    lemma_hunks_concat(rs.take(i), rs.skip(i));
}

/// Behind a leading stretch of untouched text, every hunk starts after it.
pub proof fn lemma_hunks_after_plain(rs: Seq<Region>)
    requires
        rs.len() > 0,
        rs[0].tag is None,
    ensures
        forall|k: int|
            0 <= k < hunks_of(rs).len() ==> (#[trigger] hunks_of(rs)[k]).start
                >= rs[0].current.len(),
{
    let rest = rs.skip(1);
    assert(rs =~= seq![rs[0]] + rest);
    lemma_hunks_concat(seq![rs[0]], rest);
    lemma_single(rs[0]);
    lemma_hunks_ordered(rest);
}

impl HunkView {
    /// The hunk is among those meant by `pick`: every hunk where `pick` is
    /// `None`, else those of that session.
    pub open spec fn picked(self, pick: Option<u64>) -> bool {
        pick is None || pick == Some(self.session)
    }

    /// By how many bytes the text after the hunk moves when it is rejected.
    pub open spec fn growth(self) -> int {
        self.original.len() - (self.end - self.start)
    }
}

/// By how many bytes the end of the text moves when the picked hunks are
/// rejected.
pub open spec fn drift(hs: Seq<HunkView>, pick: Option<u64>) -> int
    decreases hs.len(),
{
    if hs.len() == 0 {
        0
    } else if hs.last().picked(pick) {
        drift(hs.drop_last(), pick) + hs.last().growth()
    } else {
        drift(hs.drop_last(), pick)
    }
}

/// The hunks that stay pending when the picked ones are judged. Where they
/// are rejected, each hunk that stays moves by what the rejected hunks
/// before it gave back or took.
pub open spec fn remaining(hs: Seq<HunkView>, pick: Option<u64>, rejected: bool) -> Seq<HunkView>
    decreases hs.len(),
{
    if hs.len() == 0 {
        Seq::empty()
    } else if hs.last().picked(pick) {
        remaining(hs.drop_last(), pick, rejected)
    } else if rejected {
        remaining(hs.drop_last(), pick, rejected).push(
            hs.last().shifted(drift(hs.drop_last(), pick)),
        )
    } else {
        remaining(hs.drop_last(), pick, rejected).push(hs.last())
    }
}

/// `text` with the span of every picked hunk replaced by its snapshot.
pub open spec fn reverted_where(text: Seq<u8>, hs: Seq<HunkView>, pick: Option<u64>) -> Seq<u8>
    decreases hs.len(),
{
    if hs.len() == 0 {
        text
    } else if hs.last().picked(pick) {
        let h = hs.last();
        reverted_where(spliced(text, h.start, h.end, h.original), hs.drop_last(), pick)
    } else {
        reverted_where(text, hs.drop_last(), pick)
    }
}

/// A document with the picked hunks judged.
pub open spec fn judged(rs: Seq<Region>, pick: Option<u64>, keep: bool) -> Seq<Region> {
    Seq::new(
        rs.len(),
        |i: int|
            if rs[i].tag is Some && (pick is None || pick == Some(rs[i].tag->0.session)) {
                let text = if keep { rs[i].current } else { rs[i].original };
                Region { tag: None, original: text, current: text }
            } else {
                rs[i]
            },
    )
}

proof fn lemma_reverted_where_append(
    text: Seq<u8>,
    tail: Seq<u8>,
    hs: Seq<HunkView>,
    pick: Option<u64>,
)
    requires
        well_placed(hs, text.len() as int),
    ensures
        reverted_where(text + tail, hs, pick) == reverted_where(text, hs, pick) + tail,
        reverted_where(text, hs, pick).len() == text.len() + drift(hs, pick),
    decreases hs.len(),
{
    if hs.len() > 0 {
        let h = hs.last();
        let rest = hs.drop_last();
        assert(hs[hs.len() - 1] == h);
        if h.picked(pick) {
            let inner = spliced(text, h.start, h.end, h.original);
            assert(spliced(text + tail, h.start, h.end, h.original) =~= inner + tail);
            assert(well_placed(rest, inner.len() as int)) by {
                assert forall|k: int| 0 <= k < rest.len() implies 0 <= (#[trigger] rest[k]).start
                    <= rest[k].end <= inner.len() by {
                    assert(rest[k] == hs[k]);
                    assert(hs[k].end <= hs[hs.len() - 1].start);
                }
                assert forall|j: int, k: int| 0 <= j < k < rest.len() implies (
                #[trigger] rest[j]).end <= (#[trigger] rest[k]).start by {
                    assert(rest[j] == hs[j] && rest[k] == hs[k]);
                }
            }
            lemma_reverted_where_append(inner, tail, rest, pick);
        } else {
            assert(well_placed(rest, text.len() as int)) by {
                assert forall|k: int| 0 <= k < rest.len() implies 0 <= (#[trigger] rest[k]).start
                    <= rest[k].end <= text.len() by {
                    assert(rest[k] == hs[k]);
                }
                assert forall|j: int, k: int| 0 <= j < k < rest.len() implies (
                #[trigger] rest[j]).end <= (#[trigger] rest[k]).start by {
                    assert(rest[j] == hs[j] && rest[k] == hs[k]);
                }
            }
            lemma_reverted_where_append(text, tail, rest, pick);
        }
    }
}

/// Judging the picked hunks of a document, seen from outside: the text, the
/// baseline and the hunks that stay.
pub proof fn lemma_judged(rs: Seq<Region>, pick: Option<u64>, keep: bool)
    requires
        plain_regions_agree(rs),
    ensures
        keep ==> content_of(judged(rs, pick, keep)) == content_of(rs),
        !keep ==> content_of(judged(rs, pick, keep)) == reverted_where(
            content_of(rs),
            hunks_of(rs),
            pick,
        ),
        !keep ==> baseline_of(judged(rs, pick, keep)) == baseline_of(rs),
        hunks_of(judged(rs, pick, keep)) == remaining(hunks_of(rs), pick, !keep),
        plain_regions_agree(judged(rs, pick, keep)),
    decreases rs.len(),
{
    let after = judged(rs, pick, keep);
    if rs.len() == 0 {
        assert(after =~= rs);
    } else {
        let before = rs.drop_last();
        let last = rs.last();
        assert(plain_regions_agree(before)) by {
            assert forall|i: int| 0 <= i < before.len() && before[i].tag is None implies (
            #[trigger] before[i]).original == before[i].current by {
                assert(before[i] == rs[i]);
            }
        }
        lemma_judged(before, pick, keep);
        lemma_hunks_ordered(before);
        assert(after.drop_last() =~= judged(before, pick, keep));
        assert(after =~= judged(before, pick, keep).push(after.last()));
        lemma_content_push(judged(before, pick, keep), after.last());
        lemma_hunks_push(judged(before, pick, keep), after.last());
        let text = content_of(before);
        let hb = hunks_of(before);
        lemma_reverted_where_append(text, last.current, hb, pick);
        lemma_reverted_where_append(text, last.original, hb, pick);
        assert(plain_regions_agree(after)) by {
            assert forall|i: int| 0 <= i < after.len() && after[i].tag is None implies (
            #[trigger] after[i]).original == after[i].current by {
                if rs[i].tag is None {
                    assert(after[i] == rs[i]);
                }
            }
        }
        match last.tag {
            Some(tag) => {
                let hs = hunks_of(rs);
                let h = hs.last();
                assert(hs.drop_last() =~= hb);
                if h.picked(pick) {
                    if !keep {
                        assert(spliced(text + last.current, h.start, h.end, h.original) =~= text
                            + last.original);
                    }
                } else {
                    if !keep {
                        assert(hunks_of(after) =~= remaining(hs, pick, true));
                    }
                }
            },
            None => {},
        }
    }
}

/// The baseline is as much longer than the text as rejecting every hunk
/// would make the text.
pub proof fn lemma_baseline_len(rs: Seq<Region>)
    requires
        plain_regions_agree(rs),
    ensures
        baseline_of(rs).len() == content_of(rs).len() + drift(hunks_of(rs), None),
    decreases rs.len(),
{
    if rs.len() > 0 {
        let before = rs.drop_last();
        assert(plain_regions_agree(before)) by {
            assert forall|i: int| 0 <= i < before.len() && before[i].tag is None implies (
            #[trigger] before[i]).original == before[i].current by {
                assert(before[i] == rs[i]);
            }
        }
        lemma_baseline_len(before);
        if rs.last().tag is Some {
            assert(hunks_of(rs).drop_last() =~= hunks_of(before));
        } else {
            assert(rs[rs.len() - 1].original == rs[rs.len() - 1].current);
        }
    }
}

/// With every hunk picked, none stays, and rejecting them gives the
/// baseline.
pub proof fn lemma_pick_all(text: Seq<u8>, hs: Seq<HunkView>, rejected: bool)
    ensures
        remaining(hs, None, rejected) == Seq::<HunkView>::empty(),
        reverted_where(text, hs, None) == reverted(text, hs),
    decreases hs.len(),
{
    if hs.len() > 0 {
        let h = hs.last();
        lemma_pick_all(spliced(text, h.start, h.end, h.original), hs.drop_last(), rejected);
        lemma_pick_all(text, hs.drop_last(), rejected);
    }
}

} // verus!
