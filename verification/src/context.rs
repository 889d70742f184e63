use vstd::prelude::*;

verus! {

/// What kind of material a context item is.
#[derive(Clone, Copy, Debug, PartialEq, Eq, Structural)]
pub enum ContextKind {
    File,
    Thread,
    Rule,
    FetchedUrl,
    Symbol,
}

/// The stable identity of a context item: two items with the same identity
/// are the same material, whatever text they carry.
#[derive(Clone, Copy, Debug, PartialEq, Eq, Structural)]
pub struct ContextId {
    pub kind: ContextKind,
    pub key: u64,
}

/// A piece of material attached to a request, with its text as it was when
/// it was attached.
#[derive(Debug, PartialEq)]
pub struct ContextItem {
    pub id: ContextId,
    pub text: Vec<u8>,
}

impl ContextItem {
    /// A copy of the item. What is handed on with a request is a copy, so
    /// that later changes to the source do not reach into the history.
    pub fn duplicate(&self) -> (copy: ContextItem)
        ensures
            copy.id == self.id,
            copy.text@ == self.text@,
    {
        ContextItem { id: self.id, text: crate::bytes::copy_bytes(&self.text) }
    }
}

/// An item of identity `id` is among the items.
pub open spec fn holds(items: Seq<ContextItem>, id: ContextId) -> bool {
    exists|i: int| 0 <= i < items.len() && #[trigger] items[i].id == id
}

/// Position of the item with identity `id`.
pub open spec fn position_of(items: Seq<ContextItem>, id: ContextId) -> int {
    choose|i: int| 0 <= i < items.len() && #[trigger] items[i].id == id
}

/// No identity stands twice among the items.
pub open spec fn distinct(items: Seq<ContextItem>) -> bool {
    forall|i: int, j: int|
        0 <= i < j < items.len() ==> (#[trigger] items[i]).id != (#[trigger] items[j]).id
}

/// The items without the one of identity `id`, if it is among them.
pub open spec fn without(items: Seq<ContextItem>, id: ContextId) -> Seq<ContextItem> {
    if holds(items, id) {
        items.remove(position_of(items, id))
    } else {
        items
    }
}

/// The items after `item` was attached: it stands last, and an earlier
/// item of the same identity has given way to it.
pub open spec fn with_attached(items: Seq<ContextItem>, item: ContextItem) -> Seq<ContextItem> {
    without(items, item.id).push(item)
}

/// Among distinct items an identity has one position.
pub proof fn lemma_position(items: Seq<ContextItem>, id: ContextId, i: int)
    requires
        distinct(items),
        0 <= i < items.len(),
        items[i].id == id,
    ensures
        holds(items, id),
        position_of(items, id) == i,
{
    let c = position_of(items, id);
    if c < i {
        assert(items[c].id != items[i].id);
    } else if i < c {
        assert(items[i].id != items[c].id);
    }
}

/// Taking an item out leaves the others distinct, and none of them has the
/// identity that was taken out.
pub proof fn lemma_without(items: Seq<ContextItem>, id: ContextId)
    requires
        distinct(items),
    ensures
        distinct(without(items, id)),
        !holds(without(items, id), id),
        forall|other: ContextId|
            other != id ==> (holds(without(items, id), other) <==> holds(items, other)),
        without(items, id).len() == items.len() - (if holds(items, id) { 1int } else { 0int }),
{
    let rest = without(items, id);
    if holds(items, id) {
        let p = position_of(items, id);
        assert forall|i: int, j: int| 0 <= i < j < rest.len() implies (#[trigger] rest[i]).id != (
        #[trigger] rest[j]).id by {
            let i0 = if i < p { i } else { i + 1 };
            let j0 = if j < p { j } else { j + 1 };
            assert(rest[i] == items[i0] && rest[j] == items[j0]);
        }
        if holds(rest, id) {
            let q = position_of(rest, id);
            let q0 = if q < p { q } else { q + 1 };
            assert(rest[q] == items[q0]);
            if q0 < p {
                assert(items[q0].id != items[p].id);
            } else {
                assert(items[p].id != items[q0].id);
            }
        }
        assert forall|other: ContextId| other != id implies (holds(rest, other) <==> holds(
            items,
            other,
        )) by {
            if holds(rest, other) {
                let q = position_of(rest, other);
                let q0 = if q < p { q } else { q + 1 };
                assert(rest[q] == items[q0]);
                assert(items[q0].id == other);
            }
            if holds(items, other) {
                let q0 = position_of(items, other);
                let q = if q0 < p { q0 } else { q0 - 1 };
                assert(rest[q] == items[q0]);
                assert(rest[q].id == other);
            }
        }
    }
}

/// Attaching is idempotent on identity: to attach an item twice gives what
/// attaching it once gives, with one entry of that identity.
pub proof fn attach_is_idempotent(items: Seq<ContextItem>, item: ContextItem)
    requires
        distinct(items),
    ensures
        with_attached(with_attached(items, item), item) == with_attached(items, item),
        distinct(with_attached(items, item)),
        holds(with_attached(items, item), item.id),
        with_attached(items, item).len() == without(items, item.id).len() + 1,
{
    let rest = without(items, item.id);
    let once = rest.push(item);
    lemma_without(items, item.id);
    assert(distinct(once)) by {
        assert forall|i: int, j: int| 0 <= i < j < once.len() implies (#[trigger] once[i]).id != (
        #[trigger] once[j]).id by {
            assert(once[i] == rest[i]);
            if j < rest.len() {
                assert(once[j] == rest[j]);
            } else {
                assert(rest[i].id != item.id);
            }
        }
    }
    assert(once[rest.len() as int].id == item.id);
    lemma_position(once, item.id, rest.len() as int);
    assert(without(once, item.id) =~= rest);
}

/// A context item as a value: its identity and its text.
pub struct ItemView {
    pub id: ContextId,
    pub text: Seq<u8>,
}

impl View for ContextItem {
    type V = ItemView;

    open spec fn view(&self) -> ItemView {
        ItemView { id: self.id, text: self.text@ }
    }
}

/// The items as values.
pub open spec fn views(items: Seq<ContextItem>) -> Seq<ItemView> {
    Seq::new(items.len(), |i: int| items[i]@)
}

/// How long a kind of material is held on to when the assembled context is
/// too large: rules longest, then files and symbols, then threads, and
/// fetched content shortest.
pub open spec fn priority(kind: ContextKind) -> int {
    match kind {
        ContextKind::Rule => 3,
        ContextKind::File => 2,
        ContextKind::Symbol => 2,
        ContextKind::Thread => 1,
        ContextKind::FetchedUrl => 0,
    }
}

/// Item `j` gives way before item `i`: it is of a kind held on to less
/// long, or of the same and attached earlier.
pub open spec fn yields_before(items: Seq<ItemView>, j: int, i: int) -> bool {
    priority(items[j].id.kind) < priority(items[i].id.kind) || (priority(items[j].id.kind)
        == priority(items[i].id.kind) && j < i)
}

/// The bytes of those among the first `n` items that do not give way
/// before item `i`. With `n` the number of items, this is the size of the
/// context at the moment when item `i` is the next to give way.
pub open spec fn load(items: Seq<ItemView>, i: int, n: int) -> int
    decreases n,
{
    if n <= 0 {
        0
    } else if yields_before(items, n - 1, i) {
        load(items, i, n - 1)
    } else {
        load(items, i, n - 1) + items[n - 1].text.len()
    }
}

/// Item `i` is dropped: with everything gone that gives way before it, the
/// context is still over the limit.
pub open spec fn is_dropped(items: Seq<ItemView>, limit: int, i: int) -> bool {
    load(items, i, items.len() as int) > limit
}

/// Those among the first `n` items that stay, in the order of attachment.
pub open spec fn kept_of(items: Seq<ItemView>, limit: int, n: int) -> Seq<ItemView>
    decreases n,
{
    if n <= 0 {
        Seq::empty()
    } else if is_dropped(items, limit, n - 1) {
        kept_of(items, limit, n - 1)
    } else {
        kept_of(items, limit, n - 1).push(items[n - 1])
    }
}

/// The identities of those among the first `n` items that are dropped, in
/// the order of attachment.
pub open spec fn dropped_of(items: Seq<ItemView>, limit: int, n: int) -> Seq<ContextId>
    decreases n,
{
    if n <= 0 {
        Seq::empty()
    } else if is_dropped(items, limit, n - 1) {
        dropped_of(items, limit, n - 1).push(items[n - 1].id)
    } else {
        dropped_of(items, limit, n - 1)
    }
}

/// The bytes of a list of items.
pub open spec fn total_len(items: Seq<ItemView>) -> int
    decreases items.len(),
{
    if items.len() == 0 {
        0
    } else {
        total_len(items.drop_last()) + items.last().text.len()
    }
}

/// What is put into the next request, and what had to stay out.
pub struct Materialized {
    pub items: Vec<ContextItem>,
    pub dropped: Vec<ContextId>,
}

/// Collects the context for the next request. Items that the user attached
/// are put into the request; items that were only suggested wait until the
/// user accepts them.
pub struct ContextAssembler {
    attached: Vec<ContextItem>,
    suggested: Vec<ContextItem>,
    limit: usize,
}

fn rank(kind: ContextKind) -> (r: u8)
    ensures
        r == priority(kind),
{
    match kind {
        ContextKind::Rule => 3,
        ContextKind::File => 2,
        ContextKind::Symbol => 2,
        ContextKind::Thread => 1,
        ContextKind::FetchedUrl => 0,
    }
}

fn find_item(items: &Vec<ContextItem>, id: ContextId) -> (found: Option<usize>)
    requires
        distinct(items@),
    ensures
        match found {
            Some(i) => i < items@.len() && items@[i as int].id == id && holds(items@, id)
                && position_of(items@, id) == i,
            None => !holds(items@, id),
        },
{
    let n = items.len();
    let mut i: usize = 0;
    while i < n
        invariant
            n == items.len(),
            i <= n,
            distinct(items@),
            forall|j: int| 0 <= j < i ==> (#[trigger] items@[j]).id != id,
        decreases n - i,
    {
        if items[i].id == id {
            proof {
                lemma_position(items@, id, i as int);
            }
            return Some(i);
        }
        i = i + 1;
    }
    None
}

/// Takes the item of identity `id` out of the list, if it is there.
fn take_out(items: &mut Vec<ContextItem>, id: ContextId) -> (taken: Option<ContextItem>)
    requires
        distinct(old(items)@),
    ensures
        distinct(final(items)@),
        final(items)@ == without(old(items)@, id),
        taken is Some <==> holds(old(items)@, id),
        taken matches Some(item) ==> item == old(items)@[position_of(old(items)@, id)],
{
    proof {
        lemma_without(items@, id);
    }
    match find_item(items, id) {
        Some(i) => Some(items.remove(i)),
        None => None,
    }
}

impl ContextAssembler {
    /// The attached items, oldest first.
    pub closed spec fn attached(&self) -> Seq<ContextItem> {
        self.attached@
    }

    /// The items that were suggested and not accepted yet, oldest first.
    pub closed spec fn suggested(&self) -> Seq<ContextItem> {
        self.suggested@
    }

    /// The most bytes that a request's context may hold.
    pub closed spec fn limit(&self) -> usize {
        self.limit
    }

    /// No identity is held twice, attached or suggested.
    pub open spec fn wf(&self) -> bool {
        &&& distinct(self.attached())
        &&& distinct(self.suggested())
        &&& forall|i: int|
            0 <= i < self.suggested().len() ==> !holds(
                self.attached(),
                (#[trigger] self.suggested()[i]).id,
            )
    }

    /// An assembler with nothing attached, for requests whose context may
    /// hold up to `limit` bytes.
    pub fn new(limit: usize) -> (assembler: ContextAssembler)
        ensures
            assembler.wf(),
            assembler.attached() == Seq::<ContextItem>::empty(),
            assembler.suggested() == Seq::<ContextItem>::empty(),
            assembler.limit() == limit,
    {
        ContextAssembler { attached: Vec::new(), suggested: Vec::new(), limit }
    }

    /// Attaches an item. It stands last; an item of the same identity that
    /// was attached before gives way to it, and a suggestion of that
    /// identity is settled.
    pub fn attach(&mut self, item: ContextItem)
        requires
            old(self).wf(),
        ensures
            final(self).wf(),
            final(self).attached() == with_attached(old(self).attached(), item),
            final(self).suggested() == without(old(self).suggested(), item.id),
            final(self).limit() == old(self).limit(),
    {
        let ghost id = item.id;
        let ghost before = self.attached@;
        let ghost hints = self.suggested@;
        proof {
            attach_is_idempotent(before, item);
            lemma_without(before, id);
            lemma_without(hints, id);
        }
        take_out(&mut self.attached, item.id);
        take_out(&mut self.suggested, item.id);
        self.attached.push(item);
        proof {
            let now = self.attached@;
            assert forall|i: int| 0 <= i < self.suggested().len() implies !holds(
                self.attached(),
                (#[trigger] self.suggested()[i]).id,
            ) by {
                let other = self.suggested()[i].id;
                assert(holds(self.suggested(), other));
                assert(other != id);
                assert(holds(hints, other));
                let p = position_of(hints, other);
                assert(!holds(before, hints[p].id));
                if holds(now, other) {
                    let q = position_of(now, other);
                    if q < now.len() - 1 {
                        assert(now[q] == without(before, id)[q]);
                        assert(holds(without(before, id), other));
                    }
                }
            }
        }
    }

    /// Takes the attached item of identity `id` away. Returns whether there
    /// was one.
    pub fn remove(&mut self, id: ContextId) -> (removed: bool)
        requires
            old(self).wf(),
        ensures
            final(self).wf(),
            removed == holds(old(self).attached(), id),
            final(self).attached() == without(old(self).attached(), id),
            final(self).suggested() == old(self).suggested(),
            final(self).limit() == old(self).limit(),
    {
        proof {
            lemma_without(self.attached@, id);
        }
        let ghost before = self.attached@;
        let taken = take_out(&mut self.attached, id);
        proof {
            assert forall|i: int| 0 <= i < self.suggested().len() implies !holds(
                self.attached(),
                (#[trigger] self.suggested()[i]).id,
            ) by {
                let other = self.suggested()[i].id;
                assert(!holds(before, other));
            }
        }
        taken.is_some()
    }

    /// Takes every attached item away. Suggestions stay.
    pub fn remove_all(&mut self)
        requires
            old(self).wf(),
        ensures
            final(self).wf(),
            final(self).attached() == Seq::<ContextItem>::empty(),
            final(self).suggested() == old(self).suggested(),
            final(self).limit() == old(self).limit(),
    {
        self.attached.clear();
    }

    /// Notes an item that might be worth attaching. It is not put into any
    /// request until it is accepted. Returns whether it was noted: an
    /// identity that is attached or suggested already is not noted again.
    pub fn suggest(&mut self, item: ContextItem) -> (noted: bool)
        requires
            old(self).wf(),
        ensures
            final(self).wf(),
            noted == (!holds(old(self).attached(), item.id) && !holds(
                old(self).suggested(),
                item.id,
            )),
            final(self).attached() == old(self).attached(),
            final(self).suggested() == (if noted {
                old(self).suggested().push(item)
            } else {
                old(self).suggested()
            }),
            final(self).limit() == old(self).limit(),
    {
        if find_item(&self.attached, item.id).is_some() {
            return false;
        }
        if find_item(&self.suggested, item.id).is_some() {
            return false;
        }
        let ghost hints = self.suggested@;
        let ghost id = item.id;
        self.suggested.push(item);
        proof {
            let now = self.suggested@;
            assert forall|i: int, j: int| 0 <= i < j < now.len() implies (#[trigger] now[i]).id != (
            #[trigger] now[j]).id by {
                assert(now[i] == hints[i]);
                if j < hints.len() {
                    assert(now[j] == hints[j]);
                } else {
                    assert(hints[i].id != id);
                }
            }
            assert forall|i: int| 0 <= i < now.len() implies !holds(
                self.attached(),
                (#[trigger] now[i]).id,
            ) by {
                if i < hints.len() {
                    assert(now[i] == hints[i]);
                    assert(!holds(self.attached(), old(self).suggested()[i].id));
                }
            }
        }
        true
    }

    /// Accepts the suggestion of identity `id`: the item is attached, last.
    /// Returns whether there was such a suggestion.
    pub fn accept_suggested(&mut self, id: ContextId) -> (accepted: bool)
        requires
            old(self).wf(),
        ensures
            final(self).wf(),
            accepted == holds(old(self).suggested(), id),
            final(self).suggested() == without(old(self).suggested(), id),
            final(self).attached() == (if accepted {
                old(self).attached().push(
                    old(self).suggested()[position_of(old(self).suggested(), id)],
                )
            } else {
                old(self).attached()
            }),
            final(self).limit() == old(self).limit(),
    {
        let ghost before = self.attached@;
        let ghost hints = self.suggested@;
        proof {
            lemma_without(hints, id);
        }
        match take_out(&mut self.suggested, id) {
            None => false,
            Some(item) => {
                proof {
                    let p = position_of(hints, id);
                    assert(hints[p].id == id);
                    assert(!holds(before, hints[p].id));
                }
                self.attached.push(item);
                proof {
                    let now = self.attached@;
                    assert forall|i: int, j: int| 0 <= i < j < now.len() implies (
                    #[trigger] now[i]).id != (#[trigger] now[j]).id by {
                        assert(now[i] == before[i]);
                        if j < before.len() {
                            assert(now[j] == before[j]);
                        } else {
                            assert(before[i].id != id);
                        }
                    }
                    assert forall|i: int| 0 <= i < self.suggested().len() implies !holds(
                        self.attached(),
                        (#[trigger] self.suggested()[i]).id,
                    ) by {
                        let other = self.suggested()[i].id;
                        assert(holds(self.suggested(), other));
                        assert(other != id);
                        assert(holds(hints, other));
                        let q = position_of(hints, other);
                        assert(!holds(before, hints[q].id));
                        if holds(now, other) {
                            let r = position_of(now, other);
                            if r < before.len() {
                                assert(now[r] == before[r]);
                            }
                        }
                    }
                }
                true
            },
        }
    }

    /// How many items are attached.
    pub fn len(&self) -> (n: usize)
        ensures
            n == self.attached().len(),
    {
        self.attached.len()
    }

    /// Whether an item of identity `id` is attached.
    pub fn contains(&self, id: ContextId) -> (found: bool)
        requires
            self.wf(),
        ensures
            found == holds(self.attached(), id),
    {
        find_item(&self.attached, id).is_some()
    }
}

/// One more item adds its bytes.
pub proof fn lemma_total_push(items: Seq<ItemView>, item: ItemView)
    ensures
        total_len(items.push(item)) == total_len(items) + item.text.len(),
{
    assert(items.push(item).drop_last() =~= items);
}

/// An item that gives way later has no more left around it.
proof fn lemma_load_falls(items: Seq<ItemView>, a: int, b: int, n: int)
    requires
        0 <= a < items.len(),
        0 <= b < items.len(),
        0 <= n <= items.len(),
        a == b || yields_before(items, a, b),
    ensures
        load(items, b, n) <= load(items, a, n),
        load(items, b, n) >= 0,
    decreases n,
{
    if n > 0 {
        lemma_load_falls(items, a, b, n - 1);
    }
}

/// Among the first `n` items, the one that stays and would give way first;
/// -1 where none of them stays.
spec fn first_to_go(items: Seq<ItemView>, limit: int, n: int) -> int
    decreases n,
{
    if n <= 0 {
        -1
    } else {
        let best = first_to_go(items, limit, n - 1);
        if is_dropped(items, limit, n - 1) {
            best
        } else if best == -1 || yields_before(items, n - 1, best) {
            n - 1
        } else {
            best
        }
    }
}

proof fn lemma_first_to_go(items: Seq<ItemView>, limit: int, n: int)
    requires
        0 <= n <= items.len(),
    ensures
        ({
            let best = first_to_go(items, limit, n);
            &&& -1 <= best < n
            &&& best >= 0 ==> !is_dropped(items, limit, best)
            &&& forall|j: int|
                0 <= j < n && !is_dropped(items, limit, j) ==> best >= 0 && !yields_before(
                    items,
                    j,
                    best,
                )
        }),
    decreases n,
{
    if n > 0 {
        lemma_first_to_go(items, limit, n - 1);
    }
}

/// With `m` the item that stays and gives way first, what stays is what
/// does not give way before `m`.
proof fn lemma_kept_is_load(items: Seq<ItemView>, limit: int, m: int, n: int)
    requires
        0 <= n <= items.len(),
        0 <= m < items.len(),
        !is_dropped(items, limit, m),
        forall|j: int|
            0 <= j < items.len() && !is_dropped(items, limit, j) ==> !yields_before(items, j, m),
    ensures
        total_len(kept_of(items, limit, n)) == load(items, m, n),
    decreases n,
{
    if n > 0 {
        lemma_kept_is_load(items, limit, m, n - 1);
        let j = n - 1;
        if is_dropped(items, limit, j) {
            if !yields_before(items, j, m) {
                lemma_load_falls(items, m, j, items.len() as int);
            }
        } else {
            lemma_total_push(kept_of(items, limit, n - 1), items[j]);
        }
    }
}

proof fn lemma_none_kept(items: Seq<ItemView>, limit: int, n: int)
    requires
        0 <= n <= items.len(),
        forall|j: int| 0 <= j < n ==> is_dropped(items, limit, j),
    ensures
        kept_of(items, limit, n) == Seq::<ItemView>::empty(),
    decreases n,
{
    if n > 0 {
        lemma_none_kept(items, limit, n - 1);
    }
}

/// What stays fits the limit.
pub proof fn kept_fits_limit(items: Seq<ItemView>, limit: int)
    requires
        0 <= limit,
    ensures
        total_len(kept_of(items, limit, items.len() as int)) <= limit,
{
    let n = items.len() as int;
    let m = first_to_go(items, limit, n);
    lemma_first_to_go(items, limit, n);
    if m >= 0 {
        lemma_kept_is_load(items, limit, m, n);
    } else {
        lemma_none_kept(items, limit, n);
    }
}

/// No identity stands twice among the items.
pub open spec fn distinct_views(items: Seq<ItemView>) -> bool {
    forall|i: int, j: int|
        0 <= i < j < items.len() ==> (#[trigger] items[i]).id != (#[trigger] items[j]).id
}

/// Of items with distinct identities, those that stay have distinct
/// identities: each attached item is put into the request at most once.
pub proof fn kept_once(items: Seq<ItemView>, limit: int, n: int)
    requires
        0 <= n <= items.len(),
        distinct_views(items),
    ensures
        distinct_views(kept_of(items, limit, n)),
    decreases n,
{
    if n > 0 {
        kept_once(items, limit, n - 1);
        lemma_kept_from_items(items, limit, n - 1);
        let before = kept_of(items, limit, n - 1);
        let now = kept_of(items, limit, n);
        assert forall|i: int, j: int| 0 <= i < j < now.len() implies (#[trigger] now[i]).id != (
        #[trigger] now[j]).id by {
            assert(now[i] == before[i]);
            if j < before.len() {
                assert(now[j] == before[j]);
            } else {
                let k = choose|k: int|
                    0 <= k < n - 1 && !is_dropped(items, limit, k) && items[k] == before[i];
                assert(items[k].id != items[n - 1].id);
            }
        }
    }
}

/// What stays and what is dropped are the items, each once: every item is
/// in one of the two lists, in the order of attachment.
pub proof fn lemma_kept_from_items(items: Seq<ItemView>, limit: int, n: int)
    requires
        0 <= n <= items.len(),
    ensures
        kept_of(items, limit, n).len() + dropped_of(items, limit, n).len() == n,
        forall|k: int|
            0 <= k < kept_of(items, limit, n).len() ==> exists|j: int|
                0 <= j < n && !is_dropped(items, limit, j) && items[j] == #[trigger] kept_of(
                    items,
                    limit,
                    n,
                )[k],
    decreases n,
{
    if n > 0 {
        lemma_kept_from_items(items, limit, n - 1);
        let before = kept_of(items, limit, n - 1);
        let now = kept_of(items, limit, n);
        assert forall|k: int| 0 <= k < now.len() implies exists|j: int|
            0 <= j < n && !is_dropped(items, limit, j) && items[j] == #[trigger] now[k] by {
            if k < before.len() {
                assert(now[k] == before[k]);
                let j = choose|j: int|
                    0 <= j < n - 1 && !is_dropped(items, limit, j) && items[j] == before[k];
                assert(items[j] == now[k]);
            } else {
                assert(items[n - 1] == now[k]);
            }
        }
    }
}

impl ContextAssembler {
    /// The context for the next request: the attached items in the order of
    /// attachment, as copies, without those that had to be dropped to fit
    /// the limit. Items give way in turn, fetched content first, then
    /// threads, then files and symbols, then rules, and among items of one
    /// rank the one attached earliest first, until the rest fits.
    pub fn materialize(&self) -> (out: Materialized)
        requires
            self.wf(),
        ensures
            views(out.items@) == kept_of(
                views(self.attached()),
                self.limit() as int,
                self.attached().len() as int,
            ),
            out.dropped@ == dropped_of(
                views(self.attached()),
                self.limit() as int,
                self.attached().len() as int,
            ),
            total_len(views(out.items@)) <= self.limit(),
            out.items@.len() + out.dropped@.len() == self.attached().len(),
            distinct_views(views(out.items@)),
    {
        let ghost all = views(self.attached@);
        let ghost limit = self.limit as int;
        let n = self.attached.len();
        let mut items: Vec<ContextItem> = Vec::new();
        let mut dropped: Vec<ContextId> = Vec::new();
        let mut i: usize = 0;
        proof {
            assert(views(items@) =~= kept_of(all, limit, 0));
        }
        while i < n
            invariant
                n == self.attached.len(),
                all == views(self.attached@),
                limit == self.limit,
                i <= n,
                views(items@) == kept_of(all, limit, i as int),
                dropped@ == dropped_of(all, limit, i as int),
            decreases n - i,
        {
            let over = self.gives_way(i);
            let ghost before = views(items@);
            if over {
                dropped.push(self.attached[i].id);
            } else {
                items.push(self.attached[i].duplicate());
                proof {
                    assert(views(items@) =~= before.push(all[i as int]));
                }
            }
            i = i + 1;
        }
        proof {
            kept_fits_limit(all, limit);
            lemma_kept_from_items(all, limit, n as int);
            assert(distinct_views(all)) by {
                assert forall|i: int, j: int| 0 <= i < j < all.len() implies (#[trigger] all[i]).id
                    != (#[trigger] all[j]).id by {
                    assert(self.attached()[i].id != self.attached()[j].id);
                }
            }
            kept_once(all, limit, n as int);
        }
        Materialized { items, dropped }
    }

    /// Whether the attached item `i` has to be dropped.
    fn gives_way(&self, i: usize) -> (over: bool)
        requires
            i < self.attached().len(),
        ensures
            over == is_dropped(views(self.attached()), self.limit() as int, i as int),
    {
        let ghost all = views(self.attached@);
        let n = self.attached.len();
        let mine = rank(self.attached[i].id.kind);
        let mut sum: u128 = 0;
        let mut j: usize = 0;
        while j < n
            invariant
                n == self.attached.len(),
                all == views(self.attached@),
                i < n,
                j <= n,
                mine == priority(all[i as int].id.kind),
                sum == load(all, i as int, j as int),
                sum <= j * 0xffff_ffff_ffff_ffff,
            decreases n - j,
        {
            let theirs = rank(self.attached[j].id.kind);
            let first = theirs < mine || (theirs == mine && j < i);
            proof {
                assert(first == yields_before(all, j as int, i as int));
                assert((j + 1) * 0xffff_ffff_ffff_ffff <= 0xffff_ffff_ffff_ffff
                    * 0xffff_ffff_ffff_ffff) by (nonlinear_arith)
                    requires
                        0 <= j < 0xffff_ffff_ffff_ffff,
                ;
                assert((j + 1) * 0xffff_ffff_ffff_ffff == j * 0xffff_ffff_ffff_ffff
                    + 0xffff_ffff_ffff_ffff) by (nonlinear_arith);
            }
            if !first {
                sum = sum + self.attached[j].text.len() as u128;
            }
            j = j + 1;
        }
        sum > self.limit as u128
    }
}

} // verus!
