//! The mathematical model of a split iterator: a sequence of spans, each a
//! run of consecutive slots that starts at a known index of the registry.

use vstd::prelude::*;
use crate::entity::{Entity, EntityEntry, EntityId};
use crate::list::index_space;

verus! {

/// A run of consecutive slots of the registry, beginning at index `start`.
pub struct Span {
    pub start: int,
    pub slots: Seq<EntityEntry>,
}

impl Span {
    /// The index one past the last slot of the span.
    pub open spec fn end(self) -> int {
        self.start + self.slots.len()
    }

    /// Whether the slot at index `i` of the registry lies in the span.
    pub open spec fn contains(self, i: int) -> bool {
        self.start <= i < self.end()
    }

    /// The slot at index `i` of the registry.
    pub open spec fn slot(self, i: int) -> EntityEntry
        recommends
            self.contains(i),
    {
        self.slots[i - self.start]
    }

    /// The part of the span before its slot at local offset `p`.
    pub open spec fn before(self, p: int) -> Span {
        Span { start: self.start, slots: self.slots.take(p) }
    }

    /// The part of the span after its slot at local offset `p`.
    pub open spec fn after(self, p: int) -> Span {
        Span { start: self.start + p + 1, slots: self.slots.skip(p + 1) }
    }

    /// The number of occupied slots before the slot at local offset `p`.
    pub open spec fn rank(self, p: int) -> int {
        self.before(p).entries().len() as int
    }

    /// The occupied slots of the span in index order, each as the handle
    /// that resolves to it and its payload.
    pub open spec fn entries(self) -> Seq<(EntityId, Entity)>
        decreases self.slots.len(),
    {
        if self.slots.len() == 0 {
            Seq::empty()
        } else {
            let init = Span { start: self.start, slots: self.slots.drop_last() }.entries();
            let last = self.slots.last();
            match last.entity {
                Some(e) => init.push((EntityId { id: (self.end() - 1) as u32, gen: last.gen }, e)),
                None => init,
            }
        }
    }
}

/// Every span lies within the indices that a handle and a `usize` can hold.
pub open spec fn in_bounds(spans: Seq<Span>) -> bool {
    forall|k: int|
        0 <= k < spans.len() ==> 0 <= (#[trigger] spans[k]).start && spans[k].end() <= index_space()
            && spans[k].end() <= usize::MAX
}

/// The spans come in index order: each ends before the next begins. Such
/// spans share no index.
pub open spec fn ascending(spans: Seq<Span>) -> bool {
    forall|j: int, k: int|
        0 <= j < k < spans.len() ==> (#[trigger] spans[j]).end() <= (#[trigger] spans[k]).start
}

/// The position of the first span at or after `from` that contains index
/// `i`, or the number of spans if there is none.
pub open spec fn find_span_from(spans: Seq<Span>, i: int, from: int) -> int
    decreases spans.len() - from,
{
    if from < 0 || from >= spans.len() {
        spans.len() as int
    } else if spans[from].contains(i) {
        from
    } else {
        find_span_from(spans, i, from + 1)
    }
}

/// The position of the first span that contains index `i`, or the number of
/// spans if none does.
pub open spec fn find_span(spans: Seq<Span>, i: int) -> int {
    find_span_from(spans, i, 0)
}

/// Whether some span contains index `i`.
pub open spec fn covered(spans: Seq<Span>, i: int) -> bool {
    find_span(spans, i) < spans.len()
}

/// What the handle `id` resolves to among `spans`: the payload of the slot at
/// its index, if a span contains that index and the slot is occupied and of
/// the handle's generation.
pub open spec fn resolve(spans: Seq<Span>, id: EntityId) -> Option<Entity> {
    let k = find_span(spans, id.id as int);
    if k < spans.len() {
        spans[k].slot(id.id as int).resolve(id)
    } else {
        None
    }
}

/// The spans after the slot at index `i` was carved out of the span at
/// position `k`: the part before it takes the place of that span, and the
/// part after it follows directly, so that the spans stay in index order.
pub open spec fn carved(spans: Seq<Span>, k: int, i: int) -> Seq<Span> {
    let p = i - spans[k].start;
    spans.update(k, spans[k].before(p)).insert(k + 1, spans[k].after(p))
}

/// The occupied slots of all spans, span after span, each as its handle and
/// its payload.
pub open spec fn entries(spans: Seq<Span>) -> Seq<(EntityId, Entity)>
    decreases spans.len(),
{
    if spans.len() == 0 {
        Seq::empty()
    } else {
        entries(spans.drop_last()) + spans.last().entries()
    }
}

/// The place that the slot at local offset `p` of the span at position `k`
/// has in `entries(spans)`, if it is occupied: the number of occupied slots
/// that come before it.
pub open spec fn position(spans: Seq<Span>, k: int, p: int) -> int {
    entries(spans.take(k)).len() + spans[k].rank(p)
}

/// `find_span_from` stops at a span that contains `i`, and no span between
/// `from` and the result does.
pub proof fn lemma_find_span_from(spans: Seq<Span>, i: int, from: int)
    requires
        0 <= from <= spans.len(),
    ensures
        from <= find_span_from(spans, i, from) <= spans.len(),
        forall|j: int| from <= j < find_span_from(spans, i, from) ==> !spans[j].contains(i),
        find_span_from(spans, i, from) < spans.len() ==> spans[find_span_from(
            spans,
            i,
            from,
        )].contains(i),
    decreases spans.len() - from,
{
    if from < spans.len() && !spans[from].contains(i) {
        lemma_find_span_from(spans, i, from + 1);
    }
}

/// The spans that `carved` gives, one by one: those before position `k`
/// are kept, the two parts stand at `k` and `k + 1`, and those after `k`
/// have moved up by one.
pub proof fn lemma_carved_at(spans: Seq<Span>, k: int, i: int)
    requires
        0 <= k < spans.len(),
    ensures
        carved(spans, k, i).len() == spans.len() + 1,
        carved(spans, k, i)[k] == spans[k].before(i - spans[k].start),
        carved(spans, k, i)[k + 1] == spans[k].after(i - spans[k].start),
        forall|j: int| 0 <= j < k ==> (#[trigger] carved(spans, k, i)[j]) == spans[j],
        forall|j: int| k < j < spans.len() ==> (#[trigger] carved(spans, k, i)[j + 1]) == spans[j],
{
}

/// Carving a slot out of spans that are in bounds and ascending leaves spans
/// that are in bounds and ascending.
pub proof fn lemma_carved_wf(spans: Seq<Span>, k: int, i: int)
    requires
        in_bounds(spans),
        ascending(spans),
        0 <= k < spans.len(),
        spans[k].contains(i),
    ensures
        in_bounds(carved(spans, k, i)),
        ascending(carved(spans, k, i)),
{
    let c = carved(spans, k, i);
    lemma_carved_at(spans, k, i);
    // Where the span at position `j` of `c` comes from.
    let origin = |j: int| if j <= k { j } else { j - 1 };
    assert forall|j: int| 0 <= j < c.len() implies spans[origin(j)].start <= (#[trigger] c[j]).start
        && c[j].end() <= spans[origin(j)].end() by {
        if j > k + 1 {
            assert(c[(j - 1) + 1] == spans[j - 1]);
        }
    }
    assert forall|j: int| 0 <= j < c.len() implies 0 <= (#[trigger] c[j]).start && c[j].end()
        <= index_space() && c[j].end() <= usize::MAX by {
        assert(spans[origin(j)].end() <= index_space());
    }
    assert forall|a: int, b: int| 0 <= a < b < c.len() implies (#[trigger] c[a]).end() <= (
    #[trigger] c[b]).start by {
        if origin(a) < origin(b) {
            assert(spans[origin(a)].end() <= spans[origin(b)].start);
        }
    }
}

/// Among ascending spans the one that contains an index is the one that
/// `find_span` finds.
pub proof fn lemma_find_span_unique(spans: Seq<Span>, k: int, i: int)
    requires
        ascending(spans),
        0 <= k < spans.len(),
        spans[k].contains(i),
    ensures
        find_span(spans, i) == k,
{
    lemma_find_span_from(spans, i, 0);
    let f = find_span(spans, i);
    if f < k {
        assert(spans[f].end() <= spans[k].start);
    }
}

/// An entry of a span is a handle of one of its occupied slots, of the
/// slot's generation, with the slot's payload; and every occupied slot has
/// its entry.
pub proof fn lemma_span_entries_contains(span: Span, id: EntityId, payload: Entity)
    requires
        0 <= span.start,
        span.end() <= index_space(),
    ensures
        span.entries().contains((id, payload)) <==> span.contains(id.id as int) && span.slot(
            id.id as int,
        ).resolve(id) == Some(payload),
    decreases span.slots.len(),
{
    if span.slots.len() > 0 {
        let init = Span { start: span.start, slots: span.slots.drop_last() };
        lemma_span_entries_contains(init, id, payload);
        let last = span.slots.last();
        if init.contains(id.id as int) {
            assert(init.slot(id.id as int) == span.slot(id.id as int));
        }
        match last.entity {
            Some(e) => {
                let entry = (EntityId { id: (span.end() - 1) as u32, gen: last.gen }, e);
                assert(span.entries() == init.entries().push(entry));
                if span.entries().contains((id, payload)) {
                    let t = choose|t: int|
                        0 <= t < span.entries().len() && span.entries()[t] == (id, payload);
                    if t < init.entries().len() {
                        assert(init.entries()[t] == (id, payload));
                    }
                }
                if init.entries().contains((id, payload)) {
                    let t = choose|t: int|
                        0 <= t < init.entries().len() && init.entries()[t] == (id, payload);
                    assert(span.entries()[t] == (id, payload));
                }
                if entry == (id, payload) {
                    assert(span.entries()[init.entries().len() as int] == (id, payload));
                }
            },
            None => {},
        }
    }
}

/// The entries of a span are handles of its own indices, in strictly
/// ascending order.
pub proof fn lemma_span_entries_sorted(span: Span)
    requires
        0 <= span.start,
        span.end() <= index_space(),
    ensures
        forall|t: int|
            0 <= t < span.entries().len() ==> span.contains((#[trigger] span.entries()[t]).0.id as int),
        forall|s: int, t: int|
            0 <= s < t < span.entries().len() ==> (#[trigger] span.entries()[s]).0.id < (
            #[trigger] span.entries()[t]).0.id,
    decreases span.slots.len(),
{
    if span.slots.len() > 0 {
        let init = Span { start: span.start, slots: span.slots.drop_last() };
        lemma_span_entries_sorted(init);
        assert forall|t: int| 0 <= t < span.entries().len() implies span.contains(
            (#[trigger] span.entries()[t]).0.id as int,
        ) by {
            if t < init.entries().len() {
                assert(span.entries()[t] == init.entries()[t]);
                assert(init.contains(init.entries()[t].0.id as int));
            }
        }
        assert forall|s: int, t: int| 0 <= s < t < span.entries().len() implies (
        #[trigger] span.entries()[s]).0.id < (#[trigger] span.entries()[t]).0.id by {
            assert(span.entries()[s] == init.entries()[s]);
            assert(init.contains(init.entries()[s].0.id as int));
            if t < init.entries().len() {
                assert(span.entries()[t] == init.entries()[t]);
            }
        }
    }
}

/// The rank of a slot is at most the rank of any later slot, and less if
/// the slot is occupied.
pub proof fn lemma_rank_grows(span: Span, i: int, j: int)
    requires
        0 <= i < j <= span.slots.len(),
    ensures
        span.rank(i) <= span.rank(j),
        span.slots[i].entity is Some ==> span.rank(i) < span.rank(j),
    decreases j,
{
    let bj = span.before(j);
    assert(bj.slots.drop_last() =~= span.before(j - 1).slots);
    assert(bj.slots.last() == span.slots[j - 1]);
    if i < j - 1 {
        lemma_rank_grows(span, i, j - 1);
    }
}

/// Each entry of `spans` is an entry of one of them.
pub proof fn lemma_entries_origin(spans: Seq<Span>, t: int) -> (k: int)
    requires
        0 <= t < entries(spans).len(),
    ensures
        0 <= k < spans.len(),
        entries(spans.take(k)).len() <= t < entries(spans.take(k)).len() + spans[k].entries().len(),
        entries(spans)[t] == spans[k].entries()[t - entries(spans.take(k)).len()],
    decreases spans.len(),
{
    let init = spans.drop_last();
    assert(init =~= spans.take(spans.len() - 1));
    if t < entries(init).len() {
        let k = lemma_entries_origin(init, t);
        assert(init.take(k) =~= spans.take(k));
        k
    } else {
        spans.len() - 1
    }
}

/// The entries of the first `a` spans begin the entries of the first `b`,
/// for `a <= b`.
pub proof fn lemma_entries_take(spans: Seq<Span>, a: int, b: int)
    requires
        0 <= a <= b <= spans.len(),
    ensures
        entries(spans.take(a)).len() <= entries(spans.take(b)).len(),
        forall|t: int|
            0 <= t < entries(spans.take(a)).len() ==> (#[trigger] entries(spans.take(b))[t])
                == entries(spans.take(a))[t],
    decreases b,
{
    if a < b {
        assert(spans.take(b).drop_last() =~= spans.take(b - 1));
        lemma_entries_take(spans, a, b - 1);
    }
}

/// The entries of ascending spans are strictly ascending by index.
pub proof fn lemma_entries_ascending(spans: Seq<Span>, s: int, t: int)
    requires
        in_bounds(spans),
        ascending(spans),
        0 <= s < t < entries(spans).len(),
    ensures
        entries(spans)[s].0.id < entries(spans)[t].0.id,
{
    let ks = lemma_entries_origin(spans, s);
    let kt = lemma_entries_origin(spans, t);
    lemma_span_entries_sorted(spans[ks]);
    lemma_span_entries_sorted(spans[kt]);
    let us = s - entries(spans.take(ks)).len();
    let ut = t - entries(spans.take(kt)).len();
    assert(spans[ks].contains(spans[ks].entries()[us].0.id as int));
    assert(spans[kt].contains(spans[kt].entries()[ut].0.id as int));
    if kt < ks {
        let upto = spans.take(kt + 1);
        assert(upto.drop_last() =~= spans.take(kt));
        assert(upto.last() == spans[kt]);
        lemma_entries_take(spans, kt + 1, ks);
    } else if ks < kt {
        assert(spans[ks].end() <= spans[kt].start);
    }
}

/// The entries of a span are those of its first `p` slots followed by those
/// of the rest.
pub proof fn lemma_span_entries_split(span: Span, p: int)
    requires
        0 <= p <= span.slots.len(),
    ensures
        span.entries() == span.before(p).entries() + (Span {
            start: span.start + p,
            slots: span.slots.skip(p),
        }).entries(),
    decreases span.slots.len(),
{
    let tail = Span { start: span.start + p, slots: span.slots.skip(p) };
    if p == span.slots.len() {
        assert(span.before(p).slots =~= span.slots);
        assert(span.entries() =~= span.before(p).entries() + tail.entries());
    } else {
        let init = Span { start: span.start, slots: span.slots.drop_last() };
        lemma_span_entries_split(init, p);
        assert(init.before(p).slots =~= span.before(p).slots);
        assert(init.slots.skip(p) =~= tail.slots.drop_last());
        assert(tail.slots.last() == span.slots.last());
        assert(span.entries() =~= span.before(p).entries() + tail.entries());
    }
}

/// The entries of spans put one after the other are their entries put one
/// after the other.
pub proof fn lemma_entries_concat(a: Seq<Span>, b: Seq<Span>)
    ensures
        entries(a + b) == entries(a) + entries(b),
    decreases b.len(),
{
    if b.len() == 0 {
        assert(a + b =~= a);
        assert(entries(a + b) =~= entries(a) + entries(b));
    } else {
        lemma_entries_concat(a, b.drop_last());
        assert((a + b).drop_last() =~= a + b.drop_last());
        assert((a + b).last() == b.last());
        assert(entries(a + b) =~= entries(a) + entries(b));
    }
}

/// The entries of one span alone are its own.
pub proof fn lemma_entries_one(span: Span)
    ensures
        entries(seq![span]) == span.entries(),
{
    let one = seq![span];
    assert(one.drop_last() =~= Seq::<Span>::empty());
    assert(entries(one.drop_last()).len() == 0);
    assert(one.last() == span);
    assert(entries(one) =~= span.entries());
}

/// Carving a slot out takes its entry, if it has one, out of the entries and
/// leaves all others where they are.
pub proof fn lemma_carved_entries(spans: Seq<Span>, k: int, i: int)
    requires
        0 <= k < spans.len(),
        spans[k].contains(i),
    ensures
        entries(carved(spans, k, i)) == (match spans[k].slot(i).entity {
            Some(_) => entries(spans).remove(position(spans, k, i - spans[k].start)),
            None => entries(spans),
        }),
{
    let span = spans[k];
    let p = i - span.start;
    let c = carved(spans, k, i);
    let front = spans.take(k);
    let back = spans.skip(k + 1);
    lemma_carved_at(spans, k, i);
    // The span around the slot: before it, the slot, after it.
    let tail = Span { start: span.start + p, slots: span.slots.skip(p) };
    lemma_span_entries_split(span, p);
    lemma_span_entries_split(tail, 1);
    assert(tail.slots.skip(1) =~= span.after(p).slots);
    let single = tail.before(1);
    assert(single.slots.drop_last() =~= Seq::<EntityEntry>::empty());
    assert(single.slots.last() == span.slot(i));
    assert((Span { start: single.start, slots: single.slots.drop_last() }).entries().len() == 0);
    // The spans around the span.
    assert(spans =~= (front + seq![span]) + back);
    assert forall|j: int| 0 <= j < c.len() implies c[j] == ((front + seq![
        span.before(p),
        span.after(p),
    ]) + back)[j] by {
        if j > k + 1 {
            assert(c[(j - 1) + 1] == spans[j - 1]);
        }
    }
    assert(c =~= (front + seq![span.before(p), span.after(p)]) + back);
    lemma_entries_concat(front + seq![span], back);
    lemma_entries_concat(front, seq![span]);
    lemma_entries_concat(front + seq![span.before(p), span.after(p)], back);
    lemma_entries_concat(front, seq![span.before(p), span.after(p)]);
    lemma_entries_one(span);
    lemma_entries_one(span.before(p));
    lemma_entries_one(span.after(p));
    let two = seq![span.before(p), span.after(p)];
    assert(two =~= seq![span.before(p)] + seq![span.after(p)]);
    lemma_entries_concat(seq![span.before(p)], seq![span.after(p)]);
    match span.slot(i).entity {
        Some(_) => {
            assert(single.entries().len() == 1);
            assert(entries(c) =~= entries(spans).remove(position(spans, k, p)));
        },
        None => {
            assert(single.entries().len() == 0);
            assert(entries(c) =~= entries(spans));
        },
    }
}

} // verus!
