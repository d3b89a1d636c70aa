//! What holds of the registry and of the split iterator whatever is done
//! with them, stated over their models and proved.

use vstd::prelude::*;
use crate::entity::{Entity, EntityEntry, EntityId};
use crate::list::{addressable, index_space, insertable, inserted, lemma_first_vacant_from,
    lookup, next_id, pair_lookup, rewritten, vacated};
use crate::span::{Span, ascending, carved, covered, entries, find_span, in_bounds,
    lemma_carved_at, lemma_carved_entries, lemma_carved_wf, lemma_entries_ascending,
    lemma_entries_origin, lemma_entries_take, lemma_find_span_from, lemma_find_span_unique,
    lemma_span_entries_contains, position, resolve};
use crate::iter::lists;

verus! {

/// One operation on the registry.
pub enum Step {
    /// `add` of a payload.
    Add(Entity),
    /// `remove` through a handle.
    Remove(EntityId),
    /// A payload written through the access that `get_mut` or `get_pair_mut`
    /// grants to a handle; nothing happens if the handle resolves to nothing.
    Write(EntityId, Entity),
}

impl Step {
    /// The slots after the operation.
    pub open spec fn apply(self, slots: Seq<EntityEntry>) -> Seq<EntityEntry> {
        match self {
            Step::Add(e) => inserted(slots, e),
            Step::Remove(id) => vacated(slots, id),
            Step::Write(id, e) => if lookup(slots, id) is Some {
                rewritten(slots, id, Some(e))
            } else {
                slots
            },
        }
    }

    /// Whether the operation may be applied: an insertion needs a number
    /// for what it stores.
    pub open spec fn permitted(self, slots: Seq<EntityEntry>) -> bool {
        self is Add ==> insertable(slots)
    }

    /// Whether the operation leaves the slot at index `i` alone, as far as
    /// that can be told without the slots: it is an insertion, or it goes
    /// through a handle of another index.
    pub open spec fn spares(self, i: int) -> bool {
        match self {
            Step::Add(_) => true,
            Step::Remove(id) => id.id != i,
            Step::Write(id, _) => id.id != i,
        }
    }
}

/// The slots after the operations `steps`, applied in order.
pub open spec fn run(slots: Seq<EntityEntry>, steps: Seq<Step>) -> Seq<EntityEntry>
    decreases steps.len(),
{
    if steps.len() == 0 {
        slots
    } else {
        steps.last().apply(run(slots, steps.drop_last()))
    }
}

/// Whether each of `steps` may be applied when its turn comes.
pub open spec fn permitted(slots: Seq<EntityEntry>, steps: Seq<Step>) -> bool
    decreases steps.len(),
{
    if steps.len() == 0 {
        true
    } else {
        permitted(slots, steps.drop_last()) && steps.last().permitted(
            run(slots, steps.drop_last()),
        )
    }
}

/// Whether the handle `id` has been left behind by its slot: the slot has
/// moved to a later generation, or it is vacant at the handle's own.
pub open spec fn retired(slots: Seq<EntityEntry>, id: EntityId) -> bool {
    &&& id.id < slots.len()
    &&& slots[id.id as int].gen > id.gen || (slots[id.id as int].gen == id.gen
        && slots[id.id as int].entity is None)
}

/// After an insertion the returned handle resolves to the inserted payload,
/// and every other handle resolves to what it resolved to before.
pub proof fn law_lookup_after_add(slots: Seq<EntityEntry>, entity: Entity, id: EntityId)
    requires
        addressable(slots),
        insertable(slots),
    ensures
        addressable(inserted(slots, entity)),
        lookup(inserted(slots, entity), next_id(slots)) == Some(entity),
        id != next_id(slots) ==> lookup(inserted(slots, entity), id) == lookup(slots, id),
        next_id(slots).id < inserted(slots, entity).len(),
{
    lemma_first_vacant_from(slots, 0);
}

/// After a removal no handle of the vacated index resolves, and every
/// handle of another index resolves to what it resolved to before.
pub proof fn law_lookup_after_remove(slots: Seq<EntityEntry>, removed: EntityId, id: EntityId)
    ensures
        lookup(vacated(slots, removed), id) == (if id.id == removed.id {
            None
        } else {
            lookup(slots, id)
        }),
{
}

/// A payload written through a handle that resolves is what that handle
/// resolves to afterwards, and it changes what no handle of another index
/// resolves to.
pub proof fn law_lookup_after_write(
    slots: Seq<EntityEntry>,
    through: EntityId,
    written: Entity,
    id: EntityId,
)
    requires
        lookup(slots, through) is Some,
    ensures
        lookup(rewritten(slots, through, Some(written)), through) == Some(written),
        id.id != through.id ==> lookup(rewritten(slots, through, Some(written)), id) == lookup(
            slots,
            id,
        ),
{
}

/// Round trip: a handle that resolves keeps resolving to the same payload
/// through any operations that neither remove at its index nor write
/// through a handle of its index. Insertions in particular never disturb
/// it.
pub proof fn law_round_trip(slots: Seq<EntityEntry>, id: EntityId, steps: Seq<Step>)
    requires
        addressable(slots),
        lookup(slots, id) is Some,
        permitted(slots, steps),
        forall|n: int| 0 <= n < steps.len() ==> (#[trigger] steps[n]).spares(id.id as int),
    ensures
        addressable(run(slots, steps)),
        lookup(run(slots, steps), id) == lookup(slots, id),
    decreases steps.len(),
{
    if steps.len() > 0 {
        let init = steps.drop_last();
        assert forall|n: int| 0 <= n < init.len() implies (#[trigger] init[n]).spares(
            id.id as int,
        ) by {
            assert(init[n] == steps[n]);
        }
        law_round_trip(slots, id, init);
        let mid = run(slots, init);
        match steps.last() {
            Step::Add(e) => {
                law_lookup_after_add(mid, e, id);
                lemma_first_vacant_from(mid, 0);
            },
            Step::Remove(r) => {
                law_lookup_after_remove(mid, r, id);
            },
            Step::Write(w, e) => {
                if lookup(mid, w) is Some {
                    law_lookup_after_write(mid, w, e, id);
                }
            },
        }
    }
}

/// Reusing a vacated slot raises its generation by one; no operation ever
/// lowers a generation or takes a slot away.
pub proof fn law_generation_grows(slots: Seq<EntityEntry>, step: Step, i: int)
    requires
        addressable(slots),
        step.permitted(slots),
        0 <= i < slots.len(),
    ensures
        addressable(step.apply(slots)),
        i < step.apply(slots).len(),
        step.apply(slots)[i].gen >= slots[i].gen,
        slots[i].entity is None && step.apply(slots)[i].entity is Some ==> step.apply(
            slots,
        )[i].gen == slots[i].gen + 1,
{
    lemma_first_vacant_from(slots, 0);
}

/// A handle whose payload was removed is retired, whichever handle of its
/// index the removal went through.
pub proof fn law_removed_is_retired(slots: Seq<EntityEntry>, removed: EntityId, id: EntityId)
    requires
        lookup(slots, id) is Some,
        removed.id == id.id,
    ensures
        retired(vacated(slots, removed), id),
{
}

/// A retired handle never resolves again: not after any operations, and not
/// once its slot holds a new payload.
pub proof fn law_retired_forever(slots: Seq<EntityEntry>, id: EntityId, steps: Seq<Step>)
    requires
        addressable(slots),
        retired(slots, id),
        permitted(slots, steps),
    ensures
        addressable(run(slots, steps)),
        retired(run(slots, steps), id),
        lookup(run(slots, steps), id) is None,
    decreases steps.len(),
{
    if steps.len() > 0 {
        let init = steps.drop_last();
        law_retired_forever(slots, id, init);
        law_generation_grows(run(slots, init), steps.last(), id.id as int);
    }
}

/// Pair access symmetry: for two different handles, swapping the arguments
/// of `get_pair_mut` swaps its results.
pub proof fn law_pair_symmetry(slots: Seq<EntityEntry>, a: EntityId, b: EntityId)
    requires
        a != b,
    ensures
        pair_lookup(slots, a, b).0 == pair_lookup(slots, b, a).1,
        pair_lookup(slots, a, b).1 == pair_lookup(slots, b, a).0,
{
}

/// What is written through the two results of `get_pair_mut` lands in the
/// same slots in either order of the arguments. The results are `x` for
/// `a` and `y` for `b`, of which at most one exists if the handles share
/// an index.
pub proof fn law_pair_writes_commute(
    slots: Seq<EntityEntry>,
    a: EntityId,
    b: EntityId,
    x: Option<Entity>,
    y: Option<Entity>,
)
    requires
        x is Some ==> pair_lookup(slots, a, b).0 is Some,
        y is Some ==> pair_lookup(slots, a, b).1 is Some,
    ensures
        rewritten(rewritten(slots, a, x), b, y) == rewritten(rewritten(slots, b, y), a, x),
{
    assert(rewritten(rewritten(slots, a, x), b, y) =~= rewritten(rewritten(slots, b, y), a, x));
}

/// Pair collision: two handles of one index are never both served. One of
/// them is served exactly if one of them resolves, and then it is the one
/// that resolves.
pub proof fn law_pair_collision(slots: Seq<EntityEntry>, a: EntityId, b: EntityId)
    requires
        a.id == b.id,
    ensures
        !(pair_lookup(slots, a, b).0 is Some && pair_lookup(slots, a, b).1 is Some),
        pair_lookup(slots, a, b).0 is Some || pair_lookup(slots, a, b).1 is Some <==> lookup(
            slots,
            a,
        ) is Some || lookup(slots, b) is Some,
        pair_lookup(slots, a, b).0 is Some ==> pair_lookup(slots, a, b).0 == lookup(slots, a),
        pair_lookup(slots, a, b).1 is Some ==> pair_lookup(slots, a, b).1 == lookup(slots, b),
{
}

/// The views of a split iterator over a whole registry are in bounds and
/// ascending. They cover exactly the indices of the registry, and a handle
/// resolves among them to what it resolves to in the registry.
pub proof fn law_fresh_covers_all(slots: Seq<EntityEntry>, i: int, id: EntityId)
    requires
        addressable(slots),
        slots.len() <= usize::MAX,
    ensures
        in_bounds(seq![Span { start: 0, slots }]),
        ascending(seq![Span { start: 0, slots }]),
        covered(seq![Span { start: 0, slots }], i) <==> 0 <= i < slots.len(),
        resolve(seq![Span { start: 0, slots }], id) == lookup(slots, id),
{
    let whole = seq![Span { start: 0, slots }];
    lemma_find_span_from(whole, i, 0);
    lemma_find_span_from(whole, id.id as int, 0);
    if id.id < slots.len() {
        lemma_find_span_unique(whole, 0, id.id as int);
    }
}

/// The views of a split iterator built around the slot at index `at` of a
/// registry are in bounds and ascending. They cover every index of the
/// registry but `at`; a handle of index `at` resolves to nothing among
/// them, and any other handle to what it resolves to in the registry.
pub proof fn law_fresh_split_covers_rest(slots: Seq<EntityEntry>, at: int, i: int, id: EntityId)
    requires
        addressable(slots),
        slots.len() <= usize::MAX,
        0 <= at < slots.len(),
    ensures
        in_bounds(carved(seq![Span { start: 0, slots }], 0, at)),
        ascending(carved(seq![Span { start: 0, slots }], 0, at)),
        covered(carved(seq![Span { start: 0, slots }], 0, at), i) <==> 0 <= i < slots.len() && i
            != at,
        resolve(carved(seq![Span { start: 0, slots }], 0, at), id) == (if id.id == at {
            None
        } else {
            lookup(slots, id)
        }),
{
    let whole = seq![Span { start: 0, slots }];
    law_fresh_covers_all(slots, i, id);
    lemma_find_span_unique(whole, 0, at);
    law_exclude_hides_one(whole, at, i, id);
    law_exclude_keeps_order(whole, at);
}

/// Iteration over a fresh split iterator: the listing of a whole registry
/// holds exactly the handles that resolve in it, each with its payload, and
/// is strictly ascending by index.
pub proof fn law_fresh_iteration(
    slots: Seq<EntityEntry>,
    id: EntityId,
    payload: Entity,
    s: int,
    t: int,
)
    requires
        addressable(slots),
        slots.len() <= usize::MAX,
    ensures
        entries(seq![Span { start: 0, slots }]).contains((id, payload)) <==> lookup(slots, id)
            == Some(payload),
        0 <= s < t < entries(seq![Span { start: 0, slots }]).len() ==> entries(
            seq![Span { start: 0, slots }],
        )[s].0.id < entries(seq![Span { start: 0, slots }])[t].0.id,
{
    let whole = seq![Span { start: 0, slots }];
    law_fresh_covers_all(slots, 0, id);
    law_entries_are_what_resolves(whole, id, payload);
    if 0 <= s < t < entries(whole).len() {
        law_entries_ascending(whole, s, t);
    }
}

/// Iteration over a fresh split iterator built around the slot at index
/// `at`: the listing holds exactly the handles of other indices that
/// resolve in the registry, each with its payload, and is strictly
/// ascending by index.
pub proof fn law_fresh_split_iteration(
    slots: Seq<EntityEntry>,
    at: int,
    id: EntityId,
    payload: Entity,
    s: int,
    t: int,
)
    requires
        addressable(slots),
        slots.len() <= usize::MAX,
        0 <= at < slots.len(),
    ensures
        entries(carved(seq![Span { start: 0, slots }], 0, at)).contains((id, payload)) <==> id.id
            != at && lookup(slots, id) == Some(payload),
        0 <= s < t < entries(carved(seq![Span { start: 0, slots }], 0, at)).len() ==> entries(
            carved(seq![Span { start: 0, slots }], 0, at),
        )[s].0.id < entries(carved(seq![Span { start: 0, slots }], 0, at))[t].0.id,
{
    let rest = carved(seq![Span { start: 0, slots }], 0, at);
    law_fresh_split_covers_rest(slots, at, 0, id);
    law_entries_are_what_resolves(rest, id, payload);
    if 0 <= s < t < entries(rest).len() {
        law_entries_ascending(rest, s, t);
    }
}

/// Iteration completeness: the entries of a split iterator are exactly the
/// handles that resolve among its views, each with the payload it resolves
/// to.
pub proof fn law_entries_are_what_resolves(spans: Seq<Span>, id: EntityId, payload: Entity)
    requires
        in_bounds(spans),
        ascending(spans),
    ensures
        entries(spans).contains((id, payload)) <==> resolve(spans, id) == Some(payload),
{
    let all = entries(spans);
    assert(spans.take(spans.len() as int) =~= spans);
    if all.contains((id, payload)) {
        let t = choose|t: int| 0 <= t < all.len() && all[t] == (id, payload);
        let k = lemma_entries_origin(spans, t);
        assert(spans[k].entries().contains((id, payload)));
        lemma_span_entries_contains(spans[k], id, payload);
        lemma_find_span_unique(spans, k, id.id as int);
    }
    if resolve(spans, id) == Some(payload) {
        let k = find_span(spans, id.id as int);
        lemma_find_span_from(spans, id.id as int, 0);
        lemma_span_entries_contains(spans[k], id, payload);
        let own = spans[k].entries();
        let u = choose|u: int| 0 <= u < own.len() && own[u] == (id, payload);
        let upto = spans.take(k + 1);
        assert(upto.drop_last() =~= spans.take(k));
        assert(upto.last() == spans[k]);
        assert(entries(upto)[entries(spans.take(k)).len() + u] == (id, payload));
        lemma_entries_take(spans, k + 1, spans.len() as int);
        assert(all[entries(spans.take(k)).len() + u] == (id, payload));
    }
}

/// Iteration order: the entries of a split iterator are strictly ascending
/// by index, whatever was excluded from it and in whatever order.
pub proof fn law_entries_ascending(spans: Seq<Span>, s: int, t: int)
    requires
        in_bounds(spans),
        ascending(spans),
        0 <= s < t < entries(spans).len(),
    ensures
        entries(spans)[s].0.id < entries(spans)[t].0.id,
{
    lemma_entries_ascending(spans, s, t);
}

/// Every slot is listed at most once: no two entries of a split iterator
/// share an index.
pub proof fn law_entries_distinct(spans: Seq<Span>, s: int, t: int)
    requires
        in_bounds(spans),
        ascending(spans),
        0 <= s < entries(spans).len(),
        0 <= t < entries(spans).len(),
        s != t,
    ensures
        entries(spans)[s].0.id != entries(spans)[t].0.id,
{
    if s < t {
        lemma_entries_ascending(spans, s, t);
    } else {
        lemma_entries_ascending(spans, t, s);
    }
}

/// Excluding the slot at index `at` takes exactly that slot away: the views
/// cover every index they covered but `at`, no handle of index `at`
/// resolves among them any more, and every other handle resolves to what
/// it resolved to before.
pub proof fn law_exclude_hides_one(spans: Seq<Span>, at: int, i: int, id: EntityId)
    requires
        in_bounds(spans),
        ascending(spans),
        covered(spans, at),
    ensures
        covered(carved(spans, find_span(spans, at), at), i) <==> covered(spans, i) && i != at,
        resolve(carved(spans, find_span(spans, at), at), id) == (if id.id == at {
            None
        } else {
            resolve(spans, id)
        }),
{
    lemma_carved_finds(spans, at, i);
    lemma_carved_finds(spans, at, id.id as int);
}

/// Where an index is found after the slot at index `at` was carved out: in
/// a span that holds the same slot for it as before, unless it is `at`
/// itself or was in no span, and then in none.
proof fn lemma_carved_finds(spans: Seq<Span>, at: int, x: int)
    requires
        in_bounds(spans),
        ascending(spans),
        covered(spans, at),
    ensures
        ({
            let c = carved(spans, find_span(spans, at), at);
            &&& covered(c, x) <==> covered(spans, x) && x != at
            &&& covered(c, x) ==> c[find_span(c, x)].slot(x) == spans[find_span(spans, x)].slot(x)
        }),
{
    let k = find_span(spans, at);
    let c = carved(spans, k, at);
    lemma_find_span_from(spans, at, 0);
    lemma_find_span_from(spans, x, 0);
    lemma_find_span_from(c, x, 0);
    lemma_carved_wf(spans, k, at);
    lemma_carved_at(spans, k, at);
    let f = find_span(spans, x);
    let g = find_span(c, x);
    if g < c.len() {
        // The span of `c` that contains `x` lies within a span of `spans`.
        let o = if g <= k {
            g
        } else {
            g - 1
        };
        if g > k + 1 {
            assert(c[(g - 1) + 1] == spans[g - 1]);
        }
        assert(spans[o].contains(x));
        lemma_find_span_unique(spans, o, x);
        assert(c[g].slot(x) == spans[o].slot(x));
    } else if f < spans.len() && x != at {
        if f < k {
            assert(c[f].contains(x));
        } else if f > k {
            assert(c[f + 1].contains(x));
        } else if x < at {
            assert(c[k].contains(x));
        } else {
            assert(c[k + 1].contains(x));
        }
    }
}

/// Excluding the slot at index `at` takes its entry out of the listing, if
/// it is occupied and so has one, and leaves every other entry in its
/// place.
pub proof fn law_exclude_removes_one_entry(spans: Seq<Span>, at: int)
    requires
        covered(spans, at),
    ensures
        ({
            let k = find_span(spans, at);
            entries(carved(spans, k, at)) == (match spans[k].slot(at).entity {
                Some(_) => entries(spans).remove(position(spans, k, at - spans[k].start)),
                None => entries(spans),
            })
        }),
{
    lemma_find_span_from(spans, at, 0);
    lemma_carved_entries(spans, find_span(spans, at), at);
}

/// Excluding a slot keeps the views in bounds and in index order, whichever
/// view held it.
pub proof fn law_exclude_keeps_order(spans: Seq<Span>, at: int)
    requires
        in_bounds(spans),
        ascending(spans),
        covered(spans, at),
    ensures
        in_bounds(carved(spans, find_span(spans, at), at)),
        ascending(carved(spans, find_span(spans, at), at)),
{
    lemma_find_span_from(spans, at, 0);
    lemma_carved_wf(spans, find_span(spans, at), at);
}

/// Repeatability: two listings of the same views are the same listing,
/// entry by entry.
pub proof fn law_listing_repeats(
    first: Seq<(EntityId, &Entity)>,
    second: Seq<(EntityId, &Entity)>,
    spans: Seq<Span>,
)
    requires
        lists(first, entries(spans)),
        lists(second, entries(spans)),
    ensures
        first.len() == second.len(),
        forall|i: int|
            0 <= i < first.len() ==> (#[trigger] first[i]).0 == second[i].0 && *first[i].1
                == *second[i].1,
{
}

/// Fork consistency: putting back, untouched, what `exclude_and_fork`
/// carved out gives the views as they were. The parts before and after the
/// slot, joined around it, are the view that held it; every other view was
/// never changed.
pub proof fn law_fork_restores(spans: Seq<Span>, id: EntityId, payload: Entity)
    requires
        resolve(spans, id) == Some(payload),
    ensures
        ({
            let k = find_span(spans, id.id as int);
            let forked = carved(spans, k, id.id as int);
            let slot = spans[k].slot(id.id as int);
            &&& forked.len() == spans.len() + 1
            &&& forked[k].start == spans[k].start
            &&& forked[k].slots.push(slot.with_payload(Some(payload))) + forked[k + 1].slots
                == spans[k].slots
            &&& forall|j: int| 0 <= j < k ==> (#[trigger] forked[j]) == spans[j]
            &&& forall|j: int| k < j < spans.len() ==> (#[trigger] forked[j + 1]) == spans[j]
        }),
{
    let k = find_span(spans, id.id as int);
    lemma_find_span_from(spans, id.id as int, 0);
    lemma_carved_at(spans, k, id.id as int);
    let forked = carved(spans, k, id.id as int);
    let slot = spans[k].slot(id.id as int);
    assert(forked[k].slots.push(slot.with_payload(Some(payload))) + forked[k + 1].slots
        =~= spans[k].slots);
}

/// Whether views are in bounds and in index order is a matter of where
/// they begin and how many slots they hold. So the parent of a fork, whose
/// views begin where they began, is fit for use again once the fork is gone
/// and its views are seen to hold as many slots as before.
pub proof fn law_extent_decides_order(before: Seq<Span>, after: Seq<Span>)
    requires
        in_bounds(before),
        ascending(before),
        after.len() == before.len(),
        forall|k: int|
            0 <= k < before.len() ==> (#[trigger] after[k]).start == before[k].start
                && after[k].slots.len() == before[k].slots.len(),
    ensures
        in_bounds(after),
        ascending(after),
{
    assert forall|k: int| 0 <= k < after.len() implies 0 <= (#[trigger] after[k]).start
        && after[k].end() <= index_space() && after[k].end() <= usize::MAX by {
        assert(after[k].end() == before[k].end());
    }
    assert forall|j: int, k: int| 0 <= j < k < after.len() implies (#[trigger] after[j]).end() <= (
    #[trigger] after[k]).start by {
        assert(before[j].end() <= before[k].start);
    }
}

} // verus!
