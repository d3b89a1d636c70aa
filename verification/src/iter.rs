//! The split iterator: disjoint mutable views that together reach every slot
//! of the registry but those that were carved out.
//!
//! A view borrows its slots, so what a registry or a view holds once a borrow
//! ends is whatever was written through the borrow meanwhile. The contracts
//! say so with `final`: they tie the slots that the lender holds in the end
//! to the slots that each borrower holds in the end, piece by piece and in
//! index order.

use vstd::prelude::*;
use crate::entity::{Entity, EntityEntry, EntityId};
use crate::list::{EntityList, index_space};
use crate::span::{Span, ascending, carved, covered, entries, find_span, find_span_from, in_bounds,
    lemma_carved_at, lemma_carved_wf, lemma_entries_ascending, lemma_entries_take,
    lemma_find_span_from, lemma_rank_grows, position, resolve};

verus! {

/// Exclusive access to a run of consecutive slots, with the index of the
/// first of them in the registry.
pub struct EntitySlice<'a> {
    pub start: usize,
    pub slice: &'a mut [EntityEntry],
}

impl<'a> View for EntitySlice<'a> {
    type V = Span;

    open spec fn view(&self) -> Span {
        Span { start: self.start as int, slots: self.slice@ }
    }
}

impl<'a> EntitySlice<'a> {
    /// A second view of the same slots that borrows from this one. While
    /// the result lives this view cannot be used; afterwards this view holds
    /// what was written through the result.
    pub fn clone(&mut self) -> (r: EntitySlice<'_>)
        ensures
            r@ == old(self)@,
            final(self).start == old(self).start,
            final(self).slice@ == final(r.slice)@,
            final(final(self).slice)@ == final(old(self).slice)@,
    {
        EntitySlice { start: self.start, slice: &mut *self.slice }
    }
}

/// Whether `listed` holds the handles and payloads of `expected`, in the same
/// order.
pub open spec fn lists(listed: Seq<(EntityId, &Entity)>, expected: Seq<(EntityId, Entity)>) -> bool {
    &&& listed.len() == expected.len()
    &&& forall|i: int|
        0 <= i < listed.len() ==> (#[trigger] listed[i]).0 == expected[i].0 && *listed[i].1
            == expected[i].1
}

/// A split iterator over the registry: a collection of views in index order
/// that share no slot.
pub struct EntityDynIter<'a>(pub Vec<EntitySlice<'a>>);

impl<'a> View for EntityDynIter<'a> {
    type V = Seq<Span>;

    open spec fn view(&self) -> Seq<Span> {
        Seq::new(self.0@.len(), |k: int| self.0@[k]@)
    }
}

impl<'a> EntityDynIter<'a> {
    /// The views stay within the indices of a registry and come in index
    /// order, so that no two of them share a slot.
    pub open spec fn wf(&self) -> bool {
        in_bounds(self@) && ascending(self@)
    }

    /// A split iterator of one view that spans the whole registry.
    pub fn new_all(source: &'a mut EntityList) -> (r: Self)
        requires
            old(source).wf(),
        ensures
            r.wf(),
            r@ == seq![Span { start: 0, slots: old(source)@ }],
            final(source)@ == final(r.0@[0].slice)@,
    {
        let n: usize = source.0.len();
        let mut views: Vec<EntitySlice<'a>> = Vec::new();
        views.push(EntitySlice { start: 0, slice: source.0.as_mut_slice() });
        let r = EntityDynIter(views);
        assert(r@ =~= seq![Span { start: 0, slots: old(source)@ }]);
        assert(r@[0].end() == n);
        r
    }

    /// Takes the slot at `split_idx` out of the registry and returns it
    /// beside a split iterator over all the other slots: one view of the
    /// slots before it, one of the slots after it. Nothing is returned if
    /// the registry has no slot at `split_idx`.
    pub fn new_split(source: &'a mut EntityList, split_idx: usize) -> (r: Option<
        (&'a mut EntityEntry, Self),
    >)
        requires
            old(source).wf(),
        ensures
            r is Some <==> split_idx < old(source)@.len(),
            match r {
                Some((center, rest)) => {
                    &&& rest.wf()
                    &&& *center == old(source)@[split_idx as int]
                    &&& rest@ == carved(
                        seq![Span { start: 0, slots: old(source)@ }],
                        0,
                        split_idx as int,
                    )
                    &&& final(source)@ == final(rest.0@[0].slice)@.push(*final(center))
                        + final(rest.0@[1].slice)@
                },
                None => final(source)@ == old(source)@,
            },
    {
        let n: usize = source.0.len();
        if split_idx >= n {
            return None;
        }
        let (left, right) = source.0.as_mut_slice().split_at_mut(split_idx);
        let (mid, right) = right.split_at_mut(1);
        let center = &mut mid[0];
        let mut views: Vec<EntitySlice<'a>> = Vec::new();
        views.push(EntitySlice { start: 0, slice: left });
        views.push(EntitySlice { start: split_idx + 1, slice: right });
        let rest = EntityDynIter(views);
        proof {
            let whole = seq![Span { start: 0, slots: old(source)@ }];
            assert(rest@[0].slots =~= whole[0].before(split_idx as int).slots);
            assert(rest@[1].slots =~= whole[0].after(split_idx as int).slots);
            assert(rest@ =~= carved(whole, 0, split_idx as int));
            assert(whole[0].end() == n);
            lemma_carved_wf(whole, 0, split_idx as int);
        }
        Some((center, rest))
    }

    /// The position of the first view that contains the slot at `idx`, or
    /// the number of views if none does.
    fn locate(&self, idx: usize) -> (k: usize)
        ensures
            k == find_span(self@, idx as int),
            k <= self.0@.len(),
    {
        let n: usize = self.0.len();
        let mut k: usize = 0;
        while k < n
            invariant
                k <= n,
                n == self.0@.len(),
                find_span_from(self@, idx as int, k as int) == find_span(self@, idx as int),
            decreases n - k,
        {
            let view = &self.0[k];
            assert(self@[k as int] == view@);
            if view.start <= idx && idx - view.start < view.slice.len() {
                return k;
            }
            k += 1;
        }
        k
    }

    /// Carves the slot at index `idx` out of the view that contains it and
    /// returns it. The part of that view before the slot stays in its place
    /// and the part after it follows directly, so the views stay in index
    /// order. The slot is returned whatever its generation and whether or
    /// not it is occupied; nothing is returned, and nothing changes, if no
    /// view contains `idx`.
    pub fn exclude(&mut self, idx: usize) -> (r: Option<&'a mut EntityEntry>)
        requires
            old(self).wf(),
        ensures
            final(self).wf(),
            r is Some <==> covered(old(self)@, idx as int),
            match r {
                Some(slot) => {
                    let k = find_span(old(self)@, idx as int);
                    &&& *slot == old(self)@[k].slot(idx as int)
                    &&& final(self)@ == carved(old(self)@, k, idx as int)
                    &&& forall|j: int| 0 <= j < k ==> final(self).0@[j] == old(self).0@[j]
                    &&& forall|j: int|
                        k < j < old(self).0@.len() ==> final(self).0@[j + 1] == old(self).0@[j]
                    &&& final(old(self).0@[k].slice)@ == final(final(self).0@[k].slice)@.push(
                        *final(slot),
                    ) + final(final(self).0@[k + 1].slice)@
                },
                None => *final(self) == *old(self),
            },
    {
        let k: usize = self.locate(idx);
        if k == self.0.len() {
            return None;
        }
        proof {
            lemma_find_span_from(self@, idx as int, 0);
            lemma_carved_wf(self@, k as int, idx as int);
            lemma_carved_at(self@, k as int, idx as int);
            assert(self@[k as int] == self.0@[k as int]@);
        }
        let view = self.0.remove(k);
        let p: usize = idx - view.start;
        let (left, rest) = view.slice.split_at_mut(p);
        let (mid, right) = rest.split_at_mut(1);
        self.0.insert(k, EntitySlice { start: view.start, slice: left });
        self.0.insert(k + 1, EntitySlice { start: idx + 1, slice: right });
        proof {
            let c = carved(old(self)@, k as int, idx as int);
            assert(self@.len() == c.len());
            assert forall|j: int| 0 <= j < c.len() implies self@[j] == c[j] by {
                if j == k || j == k + 1 {
                    assert(self@[j].slots =~= c[j].slots);
                } else if j < k {
                    assert(self.0@[j] == old(self).0@[j]);
                } else {
                    assert(self.0@[(j - 1) + 1] == old(self).0@[j - 1]);
                    assert(c[(j - 1) + 1] == old(self)@[j - 1]);
                }
            }
            assert(self@ =~= c);
        }
        Some(&mut mid[0])
    }

    /// The occupied slots that the views reach, each with the handle that
    /// resolves to it, in strictly ascending order of index whatever was
    /// excluded before.
    pub fn dyn_iter_id(&self) -> (r: Vec<(EntityId, &Entity)>)
        requires
            self.wf(),
        ensures
            lists(r@, entries(self@)),
            forall|s: int, t: int|
                0 <= s < t < r@.len() ==> (#[trigger] r@[s]).0.id < (#[trigger] r@[t]).0.id,
    {
        let mut out: Vec<(EntityId, &Entity)> = Vec::new();
        let n: usize = self.0.len();
        let mut k: usize = 0;
        assert(self@.take(0) =~= Seq::<Span>::empty());
        while k < n
            invariant
                k <= n,
                n == self.0@.len(),
                self.wf(),
                lists(out@, entries(self@.take(k as int))),
            decreases n - k,
        {
            let view = &self.0[k];
            let m: usize = view.slice.len();
            let mut j: usize = 0;
            proof {
                assert(self@[k as int] == view@);
                assert(view@.before(0).slots =~= Seq::<EntityEntry>::empty());
                assert(entries(self@.take(k as int)) + view@.before(0).entries() =~= entries(
                    self@.take(k as int),
                ));
            }
            while j < m
                invariant
                    j <= m,
                    m == view.slice@.len(),
                    view@.start >= 0,
                    view@.end() <= index_space(),
                    view@.end() <= usize::MAX,
                    lists(out@, entries(self@.take(k as int)) + view@.before(j as int).entries()),
                decreases m - j,
            {
                let slot = &view.slice[j];
                proof {
                    let next = view@.before(j + 1);
                    assert(next.slots.drop_last() =~= view@.before(j as int).slots);
                    assert(next.slots.last() == *slot);
                }
                let ghost done = entries(self@.take(k as int)) + view@.before(j as int).entries();
                match slot.entity.as_ref() {
                    Some(e) => {
                        let id = EntityId { id: (view.start + j) as u32, gen: slot.gen };
                        out.push((id, e));
                        assert(entries(self@.take(k as int)) + view@.before(j + 1).entries()
                            =~= done.push((id, *e)));
                    },
                    None => {},
                }
                j += 1;
            }
            proof {
                assert(view@.before(m as int).slots =~= view@.slots);
                let upto = self@.take(k + 1);
                assert(upto.drop_last() =~= self@.take(k as int));
                assert(upto.last() == view@);
            }
            k += 1;
        }
        proof {
            assert(self@.take(n as int) =~= self@);
            assert forall|s: int, t: int| 0 <= s < t < out@.len() implies (#[trigger] out@[s]).0.id
                < (#[trigger] out@[t]).0.id by {
                lemma_entries_ascending(self@, s, t);
            }
        }
        out
    }

    /// The payloads of the occupied slots that the views reach, in the order
    /// of `dyn_iter_id`.
    pub fn dyn_iter(&self) -> (r: Vec<&Entity>)
        requires
            self.wf(),
        ensures
            r@.len() == entries(self@).len(),
            forall|i: int| 0 <= i < r@.len() ==> *(#[trigger] r@[i]) == entries(self@)[i].1,
    {
        let pairs = self.dyn_iter_id();
        let mut out: Vec<&Entity> = Vec::new();
        let n: usize = pairs.len();
        let mut i: usize = 0;
        while i < n
            invariant
                i <= n,
                n == pairs@.len(),
                lists(pairs@, entries(self@)),
                out@.len() == i,
                forall|j: int| 0 <= j < i ==> *(#[trigger] out@[j]) == entries(self@)[j].1,
            decreases n - i,
        {
            out.push(pairs[i].1);
            i += 1;
        }
        out
    }

    /// Mutable access to the payloads of the occupied slots that the views
    /// reach, in the order of `dyn_iter_id`. Afterwards each of these slots
    /// holds what was written through its entry of the result; generations,
    /// vacant slots and the extent of the views stay as they are.
    pub fn dyn_iter_mut<'b>(&'b mut self) -> (r: Vec<&'b mut Entity>)
        ensures
            r@.len() == entries(old(self)@).len(),
            forall|i: int| 0 <= i < r@.len() ==> *(#[trigger] r@[i]) == entries(old(self)@)[i].1,
            old(self).wf() ==> final(self).wf(),
            final(self).0@.len() == old(self).0@.len(),
            forall|k: int|
                0 <= k < old(self).0@.len() ==> {
                    &&& (#[trigger] final(self).0@[k]).start == old(self).0@[k].start
                    &&& final(final(self).0@[k].slice)@ == final(old(self).0@[k].slice)@
                    &&& final(self).0@[k].slice@.len() == old(self).0@[k].slice@.len()
                },
            forall|k: int, j: int|
                0 <= k < old(self).0@.len() && 0 <= j < old(self).0@[k].slice@.len()
                    ==> match old(self).0@[k].slice@[j].entity {
                    Some(_) => (#[trigger] final(self).0@[k].slice@[j]) == old(
                        self,
                    ).0@[k].slice@[j].with_payload(
                        Some(*final(r@[position(old(self)@, k, j)])),
                    ),
                    None => final(self).0@[k].slice@[j] == old(self).0@[k].slice@[j],
                },
    {
        let ghost fin = final(self).0@;
        let ghost orig = self.0@;
        let ghost spans = self@;
        let mut out: Vec<&'b mut Entity> = Vec::new();
        let mut rest: &'b mut [EntitySlice<'a>] = self.0.as_mut_slice();
        let ghost mut done: int = 0;
        assert(spans.take(0) =~= Seq::<Span>::empty());
        while rest.len() > 0
            invariant
                0 <= done,
                spans.len() == orig.len(),
                forall|k: int| 0 <= k < orig.len() ==> (#[trigger] spans[k]) == orig[k]@,
                done + rest@.len() == orig.len(),
                forall|i: int| 0 <= i < rest@.len() ==> rest@[i] == orig[done + i],
                fin.len() == done + final(rest)@.len(),
                forall|i: int|
                    0 <= i < final(rest)@.len() ==> fin[done + i] == #[trigger] final(rest)@[i],
                out@.len() == entries(spans.take(done)).len(),
                forall|i: int|
                    0 <= i < out@.len() ==> *(#[trigger] out@[i]) == entries(spans.take(done))[i].1,
                forall|k: int|
                    0 <= k < done ==> {
                        &&& (#[trigger] fin[k]).start == orig[k].start
                        &&& final(fin[k].slice)@ == final(orig[k].slice)@
                        &&& fin[k].slice@.len() == orig[k].slice@.len()
                    },
                forall|k: int, j: int|
                    0 <= k < done && 0 <= j < orig[k].slice@.len() ==> match orig[k].slice@[j].entity {
                        Some(_) => (#[trigger] fin[k].slice@[j]) == orig[k].slice@[j].with_payload(
                            Some(*final(out@[position(spans, k, j)])),
                        ),
                        None => fin[k].slice@[j] == orig[k].slice@[j],
                    },
            decreases rest@.len(),
        {
            let cur = rest;
            let ghost fin_cur = final(cur)@;
            let ghost prev = out@;
            let (head, tail) = cur.split_at_mut(1);
            let ghost fin_head = final(head)@;
            let view = &mut head[0];
            let ghost span = view@;
            assert(span == spans[done]);
            payloads_mut(&mut *view.slice, &mut out, Ghost(view.start as int));
            rest = tail;
            proof {
                lemma_peeled(fin, done, fin_cur, fin_head, final(rest)@);
                let upto = spans.take(done + 1);
                assert(upto.drop_last() =~= spans.take(done));
                assert(upto.last() == span);
                assert(entries(upto) == entries(spans.take(done)) + span.entries());
                assert forall|i: int| 0 <= i < out@.len() implies *(#[trigger] out@[i]) == entries(
                    upto,
                )[i].1 by {
                    if i < prev.len() {
                        assert(out@[i] == prev[i]);
                    } else {
                        assert(out@[prev.len() + (i - prev.len())] == out@[i]);
                    }
                }
                assert forall|k: int, j: int|
                    0 <= k < done + 1 && 0 <= j < orig[k].slice@.len() implies match orig[k].slice@[j].entity {
                    Some(_) => (#[trigger] fin[k].slice@[j]) == orig[k].slice@[j].with_payload(
                        Some(*final(out@[position(spans, k, j)])),
                    ),
                    None => fin[k].slice@[j] == orig[k].slice@[j],
                } by {
                    if orig[k].slice@[j].entity is Some {
                        assert(spans[k] == orig[k]@);
                        lemma_rank_grows(spans[k], j, spans[k].slots.len() as int);
                        assert(spans[k].before(spans[k].slots.len() as int).slots =~= spans[k].slots);
                        if k < done {
                            lemma_entries_take(spans, k + 1, done);
                            let upk = spans.take(k + 1);
                            assert(upk.drop_last() =~= spans.take(k));
                            assert(upk.last() == spans[k]);
                            assert(position(spans, k, j) < prev.len());
                            assert(out@[position(spans, k, j)] == prev[position(spans, k, j)]);
                        }
                    }
                }
                done = done + 1;
            }
        }
        proof {
            assert(spans.take(done) =~= spans);
            if old(self).wf() {
                let after = Seq::new(fin.len(), |k: int| fin[k]@);
                assert forall|k: int| 0 <= k < after.len() implies (#[trigger] after[k]).start
                    == spans[k].start && after[k].end() == spans[k].end() by {
                    assert(fin[k].start == orig[k].start);
                }
                assert(in_bounds(after));
                assert(ascending(after));
            }
        }
        out
    }

    /// Carves out the slot that the handle `id` resolves to and returns its
    /// payload. The views change as in `exclude`. If the handle resolves to
    /// nothing (no view contains its index, or the slot there is vacant or
    /// of another generation), nothing is returned and nothing changes.
    pub fn exclude_id(&mut self, id: EntityId) -> (r: Option<&'a mut Entity>)
        requires
            old(self).wf(),
        ensures
            final(self).wf(),
            match r {
                Some(e) => {
                    let k = find_span(old(self)@, id.id as int);
                    &&& resolve(old(self)@, id) == Some(*e)
                    &&& final(self)@ == carved(old(self)@, k, id.id as int)
                    &&& forall|j: int| 0 <= j < k ==> final(self).0@[j] == old(self).0@[j]
                    &&& forall|j: int|
                        k < j < old(self).0@.len() ==> final(self).0@[j + 1] == old(self).0@[j]
                    &&& final(old(self).0@[k].slice)@ == final(final(self).0@[k].slice)@.push(
                        old(self)@[k].slot(id.id as int).with_payload(Some(*final(e))),
                    ) + final(final(self).0@[k + 1].slice)@
                },
                None => resolve(old(self)@, id) is None && *final(self) == *old(self),
            },
    {
        let idx: usize = id.id as usize;
        let k: usize = self.locate(idx);
        if k == self.0.len() {
            return None;
        }
        proof {
            lemma_find_span_from(self@, idx as int, 0);
            assert(self@[k as int] == self.0@[k as int]@);
        }
        let view = &self.0[k];
        let slot = &view.slice[idx - view.start];
        if slot.gen != id.gen || slot.entity.is_none() {
            return None;
        }
        match self.exclude(idx) {
            Some(entry) => entry.entity.as_mut(),
            None => None,
        }
    }

    /// A view of the same slots for each of `views`, borrowed from them.
    /// Once the results are gone, each of `views` holds what was written
    /// through its counterpart.
    fn reborrow<'b>(views: &'b mut [EntitySlice<'a>]) -> (out: Vec<EntitySlice<'b>>)
        ensures
            out@.len() == old(views)@.len(),
            final(views)@.len() == old(views)@.len(),
            forall|k: int|
                0 <= k < out@.len() ==> {
                    &&& (#[trigger] out@[k])@ == old(views)@[k]@
                    &&& final(views)@[k].start == old(views)@[k].start
                    &&& final(views)@[k].slice@ == final(out@[k].slice)@
                    &&& final(final(views)@[k].slice)@ == final(old(views)@[k].slice)@
                },
    {
        let ghost fin = final(views)@;
        let mut out: Vec<EntitySlice<'b>> = Vec::new();
        let mut rest: &'b mut [EntitySlice<'a>] = views;
        while rest.len() > 0
            invariant
                out@.len() + rest@.len() == old(views)@.len(),
                forall|k: int| 0 <= k < rest@.len() ==> rest@[k] == old(views)@[out@.len() + k],
                fin.len() == out@.len() + final(rest)@.len(),
                forall|k: int|
                    0 <= k < final(rest)@.len() ==> fin[out@.len() + k] == #[trigger] final(rest)@[k],
                forall|k: int|
                    0 <= k < out@.len() ==> {
                        &&& (#[trigger] out@[k])@ == old(views)@[k]@
                        &&& fin[k].start == old(views)@[k].start
                        &&& fin[k].slice@ == final(out@[k].slice)@
                        &&& final(fin[k].slice)@ == final(old(views)@[k].slice)@
                    },
            decreases rest@.len(),
        {
            let cur = rest;
            let ghost done = out@.len() as int;
            let ghost fin_cur = final(cur)@;
            let (head, tail) = cur.split_at_mut(1);
            let ghost fin_head = final(head)@;
            let view = &mut head[0];
            out.push(view.clone());
            rest = tail;
            proof {
                lemma_peeled(fin, done, fin_cur, fin_head, final(rest)@);
            }
        }
        out
    }

    /// Like `exclude_id`, but on a second split iterator that borrows from
    /// this one and is returned beside the payload. The views of this
    /// iterator stay as many as they are and begin where they begin: once
    /// the second iterator and the payload are gone, each view holds what
    /// its counterparts there hold in the end, the carved slot back in its
    /// place between the part before it and the part after it. If the
    /// handle resolves to nothing, the second iterator has the views of
    /// this one and no payload comes with it.
    pub fn exclude_and_fork<'b>(&'b mut self, id: EntityId) -> (r: Option<
        (Option<&'b mut Entity>, EntityDynIter<'b>),
    >)
        requires
            old(self).wf(),
        ensures
            r is Some,
            ({
                let (payload, fork) = r.unwrap();
                let k = find_span(old(self)@, id.id as int);
                &&& fork.wf()
                &&& final(self).0@.len() == old(self).0@.len()
                &&& forall|j: int|
                    0 <= j < old(self).0@.len() ==> {
                        &&& (#[trigger] final(self).0@[j]).start == old(self).0@[j].start
                        &&& final(final(self).0@[j].slice)@ == final(old(self).0@[j].slice)@
                    }
                &&& match payload {
                    Some(e) => {
                        &&& resolve(old(self)@, id) == Some(*e)
                        &&& fork@ == carved(old(self)@, k, id.id as int)
                        &&& forall|j: int|
                            0 <= j < k ==> (#[trigger] final(self).0@[j]).slice@ == final(
                                fork.0@[j].slice
                            )@
                        &&& final(self).0@[k].slice@ == final(fork.0@[k].slice)@.push(
                            old(self)@[k].slot(id.id as int).with_payload(Some(*final(e))),
                        ) + final(fork.0@[k + 1].slice)@
                        &&& forall|j: int|
                            k < j < old(self).0@.len() ==> (#[trigger] final(self).0@[j]).slice@
                                == final(fork.0@[j + 1].slice)@
                    },
                    None => {
                        &&& resolve(old(self)@, id) is None
                        &&& fork@ == old(self)@
                        &&& forall|j: int|
                            0 <= j < old(self).0@.len() ==> (#[trigger] final(self).0@[j]).slice@
                                == final(fork.0@[j].slice)@
                    },
                }
            }),
    {
        let ghost fin = final(self).0@;
        let mut fork = EntityDynIter(Self::reborrow(self.0.as_mut_slice()));
        let ghost before = fork.0@;
        proof {
            assert forall|j: int| 0 <= j < before.len() implies fork@[j] == old(self)@[j] by {
                assert(before[j]@ == old(self).0@[j]@);
            }
            assert(fork@ =~= old(self)@);
        }
        let payload = fork.exclude_id(id);
        proof {
            let k = find_span(old(self)@, id.id as int);
            lemma_find_span_from(old(self)@, id.id as int, 0);
            assert forall|j: int| 0 <= j < before.len() implies {
                &&& (#[trigger] fin[j]).start == old(self).0@[j].start
                &&& final(fin[j].slice)@ == final(old(self).0@[j].slice)@
                &&& fin[j].slice@ == final(before[j].slice)@
            } by {
                assert(before[j]@ == old(self).0@[j]@);
            }
            if payload is Some {
                assert forall|j: int| 0 <= j < k implies (#[trigger] fin[j]).slice@ == final(
                    fork.0@[j].slice
                )@ by {
                    assert(fork.0@[j] == before[j]);
                }
                assert forall|j: int| k < j < before.len() implies (#[trigger] fin[j]).slice@
                    == final(fork.0@[j + 1].slice)@ by {
                    assert(fork.0@[j + 1] == before[j]);
                }
            }
        }
        Some((payload, fork))
    }
}

/// Appends to `out` mutable access to the payload of each occupied slot of
/// `slots`, in index order.
fn payloads_mut<'b>(
    slots: &'b mut [EntityEntry],
    out: &mut Vec<&'b mut Entity>,
    Ghost(start): Ghost<int>,
)
    ensures
        final(out)@.len() == old(out)@.len() + (Span { start, slots: old(slots)@ }).entries().len(),
        forall|i: int| 0 <= i < old(out)@.len() ==> final(out)@[i] == old(out)@[i],
        forall|i: int|
            0 <= i < (Span { start, slots: old(slots)@ }).entries().len() ==> *(
            #[trigger] final(out)@[old(out)@.len() + i]) == (Span {
                start,
                slots: old(slots)@,
            }).entries()[i].1,
        final(slots)@.len() == old(slots)@.len(),
        forall|j: int|
            0 <= j < old(slots)@.len() ==> match old(slots)@[j].entity {
                Some(_) => (#[trigger] final(slots)@[j]) == old(slots)@[j].with_payload(
                    Some(
                        *final(
                            final(out)@[old(out)@.len() + (Span { start, slots: old(slots)@ }).rank(j)]
                        ),
                    ),
                ),
                None => final(slots)@[j] == old(slots)@[j],
            },
{
    let ghost fin = final(slots)@;
    let ghost span = Span { start, slots: slots@ };
    let ghost base = out@.len() as int;
    let mut rest: &'b mut [EntityEntry] = slots;
    let ghost mut j: int = 0;
    assert(span.before(0).slots =~= Seq::<EntityEntry>::empty());
    while rest.len() > 0
        invariant
            0 <= j,
            j + rest@.len() == span.slots.len(),
            forall|i: int| 0 <= i < rest@.len() ==> rest@[i] == span.slots[j + i],
            fin.len() == j + final(rest)@.len(),
            forall|i: int|
                0 <= i < final(rest)@.len() ==> fin[j + i] == #[trigger] final(rest)@[i],
            out@.len() == base + span.rank(j),
            base == old(out)@.len(),
            forall|i: int| 0 <= i < base ==> out@[i] == old(out)@[i],
            forall|i: int|
                0 <= i < span.rank(j) ==> *(#[trigger] out@[base + i]) == span.before(
                    j,
                ).entries()[i].1,
            forall|i: int|
                0 <= i < j ==> match span.slots[i].entity {
                    Some(_) => (#[trigger] fin[i]) == span.slots[i].with_payload(
                        Some(*final(out@[base + span.rank(i)])),
                    ),
                    None => fin[i] == span.slots[i],
                },
        decreases rest@.len(),
    {
        let cur = rest;
        let ghost fin_cur = final(cur)@;
        let ghost prev = out@;
        let (head, tail) = cur.split_at_mut(1);
        let ghost fin_head = final(head)@;
        let slot = &mut head[0];
        proof {
            let next = span.before(j + 1);
            assert(next.slots.drop_last() =~= span.before(j).slots);
            assert(next.slots.last() == *slot);
        }
        match slot.entity.as_mut() {
            Some(e) => {
                assert(span.before(j + 1).entries().last().1 == *e);
                out.push(e);
                assert(span.before(j + 1).entries().drop_last() == span.before(j).entries());
            },
            None => {
                assert(span.before(j + 1).entries() == span.before(j).entries());
            },
        }
        rest = tail;
        proof {
            lemma_peeled(fin, j, fin_cur, fin_head, final(rest)@);
            assert forall|i: int| 0 <= i < span.rank(j + 1) implies *(#[trigger] out@[base + i])
                == span.before(j + 1).entries()[i].1 by {
                if i < span.rank(j) {
                    assert(out@[base + i] == prev[base + i]);
                }
            }
            assert forall|i: int| 0 <= i < j + 1 implies match span.slots[i].entity {
                Some(_) => (#[trigger] fin[i]) == span.slots[i].with_payload(
                    Some(*final(out@[base + span.rank(i)])),
                ),
                None => fin[i] == span.slots[i],
            } by {
                if i < j {
                    lemma_rank_grows(span, i, j);
                    if span.slots[i].entity is Some {
                        assert(out@[base + span.rank(i)] == prev[base + span.rank(i)]);
                    }
                }
            }
            j = j + 1;
        }
    }
    assert(span.before(j).slots =~= span.slots);
}

/// One step of walking a sequence from the front. Where `whole` holds
/// `cur` from position `done` on, and `cur` is the one element of `head`
/// followed by `rest`, `whole` holds that element at `done` and `rest` from
/// `done + 1` on.
proof fn lemma_peeled<T>(whole: Seq<T>, done: int, cur: Seq<T>, head: Seq<T>, rest: Seq<T>)
    requires
        0 <= done,
        whole.len() == done + cur.len(),
        forall|i: int| 0 <= i < cur.len() ==> whole[done + i] == #[trigger] cur[i],
        cur == head + rest,
        head.len() == 1,
    ensures
        whole.len() == done + 1 + rest.len(),
        whole[done] == head[0],
        forall|i: int| 0 <= i < rest.len() ==> whole[done + 1 + i] == #[trigger] rest[i],
{
    assert(whole[done + 0] == cur[0]);
    assert forall|i: int| 0 <= i < rest.len() implies whole[done + 1 + i] == #[trigger] rest[i] by {
        assert(whole[done + (i + 1)] == cur[i + 1]);
    }
}

} // verus!
