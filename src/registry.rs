use vstd::prelude::*;

use crate::context::ContextStack;
use crate::span::{Span, ID};
use crate::laws::{
    children, held_open, lemma_creation_keeps_held_open, lemma_parent_reported_after_children,
    lemma_release_step, lemma_reported_before_parent,
};
use crate::store::{
    acquire_fence, slab_records, slab_sinks, store_count_add, store_count_sub, store_insert, store_new,
    store_sender, store_take, SlotStore,
};
use crossbeam::channel::Sender;
use std::sync::atomic::Ordering;

verus! {

/// A record as the registry sees it: its parent, its start time and its
/// reference count.
pub type Record = (Option<ID>, u64, usize);

/// Records are well formed: finitely many, each with at least one reference.
pub open spec fn records_wf(m: Map<ID, Record>) -> bool {
    &&& m.dom().finite()
    &&& forall|k: ID| #[trigger] m.contains_key(k) ==> m[k].2 >= 1
}

/// Dropping one reference to `id`: the records afterwards, and the spans
/// reported, in the order they are reported. The last reference removes the
/// record, reports it, and drops the reference it held on its parent.
pub open spec fn release_model(m: Map<ID, Record>, id: ID) -> (Map<ID, Record>, Seq<ID>)
    decreases m.dom().len(),
{
    if !m.dom().finite() || !m.contains_key(id) {
        (m, Seq::empty())
    } else if m[id].2 != 1 {
        (m.insert(id, (m[id].0, m[id].1, (m[id].2 - 1) as usize)), Seq::empty())
    } else {
        let rest = m.remove(id);
        match m[id].0 {
            None => (rest, seq![id]),
            Some(p) => {
                let r = release_model(rest, p);
                (r.0, seq![id] + r.1)
            },
        }
    }
}

/// Why a span could not be created.
#[derive(Debug, Clone, Copy, PartialEq, Eq, Structural)]
pub enum SpanError {
    /// The slot store has no free slot for the calling thread.
    Full,
}

/// Holds one reference to a span's record.
pub struct SpanGuard {
    id: ID,
}

/// A guard for a span that may not exist: none was created when no span was
/// active.
pub struct OSpanGuard(Option<SpanGuard>);

/// One activation of a span on a context stack.
pub struct Entered<'a> {
    guard: &'a SpanGuard,
}

impl View for SpanGuard {
    type V = ID;

    closed spec fn view(&self) -> ID {
        self.id
    }
}

impl View for OSpanGuard {
    type V = Option<ID>;

    closed spec fn view(&self) -> Option<ID> {
        match self.0 {
            Some(g) => Some(g.id),
            None => None,
        }
    }
}

impl<'a> View for Entered<'a> {
    type V = ID;

    closed spec fn view(&self) -> ID {
        self.guard.id
    }
}

impl SpanGuard {
    /// The identity of the guarded span.
    pub fn id(&self) -> (r: ID)
        ensures
            r == self@,
    {
        self.id
    }

    /// Makes the span the innermost active one on `stack`.
    pub fn enter<'a>(&'a self, stack: &mut ContextStack) -> (r: Entered<'a>)
        ensures
            final(stack)@ == old(stack)@.push(self@),
            r@ == self@,
    {
        stack.push(self.id);
        Entered { guard: self }
    }
}

impl OSpanGuard {
    /// Makes the span, if there is one, the innermost active one on `stack`;
    /// without a span nothing happens.
    pub fn enter<'a>(&'a self, stack: &mut ContextStack) -> (r: Option<Entered<'a>>)
        ensures
            self@ is None ==> r is None && final(stack)@ == old(stack)@,
            self@ matches Some(k) ==> (r matches Some(e) && e@ == k && final(stack)@ == old(stack)@.push(k)),
    {
        match &self.0 {
            Some(g) => Some(g.enter(stack)),
            None => None,
        }
    }

    /// The guard of the span, if there is one.
    pub fn into_inner(self) -> (r: Option<SpanGuard>)
        ensures
            self@ is None ==> r is None,
            self@ matches Some(k) ==> (r matches Some(g) && g@ == k),
    {
        self.0
    }
}

impl<'a> Entered<'a> {
    /// The identity of the activated span.
    pub fn id(&self) -> (r: ID)
        ensures
            r == self@,
    {
        self.guard.id
    }

    /// Ends this activation, which must be the innermost one on `stack`:
    /// activations end in the reverse order of their start.
    pub fn exit(self, stack: &mut ContextStack)
        requires
            old(stack)@.len() > 0,
            old(stack)@.last() == self@,
        ensures
            final(stack)@ == old(stack)@.drop_last(),
    {
        stack.leave(self.guard.id)
    }
}

/// The span records in flight, by identity.
pub struct Registry {
    spans: SlotStore,
}

impl View for Registry {
    type V = Map<ID, Record>;

    closed spec fn view(&self) -> Map<ID, Record> {
        slab_records(self.spans)
    }
}

impl Registry {
    /// The sink each record reports to, by identity.
    pub closed spec fn sinks(&self) -> Map<ID, Sender<Span>> {
        slab_sinks(self.spans)
    }

    /// Records are well formed, each has a sink, each parent is in the
    /// registry, and each count covers the references held by the record's
    /// children.
    pub open spec fn wf(&self) -> bool {
        &&& records_wf(self@)
        &&& held_open(self@)
        &&& self.sinks().dom() == self@.dom()
    }

    /// An empty registry.
    pub fn new() -> (r: Self)
        ensures
            r.wf(),
            r@ == Map::<ID, Record>::empty(),
            r.sinks() == Map::<ID, Sender<Span>>::empty(),
    {
        let r = Registry { spans: store_new() };
        assert(r@ =~= Map::<ID, Record>::empty());
        assert(r.sinks() =~= Map::<ID, Sender<Span>>::empty());
        r
    }

    /// Drops the reference that `guard` holds, one that is not a child's.
    /// When it was the last one, the record is removed, reported to its sink
    /// ending at `now`, and the reference it held on its parent is dropped in
    /// turn, up the chain of ancestors. Returns the spans reported, in the
    /// order they were reported.
    pub fn release(&mut self, guard: SpanGuard, now: u64) -> (r: Vec<Span>)
        requires
            old(self).wf(),
            old(self)@.contains_key(guard@),
            children(old(self)@, guard@).len() < old(self)@[guard@].2,
        ensures
            final(self).wf(),
            final(self)@ == release_model(old(self)@, guard@).0,
            final(self).sinks() == old(self).sinks().restrict(final(self)@.dom()),
            r@.map_values(|s: Span| s.id) == release_model(old(self)@, guard@).1,
            r@.len() >= 1 ==> r@[0].id == guard@,
            forall|i: int|
                0 <= i < r@.len() - 1 ==> (#[trigger] r@[i]).parent == Some(r@[i + 1].id),
            forall|i: int| 0 <= i < r@.len() ==> children(final(self)@, (#[trigger] r@[i]).id).is_empty(),
            forall|i: int|
                0 <= i < r@.len() ==> {
                    let s = #[trigger] r@[i];
                    &&& old(self)@.contains_key(s.id)
                    &&& !final(self)@.contains_key(s.id)
                    &&& s.parent == old(self)@[s.id].0
                    &&& s.start_time == old(self)@[s.id].1
                    &&& s.end_time == if now >= s.start_time { now } else { s.start_time }
                },
    {
        let ghost m0 = self@;
        let ghost s0 = self.sinks();
        let mut next: Option<ID> = Some(guard.id);
        let mut out: Vec<Span> = Vec::new();
        while next.is_some()
            invariant
                records_wf(self@),
                held_open(self@),
                self.sinks().dom() == self@.dom(),
                self.sinks() == s0.restrict(self@.dom()),
                forall|k: ID| #[trigger]
                    self@.contains_key(k) ==> m0.contains_key(k) && self@[k].0 == m0[k].0
                        && self@[k].1 == m0[k].1,
                next matches Some(c) ==> self@.contains_key(c) && children(self@, c).len()
                    < self@[c].2 && release_model(m0, guard@) == (
                    release_model(self@, c).0,
                    out@.map_values(|s: Span| s.id) + release_model(self@, c).1,
                ),
                next is None ==> release_model(m0, guard@) == (
                    self@,
                    out@.map_values(|s: Span| s.id),
                ),
                out@.len() == 0 && next is Some ==> next == Some(guard@),
                out@.len() >= 1 ==> out@[0].id == guard@,
                forall|i: int|
                    0 <= i < out@.len() ==> {
                        let s = #[trigger] out@[i];
                        &&& m0.contains_key(s.id)
                        &&& !self@.contains_key(s.id)
                        &&& s.parent == m0[s.id].0
                        &&& s.start_time == m0[s.id].1
                        &&& s.end_time == if now >= s.start_time { now } else { s.start_time }
                    },
            decreases self@.dom().len() + if next is Some { 1int } else { 0int },
        {
            let c = next.unwrap();
            let ghost before = self@;
            let ghost ids = out@.map_values(|s: Span| s.id);
            proof {
                lemma_release_step(before, c);
            }
            let prev = store_count_sub(&mut self.spans, c, 1, Ordering::Release);
            if prev != Some(1usize) {
                next = None;
                assert(ids + Seq::<ID>::empty() =~= ids);
            } else {
                acquire_fence();
                let taken = store_take(&mut self.spans, c);
                assert(self@ =~= before.remove(c));
                assert(self.sinks() =~= s0.restrict(self@.dom()));
                match taken {
                    None => {
                        next = None;
                    },
                    Some(inner) => {
                        let parent = inner.parent();
                        let span = inner.finish(c, now);
                        out.push(span);
                        assert(out@.map_values(|s: Span| s.id) =~= ids.push(c));
                        next = parent;
                        match parent {
                            None => {
                                assert(ids + seq![c] =~= ids.push(c));
                            },
                            Some(p) => {
                                let ghost tail = release_model(self@, p).1;
                                assert(ids + (seq![c] + tail) =~= ids.push(c) + tail);
                            },
                        }
                    },
                }
            }
        }
        proof {
            lemma_reported_before_parent(m0, guard@);
            lemma_parent_reported_after_children(m0, guard@);
            let ids = release_model(m0, guard@).1;
            assert forall|i: int| 0 <= i < out@.len() implies #[trigger] out@[i].id == ids[i] by {
                assert(out@.map_values(|s: Span| s.id)[i] == out@[i].id);
            }
            assert forall|i: int| 0 <= i < out@.len() - 1 implies (#[trigger] out@[i]).parent
                == Some(out@[i + 1].id) by {
                assert(out@[i].id == ids[i] && out@[i + 1].id == ids[i + 1]);
            }
            assert forall|i: int| 0 <= i < out@.len() implies children(
                self@,
                (#[trigger] out@[i]).id,
            ).is_empty() by {
                assert(out@[i].id == ids[i]);
            }
        }
        out
    }
}

/// Starts a new trace: a root span, with no parent, starting at `now`, that
/// reports to `sender`. Fails only when the store is full.
pub fn new_span_root(registry: &mut Registry, sender: Sender<Span>, now: u64) -> (r: Result<
    SpanGuard,
    SpanError,
>)
    requires
        old(registry).wf(),
    ensures
        final(registry).wf(),
        r matches Ok(g) ==> !old(registry)@.contains_key(g@) && final(registry)@ == old(registry)@.insert(g@, (None, now, 1usize)),
        r matches Ok(g) ==> final(registry).sinks() == old(registry).sinks().insert(g@, sender),
        r is Err ==> r == Err::<SpanGuard, SpanError>(SpanError::Full) && final(registry)@ == old(registry)@,
        r is Err ==> final(registry).sinks() == old(registry).sinks(),
{
    let r = store_insert(&mut registry.spans, sender, None, now, 1);
    proof {
        if let Some(k) = r {
            lemma_creation_keeps_held_open(old(registry)@, None, k, now);
        }
    }
    match r {
        Some(id) => {
            assert(registry.sinks().dom() =~= registry@.dom());
            Ok(SpanGuard { id })
        },
        None => Err(SpanError::Full),
    }
}

/// Starts a span under the innermost active span of `stack`, starting at
/// `now`: the parent gains a reference, held by the child until the child is
/// reported, and the child reports to the parent's sink. With no active span
/// nothing is created and nothing changes. The active span is in the
/// registry, as its guard is alive while it is entered.
pub fn new_span(registry: &mut Registry, stack: &ContextStack, now: u64) -> (r: Result<
    OSpanGuard,
    SpanError,
>)
    requires
        old(registry).wf(),
        stack@.len() > 0 ==> old(registry)@.contains_key(stack@.last()),
        stack@.len() > 0 ==> old(registry)@[stack@.last()].2 < usize::MAX,
    ensures
        final(registry).wf(),
        stack@.len() == 0 ==> (r matches Ok(g) && g@ is None) && final(registry)@ == old(registry)@,
        stack@.len() == 0 || r is Err ==> final(registry).sinks() == old(registry).sinks(),
        stack@.len() > 0 ==> {
            let p = stack@.last();
            let rec = old(registry)@[p];
            let held = old(registry)@.insert(p, (rec.0, rec.1, (rec.2 + 1) as usize));
            &&& r matches Ok(g) ==> (g@ matches Some(k) && !old(registry)@.contains_key(k)
                && final(registry)@ == held.insert(k, (Some(p), now, 1usize)) && final(
                registry).sinks() == old(registry).sinks().insert(k, old(registry).sinks()[p]))
            &&& r is Err ==> r == Err::<OSpanGuard, SpanError>(SpanError::Full) && final(
                registry)@ == old(registry)@
        },
{
    match stack.current() {
        None => Ok(OSpanGuard(None)),
        Some(parent_id) => {
            let ghost m0 = registry@;
            let _ = store_count_add(&mut registry.spans, parent_id, 1, Ordering::Relaxed);
            let ghost m1 = registry@;
            match store_sender(&registry.spans, parent_id) {
                None => {
                    let _ = store_count_sub(&mut registry.spans, parent_id, 1, Ordering::Relaxed);
                    Err(SpanError::Full)
                },
                Some(sender) => {
                    let r = store_insert(&mut registry.spans, sender, Some(parent_id), now, 1);
                    match r {
                        Some(id) => {
                            proof {
                                lemma_creation_keeps_held_open(m0, Some(parent_id), id, now);
                            }
                            assert(registry.sinks().dom() =~= registry@.dom());
                            Ok(OSpanGuard(Some(SpanGuard { id })))
                        },
                        None => {
                            let _ = store_count_sub(
                                &mut registry.spans,
                                parent_id,
                                1,
                                Ordering::Relaxed,
                            );
                            assert(registry@ =~= m0);
                            assert(registry.sinks() =~= old(registry).sinks());
                            Err(SpanError::Full)
                        },
                    }
                },
            }
        },
    }
}

} // verus!
