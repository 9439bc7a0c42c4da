use vstd::prelude::*;

use crate::span::{Span, ID};
use crossbeam::channel::Sender;
use sharded_slab::Slab;
use std::sync::atomic::{AtomicUsize, Ordering};

verus! {

#[verifier::external_type_specification]
#[verifier::external_body]
#[verifier::reject_recursive_types(T)]
pub struct ExSender<T>(crossbeam::channel::Sender<T>);

/// The state of an in-flight span, held in the registry's slot store.
pub struct SpanInner {
    sender: Sender<Span>,
    id: Option<ID>,
    parent: Option<ID>,
    start_time: u64,
    ref_count: AtomicUsize,
}

/// The slot store: a `sharded_slab::Slab` of span records. Verus cannot
/// declare the slab type itself (its configuration parameter is bound by a
/// trait of that crate), so it is held here, hidden, and reached only through
/// the functions below.
#[verifier::external_body]
pub struct SlotStore {
    slab: Slab<SpanInner>,
}

/// What the slot store holds: for each occupied key, the record's parent,
/// its start time and its reference count.
pub uninterp spec fn slab_records(s: SlotStore) -> Map<ID, (Option<ID>, u64, usize)>;

/// The sinks of the records the slot store holds: for each occupied key, the
/// channel the record reports to.
pub uninterp spec fn slab_sinks(s: SlotStore) -> Map<ID, Sender<Span>>;

impl SpanInner {
    pub closed spec fn parent_spec(&self) -> Option<ID> {
        self.parent
    }

    pub closed spec fn start_spec(&self) -> u64 {
        self.start_time
    }

    pub closed spec fn sink_spec(&self) -> Sender<Span> {
        self.sender
    }

    /// The parent recorded when the span was created.
    pub fn parent(&self) -> (r: Option<ID>)
        ensures
            r == self.parent_spec(),
    {
        self.parent
    }

    /// The start time recorded when the span was created.
    pub fn start_time(&self) -> (r: u64)
        ensures
            r == self.start_spec(),
    {
        self.start_time
    }

    /// The finished form of this record, reported under `id` and ending at
    /// `now`, or at its start should the clock have gone back.
    pub fn finished(&self, id: ID, now: u64) -> (r: Span)
        ensures
            r.id == id,
            r.parent == self.parent_spec(),
            r.start_time == self.start_spec(),
            r.end_time == if now >= self.start_spec() { now } else { self.start_spec() },
    {
        let end_time: u64 = if now >= self.start_time { now } else { self.start_time };
        Span { id, parent: self.parent, start_time: self.start_time, end_time }
    }

    /// Reports a record that was taken out of the store under `id`: its
    /// finished form, as `finished` gives it, is offered to the span's sink
    /// and returned.
    pub fn finish(self, id: ID, now: u64) -> (r: Span)
        ensures
            r.id == id,
            r.parent == self.parent_spec(),
            r.start_time == self.start_spec(),
            r.end_time == if now >= self.start_spec() { now } else { self.start_spec() },
    {
        let mut inner = self;
        inner.id = Some(id);
        let span = inner.finished(id, now);
        offer(&inner.sender, span);
        span
    }
}

/// Relies on `sharded_slab::Slab::new`: a new slab holds nothing.
#[verifier::external_body]
pub(crate) fn store_new() -> (r: SlotStore)
    ensures
        slab_records(r).dom() == Set::<ID>::empty(),
        slab_sinks(r).dom() == Set::<ID>::empty(),
{
    SlotStore { slab: Slab::new() }
}

/// Relies on `sharded_slab::Slab::insert`: on success the record sits under
/// a key that was free, with its counter set to `count`; on failure (the
/// calling thread's shard is full) nothing changes.
#[verifier::external_body]
pub(crate) fn store_insert(
    s: &mut SlotStore,
    sender: Sender<Span>,
    parent: Option<ID>,
    start_time: u64,
    count: usize,
) -> (r: Option<ID>)
    ensures
        r matches Some(k) ==> !slab_records(*old(s)).contains_key(k) && slab_records(*final(s))
            == slab_records(*old(s)).insert(k, (parent, start_time, count)),
        r matches Some(k) ==> slab_sinks(*final(s)) == slab_sinks(*old(s)).insert(k, sender),
        r is None ==> slab_records(*final(s)) == slab_records(*old(s)),
        r is None ==> slab_sinks(*final(s)) == slab_sinks(*old(s)),
{
    let ref_count = AtomicUsize::new(count);
    s.slab.insert(SpanInner { sender, id: None, parent, start_time, ref_count })
}

/// Relies on `sharded_slab::Slab::get`: the record under an occupied key is
/// found, and its counter's `fetch_add` is applied; the count it had before is
/// returned.
#[verifier::external_body]
pub(crate) fn store_count_add(s: &mut SlotStore, k: ID, delta: usize, order: Ordering) -> (r:
    Option<usize>)
    requires
        slab_records(*old(s)).contains_key(k),
        slab_records(*old(s))[k].2 + delta <= usize::MAX,
    ensures
        r == Some(slab_records(*old(s))[k].2),
        slab_records(*final(s)) == slab_records(*old(s)).insert(
            k,
            (slab_records(*old(s))[k].0, slab_records(*old(s))[k].1, (slab_records(*old(s))[k].2
                + delta) as usize),
        ),
        slab_sinks(*final(s)) == slab_sinks(*old(s)),
{
    s.slab.get(k).map(|e| e.ref_count.fetch_add(delta, order))
}

/// Relies on `sharded_slab::Slab::get`: the record under an occupied key is
/// found, and its counter's `fetch_sub` is applied; the count it had before is
/// returned.
#[verifier::external_body]
pub(crate) fn store_count_sub(s: &mut SlotStore, k: ID, delta: usize, order: Ordering) -> (r:
    Option<usize>)
    requires
        slab_records(*old(s)).contains_key(k),
        slab_records(*old(s))[k].2 >= delta,
    ensures
        r == Some(slab_records(*old(s))[k].2),
        slab_records(*final(s)) == slab_records(*old(s)).insert(
            k,
            (slab_records(*old(s))[k].0, slab_records(*old(s))[k].1, (slab_records(*old(s))[k].2
                - delta) as usize),
        ),
        slab_sinks(*final(s)) == slab_sinks(*old(s)),
{
    s.slab.get(k).map(|e| e.ref_count.fetch_sub(delta, order))
}

/// Relies on `sharded_slab::Slab::get`: the record under an occupied key is
/// found, and a clone of its sink is returned: a handle to the same channel.
#[verifier::external_body]
pub(crate) fn store_sender(s: &SlotStore, k: ID) -> (r: Option<Sender<Span>>)
    requires
        slab_records(*s).contains_key(k),
    ensures
        r == Some(slab_sinks(*s)[k]),
{
    s.slab.get(k).map(|e| e.sender.clone())
}

/// Relies on `sharded_slab::Slab::take`: the record under an occupied key is
/// removed and handed back.
#[verifier::external_body]
pub(crate) fn store_take(s: &mut SlotStore, k: ID) -> (r: Option<SpanInner>)
    requires
        slab_records(*old(s)).contains_key(k),
    ensures
        r matches Some(v) && v.parent_spec() == slab_records(*old(s))[k].0 && v.start_spec()
            == slab_records(*old(s))[k].1 && v.sink_spec() == slab_sinks(*old(s))[k],
        slab_records(*final(s)) == slab_records(*old(s)).remove(k),
        slab_sinks(*final(s)) == slab_sinks(*old(s)).remove(k),
{
    s.slab.take(k)
}

/// Relies on `std::sync::atomic::fence`: an acquire fence, so that the
/// thread that removes a record sees every earlier release of it.
#[verifier::external_body]
pub(crate) fn acquire_fence() {
    std::sync::atomic::fence(Ordering::Acquire)
}

/// Relies on `crossbeam::channel::Sender::try_send`: never blocks; a full or
/// closed channel drops the span.
#[verifier::external_body]
pub(crate) fn offer(sender: &Sender<Span>, span: Span) {
    let _ = sender.try_send(span);
}

} // verus!
