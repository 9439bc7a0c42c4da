use vstd::prelude::*;

use crate::span::ID;

verus! {

/// The nesting of the spans that are active on one thread, innermost last.
/// The innermost active span is the implicit parent of a new span.
pub struct ContextStack {
    ids: Vec<ID>,
}

impl View for ContextStack {
    type V = Seq<ID>;

    closed spec fn view(&self) -> Seq<ID> {
        self.ids@
    }
}

impl ContextStack {
    /// An empty stack: no span is active.
    pub fn new() -> (s: Self)
        ensures
            s@ == Seq::<ID>::empty(),
    {
        ContextStack { ids: Vec::new() }
    }

    /// The innermost active span, if any.
    pub fn current(&self) -> (r: Option<ID>)
        ensures
            self@.len() == 0 ==> r is None,
            self@.len() > 0 ==> r == Some(self@.last()),
    {
        if self.ids.len() == 0 {
            None
        } else {
            Some(self.ids[self.ids.len() - 1])
        }
    }

    /// Number of activations on the stack.
    pub fn depth(&self) -> (r: usize)
        ensures
            r == self@.len(),
    {
        self.ids.len()
    }

    /// Makes `id` the innermost active span.
    pub fn push(&mut self, id: ID)
        ensures
            final(self)@ == old(self)@.push(id),
    {
        self.ids.push(id);
    }

    /// Ends the innermost activation, which must be one of `id`.
    pub fn leave(&mut self, id: ID)
        requires
            old(self)@.len() > 0,
            old(self)@.last() == id,
        ensures
            final(self)@ == old(self)@.drop_last(),
    {
        let _ = self.ids.pop();
    }
}

} // verus!
