//! Inbound-message handlers, called in registration order for every frame.
use vstd::prelude::*;

verus! {

/// A callback for inbound frames. Handlers are expected to return normally;
/// a tag that a handler does not know is its own to ignore.
pub trait Handler {
    /// Every frame this handler has been handed so far, as tag and payload.
    /// A verified handler states its own record; the record left empty here
    /// cannot meet the contract of `handle`.
    open spec fn received(&self) -> Seq<(Seq<char>, Seq<u8>)> {
        Seq::empty()
    }

    fn handle(&mut self, tag: &str, payload: &[u8])
        ensures
            final(self).received() == old(self).received().push((tag@, payload@)),
    ;
}

/// The handlers of inbound frames, in registration order; there is no removal.
pub struct HandlerRegistry<H> {
    handlers: Vec<H>,
}

impl<H: Handler> HandlerRegistry<H> {
    /// The handlers, in registration order.
    pub closed spec fn handlers(&self) -> Seq<H> {
        self.handlers@
    }

    pub fn new() -> (r: HandlerRegistry<H>)
        ensures
            r.handlers() == Seq::<H>::empty(),
    {
        HandlerRegistry { handlers: Vec::new() }
    }

    /// Appends a handler; it is called after every handler registered before it.
    pub fn register(&mut self, handler: H)
        ensures
            final(self).handlers() == old(self).handlers().push(handler),
    {
        self.handlers.push(handler);
    }

    /// The number of registered handlers.
    pub fn len(&self) -> (r: usize)
        ensures
            r == self.handlers().len(),
    {
        self.handlers.len()
    }

    /// Hands `tag` and `payload` to every handler once, in registration order.
    pub fn dispatch(&mut self, tag: &str, payload: &[u8])
        ensures
            final(self).handlers().len() == old(self).handlers().len(),
            forall|i: int|
                0 <= i < old(self).handlers().len() ==> #[trigger] final(self).handlers()[i].received()
                    == old(self).handlers()[i].received().push((tag@, payload@)),
    {
        let n = self.handlers.len();
        let mut i: usize = 0;
        while i < n
            invariant
                i <= n,
                n == self.handlers@.len(),
                n == old(self).handlers@.len(),
                forall|j: int|
                    0 <= j < i ==> #[trigger] self.handlers@[j].received()
                        == old(self).handlers@[j].received().push((tag@, payload@)),
                forall|j: int| i <= j < n ==> #[trigger] self.handlers@[j] == old(self).handlers@[j],
            decreases n - i,
        {
            self.handlers[i].handle(tag, payload);
            i += 1;
        }
    }
}

} // verus!
