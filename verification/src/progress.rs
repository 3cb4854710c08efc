//! Progress callbacks, with the record of the calls made to them.

use vstd::prelude::*;

verus! {

/// A progress callback, told `(current, total)`, with the record of every
/// call made to it through [`Progress::report`].
pub struct Progress<F> {
    callback: F,
    calls: Ghost<Seq<(usize, usize)>>,
}

impl<F: FnMut(usize, usize)> Progress<F> {
    /// The calls made so far, in order.
    pub closed spec fn calls(&self) -> Seq<(usize, usize)> {
        self.calls@
    }

    /// The callback that the calls go to.
    pub closed spec fn callback(&self) -> F {
        self.callback
    }

    /// Progress reported to `callback`; no call made yet.
    pub fn new(callback: F) -> (r: Self)
        ensures
            r.calls() == Seq::<(usize, usize)>::empty(),
            r.callback() == callback,
    {
        Progress { callback, calls: Ghost(Seq::empty()) }
    }

    /// Tells the callback `(current, total)`.
    pub fn report(&mut self, current: usize, total: usize)
        requires
            call_requires(old(self).callback(), (current, total)),
        ensures
            final(self).calls() == old(self).calls().push((current, total)),
            final(self).callback() == old(self).callback(),
    {
        (self.callback)(current, total);
        self.calls = Ghost(self.calls@.push((current, total)));
    }
}

} // verus!
