//! The re-render dispatcher: the queue of repaint requests that mutations leave behind for
//! the display host.

use vstd::prelude::*;

verus! {

/// Why a re-render request could not be enqueued.
#[derive(Clone, Copy, Debug, PartialEq, Eq, Structural)]
pub enum DispatchError {
    /// The queue already holds as many requests as it has room for.
    QueueFull,
}

/// The dispatcher through which a mutation asks the display host to repaint.
///
/// Requests are counted here and handed to the display host in one batch by
/// [`BrowserAPI::take_pending`]; the host may coalesce them into a single repaint. A
/// request that finds no room is refused, never dropped in silence.
#[derive(Debug)]
pub struct BrowserAPI {
    pending: u64,
    capacity: u64,
}

impl BrowserAPI {
    /// The number of requests enqueued and not yet taken by the display host.
    pub closed spec fn pending_requests(&self) -> nat {
        self.pending as nat
    }

    /// The number of requests that the queue has room for.
    pub closed spec fn capacity(&self) -> nat {
        self.capacity as nat
    }

    /// A dispatcher with no request pending and room for as many as can be counted.
    pub fn new() -> (api: Self)
        ensures
            api.pending_requests() == 0,
            api.capacity() == u64::MAX,
    {
        BrowserAPI { pending: 0, capacity: u64::MAX }
    }

    /// A dispatcher with no request pending and room for `capacity` requests.
    pub fn with_capacity(capacity: u64) -> (api: Self)
        ensures
            api.pending_requests() == 0,
            api.capacity() == capacity,
    {
        BrowserAPI { pending: 0, capacity }
    }

    /// The number of requests enqueued and not yet taken.
    pub fn pending(&self) -> (n: u64)
        ensures
            n == self.pending_requests(),
    {
        self.pending
    }

    /// Takes all pending requests, for the display host to act on; none is pending after.
    pub fn take_pending(&mut self) -> (n: u64)
        ensures
            n == old(self).pending_requests(),
            final(self).pending_requests() == 0,
            final(self).capacity() == old(self).capacity(),
    {
        let n = self.pending;
        self.pending = 0;
        n
    }

    /// Enqueues one re-render request, if there is room for it.
    pub fn rerender(&mut self) -> (res: Result<(), DispatchError>)
        ensures
            final(self).capacity() == old(self).capacity(),
            old(self).pending_requests() < old(self).capacity() ==> res is Ok
                && final(self).pending_requests() == old(self).pending_requests() + 1,
            old(self).pending_requests() >= old(self).capacity() ==> res == Err::<
                (),
                DispatchError,
            >(DispatchError::QueueFull) && *final(self) == *old(self),
    {
        if self.pending < self.capacity {
            self.pending = self.pending + 1;
            Ok(())
        } else {
            Err(DispatchError::QueueFull)
        }
    }
}

} // verus!
