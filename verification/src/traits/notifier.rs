//! "Notification" functionality
//!
//! A notifier lets a waiting consumer learn that data was committed, and a
//! waiting producer learn that room was released. Each notifier counts the
//! wake-ups it was asked for, so that contracts can say who was woken.
//!
//! A notifier that does real work elsewhere (waking tasks, say) is a
//! [`Forwarding`] notifier: it counts the wake-ups and hands each to a
//! [`WakeHandler`].
use vstd::prelude::*;

verus! {

/// Non-async notifications
pub trait Notifier: Sized {
    /// How many times a consumer, and how many times a producer, were woken.
    spec fn wakes(&self) -> (nat, nat);

    /// A notifier with nobody waiting, that has woken nobody yet.
    fn init() -> (n: Self)
        ensures
            n.wakes() == (0nat, 0nat),
    ;

    /// Inform one consumer that there is data available to read
    fn wake_one_consumer(&mut self)
        ensures
            final(self).wakes() == (old(self).wakes().0 + 1, old(self).wakes().1),
    ;

    /// Inform one producer that there is room available to write
    fn wake_one_producer(&mut self)
        ensures
            final(self).wakes() == (old(self).wakes().0, old(self).wakes().1 + 1),
    ;
}

/// A notifier that performs no notification: producer and consumer poll.
pub struct Polling {
    woken: Ghost<(nat, nat)>,
}

impl Notifier for Polling {
    closed spec fn wakes(&self) -> (nat, nat) {
        self.woken@
    }

    fn init() -> (n: Self) {
        Polling { woken: Ghost((0nat, 0nat)) }
    }

    fn wake_one_consumer(&mut self) {
        proof {
            self.woken@ = (self.woken@.0 + 1, self.woken@.1);
        }
    }

    fn wake_one_producer(&mut self) {
        proof {
            self.woken@ = (self.woken@.0, self.woken@.1 + 1);
        }
    }
}

/// A notifier that performs no notification: producer and consumer block by
/// retrying.
pub struct Blocking {
    woken: Ghost<(nat, nat)>,
}

impl Notifier for Blocking {
    closed spec fn wakes(&self) -> (nat, nat) {
        self.woken@
    }

    fn init() -> (n: Self) {
        Blocking { woken: Ghost((0nat, 0nat)) }
    }

    fn wake_one_consumer(&mut self) {
        proof {
            self.woken@ = (self.woken@.0 + 1, self.woken@.1);
        }
    }

    fn wake_one_producer(&mut self) {
        proof {
            self.woken@ = (self.woken@.0, self.woken@.1 + 1);
        }
    }
}

/// What a [`Forwarding`] notifier does with each wake-up it is asked for.
pub trait WakeHandler: Sized {
    /// A handler with nobody waiting.
    fn init() -> Self;

    /// Inform one consumer that there is data available to read
    fn wake_consumer(&self);

    /// Inform one producer that there is room available to write
    fn wake_producer(&self);
}

/// A notifier that counts its wake-ups and hands each to its handler `W`.
pub struct Forwarding<W> {
    handler: W,
    woken: Ghost<(nat, nat)>,
}

impl<W: WakeHandler> Forwarding<W> {
    /// The handler the wake-ups are handed to.
    pub closed spec fn spec_handler(&self) -> W {
        self.handler
    }

    /// The handler the wake-ups are handed to.
    pub fn handler(&self) -> (h: &W)
        ensures
            *h == self.spec_handler(),
    {
        &self.handler
    }
}

impl<W: WakeHandler> Notifier for Forwarding<W> {
    closed spec fn wakes(&self) -> (nat, nat) {
        self.woken@
    }

    fn init() -> (n: Self) {
        Forwarding { handler: W::init(), woken: Ghost((0nat, 0nat)) }
    }

    fn wake_one_consumer(&mut self) {
        self.handler.wake_consumer();
        proof {
            self.woken@ = (self.woken@.0 + 1, self.woken@.1);
        }
    }

    fn wake_one_producer(&mut self) {
        self.handler.wake_producer();
        proof {
            self.woken@ = (self.woken@.0, self.woken@.1 + 1);
        }
    }
}

} // verus!
