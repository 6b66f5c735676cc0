//! A slot that holds the waker of a task waiting on the queue.
use std::task::Waker;
use vstd::prelude::*;

verus! {

/// The waker of a task, as std defines it.
#[verifier::external_type_specification]
#[verifier::external_body]
pub struct ExWaker(Waker);

/// Whether `a` and `b` would wake the same task: std's `Waker::will_wake`.
/// It works on a best-effort basis (it may answer `false` for wakers of the
/// same task), so nothing is stated of the answer.
#[verifier::external_body]
pub(crate) fn will_wake(a: &Waker, b: &Waker) -> (same: bool) {
    a.will_wake(b)
}

/// Wake the task of `w`: std's `Waker::wake`, which consumes the waker.
#[verifier::external_body]
pub(crate) fn wake_task(w: Waker) {
    w.wake()
}

/// A waker for the same task as `w`: std's `Clone` for `Waker`. Nothing is
/// stated of the copy, which Verus cannot look into.
#[verifier::external_body]
pub(crate) fn clone_waker(w: &Waker) -> (c: Waker) {
    w.clone()
}

/// Wake the task of `w`, and record `w` at the end of `log`, the wakers this
/// library has woken.
pub(crate) fn wake_recorded(w: Waker, log: &mut Ghost<Seq<Waker>>)
    ensures
        final(log)@ == old(log)@.push(w),
{
    proof {
        log@ = log@.push(w);
    }
    wake_task(w);
}

/// A waker storage. Can be initialized without a waker, and a waker can be set on an eventual `poll` call.
/// The waker can be set and woken up.
///
/// The storage records, as a ghost log, every waker it has woken.
pub struct WakerStorage {
    waker: Option<Waker>,
    woken: Ghost<Seq<Waker>>,
}

impl WakerStorage {
    /// The stored waker, if any.
    pub closed spec fn stored(&self) -> Option<Waker> {
        self.waker
    }

    /// A waker is stored.
    pub open spec fn is_set(&self) -> bool {
        self.stored() is Some
    }

    /// The wakers this storage has woken, in order.
    pub closed spec fn woken(&self) -> Seq<Waker> {
        self.woken@
    }

    /// A storage with no waker, that has woken nothing.
    pub fn new() -> (s: Self)
        ensures
            !s.is_set(),
            s.woken() == Seq::<Waker>::empty(),
    {
        WakerStorage { waker: None, woken: Ghost(Seq::empty()) }
    }

    /// Set the waker, will wake the previous one if one was already stored.
    ///
    /// Whether the previous waker would wake the same task as `new` is asked
    /// of std's best-effort `will_wake`; [`WakerStorage::set_as_answered`]
    /// states what happens for each answer.
    pub fn set(&mut self, new: &Waker)
        ensures
            final(self).is_set(),
            old(self).stored() is None ==> final(self).woken() == old(self).woken(),
            old(self).stored() matches Some(prev) ==> {
                ||| final(self).stored() == old(self).stored() && final(self).woken() == old(
                    self,
                ).woken()
                ||| final(self).woken() == old(self).woken().push(prev)
            },
    {
        let same_task = match &self.waker {
            Some(prev) => will_wake(prev, new),
            None => false,
        };
        self.set_as_answered(new, same_task);
    }

    /// Set the waker, given whether the stored waker would wake the same task
    /// as `new` (`same_task`, as `will_wake` answers it).
    ///
    /// With no waker stored, a waker for the task of `new` is stored and
    /// nothing is woken. Otherwise, when `same_task` holds, the stored waker is
    /// kept and nothing is woken; when it does not, the stored waker is woken
    /// once and replaced by a waker for the task of `new`.
    pub fn set_as_answered(&mut self, new: &Waker, same_task: bool)
        ensures
            final(self).is_set(),
            match old(self).stored() {
                None => final(self).woken() == old(self).woken(),
                Some(prev) => if same_task {
                    &&& final(self).stored() == old(self).stored()
                    &&& final(self).woken() == old(self).woken()
                } else {
                    final(self).woken() == old(self).woken().push(prev)
                },
            },
    {
        match self.waker.take() {
            Some(prev) => {
                // No need to clone if they wake the same task.
                if same_task {
                    self.waker = Some(prev);
                } else {
                    // Wake the previous waker and replace it
                    wake_recorded(prev, &mut self.woken);
                    self.waker = Some(clone_waker(new));
                }
            },
            None => {
                self.waker = Some(clone_waker(new));
            },
        }
    }

    /// Wake the waker if one is available: a stored waker is woken exactly
    /// once, and the storage is left empty.
    pub fn wake(&mut self)
        ensures
            !final(self).is_set(),
            final(self).woken() == match old(self).stored() {
                Some(w) => old(self).woken().push(w),
                None => old(self).woken(),
            },
    {
        if let Some(waker) = self.waker.take() {
            wake_recorded(waker, &mut self.woken)
        }
    }
}

} // verus!
