use bbqueue::signal::Signal;
use bbqueue::waker::WakerStorage;
use std::sync::atomic::{AtomicUsize, Ordering};
use std::sync::Arc;
use std::task::{Wake, Waker};

struct CountingWaker(AtomicUsize);

impl Wake for CountingWaker {
    fn wake(self: Arc<Self>) {
        self.0.fetch_add(1, Ordering::SeqCst);
    }
}

fn counting_waker() -> (Arc<CountingWaker>, Waker) {
    let c = Arc::new(CountingWaker(AtomicUsize::new(0)));
    let w = Waker::from(c.clone());
    (c, w)
}

#[test]
fn signal_then_poll_gives_the_value() {
    let mut sig: Signal<u32> = Signal::new();
    sig.signal(7);
    assert_eq!(sig.poll_wait(Waker::noop()), Some(7));
    // The value was taken
    assert_eq!(sig.poll_wait(Waker::noop()), None);
}

#[test]
fn poll_then_signal_wakes_the_waiter() {
    let (count, waker) = counting_waker();
    let mut sig: Signal<u8> = Signal::new();
    assert_eq!(sig.poll_wait(&waker), None);
    assert_eq!(count.0.load(Ordering::SeqCst), 0);
    sig.signal(3);
    assert_eq!(count.0.load(Ordering::SeqCst), 1);
    assert_eq!(sig.poll_wait(&waker), Some(3));
}

#[test]
fn later_signal_replaces_the_value() {
    let mut sig: Signal<u8> = Signal::new();
    sig.signal(1);
    sig.signal(2);
    assert_eq!(sig.poll_wait(Waker::noop()), Some(2));
}

#[test]
fn waker_storage_wakes_once() {
    let (count, waker) = counting_waker();
    let mut ws = WakerStorage::new();
    ws.wake();
    assert_eq!(count.0.load(Ordering::SeqCst), 0);
    ws.set(&waker);
    ws.wake();
    assert_eq!(count.0.load(Ordering::SeqCst), 1);
    // Nothing stored any more
    ws.wake();
    assert_eq!(count.0.load(Ordering::SeqCst), 1);
}

#[test]
fn waker_storage_replacing_wakes_the_previous() {
    let (count1, waker1) = counting_waker();
    let (count2, waker2) = counting_waker();
    let mut ws = WakerStorage::new();
    ws.set(&waker1);
    // The same task again: nothing woken
    ws.set(&waker1);
    assert_eq!(count1.0.load(Ordering::SeqCst), 0);
    // Another task: the previous one is woken
    ws.set(&waker2);
    assert_eq!(count1.0.load(Ordering::SeqCst), 1);
    ws.wake();
    assert_eq!(count2.0.load(Ordering::SeqCst), 1);
}

#[test]
fn waker_storage_answer_decides_keep_or_replace() {
    let (count1, waker1) = counting_waker();
    let (count2, waker2) = counting_waker();
    let (count3, waker3) = counting_waker();
    let mut ws = WakerStorage::new();
    ws.set_as_answered(&waker1, false);
    assert_eq!(count1.0.load(Ordering::SeqCst), 0);
    // Answered "another task": the stored waker is woken once and replaced
    ws.set_as_answered(&waker2, false);
    assert_eq!(count1.0.load(Ordering::SeqCst), 1);
    assert_eq!(count2.0.load(Ordering::SeqCst), 0);
    // Answered "same task": the stored waker is kept and nothing is woken
    ws.set_as_answered(&waker3, true);
    assert_eq!(count2.0.load(Ordering::SeqCst), 0);
    assert_eq!(count3.0.load(Ordering::SeqCst), 0);
    // The kept waker is the one that wakes
    ws.wake();
    assert_eq!(count1.0.load(Ordering::SeqCst), 1);
    assert_eq!(count2.0.load(Ordering::SeqCst), 1);
    assert_eq!(count3.0.load(Ordering::SeqCst), 0);
}
