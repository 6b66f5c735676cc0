use bbqueue::prod_cons::framed::{FramedConsumer, FramedProducer};
use bbqueue::nicknames::{Braai, Churrasco, Jerk, YakiNiku};
use bbqueue::queue::BBQueue;
use bbqueue::traits::coordination::cas::AtomicCoord;
use bbqueue::traits::coordination::cs::CsCoord;
use bbqueue::traits::coordination::{ReadGrantError, WriteGrantError};
use bbqueue::traits::notifier::{Blocking, Polling};
use bbqueue::traits::storage::{BoxedSlice, Inline, Storage};

#[test]
fn lib_ux() {
    let bbq: BBQueue<Inline<64>, AtomicCoord, Polling> = BBQueue::new();
    let _ = bbq.stream_producer();
    let _ = bbq.stream_consumer();

    let buf2 = Inline::<64>::new();
    let bbq2: BBQueue<_, AtomicCoord, Polling> = BBQueue::new_with_storage(buf2);
    let _ = bbq2.stream_producer();
    let _ = bbq2.stream_consumer();

    let buf3 = BoxedSlice::new(64);
    let bbq3: BBQueue<_, AtomicCoord, Polling> = BBQueue::new_with_storage(buf3);
    let _ = bbq3.stream_producer();
    let _ = bbq3.stream_consumer();

    let bbq4: BBQueue<Inline<64>, AtomicCoord, Blocking> = BBQueue::new();
    let _ = bbq4.stream_producer();
    let _ = bbq4.stream_consumer();
}

#[test]
fn lib_smoke() {
    let mut bbq: BBQueue<Inline<64>, AtomicCoord, Polling> = BBQueue::new();
    let prod = bbq.stream_producer();
    let cons = bbq.stream_consumer();

    let write_once = &[0x01, 0x02, 0x03, 0x04, 0x11, 0x12, 0x13, 0x14];
    let wgr = prod.grant_exact(&mut bbq, 8).unwrap();
    wgr.copy_from_slice(&mut bbq, write_once);
    wgr.commit(&mut bbq, 8);

    let rgr = cons.read(&mut bbq).unwrap();
    assert_eq!(rgr.to_vec(&bbq), write_once.to_vec());
    rgr.release(&mut bbq, 4);

    let rgr = cons.read(&mut bbq).unwrap();
    assert_eq!(rgr.to_vec(&bbq), write_once[4..].to_vec());
    rgr.release(&mut bbq, 4);

    assert!(cons.read(&mut bbq).is_err());
}

#[test]
fn lib_smoke_framed() {
    let mut bbq: BBQueue<Inline<64>, AtomicCoord, Polling> = BBQueue::new();
    let prod = bbq.framed_producer();
    let cons = bbq.framed_consumer();

    let write_once = &[0x01, 0x02, 0x03, 0x04, 0x11, 0x12];
    let wgr = prod.grant(&mut bbq, 8).unwrap();
    wgr.copy_from_slice(&mut bbq, &write_once[..6]);
    wgr.commit(&mut bbq, 6);

    let rgr = cons.read(&mut bbq).unwrap();
    assert_eq!(rgr.to_vec(&bbq), write_once.to_vec());
    rgr.release(&mut bbq);

    assert!(cons.read(&mut bbq).is_err());
}

#[test]
fn lib_framed_misuse() {
    let mut bbq: BBQueue<Inline<64>, AtomicCoord, Polling> = BBQueue::new();
    let prod = bbq.stream_producer();
    let cons = bbq.framed_consumer();

    // Bad grant one: HUGE header value
    let write_once = &[0xFF, 0xFF, 0x03, 0x04, 0x11, 0x12];
    let wgr = prod.grant_exact(&mut bbq, 6).unwrap();
    wgr.copy_from_slice(&mut bbq, &write_once[..6]);
    wgr.commit(&mut bbq, 6);

    assert!(cons.read(&mut bbq).is_err());

    {
        // Clear the bad grant
        let cons2 = bbq.stream_consumer();
        let rgr = cons2.read(&mut bbq).unwrap();
        rgr.release(&mut bbq, 6);
    }

    // Bad grant two: too small of a grant
    let write_once = &[0x00];
    let wgr = prod.grant_exact(&mut bbq, 1).unwrap();
    wgr.copy_from_slice(&mut bbq, &write_once[..1]);
    wgr.commit(&mut bbq, 1);

    assert!(cons.read(&mut bbq).is_err());
}

#[test]
fn handles() {
    let mut queue: BBQueue<Inline<4096>, AtomicCoord, Polling> = BBQueue::new();
    let producer = queue.framed_producer();
    let consumer = queue.framed_consumer();

    let wgr = producer.grant(&mut queue, 16).unwrap();
    for i in 0..wgr.len() {
        wgr.set(&mut queue, i, 123);
    }
    wgr.commit(&mut queue, 16);

    let rgr = consumer.read(&mut queue).unwrap();
    assert_eq!(rgr.len(), 16);
    for b in rgr.to_vec(&queue) {
        assert_eq!(b, 123);
    }
    rgr.release(&mut queue);
}

#[test]
fn critical_section_coordination_round_trip() {
    let mut bbq: BBQueue<BoxedSlice, CsCoord, Polling> = BBQueue::new_with_storage(BoxedSlice::new(8));
    let prod = bbq.stream_producer();
    let cons = bbq.stream_consumer();
    let wgr = prod.grant_exact(&mut bbq, 3).unwrap();
    wgr.copy_from_slice(&mut bbq, &[7, 8, 9]);
    assert_eq!(prod.grant_exact(&mut bbq, 1).err(), Some(WriteGrantError::GrantInProgress));
    wgr.commit(&mut bbq, 2);
    let rgr = cons.read(&mut bbq).unwrap();
    assert_eq!(rgr.to_vec(&bbq), vec![7, 8]);
    assert_eq!(cons.read(&mut bbq).err(), Some(ReadGrantError::GrantInProgress));
    rgr.release(&mut bbq, 2);
    assert_eq!(cons.read(&mut bbq).err(), Some(ReadGrantError::Empty));
}

#[test]
fn write_then_read_round_trip() {
    let mut bbq: BBQueue<Inline<8>, AtomicCoord, Polling> = BBQueue::new();
    let prod = bbq.stream_producer();
    let cons = bbq.stream_consumer();
    assert_eq!(cons.read(&mut bbq).err(), Some(ReadGrantError::Empty));
    let wgr = prod.grant_exact(&mut bbq, 5).unwrap();
    wgr.copy_from_slice(&mut bbq, &[10, 20, 30, 40, 50]);
    wgr.commit(&mut bbq, 5);
    let rgr = cons.read(&mut bbq).unwrap();
    assert_eq!(rgr.len(), 5);
    assert_eq!(rgr.to_vec(&bbq), vec![10, 20, 30, 40, 50]);
    assert_eq!(rgr.get(&bbq, 2), 30);
    rgr.release(&mut bbq, 5);
    assert_eq!(cons.read(&mut bbq).err(), Some(ReadGrantError::Empty));
}

#[test]
fn exact_grant_wraps_and_reads_in_order() {
    let mut bbq: BBQueue<Inline<6>, AtomicCoord, Polling> = BBQueue::new();
    let prod = bbq.stream_producer();
    let cons = bbq.stream_consumer();
    let wgr = prod.grant_exact(&mut bbq, 5).unwrap();
    wgr.copy_from_slice(&mut bbq, &[1, 2, 3, 4, 5]);
    wgr.commit(&mut bbq, 5);
    cons.read(&mut bbq).unwrap().release(&mut bbq, 3);
    // Not enough room before the end: the grant wraps to the start
    let wgr = prod.grant_exact(&mut bbq, 2).unwrap();
    wgr.set(&mut bbq, 0, 6);
    wgr.set(&mut bbq, 1, 7);
    wgr.commit(&mut bbq, 2);
    assert_eq!(prod.grant_exact(&mut bbq, 1).err(), Some(WriteGrantError::InsufficientSize));
    let rgr = cons.read(&mut bbq).unwrap();
    assert_eq!(rgr.to_vec(&bbq), vec![4, 5]);
    rgr.release(&mut bbq, 2);
    let rgr = cons.read(&mut bbq).unwrap();
    assert_eq!(rgr.to_vec(&bbq), vec![6, 7]);
    rgr.release(&mut bbq, 2);
}

#[test]
fn grant_max_remaining_never_wraps_early() {
    let mut bbq: BBQueue<Inline<8>, AtomicCoord, Polling> = BBQueue::new();
    let prod = bbq.stream_producer();
    let cons = bbq.stream_consumer();
    let wgr = prod.grant_max_remaining(&mut bbq, 6).unwrap();
    assert_eq!(wgr.len(), 6);
    wgr.commit(&mut bbq, 6);
    cons.read(&mut bbq).unwrap().release(&mut bbq, 4);
    let wgr = prod.grant_max_remaining(&mut bbq, 5).unwrap();
    assert_eq!(wgr.len(), 2);
    wgr.commit(&mut bbq, 2);
    let wgr = prod.grant_max_remaining(&mut bbq, 5).unwrap();
    assert_eq!(wgr.len(), 3);
    wgr.commit(&mut bbq, 0);
}

#[test]
fn read_grant_can_be_written_in_place_stream() {
    let mut bbq: BBQueue<BoxedSlice, AtomicCoord, Polling> = BBQueue::new_with_storage(BoxedSlice::new(8));
    let prod = bbq.stream_producer();
    let cons = bbq.stream_consumer();
    let wgr = prod.grant_exact(&mut bbq, 2).unwrap();
    wgr.copy_from_slice(&mut bbq, &[1, 2]);
    wgr.commit(&mut bbq, 2);
    let rgr = cons.read(&mut bbq).unwrap();
    rgr.set(&mut bbq, 0, 7);
    rgr.release(&mut bbq, 0);
    assert_eq!(cons.read(&mut bbq).unwrap().to_vec(&bbq), vec![7, 2]);
}

#[test]
fn framed_usize_header_round_trip() {
    let mut bbq: BBQueue<Inline<64>, AtomicCoord, Polling> = BBQueue::new();
    let prod: FramedProducer<usize> = FramedProducer::new();
    let cons: FramedConsumer<usize> = FramedConsumer::new();
    let wgr = prod.grant(&mut bbq, 10).unwrap();
    assert_eq!(wgr.len(), 10);
    wgr.copy_from_slice(&mut bbq, &[1, 2, 3]);
    wgr.commit(&mut bbq, 3);
    let wgr = prod.grant(&mut bbq, 4).unwrap();
    wgr.abort(&mut bbq);
    let rgr = cons.read(&mut bbq).unwrap();
    assert_eq!(rgr.len(), 3);
    assert_eq!(rgr.to_vec(&bbq), vec![1, 2, 3]);
    rgr.keep(&mut bbq);
    let rgr = cons.read(&mut bbq).unwrap();
    rgr.release(&mut bbq);
    assert_eq!(cons.read(&mut bbq).err(), Some(ReadGrantError::Empty));
}

#[test]
fn framed_consumer_reports_inconsistent_header() {
    let mut bbq: BBQueue<Inline<64>, AtomicCoord, Polling> = BBQueue::new();
    let prod = bbq.stream_producer();
    let cons = bbq.framed_consumer();
    let wgr = prod.grant_exact(&mut bbq, 3).unwrap();
    wgr.copy_from_slice(&mut bbq, &[0x10, 0x00, 0x01]);
    wgr.commit(&mut bbq, 3);
    assert_eq!(cons.read(&mut bbq).err(), Some(ReadGrantError::InconsistentFrameHeader));
}

#[test]
fn blocking_notifier_queue_round_trip() {
    let mut bbq: BBQueue<Inline<16>, CsCoord, Blocking> = BBQueue::new();
    let prod = bbq.stream_producer();
    let cons = bbq.stream_consumer();
    let wgr = prod.grant_max_remaining(&mut bbq, 4).unwrap();
    wgr.copy_from_slice(&mut bbq, &[4, 3, 2, 1]);
    wgr.commit(&mut bbq, 4);
    let rgr = cons.read(&mut bbq).unwrap();
    assert_eq!(rgr.to_vec(&bbq), vec![4, 3, 2, 1]);
    rgr.release(&mut bbq, 4);
}

#[test]
fn provenance_slice() {
    let mut sli = Inline::<64>::new();
    let len = sli.capacity();

    // Every byte of the storage can be written, and reads back
    for i in 0..len {
        sli.set_byte(i, i as u8);
    }
    for i in 0..len {
        assert_eq!(sli.get_byte(i), i as u8);
    }
}

#[test]
fn readme_local_usage() {
    use_churrasco();
}

fn use_churrasco() {
    // Create a buffer with six elements
    let mut bb: Churrasco<6> = Churrasco::new();
    let prod = bb.stream_producer();
    let cons = bb.stream_consumer();

    // Request space for one byte
    let wgr = prod.grant_exact(&mut bb, 1).unwrap();

    // Set the data
    wgr.set(&mut bb, 0, 123);

    assert_eq!(wgr.len(), 1);

    // Make the data ready for consuming
    wgr.commit(&mut bb, 1);

    // Read all available bytes
    let rgr = cons.read(&mut bb).unwrap();

    assert_eq!(rgr.get(&bb, 0), 123);

    // Release the space for later writes
    rgr.release(&mut bb, 1);
}

#[test]
fn heap_flavors_round_trip() {
    let mut braai: Braai = Braai::new_with_storage(BoxedSlice::new(4));
    let prod = braai.stream_producer();
    let cons = braai.stream_consumer();
    let wgr = prod.grant_exact(&mut braai, 2).unwrap();
    wgr.copy_from_slice(&mut braai, &[8, 9]);
    wgr.commit(&mut braai, 2);
    assert_eq!(cons.read(&mut braai).unwrap().to_vec(&braai), vec![8, 9]);

    let mut yaki: YakiNiku = YakiNiku::new_with_storage(BoxedSlice::new(4));
    assert_eq!(yaki.capacity(), 4);
    let cons = yaki.stream_consumer();
    assert_eq!(cons.read(&mut yaki).err(), Some(ReadGrantError::Empty));

    let jerk: Jerk<4> = Jerk::new();
    assert_eq!(jerk.capacity(), 4);
}

#[test]
fn zero_size_max_remaining_grant_is_refused_stream() {
    let mut bbq: BBQueue<Inline<8>, AtomicCoord, Polling> = BBQueue::new();
    let prod = bbq.stream_producer();
    assert_eq!(prod.grant_max_remaining(&mut bbq, 0).err(), Some(WriteGrantError::InsufficientSize));
    let wgr = prod.grant_max_remaining(&mut bbq, 3).unwrap();
    assert_eq!(wgr.len(), 3);
    assert_eq!(prod.grant_max_remaining(&mut bbq, 0).err(), Some(WriteGrantError::GrantInProgress));
    wgr.commit(&mut bbq, 0);
}
