use bbqueue::classic::{BBBuffer, Error as BBQError};

#[test]
fn deref_deref_mut() {
    let mut bb: BBBuffer<6> = BBBuffer::new();
    let (mut prod, mut cons) = bb.try_split().unwrap();

    let wgr = prod.grant_exact(&mut bb, 1).unwrap();

    // deref_mut
    wgr.set(&mut bb, 0, 123);

    assert_eq!(wgr.len(), 1);

    wgr.commit(&mut bb, 1);

    // deref
    let rgr = cons.read(&mut bb).unwrap();

    assert_eq!(rgr.get(&bb, 0), 123);

    rgr.release(&mut bb, 1);
}

#[test]
fn static_allocator() {
    // Check we can make multiple buffers...
    let mut bbq1: BBBuffer<6> = BBBuffer::new();
    let mut bbq2: BBBuffer<6> = BBBuffer::new();
    let (mut prod1, mut cons1) = bbq1.try_split().unwrap();
    let (mut _prod2, mut cons2) = bbq2.try_split().unwrap();

    // ... and they aren't the same
    let wgr1 = prod1.grant_exact(&mut bbq1, 3).unwrap();
    wgr1.copy_from_slice(&mut bbq1, &[1, 2, 3]);
    wgr1.commit(&mut bbq1, 3);

    // no data here...
    assert!(cons2.read(&mut bbq2).is_err());

    // ...data is here!
    let rgr1 = cons1.read(&mut bbq1).unwrap();
    assert_eq!(rgr1.buf(&bbq1), vec![1, 2, 3]);
}

#[test]
fn direct_usage_sanity() {
    // Initialize
    let mut bb: BBBuffer<6> = BBBuffer::new();
    let (mut prod, mut cons) = bb.try_split().unwrap();
    assert_eq!(cons.read(&mut bb), Err(BBQError::InsufficientSize));

    // Initial grant, shouldn't roll over
    let x = prod.grant_exact(&mut bb, 4).unwrap();

    // Still no data available yet
    assert_eq!(cons.read(&mut bb), Err(BBQError::InsufficientSize));

    // Add full data from grant
    x.copy_from_slice(&mut bb, &[1, 2, 3, 4]);

    // Still no data available yet
    assert_eq!(cons.read(&mut bb), Err(BBQError::InsufficientSize));

    // Commit data
    x.commit(&mut bb, 4);

    let a = cons.read(&mut bb).unwrap();
    assert_eq!(a.buf(&bb), vec![1, 2, 3, 4]);

    // Release the first two bytes
    a.release(&mut bb, 2);

    let r = cons.read(&mut bb).unwrap();
    assert_eq!(r.buf(&bb), vec![3, 4]);
    r.release(&mut bb, 0);

    // Grant two more
    let x = prod.grant_exact(&mut bb, 2).unwrap();
    let r = cons.read(&mut bb).unwrap();
    assert_eq!(r.buf(&bb), vec![3, 4]);
    r.release(&mut bb, 0);

    // Add more data
    x.copy_from_slice(&mut bb, &[11, 12]);
    let r = cons.read(&mut bb).unwrap();
    assert_eq!(r.buf(&bb), vec![3, 4]);
    r.release(&mut bb, 0);

    // Commit
    x.commit(&mut bb, 2);

    let a = cons.read(&mut bb).unwrap();
    assert_eq!(a.buf(&bb), vec![3, 4, 11, 12]);

    a.release(&mut bb, 2);
    let r = cons.read(&mut bb).unwrap();
    assert_eq!(r.buf(&bb), vec![11, 12]);
    r.release(&mut bb, 0);

    let x = prod.grant_exact(&mut bb, 3).unwrap();
    let r = cons.read(&mut bb).unwrap();
    assert_eq!(r.buf(&bb), vec![11, 12]);
    r.release(&mut bb, 0);

    x.copy_from_slice(&mut bb, &[21, 22, 23]);

    let r = cons.read(&mut bb).unwrap();
    assert_eq!(r.buf(&bb), vec![11, 12]);
    r.release(&mut bb, 0);
    x.commit(&mut bb, 3);

    let a = cons.read(&mut bb).unwrap();

    // NOTE: The data we just added isn't available yet,
    // since it has wrapped around
    assert_eq!(a.buf(&bb), vec![11, 12]);

    a.release(&mut bb, 2);

    // And now we can see it
    let r = cons.read(&mut bb).unwrap();
    assert_eq!(r.buf(&bb), vec![21, 22, 23]);
    r.release(&mut bb, 0);

    // Ask for something way too big
    assert!(prod.grant_exact(&mut bb, 10).is_err());
}

#[test]
fn zero_sized_grant() {
    let mut bb: BBBuffer<1000> = BBBuffer::new();
    let (mut prod, mut _cons) = bb.try_split().unwrap();

    let size = 1000;
    let grant = prod.grant_exact(&mut bb, size).unwrap();
    grant.commit(&mut bb, size);

    let grant = prod.grant_exact(&mut bb, 0).unwrap();
    grant.commit(&mut bb, 0);
}

#[test]
fn frame_sanity() {
    let mut bb: BBBuffer<1000> = BBBuffer::new();
    let (mut prod, mut cons) = bb.try_split_framed().unwrap();

    // One frame in, one frame out
    let wgrant = prod.grant(&mut bb, 128).unwrap();
    assert_eq!(wgrant.len(), 128);
    for idx in 0..wgrant.len() {
        wgrant.set(&mut bb, idx, idx as u8);
    }
    wgrant.commit(&mut bb, 128);

    let rgrant = cons.read(&mut bb).unwrap();
    assert_eq!(rgrant.len(), 128);
    for (idx, i) in rgrant.buf(&bb).iter().enumerate() {
        assert_eq!(*i, idx as u8);
    }
    rgrant.release(&mut bb);

    // Three frames in, three frames out
    let mut state = 0;
    let states = [16usize, 32, 24];

    for step in &states {
        let wgrant = prod.grant(&mut bb, *step).unwrap();
        assert_eq!(wgrant.len(), *step);
        for idx in 0..wgrant.len() {
            wgrant.set(&mut bb, idx, (idx + state) as u8);
        }
        wgrant.commit(&mut bb, *step);
        state += *step;
    }

    state = 0;

    for step in &states {
        let rgrant = cons.read(&mut bb).unwrap();
        assert_eq!(rgrant.len(), *step);
        for (idx, i) in rgrant.buf(&bb).iter().enumerate() {
            assert_eq!(*i, (idx + state) as u8);
        }
        rgrant.release(&mut bb);
        state += *step;
    }
}

#[test]
fn frame_wrap() {
    let mut bb: BBBuffer<22> = BBBuffer::new();
    let (mut prod, mut cons) = bb.try_split_framed().unwrap();

    // 10 + 1 used
    let wgrant = prod.grant(&mut bb, 10).unwrap();
    assert_eq!(wgrant.len(), 10);
    for idx in 0..wgrant.len() {
        wgrant.set(&mut bb, idx, idx as u8);
    }
    wgrant.commit(&mut bb, 10);
    // 1 frame in queue

    // 20 + 2 used (assuming u64 test platform)
    let wgrant = prod.grant(&mut bb, 10).unwrap();
    assert_eq!(wgrant.len(), 10);
    for idx in 0..wgrant.len() {
        wgrant.set(&mut bb, idx, idx as u8);
    }
    wgrant.commit(&mut bb, 10);
    // 2 frames in queue

    let rgrant = cons.read(&mut bb).unwrap();
    assert_eq!(rgrant.len(), 10);
    for (idx, i) in rgrant.buf(&bb).iter().enumerate() {
        assert_eq!(*i, idx as u8);
    }
    rgrant.release(&mut bb);
    // 1 frame in queue

    // No more room!
    assert!(prod.grant(&mut bb, 10).is_err());

    let rgrant = cons.read(&mut bb).unwrap();
    assert_eq!(rgrant.len(), 10);
    for (idx, i) in rgrant.buf(&bb).iter().enumerate() {
        assert_eq!(*i, idx as u8);
    }
    rgrant.release(&mut bb);
    // 0 frames in queue

    // 10 + 1 used (assuming u64 test platform)
    let wgrant = prod.grant(&mut bb, 10).unwrap();
    assert_eq!(wgrant.len(), 10);
    for idx in 0..wgrant.len() {
        wgrant.set(&mut bb, idx, idx as u8);
    }
    wgrant.commit(&mut bb, 10);
    // 1 frame in queue

    // No more room!
    assert!(prod.grant(&mut bb, 10).is_err());

    let rgrant = cons.read(&mut bb).unwrap();
    assert_eq!(rgrant.len(), 10);
    for (idx, i) in rgrant.buf(&bb).iter().enumerate() {
        assert_eq!(*i, idx as u8);
    }
    rgrant.release(&mut bb);
    // 0 frames in queue

    // No more frames!
    assert!(cons.read(&mut bb).is_none());
}

#[test]
fn frame_big_little() {
    let mut bb: BBBuffer<65536> = BBBuffer::new();
    let (mut prod, mut cons) = bb.try_split_framed().unwrap();

    // Create a frame that should take 3 bytes for the header
    assert!(prod.grant(&mut bb, 65534).is_err());

    let wgrant = prod.grant(&mut bb, 65533).unwrap();
    assert_eq!(wgrant.len(), 65533);
    for idx in 0..wgrant.len() {
        wgrant.set(&mut bb, idx, idx as u8);
    }
    // Only commit 127 bytes, which fit into a header of 1 byte
    wgrant.commit(&mut bb, 127);

    let rgrant = cons.read(&mut bb).unwrap();
    assert_eq!(rgrant.len(), 127);
    for (idx, i) in rgrant.buf(&bb).iter().enumerate() {
        assert_eq!(*i, idx as u8);
    }
    rgrant.release(&mut bb);
}

#[test]
fn single_thread_sanity_check() {
    let mut bb: BBBuffer<6> = BBBuffer::new();
    let (mut prod, mut cons) = bb.try_split().unwrap();

    const ITERS: usize = 100000;

    for i in 0..ITERS {
        let j = (i & 255) as u8;

        let wgr = prod.grant_exact(&mut bb, 1).unwrap();

        wgr.set(&mut bb, 0, j);

        wgr.commit(&mut bb, 1);

        let rgr = cons.read(&mut bb).unwrap();

        assert_eq!(rgr.get(&bb, 0), j);

        rgr.release(&mut bb, 1);
    }
}

#[test]
fn split_once_until_released() {
    let mut bb: BBBuffer<6> = BBBuffer::new();
    let (prod, cons) = bb.try_split().unwrap();

    // Not possible to split twice
    assert_eq!(bb.try_split().err(), Some(BBQError::AlreadySplit));
    assert!(bb.try_split_framed().is_err());

    // Release the producer and consumer
    assert!(bb.try_release(prod, cons).is_ok());

    // Split the buffer in framed mode
    let (fprod, fcons) = bb.try_split_framed().unwrap();
    assert!(bb.try_release_framed(fprod, fcons).is_ok());
    assert!(bb.try_split().is_ok());
}

#[test]
fn release_refused_while_granted() {
    let mut bb: BBBuffer<6> = BBBuffer::new();
    let (mut prod, cons) = bb.try_split().unwrap();
    let wgr = prod.grant_exact(&mut bb, 2).unwrap();
    let (mut prod, mut cons) = match bb.try_release(prod, cons) {
        Ok(()) => panic!("released with a grant in progress"),
        Err(halves) => halves,
    };
    wgr.commit(&mut bb, 2);
    let rgr = cons.read(&mut bb).unwrap();
    let (prod2, cons2) = match bb.try_release(prod, cons) {
        Ok(()) => panic!("released with a grant in progress"),
        Err(halves) => halves,
    };
    prod = prod2;
    cons = cons2;
    rgr.release(&mut bb, 2);
    assert!(bb.try_release(prod, cons).is_ok());
    // The buffer starts over empty
    let (mut _prod, mut cons) = bb.try_split().unwrap();
    assert_eq!(cons.read(&mut bb), Err(BBQError::InsufficientSize));
}

#[test]
fn grant_in_progress_errors() {
    let mut bb: BBBuffer<6> = BBBuffer::new();
    let (mut prod, mut cons) = bb.try_split().unwrap();
    let wgr = prod.grant_exact(&mut bb, 2).unwrap();
    assert_eq!(prod.grant_exact(&mut bb, 1), Err(BBQError::GrantInProgress));
    assert_eq!(prod.grant_max_remaining(&mut bb, 1), Err(BBQError::GrantInProgress));
    wgr.commit(&mut bb, 2);
    let rgr = cons.read(&mut bb).unwrap();
    assert_eq!(cons.read(&mut bb), Err(BBQError::GrantInProgress));
    assert!(cons.split_read(&mut bb).is_err());
    rgr.release(&mut bb, 1);
    assert_eq!(cons.read(&mut bb).unwrap().buf(&bb).len(), 1);
}

#[test]
fn grant_max_remaining_stops_at_the_end() {
    let mut bb: BBBuffer<6> = BBBuffer::new();
    let (mut prod, mut cons) = bb.try_split().unwrap();
    let wgr = prod.grant_max_remaining(&mut bb, 10).unwrap();
    assert_eq!(wgr.len(), 6);
    wgr.commit(&mut bb, 4);
    let rgr = cons.read(&mut bb).unwrap();
    rgr.release(&mut bb, 3);
    // Two bytes are left before the end: no early wrap
    let wgr = prod.grant_max_remaining(&mut bb, 5).unwrap();
    assert_eq!(wgr.len(), 2);
    wgr.commit(&mut bb, 2);
    // At the end: wraps, keeping one byte before `read`
    let wgr = prod.grant_max_remaining(&mut bb, 5).unwrap();
    assert_eq!(wgr.len(), 2);
    wgr.commit(&mut bb, 0);
}

#[test]
fn split_read_sees_both_parts() {
    let mut bb: BBBuffer<6> = BBBuffer::new();
    let (mut prod, mut cons) = bb.try_split().unwrap();
    let wgr = prod.grant_exact(&mut bb, 5).unwrap();
    wgr.copy_from_slice(&mut bb, &[1, 2, 3, 4, 5]);
    wgr.commit(&mut bb, 5);
    cons.read(&mut bb).unwrap().release(&mut bb, 3);
    let wgr = prod.grant_exact(&mut bb, 2).unwrap();
    wgr.copy_from_slice(&mut bb, &[6, 7]);
    wgr.commit(&mut bb, 2);

    let sgr = cons.split_read(&mut bb).unwrap();
    assert_eq!(sgr.combined_len(), 4);
    let (a, b) = sgr.bufs(&bb);
    assert_eq!(a, vec![4, 5]);
    assert_eq!(b, vec![6, 7]);
    sgr.release(&mut bb, 3);

    let rgr = cons.read(&mut bb).unwrap();
    assert_eq!(rgr.buf(&bb), vec![7]);
    rgr.release(&mut bb, 1);
    assert_eq!(cons.split_read(&mut bb).err(), Some(BBQError::InsufficientSize));
}

#[test]
fn finish_commits_and_releases_what_was_set() {
    let mut bb: BBBuffer<8> = BBBuffer::new();
    let (mut prod, mut cons) = bb.try_split().unwrap();

    // Finishing without setting anything commits nothing
    let wgr = prod.grant_exact(&mut bb, 3).unwrap();
    wgr.finish(&mut bb);
    assert!(cons.read(&mut bb).is_err());

    let mut wgr = prod.grant_exact(&mut bb, 3).unwrap();
    wgr.copy_from_slice(&mut bb, &[1, 2, 3]);
    wgr.to_commit(10);
    wgr.finish(&mut bb);

    let mut rgr = cons.read(&mut bb).unwrap();
    assert_eq!(rgr.buf(&bb), vec![1, 2, 3]);
    rgr.to_release(2);
    rgr.finish(&mut bb);

    let rgr = cons.read(&mut bb).unwrap();
    assert_eq!(rgr.buf(&bb), vec![3]);
    // Finishing without setting anything releases nothing
    rgr.finish(&mut bb);
    assert_eq!(cons.read(&mut bb).unwrap().buf(&bb), vec![3]);
}

#[test]
fn read_grant_can_be_written_in_place() {
    let mut bb: BBBuffer<8> = BBBuffer::new();
    let (mut prod, mut cons) = bb.try_split().unwrap();
    let wgr = prod.grant_exact(&mut bb, 3).unwrap();
    wgr.copy_from_slice(&mut bb, &[1, 2, 3]);
    wgr.commit(&mut bb, 3);
    let rgr = cons.read(&mut bb).unwrap();
    rgr.set(&mut bb, 1, 9);
    assert_eq!(rgr.buf(&bb), vec![1, 9, 3]);
    rgr.release(&mut bb, 0);
    assert_eq!(cons.read(&mut bb).unwrap().buf(&bb), vec![1, 9, 3]);
}

#[test]
fn frame_to_commit_and_auto_release() {
    let mut bb: BBBuffer<64> = BBBuffer::new();
    let (mut prod, mut cons) = bb.try_split_framed().unwrap();

    // A frame grant given up without setting a size commits no frame
    let wgr = prod.grant(&mut bb, 8).unwrap();
    wgr.finish(&mut bb);
    assert!(cons.read(&mut bb).is_none());

    let mut wgr = prod.grant(&mut bb, 8).unwrap();
    wgr.copy_from_slice(&mut bb, &[5, 6, 7]);
    wgr.to_commit(&mut bb, 3);
    wgr.finish(&mut bb);

    // Without auto release, the frame stays queued
    let rgr = cons.read(&mut bb).unwrap();
    assert_eq!(rgr.buf(&bb), vec![5, 6, 7]);
    rgr.finish(&mut bb);

    let mut rgr = cons.read(&mut bb).unwrap();
    assert_eq!(rgr.len(), 3);
    rgr.auto_release(true);
    rgr.finish(&mut bb);
    assert!(cons.read(&mut bb).is_none());
}

#[test]
fn frame_commit_saturates_and_keeps_order() {
    let mut bb: BBBuffer<64> = BBBuffer::new();
    let (mut prod, mut cons) = bb.try_split_framed().unwrap();

    let wgr = prod.grant(&mut bb, 4).unwrap();
    wgr.copy_from_slice(&mut bb, &[1, 2, 3, 4]);
    // More than the grant holds: the whole frame is committed
    wgr.commit(&mut bb, 100);

    let wgr = prod.grant(&mut bb, 50).unwrap();
    assert_eq!(wgr.len(), 50);
    wgr.copy_from_slice(&mut bb, &[9]);
    assert!(prod.grant(&mut bb, 1).is_err());
    wgr.commit(&mut bb, 1);

    let rgr = cons.read(&mut bb).unwrap();
    assert_eq!(rgr.buf(&bb), vec![1, 2, 3, 4]);
    rgr.release(&mut bb);
    let rgr = cons.read(&mut bb).unwrap();
    assert_eq!(rgr.buf(&bb), vec![9]);
    rgr.release(&mut bb);
    assert!(cons.read(&mut bb).is_none());
}

#[test]
fn frame_read_in_place_write() {
    let mut bb: BBBuffer<64> = BBBuffer::new();
    let (mut prod, mut cons) = bb.try_split_framed().unwrap();
    let wgr = prod.grant(&mut bb, 4).unwrap();
    wgr.copy_from_slice(&mut bb, &[1, 2, 3, 4]);
    wgr.commit(&mut bb, 4);
    let wgr = prod.grant(&mut bb, 2).unwrap();
    wgr.copy_from_slice(&mut bb, &[5, 6]);
    wgr.commit(&mut bb, 2);

    let rgr = cons.read(&mut bb).unwrap();
    rgr.set(&mut bb, 0, 42);
    assert_eq!(rgr.get(&bb, 0), 42);
    assert_eq!(rgr.buf(&bb), vec![42, 2, 3, 4]);
    rgr.release(&mut bb);
    let rgr = cons.read(&mut bb).unwrap();
    assert_eq!(rgr.buf(&bb), vec![5, 6]);
}

#[test]
fn frame_wrong_size() {
    let mut bb: BBBuffer<256> = BBBuffer::new();
    let (mut prod, mut cons) = bb.try_split_framed().unwrap();

    // Create largeish grants
    let wgr = prod.grant(&mut bb, 127).unwrap();
    for i in 0..wgr.len() {
        wgr.set(&mut bb, i, i as u8);
    }
    // More than the grant holds: saturated to the grant
    wgr.commit(&mut bb, 256);

    let rgr = cons.read(&mut bb).unwrap();
    assert_eq!(rgr.len(), 127);
    for (i, by) in rgr.buf(&bb).iter().enumerate() {
        assert_eq!((i as u8), *by);
    }
    rgr.release(&mut bb);
}

#[test]
fn full_size() {
    let mut bb: BBBuffer<256> = BBBuffer::new();
    let (mut prod, mut cons) = bb.try_split_framed().unwrap();
    let mut ctr = 0;

    for _ in 0..10_000 {
        // Create largeish grants
        if let Ok(wgr) = prod.grant(&mut bb, 127) {
            ctr += 1;
            for i in 0..wgr.len() {
                wgr.set(&mut bb, i, i as u8);
            }
            wgr.commit(&mut bb, 127);

            let rgr = cons.read(&mut bb).unwrap();
            assert_eq!(rgr.len(), 127);
            for (i, by) in rgr.buf(&bb).iter().enumerate() {
                assert_eq!((i as u8), *by);
            }
            rgr.release(&mut bb);
        } else {
            // Create smallish grants
            let wgr = prod.grant(&mut bb, 1).unwrap();
            for i in 0..wgr.len() {
                wgr.set(&mut bb, i, i as u8);
            }
            wgr.commit(&mut bb, 1);

            let rgr = cons.read(&mut bb).unwrap();
            assert_eq!(rgr.len(), 1);
            for (i, by) in rgr.buf(&bb).iter().enumerate() {
                assert_eq!((i as u8), *by);
            }
            rgr.release(&mut bb);
        };
    }

    assert!(ctr > 1);
}

#[test]
fn frame_overcommit() {
    let mut bb: BBBuffer<256> = BBBuffer::new();
    let (mut prod, mut cons) = bb.try_split_framed().unwrap();

    // Create largeish grants
    let wgr = prod.grant(&mut bb, 128).unwrap();
    for i in 0..wgr.len() {
        wgr.set(&mut bb, i, i as u8);
    }
    wgr.commit(&mut bb, 255);

    let wgr = prod.grant(&mut bb, 64).unwrap();
    for i in 0..wgr.len() {
        wgr.set(&mut bb, i, (i as u8) + 128);
    }
    wgr.commit(&mut bb, 127);

    let rgr = cons.read(&mut bb).unwrap();
    assert_eq!(rgr.len(), 128);
    rgr.release(&mut bb);

    let rgr = cons.read(&mut bb).unwrap();
    assert_eq!(rgr.len(), 64);
    rgr.release(&mut bb);
}

#[test]
fn frame_undercommit() {
    let mut bb: BBBuffer<512> = BBBuffer::new();
    let (mut prod, mut cons) = bb.try_split_framed().unwrap();

    for _ in 0..100_000 {
        // Create largeish grants
        let wgr = prod.grant(&mut bb, 128).unwrap();
        for i in 0..wgr.len() {
            wgr.set(&mut bb, i, i as u8);
        }
        wgr.commit(&mut bb, 13);

        let wgr = prod.grant(&mut bb, 64).unwrap();
        for i in 0..wgr.len() {
            wgr.set(&mut bb, i, (i as u8) + 128);
        }
        wgr.commit(&mut bb, 7);

        let wgr = prod.grant(&mut bb, 32).unwrap();
        for i in 0..wgr.len() {
            wgr.set(&mut bb, i, (i as u8) + 192);
        }
        wgr.commit(&mut bb, 0);

        let rgr = cons.read(&mut bb).unwrap();
        assert_eq!(rgr.len(), 13);
        rgr.release(&mut bb);

        let rgr = cons.read(&mut bb).unwrap();
        assert_eq!(rgr.len(), 7);
        rgr.release(&mut bb);

        let rgr = cons.read(&mut bb).unwrap();
        assert_eq!(rgr.len(), 0);
        rgr.release(&mut bb);
    }
}

#[test]
fn frame_auto_commit_release() {
    let mut bb: BBBuffer<256> = BBBuffer::new();
    let (mut prod, mut cons) = bb.try_split_framed().unwrap();

    for _ in 0..100 {
        {
            let mut wgr = prod.grant(&mut bb, 64).unwrap();
            wgr.to_commit(&mut bb, 64);
            for i in 0..wgr.len() {
                wgr.set(&mut bb, i, i as u8);
            }
            wgr.finish(&mut bb);
        }

        {
            let mut rgr = cons.read(&mut bb).unwrap();
            rgr.auto_release(true);
            let rgr = rgr;

            for (i, by) in rgr.buf(&bb).iter().enumerate() {
                assert_eq!(*by, i as u8);
            }
            assert_eq!(rgr.len(), 64);
            rgr.finish(&mut bb);
        }
    }

    assert!(cons.read(&mut bb).is_none());
}

#[test]
fn zero_size_max_remaining_grant_is_refused() {
    let mut bb: BBBuffer<6> = BBBuffer::new();
    let (mut prod, _cons) = bb.try_split().unwrap();
    assert_eq!(prod.grant_max_remaining(&mut bb, 0), Err(BBQError::InsufficientSize));
    // The refusal leaves no grant in progress
    let wgr = prod.grant_max_remaining(&mut bb, 2).unwrap();
    assert_eq!(wgr.len(), 2);
    wgr.commit(&mut bb, 0);
}

#[test]
fn release_refuses_another_buffers_halves() {
    let mut bb1: BBBuffer<6> = BBBuffer::new();
    let mut bb2: BBBuffer<6> = BBBuffer::new();
    let (prod1, cons1) = bb1.try_split().unwrap();
    let (prod2, cons2) = bb2.try_split().unwrap();

    // Halves of the other buffer are handed back, and nothing is reset
    let (prod2, cons1) = match bb1.try_release(prod2, cons1) {
        Ok(()) => panic!("released with a foreign producer"),
        Err(halves) => halves,
    };
    assert!(bb1.try_split().is_err());
    let (prod1, cons2) = match bb2.try_release(prod1, cons2) {
        Ok(()) => panic!("released with a foreign producer"),
        Err(halves) => halves,
    };

    // Each buffer takes back its own halves
    assert!(bb1.try_release(prod1, cons1).is_ok());
    assert!(bb2.try_release(prod2, cons2).is_ok());
}

#[test]
fn release_framed_refuses_another_buffers_halves() {
    let mut bb1: BBBuffer<16> = BBBuffer::new();
    let mut bb2: BBBuffer<16> = BBBuffer::new();
    let (prod1, cons1) = bb1.try_split_framed().unwrap();
    let (prod2, cons2) = bb2.try_split_framed().unwrap();
    let (prod2, cons2) = match bb1.try_release_framed(prod2, cons2) {
        Ok(()) => panic!("released with foreign halves"),
        Err(halves) => halves,
    };
    assert!(bb1.try_release_framed(prod1, cons1).is_ok());
    assert!(bb2.try_release_framed(prod2, cons2).is_ok());
}

#[test]
fn split_grant_finish_releases_what_was_set() {
    let mut bb: BBBuffer<6> = BBBuffer::new();
    let (mut prod, mut cons) = bb.try_split().unwrap();
    let wgr = prod.grant_exact(&mut bb, 5).unwrap();
    wgr.copy_from_slice(&mut bb, &[1, 2, 3, 4, 5]);
    wgr.commit(&mut bb, 5);
    cons.read(&mut bb).unwrap().release(&mut bb, 3);
    let wgr = prod.grant_exact(&mut bb, 2).unwrap();
    wgr.copy_from_slice(&mut bb, &[6, 7]);
    wgr.commit(&mut bb, 2);

    let mut sgr = cons.split_read(&mut bb).unwrap();
    sgr.to_release(3);
    sgr.finish(&mut bb);
    assert_eq!(cons.read(&mut bb).unwrap().buf(&bb), vec![7]);
}

#[test]
fn new_buffer_is_zeroed_and_empty() {
    let mut bb: BBBuffer<4> = BBBuffer::new();
    assert_eq!(bb.capacity(), 4);
    let (mut prod, mut cons) = bb.try_split().unwrap();
    let wgr = prod.grant_exact(&mut bb, 4).unwrap();
    // Commit the untouched bytes: they are zero
    wgr.commit(&mut bb, 4);
    assert_eq!(cons.read(&mut bb).unwrap().buf(&bb), vec![0, 0, 0, 0]);
}
