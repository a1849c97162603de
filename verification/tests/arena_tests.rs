use arena::{Arena, CHUNK_SIZE};

#[test]
fn new_arena_has_no_chunks() {
    let a = Arena::new();
    assert_eq!(a.num_chunks(), 0);
}

#[test]
fn first_allocation_starts_the_first_chunk() {
    let mut a = Arena::new();
    let h = a.allocate(100);
    assert_eq!(h.chunk, 0);
    assert_eq!(h.offset, 0);
    assert_eq!(h.size, 100);
    assert_eq!(a.num_chunks(), 1);
    assert_eq!(a.chunk_len(0), 100);
}

#[test]
fn allocations_are_contiguous_within_a_chunk() {
    let mut a = Arena::new();
    let sizes = [100usize, 200, 300, 57, 1];
    let mut expected_offset = 0usize;
    for &size in sizes.iter() {
        let h = a.allocate(size);
        assert_eq!(h.chunk, 0);
        assert_eq!(h.offset, expected_offset);
        assert_eq!(h.size, size);
        expected_offset += size;
    }
    assert_eq!(a.num_chunks(), 1);
    assert_eq!(a.chunk_len(0), expected_offset);
}

#[test]
fn scenario_fill_first_chunk_exactly_then_new_chunk() {
    let mut a = Arena::new();
    let p0 = a.allocate(100);
    assert_eq!((p0.chunk, p0.offset), (0, 0));
    let p1 = a.allocate(200);
    assert_eq!((p1.chunk, p1.offset), (0, 100));
    let p2 = a.allocate(CHUNK_SIZE - 300);
    assert_eq!((p2.chunk, p2.offset), (0, 300));
    assert_eq!(a.chunk_len(0), CHUNK_SIZE);
    let p3 = a.allocate(1);
    assert_eq!((p3.chunk, p3.offset), (1, 0));
    assert_eq!(a.num_chunks(), 2);
}

#[test]
fn request_larger_than_the_remaining_tail_opens_a_new_chunk() {
    let mut a = Arena::new();
    a.allocate(100);
    a.allocate(200);
    // 300 bytes are used; CHUNK_SIZE - 250 exceeds the remaining room, so the
    // request is satisfied from a brand-new chunk, not the old tail.
    let p = a.allocate(CHUNK_SIZE - 250);
    assert_eq!((p.chunk, p.offset), (1, 0));
    assert_eq!(a.num_chunks(), 2);
    assert_eq!(a.chunk_len(0), 300);
    assert_eq!(a.chunk_len(1), CHUNK_SIZE - 250);
}

#[test]
fn overflow_triggers_new_chunk_at_offset_zero() {
    let mut a = Arena::new();
    let h0 = a.allocate(CHUNK_SIZE - 10);
    assert_eq!((h0.chunk, h0.offset), (0, 0));
    // 10 bytes remain; a request of 100 does not fit.
    let h1 = a.allocate(100);
    assert_eq!((h1.chunk, h1.offset), (1, 0));
    assert_eq!(a.chunk_len(0), CHUNK_SIZE - 10);
    assert_eq!(a.chunk_len(1), 100);
}

#[test]
fn same_chunk_allocations_do_not_overlap() {
    let mut a = Arena::new();
    let mut handles = Vec::new();
    for &size in [64usize, 1, 500, 7].iter() {
        handles.push(a.allocate(size));
    }
    for i in 0..handles.len() {
        for j in 0..handles.len() {
            if i != j {
                let (x, y) = (handles[i], handles[j]);
                assert_eq!(x.chunk, y.chunk);
                assert!(x.offset + x.size <= y.offset || y.offset + y.size <= x.offset);
            }
        }
    }
}

#[test]
fn no_chunk_ever_holds_more_than_its_capacity() {
    let mut a = Arena::new();
    let mut per_chunk_total = vec![0usize; 4];
    for _ in 0..2200 {
        let h = a.allocate(1000);
        per_chunk_total[h.chunk] += h.size;
    }
    assert_eq!(a.num_chunks(), 3);
    for c in 0..a.num_chunks() {
        assert!(a.chunk_len(c) <= CHUNK_SIZE);
        assert_eq!(per_chunk_total[c], a.chunk_len(c));
    }
}

#[test]
fn oversize_requests_are_refused() {
    let mut a = Arena::new();
    assert!(a.try_allocate(CHUNK_SIZE).is_none());
    assert!(a.try_allocate(CHUNK_SIZE + 1).is_none());
    // A refused request leaves the arena untouched.
    assert_eq!(a.num_chunks(), 0);
    let h = a.try_allocate(CHUNK_SIZE - 1).expect("one byte under the capacity fits");
    assert_eq!((h.chunk, h.offset, h.size), (0, 0, CHUNK_SIZE - 1));
    assert_eq!(a.num_chunks(), 1);
}

#[test]
fn writes_are_read_back_and_do_not_leak_into_neighbors() {
    let mut a = Arena::new();
    let h0 = a.allocate(4);
    let h1 = a.allocate(4);
    for i in 0..4 {
        assert_eq!(a.read(h0, i), 0);
        assert_eq!(a.read(h1, i), 0);
    }
    a.write(h1, 0, 0xAB);
    a.write(h1, 3, 0xCD);
    a.write(h0, 2, 0x11);
    assert_eq!(a.read(h1, 0), 0xAB);
    assert_eq!(a.read(h1, 3), 0xCD);
    assert_eq!(a.read(h1, 1), 0);
    assert_eq!(a.read(h0, 2), 0x11);
    assert_eq!(a.read(h0, 0), 0);
    assert_eq!(a.read(h0, 3), 0);
}

#[test]
fn teardown_keeps_every_region_readable_and_writable() {
    let mut a = Arena::new();
    let h0 = a.allocate(8);
    let h1 = a.allocate(CHUNK_SIZE - 9);
    let h2 = a.allocate(16);
    assert_eq!(h2.chunk, 1);
    for i in 0..8 {
        a.write(h0, i, i as u8 + 1);
    }
    a.write(h1, 1000, 0x5A);
    a.write(h2, 15, 0xEE);
    let mut s = a.teardown();
    assert_eq!(s.num_chunks(), 2);
    // Each leaked chunk is trimmed to exactly its used length.
    assert_eq!(s.chunk_len(0), CHUNK_SIZE - 1);
    assert_eq!(s.chunk_len(1), 16);
    for i in 0..8 {
        assert_eq!(s.read(h0, i), i as u8 + 1);
    }
    assert_eq!(s.read(h1, 1000), 0x5A);
    assert_eq!(s.read(h1, 999), 0);
    assert_eq!(s.read(h2, 15), 0xEE);
    s.write(h0, 0, 0x77);
    assert_eq!(s.read(h0, 0), 0x77);
}

#[test]
fn zero_sized_allocations_are_allowed() {
    let mut a = Arena::new();
    let h = a.allocate(0);
    assert_eq!((h.chunk, h.offset, h.size), (0, 0, 0));
    assert_eq!(a.chunk_len(0), 0);
    let h2 = a.allocate(10);
    assert_eq!((h2.chunk, h2.offset, h2.size), (0, 0, 10));
}
