use arena_alloc::{debug_free, my_alloc, my_free, AllocError, Manager};

fn manager(len: usize) -> Manager {
    Manager::new(len).expect("arena large enough")
}

#[test]
fn new_rejects_arena_without_room_for_a_header() {
    assert_eq!(Manager::new(16).err(), Some(AllocError::ArenaTooSmall));
    assert_eq!(Manager::new(0).err(), Some(AllocError::ArenaTooSmall));
    assert!(Manager::new(17).is_ok());
}

#[test]
fn fresh_arena_is_one_free_run() {
    let m = manager(1024);
    let report = debug_free(&m);
    assert_eq!(report.runs, vec![1024]);
    assert_eq!(report.total, 1024);
    assert_eq!(m.arena_len(), 1024);
}

#[test]
fn first_allocation_sits_behind_its_header() {
    let mut m = manager(1024);
    let p = my_alloc(&mut m, 8, 8).unwrap();
    assert_eq!(p, 16);
    // 16 header bytes and 8 data bytes are taken from the front of the block
    assert_eq!(debug_free(&m).runs, vec![1000]);
}

#[test]
fn odd_sizes_are_padded_to_whole_words() {
    let mut m = manager(1024);
    let p = my_alloc(&mut m, 3, 1).unwrap();
    assert_eq!(p, 16);
    assert_eq!(debug_free(&m).runs, vec![1000]);
    let q = my_alloc(&mut m, 9, 1).unwrap();
    assert_eq!(q, 24 + 16);
    assert_eq!(debug_free(&m).runs, vec![1000 - 32]);
}

#[test]
fn front_padding_aligns_the_data_and_free_finds_the_block_start() {
    let mut m = manager(1024);
    let p = my_alloc(&mut m, 8, 64).unwrap();
    assert_eq!(p, 64);
    // 48 bytes of front padding, the header, 8 data bytes
    assert_eq!(debug_free(&m).runs, vec![1024 - 72]);
    my_free(&mut m, p);
    assert_eq!(debug_free(&m).runs, vec![72, 1024 - 72]);
}

#[test]
fn returned_offsets_are_aligned() {
    let mut m = manager(1 << 16);
    for &align in &[1usize, 2, 4, 8, 16, 32, 64, 128] {
        for &size in &[0usize, 1, 3, 8, 13, 24, 100] {
            let p = my_alloc(&mut m, size, align).unwrap();
            assert_eq!(p % align, 0, "size {} align {}", size, align);
            assert_eq!(p % 8, 0);
            assert!(p + size <= m.arena_len());
        }
    }
}

#[test]
fn live_allocations_do_not_overlap() {
    let mut m = manager(4096);
    let mut ranges: Vec<(usize, usize)> = Vec::new();
    let sizes = [5usize, 16, 1, 40, 7, 64, 33, 8];
    for (i, &size) in sizes.iter().enumerate() {
        let align = 1usize << (i % 5);
        let p = my_alloc(&mut m, size, align).unwrap();
        ranges.push((p, p + size));
    }
    // free two of them and allocate again into the holes
    my_free(&mut m, ranges[1].0);
    my_free(&mut m, ranges[4].0);
    ranges.remove(4);
    ranges.remove(1);
    for &size in &[8usize, 4, 12] {
        let p = my_alloc(&mut m, size, 8).unwrap();
        ranges.push((p, p + size));
    }
    for i in 0..ranges.len() {
        for j in 0..ranges.len() {
            if i != j {
                let (a0, a1) = ranges[i];
                let (b0, b1) = ranges[j];
                assert!(a1 <= b0 || b1 <= a0, "{:?} overlaps {:?}", ranges[i], ranges[j]);
            }
        }
    }
}

#[test]
fn request_larger_than_arena_fails() {
    let mut m = manager(128);
    assert_eq!(my_alloc(&mut m, 200, 8), Err(AllocError::OutOfMemory));
    assert_eq!(my_alloc(&mut m, 120, 8), Err(AllocError::OutOfMemory));
    // the failed requests changed nothing
    assert_eq!(debug_free(&m).runs, vec![128]);
}

#[test]
fn arena_runs_out_after_four_small_blocks() {
    let mut m = manager(128);
    let mut got = Vec::new();
    loop {
        match my_alloc(&mut m, 16, 8) {
            Ok(p) => {
                assert!(p + 16 <= 128);
                got.push(p);
            }
            Err(e) => {
                assert_eq!(e, AllocError::OutOfMemory);
                break;
            }
        }
    }
    assert_eq!(got, vec![16, 48, 80, 112]);
    let report = debug_free(&m);
    assert!(report.runs.is_empty());
    assert_eq!(report.total, 0);
}

#[test]
fn small_leftover_is_absorbed_into_the_allocation() {
    let mut m = manager(64);
    // 48 bytes needed, 16 left over: too small for a free block
    let p = my_alloc(&mut m, 32, 8).unwrap();
    assert_eq!(p, 16);
    assert!(debug_free(&m).runs.is_empty());
    my_free(&mut m, p);
    assert_eq!(debug_free(&m).runs, vec![64]);
}

#[test]
fn allocation_after_frees_in_any_order_succeeds() {
    let mut m = manager(512);
    let a = my_alloc(&mut m, 40, 8).unwrap();
    let b = my_alloc(&mut m, 24, 16).unwrap();
    let c = my_alloc(&mut m, 8, 32).unwrap();
    let d = my_alloc(&mut m, 300, 8).unwrap();
    assert_eq!(my_alloc(&mut m, 200, 8), Err(AllocError::OutOfMemory));
    my_free(&mut m, c);
    my_free(&mut m, a);
    my_free(&mut m, d);
    my_free(&mut m, b);
    let p = my_alloc(&mut m, 200, 8).unwrap();
    assert_eq!(p % 8, 0);
    let q = my_alloc(&mut m, 16, 16).unwrap();
    assert_eq!(q % 16, 0);
}

#[test]
fn freed_blocks_are_reused_last_in_first_out() {
    let mut m = manager(1024);
    let a = my_alloc(&mut m, 32, 8).unwrap();
    let b = my_alloc(&mut m, 32, 8).unwrap();
    let _c = my_alloc(&mut m, 32, 8).unwrap();
    my_free(&mut m, a);
    my_free(&mut m, b);
    assert_eq!(debug_free(&m).runs, vec![48, 48, 1024 - 144]);
    assert_eq!(my_alloc(&mut m, 32, 8).unwrap(), b);
    assert_eq!(my_alloc(&mut m, 16, 8).unwrap(), a);
}

#[test]
fn report_counts_runs_and_total() {
    let mut m = manager(1024);
    let a = my_alloc(&mut m, 100, 8).unwrap();
    let _b = my_alloc(&mut m, 8, 8).unwrap();
    my_free(&mut m, a);
    let report = debug_free(&m);
    assert_eq!(report.runs, vec![120, 1024 - 120 - 24]);
    assert_eq!(report.total, 1024 - 24);
}

#[test]
fn largest_requests_fail_without_overflow() {
    let mut m = manager(256);
    assert_eq!(my_alloc(&mut m, usize::MAX, 8), Err(AllocError::OutOfMemory));
    assert_eq!(my_alloc(&mut m, usize::MAX - 7, 1 << 40), Err(AllocError::OutOfMemory));
    assert_eq!(my_alloc(&mut m, 8, 1 << 40), Err(AllocError::OutOfMemory));
    assert_eq!(debug_free(&m).runs, vec![256]);
}
