use arena_alloc::{debug_free, AllocError, Manager, MyBox, MyVec};
use std::rc::Rc;

fn manager(len: usize) -> Manager {
    Manager::new(len).expect("arena large enough")
}

fn contents<T: Copy>(v: &MyVec<T>) -> Vec<T> {
    v.as_slice().to_vec()
}

#[test]
fn new_container_has_no_block() {
    let v: MyVec<u32> = MyVec::new();
    assert_eq!(v.len(), 0);
    assert_eq!(v.capacity(), 0);
    assert!(v.is_empty());
}

#[test]
fn pushes_keep_every_value_across_growth() {
    let mut m = manager(4096);
    let mut v: MyVec<u64> = MyVec::new();
    let mut caps = Vec::new();
    for i in 0..40u64 {
        v.push(i * 10, &mut m).unwrap();
        caps.push(v.capacity());
        assert_eq!(v.len() as u64, i + 1);
        for j in 0..=i {
            assert_eq!(*v.index(j as usize), j * 10);
        }
    }
    // seeded at 4, doubled up to 16, then grown by half
    assert_eq!(caps[0], 4);
    assert_eq!(caps[4], 8);
    assert_eq!(caps[8], 16);
    assert_eq!(caps[16], 32);
    assert_eq!(caps[32], 48);
    assert_eq!(v.capacity(), 48);
}

#[test]
fn growth_gives_the_old_block_back() {
    let mut m = manager(1024);
    let mut v: MyVec<u64> = MyVec::new();
    for i in 0..5u64 {
        v.push(i, &mut m).unwrap();
    }
    // the 4-element block (48 bytes) went back to the head of the list
    let report = debug_free(&m);
    assert_eq!(report.runs[0], 48);
    v.release(&mut m);
    assert_eq!(debug_free(&m).total, 1024);
}

#[test]
fn push_fails_cleanly_when_the_arena_is_full() {
    let mut m = manager(64);
    let mut v: MyVec<u64> = MyVec::new();
    for i in 0..4u64 {
        v.push(i, &mut m).unwrap();
    }
    assert_eq!(v.push(4, &mut m), Err(AllocError::OutOfMemory));
    assert_eq!(contents(&v), vec![0, 1, 2, 3]);
    assert_eq!(v.capacity(), 4);
}

#[test]
fn with_capacity_and_from_slice_take_exact_blocks() {
    let mut m = manager(1024);
    let v: MyVec<u32> = MyVec::with_capacity(0, &mut m).unwrap();
    assert_eq!(v.capacity(), 0);
    assert_eq!(debug_free(&m).runs, vec![1024]);
    let w: MyVec<u32> = MyVec::with_capacity(6, &mut m).unwrap();
    assert_eq!(w.capacity(), 6);
    assert_eq!(debug_free(&m).runs, vec![1024 - 40]);
    let s = MyVec::from_slice(&[7u16, 8, 9], &mut m).unwrap();
    assert_eq!(s.capacity(), 3);
    assert_eq!(contents(&s), vec![7, 8, 9]);
}

#[test]
fn extend_grows_straight_to_the_needed_length() {
    let mut m = manager(1024);
    let mut v: MyVec<u8> = MyVec::new();
    v.extend_from_slice(&[1, 2, 3, 4, 5, 6, 7, 8, 9, 10], &mut m).unwrap();
    assert_eq!(v.capacity(), 10);
    v.extend_from_slice(&[11], &mut m).unwrap();
    assert_eq!(v.capacity(), 20);
    v.extend_from_slice(&[12, 13], &mut m).unwrap();
    assert_eq!(v.capacity(), 20);
    assert_eq!(contents(&v), (1..=13).collect::<Vec<u8>>());
}

#[test]
fn insert_and_insert_slice_shift_the_tail() {
    let mut m = manager(1024);
    let mut v = MyVec::from_slice(&[1i32, 2, 3], &mut m).unwrap();
    v.insert(0, 0, &mut m).unwrap();
    v.insert(4, 4, &mut m).unwrap();
    v.insert(2, 9, &mut m).unwrap();
    assert_eq!(contents(&v), vec![0, 1, 9, 2, 3, 4]);
    v.insert_slice(1, &[7, 7], &mut m).unwrap();
    assert_eq!(contents(&v), vec![0, 7, 7, 1, 9, 2, 3, 4]);
}

#[test]
fn remove_front_then_pop() {
    let mut m = manager(1024);
    let mut v = MyVec::from_slice(&[10, 20, 30], &mut m).unwrap();
    assert_eq!(v.remove(0), 10);
    assert_eq!(contents(&v), vec![20, 30]);
    assert_eq!(v.pop(), Some(30));
    assert_eq!(contents(&v), vec![20]);
    assert_eq!(v.pop(), Some(20));
    assert_eq!(v.pop(), None);
    assert!(v.is_empty());
}

#[test]
fn pop_on_empty_container_is_none() {
    let mut v: MyVec<i64> = MyVec::new();
    assert_eq!(v.pop(), None);
}

#[test]
fn truncate_and_clear_keep_the_block() {
    let mut m = manager(1024);
    let mut v = MyVec::from_slice(&[1u8, 2, 3, 4, 5], &mut m).unwrap();
    v.truncate(2);
    assert_eq!(contents(&v), vec![1, 2]);
    assert_eq!(v.capacity(), 5);
    v.clear();
    assert!(v.is_empty());
    assert_eq!(v.capacity(), 5);
}

#[test]
fn drain_yields_the_range_and_closes_the_gap() {
    let mut m = manager(1024);
    let mut v = MyVec::from_slice(&[1, 2, 3, 4, 5], &mut m).unwrap();
    let mut d = v.drain(1..3);
    assert_eq!(d.size_hint(), (2, Some(2)));
    assert_eq!(d.next(), Some(2));
    assert_eq!(d.next(), Some(3));
    assert_eq!(d.next(), None);
    drop(d);
    assert_eq!(contents(&v), vec![1, 4, 5]);
}

#[test]
fn abandoned_drain_drops_the_rest_exactly_once() {
    let mut m = manager(1024);
    let items: Vec<Rc<i32>> = (1..=5).map(Rc::new).collect();
    let mut v: MyVec<Rc<i32>> = MyVec::new();
    for it in &items {
        v.push(Rc::clone(it), &mut m).unwrap();
    }
    {
        let mut d = v.drain(1..3);
        let first = d.next().unwrap();
        assert_eq!(*first, 2);
    }
    let left: Vec<i32> = v.as_slice().iter().map(|x| **x).collect();
    assert_eq!(left, vec![1, 4, 5]);
    // the yielded item and the abandoned one were each dropped once
    assert_eq!(Rc::strong_count(&items[1]), 1);
    assert_eq!(Rc::strong_count(&items[2]), 1);
    assert_eq!(Rc::strong_count(&items[0]), 2);
    assert_eq!(Rc::strong_count(&items[3]), 2);
}

#[test]
fn append_moves_elements_and_frees_the_other_block() {
    let mut m = manager(1024);
    let mut a = MyVec::from_slice(&[1u32, 2], &mut m).unwrap();
    let b = MyVec::from_slice(&[3u32, 4, 5], &mut m).unwrap();
    a.append(b, &mut m).unwrap();
    assert_eq!(contents(&a), vec![1, 2, 3, 4, 5]);
    assert_eq!(a.capacity(), 5);
    a.release(&mut m);
    assert_eq!(debug_free(&m).total, 1024);
}

#[test]
fn iterators_walk_in_order() {
    let mut m = manager(1024);
    let v = MyVec::from_slice(&[3u8, 1, 4], &mut m).unwrap();
    let mut it = v.iter();
    assert_eq!(it.size_hint(), (3, Some(3)));
    assert_eq!(it.next(), Some(&3));
    assert_eq!(it.next(), Some(&1));
    assert_eq!(it.next(), Some(&4));
    assert_eq!(it.next(), None);
    let mut owned = v.into_iter();
    assert_eq!(owned.next(), Some(3));
    assert_eq!(owned.size_hint(), (2, Some(2)));
    owned.release(&mut m);
    assert_eq!(debug_free(&m).total, 1024);
}

#[test]
fn index_mut_changes_one_element() {
    let mut m = manager(1024);
    let mut v = MyVec::from_slice(&[1i32, 2, 3], &mut m).unwrap();
    *v.index_mut(1) = 20;
    assert_eq!(contents(&v), vec![1, 20, 3]);
}

#[test]
fn box_takes_a_block_of_its_value_size() {
    let mut m = manager(256);
    let mut b = MyBox::new(41u64, &mut m).unwrap();
    assert_eq!(*b.get(), 41);
    *b.get_mut() += 1;
    assert_eq!(*b.get(), 42);
    // 16 header bytes and 8 value bytes
    assert_eq!(debug_free(&m).runs, vec![256 - 24]);
    b.release(&mut m);
    assert_eq!(debug_free(&m).runs, vec![24, 256 - 24]);
}

#[test]
fn box_fails_when_the_arena_is_full() {
    let mut m = manager(32);
    assert_eq!(MyBox::new([0u8; 64], &mut m).err(), Some(AllocError::OutOfMemory));
}

#[test]
fn iter_mut_changes_every_element_in_place() {
    let mut m = manager(1024);
    let mut v = MyVec::from_slice(&[1i32, 2, 3], &mut m).unwrap();
    let mut it = v.iter_mut();
    while let Some(x) = it.next() {
        *x *= 10;
    }
    assert_eq!(contents(&v), vec![10, 20, 30]);
    assert_eq!(v.capacity(), 3);
}

#[test]
fn capacity_overflow_is_out_of_memory() {
    let mut m = manager(256);
    assert_eq!(MyVec::<u64>::with_capacity(usize::MAX, &mut m).err(), Some(AllocError::OutOfMemory));
    let mut v = MyVec::from_slice(&[1u64], &mut m).unwrap();
    let big = vec![0u64; 40];
    assert_eq!(v.extend_from_slice(&big, &mut m), Err(AllocError::OutOfMemory));
    assert_eq!(contents(&v), vec![1]);
}
