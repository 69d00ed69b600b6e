use packed_enum::byte_vec::ByteVec;
use packed_enum::byte_vec::WrapVec;

#[test]
fn byte_vec() {
    let size: usize = std::mem::size_of::<i64>();
    let align: usize = std::mem::align_of::<i64>();

    let byte_vec = ByteVec::new();
    let mut v = WrapVec::new(byte_vec, size, align);

    let items = [i64::MIN, i64::MAX, 0, -10, 10];
    v.allocate(items.len());
    assert_eq!(v.len(), 0);
    assert_eq!(v.cap(), 5);

    for (i, item) in items.iter().enumerate() {
        v.set_len(i + 1);
        let src = item.to_le_bytes().to_vec();
        v.write_at(i, &src);
    }

    assert_eq!(v.len(), 5);
    assert_eq!(v.cap(), 5);

    for (i, item) in items.iter().enumerate() {
        let actual = v.read_at(i);
        let actual = i64::from_le_bytes(actual.try_into().unwrap());
        assert_eq!(actual, *item);
    }

    v.set_len(0);
    v.dealloc();
    assert_eq!(v.len(), 0);
    assert_eq!(v.cap(), 0);
}

#[test]
fn growth_doubling() {
    let mut v = WrapVec::new(ByteVec::new(), 4, 4);
    assert_eq!(v.cap(), 0);
    let expected_caps = [4usize, 4, 4, 4, 8];
    for i in 0..5 {
        v.maybe_grow_by(1);
        v.set_len(i + 1);
        assert_eq!(v.cap(), expected_caps[i]);
        assert_eq!(v.len(), i + 1);
    }
}

#[test]
fn grow_when_empty_allocates_four() {
    let mut v = WrapVec::new(ByteVec::new(), 2, 2);
    for i in 0..5 {
        v.maybe_grow_by(1);
        v.set_len(i + 1);
    }
    assert_eq!(v.cap(), 8);
    // Draining back to empty and growing again re-allocates for 4 elements.
    v.set_len(0);
    v.maybe_grow_by(1);
    assert_eq!(v.cap(), 4);
}

#[test]
fn arena_grow_by_one_doubles() {
    let mut bv = ByteVec::new();
    assert_eq!(bv.byte_len(), 0);
    assert_eq!(bv.byte_cap(), 0);
    let expected_caps = [32usize, 32, 32, 32, 64];
    for i in 0..5 {
        bv.grow_by_one(8);
        assert_eq!(bv.byte_len(), 8 * (i + 1));
        assert_eq!(bv.byte_cap(), expected_caps[i]);
    }
}

#[test]
fn arena_write_read_elements() {
    let mut bv = ByteVec::new();
    bv.grow_by_one(4);
    bv.grow_by_one(4);
    bv.grow_by_one(4);
    bv.write_element(0, 4, &vec![1, 2, 3, 4]);
    bv.write_element(1, 4, &vec![5, 6, 7, 8]);
    bv.write_element(2, 4, &vec![9, 10, 11, 12]);
    assert_eq!(bv.read_element(0, 4), vec![1, 2, 3, 4]);
    assert_eq!(bv.read_element(1, 4), vec![5, 6, 7, 8]);
    assert_eq!(bv.read_element(2, 4), vec![9, 10, 11, 12]);
}

#[test]
fn arena_swap_remove_moves_last() {
    let mut bv = ByteVec::new();
    bv.grow_by_one(2);
    bv.grow_by_one(2);
    bv.grow_by_one(2);
    bv.write_element(0, 2, &vec![10, 11]);
    bv.write_element(1, 2, &vec![20, 21]);
    bv.write_element(2, 2, &vec![30, 31]);
    // Removing the first element overwrites it with the last one.
    bv.swap_remove(0, 2);
    assert_eq!(bv.byte_len(), 4);
    assert_eq!(bv.read_element(0, 2), vec![30, 31]);
    assert_eq!(bv.read_element(1, 2), vec![20, 21]);
    // Removing the tail just shortens.
    bv.swap_remove(1, 2);
    assert_eq!(bv.byte_len(), 2);
    assert_eq!(bv.read_element(0, 2), vec![30, 31]);
}

#[test]
fn arena_deallocate_resets() {
    let mut bv = ByteVec::new();
    bv.grow_by_one(4);
    assert_eq!(bv.byte_cap(), 16);
    bv.swap_remove(0, 4);
    assert_eq!(bv.byte_len(), 0);
    bv.deallocate();
    assert_eq!(bv.byte_len(), 0);
    assert_eq!(bv.byte_cap(), 0);
}

#[test]
fn wrap_vec_into_inner_round_trip() {
    let mut v = WrapVec::new(ByteVec::new(), 4, 4);
    v.maybe_grow_by(2);
    v.set_len(2);
    v.write_at(0, &vec![1, 1, 1, 1]);
    v.write_at(1, &vec![2, 2, 2, 2]);
    let inner = v.into_inner();
    assert_eq!(inner.byte_len(), 8);
    let mut v2 = WrapVec::new(inner, 4, 4);
    assert_eq!(v2.len(), 2);
    assert_eq!(v2.read_at(1), vec![2, 2, 2, 2]);
    assert!(!v2.is_empty());
    v2.set_len(0);
    assert!(v2.is_empty());
    v2.dealloc();
    assert_eq!(v2.cap(), 0);
}
