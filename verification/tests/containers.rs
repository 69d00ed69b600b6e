use packed_enum::pack::Pack;
use packed_enum::packed::Packed;
use packed_enum::sample::Sample;
use packed_enum::sample::Trio;

#[test]
fn packed() {
    let expected = [Sample::A(1, 2, 3, 4), Sample::B { foo: 5, bar: 6 }, Sample::C];
    let mut packed = Pack::new();
    for el in expected {
        packed.push(el);
    }
    for expected in expected.into_iter().rev() {
        assert_eq!(Some(expected), packed.pop());
    }
}

#[test]
fn lifo_round_trip_pack() {
    let values = [
        Trio::A(7),
        Trio::C(u64::MAX),
        Trio::B(512, 9),
        Trio::A(u32::MAX),
        Trio::C(0),
        Trio::B(0, 0),
    ];
    let mut p = Pack::new();
    for v in values {
        p.push(v);
    }
    assert_eq!(p.len(), values.len());
    for v in values.into_iter().rev() {
        assert_eq!(p.pop(), Some(v));
    }
    assert_eq!(p.pop(), None);
    assert_eq!(p.len(), 0);
}

#[test]
fn lifo_round_trip_packed() {
    let values = [
        Trio::A(7),
        Trio::C(u64::MAX),
        Trio::B(512, 9),
        Trio::A(u32::MAX),
        Trio::C(0),
        Trio::B(0, 0),
    ];
    let mut p = Packed::new();
    for v in values {
        p.push(v);
    }
    assert_eq!(p.len(), values.len());
    for v in values.into_iter().rev() {
        assert_eq!(p.pop(), Some(v));
    }
    assert_eq!(p.pop(), None);
    assert_eq!(p.len(), 0);
}

#[test]
fn three_variant_scenario() {
    // Variants A (4 bytes), B (4 bytes), C (8 bytes): A and B share the
    // 4-byte bucket, C gets the 8-byte bucket. Pushing A, B, C, A and
    // popping four times returns A, C, B, A.
    let mut p = Pack::new();
    p.push(Trio::A(1));
    p.push(Trio::B(2, 3));
    p.push(Trio::C(4));
    p.push(Trio::A(5));
    assert_eq!(p.len(), 4);
    assert_eq!(p.pop(), Some(Trio::A(5)));
    assert_eq!(p.pop(), Some(Trio::C(4)));
    assert_eq!(p.pop(), Some(Trio::B(2, 3)));
    assert_eq!(p.pop(), Some(Trio::A(1)));
    assert_eq!(p.pop(), None);
}

#[test]
fn bucket_sharing_interleaved() {
    // Sample::A and Sample::B both have 4-byte payloads and share one
    // bucket; interleaving them keeps per-element identity and order.
    let values = [
        Sample::A(1, 2, 3, 4),
        Sample::B { foo: 100, bar: 200 },
        Sample::A(5, 6, 7, 8),
        Sample::B { foo: 300, bar: 400 },
        Sample::A(9, 10, 11, 12),
    ];
    let mut p = Pack::new();
    for v in values {
        p.push(v);
    }
    for v in values.into_iter().rev() {
        assert_eq!(p.pop(), Some(v));
    }
    assert_eq!(p.pop(), None);
}

#[test]
fn zero_sized_interleaved() {
    // Sample::C has a zero-sized payload; interleaving it with payload
    // variants keeps LIFO order.
    let values = [
        Sample::C,
        Sample::A(1, 2, 3, 4),
        Sample::C,
        Sample::B { foo: 7, bar: 8 },
        Sample::C,
    ];
    let mut p = Pack::new();
    for v in values {
        p.push(v);
    }
    assert_eq!(p.len(), 5);
    for v in values.into_iter().rev() {
        assert_eq!(p.pop(), Some(v));
    }
    assert_eq!(p.pop(), None);
}

#[test]
fn zero_sized_only() {
    let mut p = Pack::new();
    for _ in 0..100 {
        p.push(Sample::C);
    }
    assert_eq!(p.len(), 100);
    for _ in 0..100 {
        assert_eq!(p.pop(), Some(Sample::C));
    }
    assert_eq!(p.pop(), None);
}

#[test]
fn pop_empty_is_none() {
    let mut p = Pack::<Trio>::new();
    assert!(p.is_empty());
    assert_eq!(p.pop(), None);
    assert_eq!(p.len(), 0);
    p.push(Trio::A(1));
    assert!(!p.is_empty());
    p.pop();
    assert_eq!(p.pop(), None);
}

#[test]
fn capacity_covers_length() {
    let mut p = Pack::new();
    for i in 0..10 {
        p.push(Trio::B(i, i));
        assert!(p.capacity() >= p.len());
    }
}

#[test]
fn teardown_drains_and_releases() {
    let mut p = Pack::new();
    for i in 0..20 {
        p.push(Trio::A(i));
        p.push(Trio::C(u64::from(i)));
    }
    assert_eq!(p.len(), 40);
    p.teardown();
    assert!(p.is_empty());
    assert_eq!(p.pop(), None);
    // The container is usable again after teardown.
    p.push(Trio::B(1, 2));
    assert_eq!(p.pop(), Some(Trio::B(1, 2)));
}

#[test]
fn teardown_packed() {
    let mut p = Packed::new();
    for i in 0..20 {
        p.push(Sample::A(i, i, i, i));
        p.push(Sample::C);
    }
    p.teardown();
    assert!(p.is_empty());
    assert_eq!(p.pop(), None);
}

#[test]
fn packed_interleaved_scenario() {
    let mut p = Packed::new();
    p.push(Trio::A(1));
    p.push(Trio::B(2, 3));
    p.push(Trio::C(4));
    p.push(Trio::A(5));
    assert_eq!(p.pop(), Some(Trio::A(5)));
    assert_eq!(p.pop(), Some(Trio::C(4)));
    assert_eq!(p.pop(), Some(Trio::B(2, 3)));
    assert_eq!(p.pop(), Some(Trio::A(1)));
    assert_eq!(p.pop(), None);
}

#[test]
fn push_pop_mixed_sequence() {
    let mut p = Pack::new();
    p.push(Sample::A(1, 1, 1, 1));
    p.push(Sample::B { foo: 2, bar: 2 });
    assert_eq!(p.pop(), Some(Sample::B { foo: 2, bar: 2 }));
    p.push(Sample::C);
    p.push(Sample::A(3, 3, 3, 3));
    assert_eq!(p.pop(), Some(Sample::A(3, 3, 3, 3)));
    assert_eq!(p.pop(), Some(Sample::C));
    assert_eq!(p.pop(), Some(Sample::A(1, 1, 1, 1)));
    assert_eq!(p.pop(), None);
}
