use packed_enum::Packable;
use packed_enum::Variant;
use packed_enum::registry::Registry;
use packed_enum::sample::Sample;
use packed_enum::sample::SampleTag;
use packed_enum::sample::Trio;
use packed_enum::sample::TrioTag;

#[test]
fn sample_layout() {
    assert_eq!(SampleTag::count(), 3);
    assert_eq!(SampleTag::A.as_index(), 0);
    assert_eq!(SampleTag::B.as_index(), 1);
    assert_eq!(SampleTag::C.as_index(), 2);
    assert_eq!(SampleTag::A.size_align(), (4, 1));
    assert_eq!(SampleTag::B.size_align(), (4, 2));
    assert_eq!(SampleTag::C.size_align(), (0, 1));
    assert_eq!(SampleTag::from_index(1).as_index(), 1);
}

#[test]
fn sample_codec_exact_bytes() {
    let bytes = Sample::B { foo: 0x1234, bar: 0xABCD }.encode();
    assert_eq!(bytes, vec![0x34, 0x12, 0xCD, 0xAB]);
    assert_eq!(
        Sample::decode(SampleTag::B, &bytes),
        Sample::B { foo: 0x1234, bar: 0xABCD }
    );

    let bytes = Sample::A(1, 2, 3, 4).encode();
    assert_eq!(bytes, vec![1, 2, 3, 4]);
    assert_eq!(Sample::decode(SampleTag::A, &bytes), Sample::A(1, 2, 3, 4));

    let bytes = Sample::C.encode();
    assert_eq!(bytes, Vec::<u8>::new());
    assert_eq!(Sample::decode(SampleTag::C, &bytes), Sample::C);
}

#[test]
fn trio_codec_exact_bytes() {
    let bytes = Trio::A(0xDEADBEEF).encode();
    assert_eq!(bytes, vec![0xEF, 0xBE, 0xAD, 0xDE]);
    assert_eq!(Trio::decode(TrioTag::A, &bytes), Trio::A(0xDEADBEEF));

    let bytes = Trio::C(u64::MAX).encode();
    assert_eq!(bytes, vec![0xFF; 8]);
    assert_eq!(Trio::decode(TrioTag::C, &bytes), Trio::C(u64::MAX));

    let bytes = Trio::C(0x0102030405060708).encode();
    assert_eq!(bytes, vec![0x08, 0x07, 0x06, 0x05, 0x04, 0x03, 0x02, 0x01]);
    assert_eq!(
        Trio::decode(TrioTag::C, &bytes),
        Trio::C(0x0102030405060708)
    );

    let bytes = Trio::B(0x0102, 0x0304).encode();
    assert_eq!(bytes, vec![0x02, 0x01, 0x04, 0x03]);
    assert_eq!(Trio::decode(TrioTag::B, &bytes), Trio::B(0x0102, 0x0304));
}

#[test]
fn variant_of_value() {
    assert_eq!(Sample::A(0, 0, 0, 0).variant(), SampleTag::A);
    assert_eq!(Sample::B { foo: 0, bar: 0 }.variant(), SampleTag::B);
    assert_eq!(Sample::C.variant(), SampleTag::C);
    assert_eq!(Trio::C(1).variant(), TrioTag::C);
}

#[test]
fn registry_deduplicates_ascending() {
    // Sizes of Sample's variants: 4, 4, 0 -> classes [0, 4].
    let r = Registry::build(&vec![4, 4, 0]);
    assert_eq!(r.classes, vec![0, 4]);
    assert_eq!(r.bucket_of, vec![1, 1, 0]);

    // Sizes of Trio's variants: 4, 4, 8 -> classes [4, 8].
    let r = Registry::build(&vec![4, 4, 8]);
    assert_eq!(r.classes, vec![4, 8]);
    assert_eq!(r.bucket_of, vec![0, 0, 1]);

    let r = Registry::build(&vec![16, 2, 16, 1, 2]);
    assert_eq!(r.classes, vec![1, 2, 16]);
    assert_eq!(r.bucket_of, vec![2, 1, 2, 0, 1]);

    let r = Registry::build(&Vec::new());
    assert_eq!(r.classes, Vec::<usize>::new());
    assert_eq!(r.bucket_of, Vec::<usize>::new());
}
