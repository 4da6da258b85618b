use bad_ideas::arena::Arena;
use bad_ideas::layout::{align_up, Ty};
use bad_ideas::lift::{
    core_slot_offsets, lift_flat_view, lift_scalar_or_record, Lifted, OwnedResults,
};
use bad_ideas::lower::{
    flatten_image, lower_flat, lower_source, lower_val, store_scalar_or_record, Source,
};
use bad_ideas::shape::Error;
use bad_ideas::source::encode_inline_val;
use bad_ideas::store::Store;
use bad_ideas::validity::{
    is_valid_image, ValidatedCabiBytes, ValidatedCabiBytesBuf, ValidityError,
};
use bad_ideas::value::{CoreVal, F32Bits, Val};

fn f(x: f32) -> F32Bits {
    F32Bits { bits: x.to_bits() }
}

fn vec2() -> Ty {
    Ty::Record(vec![Ty::F32, Ty::F32])
}

fn list(t: Ty) -> Ty {
    Ty::List(Box::new(t))
}

fn particle() -> Ty {
    Ty::Record(vec![vec2(), vec2(), Ty::Enum(3)])
}

fn words(xs: &[u32]) -> Vec<u8> {
    xs.iter().flat_map(|x| x.to_le_bytes()).collect()
}

fn text(v: &Val) -> String {
    format!("{v:?}")
}

#[test]
fn layout_follows_the_canonical_abi() {
    assert_eq!(Ty::F32.size(), 4);
    assert_eq!(Ty::U32.align(), 4);
    assert_eq!(Ty::Enum(3).size(), 4);
    assert_eq!(vec2().size(), 8);
    assert_eq!(particle().size(), 20);
    assert_eq!(particle().align(), 4);
    assert_eq!(Ty::Record(vec![]).size(), 0);
    assert_eq!(Ty::Record(vec![]).align(), 1);
    assert_eq!(list(vec2()).size(), 8);
    assert_eq!(list(vec2()).elem_size(), 8);
    assert_eq!(list(Ty::Record(vec![])).elem_align(), 1);
    assert_eq!(align_up(5, 4), 8);
    assert_eq!(align_up(8, 4), 8);
    assert_eq!(align_up(0, 1), 0);
    assert_eq!(align_up(3, 2), 4);
    assert_eq!(align_up(17, 16), 32);
}

#[test]
fn only_inline_types_are_bulk_transferable() {
    assert!(vec2().is_inline());
    assert!(particle().is_inline());
    assert!(!Ty::String.is_inline());
    assert!(!Ty::Handle.is_inline());
    assert!(!list(Ty::U32).is_inline());
    assert!(!Ty::Record(vec![Ty::F32, Ty::String]).is_inline());
    assert!(list(vec2()).is_bulk_transferable());
    assert!(!list(Ty::String).is_bulk_transferable());
    assert!(vec2().is_bulk_transferable());
    assert!(!Ty::String.is_bulk_transferable());
    assert!(vec2().are_all_bit_patterns_valid());
    assert!(!Ty::Enum(4).are_all_bit_patterns_valid());
    assert!(!particle().are_all_bit_patterns_valid());
}

#[test]
fn allocations_are_aligned_and_disjoint() {
    let mut s = Store::new(64);
    let a = s.realloc(3, 1);
    let b = s.realloc(4, 4);
    let c = s.realloc(8, 16);
    assert_eq!((a, b, c), (0, 4, 16));
    s.write(a, &[1, 2, 3]);
    s.write(b, &[4, 5, 6, 7]);
    assert_eq!(&s.bytes()[0..8], &[1, 2, 3, 0, 4, 5, 6, 7]);
    s.reset();
    assert_eq!(s.realloc(4, 4), 0);
    assert_eq!(s.bytes()[0], 1);
}

#[test]
fn words_and_floats_in_memory() {
    let mut s = Store::new(16);
    s.write_u32(4, 0xdead_beef);
    assert_eq!(&s.bytes()[4..8], &[0xef, 0xbe, 0xad, 0xde]);
    assert_eq!(s.read_u32(4), 0xdead_beef);
    s.write_f32(8, f(-1.5));
    assert_eq!(f32::from_bits(s.read_f32(8).bits), -1.5);
    assert_eq!(&s.bytes()[8..12], &(-1.5f32).to_le_bytes());
}

#[test]
fn images_are_valid_and_read_back() {
    let v = Val::Record(vec![
        Val::Record(vec![Val::F32(f(1.0)), Val::F32(f(2.0))]),
        Val::Record(vec![Val::F32(f(-3.0)), Val::F32(f(0.5))]),
        Val::Enum(2),
    ]);
    let mut image = Vec::new();
    encode_inline_val(&particle(), &v, &mut image);
    let mut want = Vec::new();
    for x in [1.0f32, 2.0, -3.0, 0.5] {
        want.extend_from_slice(&x.to_le_bytes());
    }
    want.extend_from_slice(&2u32.to_le_bytes());
    assert_eq!(image, want);
    assert!(is_valid_image(&particle(), &image, 0));
    assert_eq!(text(&lift_scalar_or_record(&image, &particle(), 0)), text(&v));

    let mut s = Store::new(40);
    store_scalar_or_record(&mut s, &particle(), &v, 8);
    assert_eq!(&s.bytes()[8..28], &image[..]);
    assert_eq!(text(&lift_scalar_or_record(s.bytes(), &particle(), 8)), text(&v));
}

#[test]
fn dynamic_and_flat_lower_alike() {
    let items: Vec<Val> = (0..5u32)
        .map(|i| {
            Val::Record(vec![
                Val::Record(vec![Val::F32(f(i as f32)), Val::F32(f(-1.0))]),
                Val::Record(vec![Val::F32(f(0.25)), Val::F32(f(7.0))]),
                Val::Enum(i % 3),
            ])
        })
        .collect();
    let mut bytes = Vec::new();
    for item in &items {
        encode_inline_val(&particle(), item, &mut bytes);
    }
    let ty = list(particle());
    let mut a = Store::new(256);
    let mut b = Store::new(256);
    a.realloc(1, 1);
    b.realloc(1, 1);
    let core_a = lower_source(&mut a, &ty, Source::Val(Val::List(items)));
    let core_b = lower_source(&mut b, &ty, Source::Flat(&bytes));
    assert_eq!(core_a, core_b);
    assert_eq!(core_a, vec![CoreVal::I32(4), CoreVal::I32(5)]);
    assert_eq!(a.bytes(), b.bytes());
    assert_eq!(a.realloc(1, 1), b.realloc(1, 1));

    let v = Val::Record(vec![Val::F32(f(1.0)), Val::F32(f(2.0))]);
    let mut image = Vec::new();
    encode_inline_val(&vec2(), &v, &mut image);
    let core_a = lower_source(&mut a, &vec2(), Source::Val(v));
    let core_b = lower_source(&mut b, &vec2(), Source::Flat(&image));
    assert_eq!(core_a, core_b);
    assert_eq!(core_a, vec![CoreVal::F32(f(1.0)), CoreVal::F32(f(2.0))]);
}

#[test]
fn lists_are_received_as_they_were_lowered() {
    let mut s = Store::new(64);
    let bytes = words(&[3, 1, 4, 1, 5]);
    let tys = vec![list(Ty::U32), Ty::U32, Ty::F32, Ty::Enum(9)];
    let mut core = lower_source(&mut s, &tys[0], Source::Flat(&bytes));
    lower_val(&mut s, &tys[1], &Val::U32(0xffff_fff0), &mut core);
    lower_val(&mut s, &tys[2], &Val::F32(f(-0.5)), &mut core);
    lower_val(&mut s, &tys[3], &Val::Enum(8), &mut core);
    assert_eq!(core.len(), 5);
    assert_eq!(core_slot_offsets(&tys), vec![0, 2, 3, 4]);
    let got = Lifted::new(s.bytes(), &tys, &core);
    assert_eq!(got.len(), 4);
    assert!(!got.is_empty());
    assert_eq!(got.view(0), &bytes[..]);
    assert_eq!(got.copy(0), bytes);
    let v: &[u8] = got.get(0);
    assert_eq!(v, &bytes[..]);
    let c: Vec<u8> = got.get(0);
    assert_eq!(c, bytes);
    let d: Val = got.get(0);
    assert_eq!(
        text(&d),
        text(&Val::List(vec![Val::U32(3), Val::U32(1), Val::U32(4), Val::U32(1), Val::U32(5)]))
    );
    assert_eq!(text(&got.val(1)), text(&Val::U32(0xffff_fff0)));
    assert_eq!(text(&got.val(2)), text(&Val::F32(f(-0.5))));
    assert_eq!(text(&got.val(3)), text(&Val::Enum(8)));

    let owned = OwnedResults::new(s.bytes().to_vec(), tys, core);
    s.write(0, &[9; 20]);
    assert_eq!(owned.len(), 4);
    assert!(!owned.is_empty());
    assert_eq!(owned.view(0), &bytes[..]);
    assert_eq!(owned.copy(0), bytes);
    assert_eq!(text(&owned.val(1)), text(&Val::U32(0xffff_fff0)));
    assert_eq!(owned.lifted().view(0), &bytes[..]);
}

#[test]
fn flat_transfers_are_one_copy() {
    let mut s = Store::new(64);
    s.realloc(2, 1);
    let (ptr, count) = lower_flat(&mut s, &list(vec2()), &words(&[1, 2, 3, 4]));
    assert_eq!((ptr, count), (4, 2));
    assert_eq!(lift_flat_view(s.bytes(), &list(vec2()), ptr, count), &words(&[1, 2, 3, 4])[..]);
    let mut core = Vec::new();
    let end = flatten_image(&particle(), &words(&[0, 1, 2, 3, 4, 5]), 4, &mut core);
    assert_eq!(end, 24);
    assert_eq!(
        core,
        vec![
            CoreVal::F32(F32Bits { bits: 1 }),
            CoreVal::F32(F32Bits { bits: 2 }),
            CoreVal::F32(F32Bits { bits: 3 }),
            CoreVal::F32(F32Bits { bits: 4 }),
            CoreVal::I32(5),
        ]
    );
    assert_eq!(core[4].as_i32(), 5);
}

#[test]
fn total_types_need_no_sweep() {
    let u32s = words(&[0, 1, 2, 3, 4, 5, 6, u32::MAX]);
    let vb = ValidatedCabiBytes::checked(&u32s, &Ty::U32).unwrap();
    assert_eq!(vb.len(), 8);
    assert!(!vb.is_empty());
    assert_eq!(vb.bytes(), &u32s[..]);
    assert!(ValidatedCabiBytes::checked(&u32s[..6], &Ty::U32).is_err());
}

#[test]
fn bad_bytes_are_rejected_with_the_reason() {
    let good = words(&[0, 3, 1, 2]);
    let bad = words(&[0, 4, 1, 2]);
    assert!(ValidatedCabiBytes::checked(&good, &Ty::Enum(4)).is_ok());
    let err = |b: &[u8], t: &Ty| match ValidatedCabiBytes::checked(b, t) {
        Ok(_) => panic!("accepted"),
        Err(e) => e,
    };
    assert_eq!(err(&bad, &Ty::Enum(4)), ValidityError::BitPattern { element: 1 });
    assert_eq!(err(&good[..7], &Ty::Enum(4)), ValidityError::Length);
    assert_eq!(err(&good, &Ty::String), ValidityError::NotInline);
    assert_eq!(err(&[], &list(Ty::U32)), ValidityError::NotInline);
    assert_eq!(Error::from(ValidityError::Length), Error::Validity);
    match ValidatedCabiBytesBuf::checked(bad, Ty::Enum(4)) {
        Ok(_) => panic!("accepted"),
        Err(e) => assert_eq!(e, ValidityError::BitPattern { element: 1 }),
    }
}

#[test]
fn arenas_are_validated_once() {
    let good = words(&[0, 3, 1, 2]);
    let arena = Arena::absorb(good.clone(), Ty::Enum(4)).ok().expect("valid run");
    assert!(Arena::absorb(words(&[0, 4, 1, 2]), Ty::Enum(4)).is_err());
    assert_eq!(arena.elem_count(), 4);
    let slice = arena.slice(1, 2);
    assert_eq!(slice.len(), 2);
    let mut out = vec![9];
    slice.produce_range(0, 2, &mut out);
    assert_eq!(out[1..], words(&[3, 1])[..]);
    // What was validated once is still valid.
    assert!(ValidatedCabiBytes::checked(&out[1..], &Ty::Enum(4)).is_ok());
    let seed = ValidatedCabiBytesBuf::checked(good.clone(), Ty::Enum(4)).ok().unwrap();
    assert_eq!(seed.as_ref().len(), 4);
    let arena = Arena::new(seed, Ty::Enum(4));
    let mut out = Vec::new();
    arena.slice(0, 4).produce_range(3, 1, &mut out);
    assert_eq!(out, words(&[2]));
}
