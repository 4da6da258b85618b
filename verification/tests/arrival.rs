use bad_ideas::arena::Arena;
use bad_ideas::call::PreparedCall;
use bad_ideas::guest::{
    Body, Caller, Func, GuestBody, Handler, HostImport, ImportCall, ImportHandler,
};
use bad_ideas::layout::Ty;
use bad_ideas::lift::Lifted;
use bad_ideas::lower::{flatten_image, lower_source, store_scalar_or_record, Source};
use bad_ideas::guests::{NoOp, SumWords};
use bad_ideas::shape::{Error, ValSpec};
use bad_ideas::source::{drive_lazy, Column, ListSource, LowerOnDemand, ValSource};
use bad_ideas::store::Store;
use bad_ideas::stream::{ChunkProducer, Feed, Producer};
use bad_ideas::validity::{ValidatedCabiBytes, ValidatedCabiBytesBuf, ValidityError};
use bad_ideas::value::{CoreVal, F32Bits, Val};

fn list(t: Ty) -> Ty {
    Ty::List(Box::new(t))
}

fn words(xs: &[u32]) -> Vec<u8> {
    xs.iter().flat_map(|x| x.to_le_bytes()).collect()
}

fn word_list(v: &Val) -> Vec<u32> {
    match v {
        Val::List(items) => items
            .iter()
            .map(|i| match i {
                Val::U32(x) | Val::Enum(x) => *x,
                _ => panic!("not a word"),
            })
            .collect(),
        _ => panic!("not a list"),
    }
}

/// Checks what it was handed, and returns the list it was handed third.
struct Witness;

impl GuestBody for Witness {
    fn call(&self, caller: Caller<'_, '_>, core: &[CoreVal]) -> Vec<CoreVal> {
        let mut caller = caller;
        let tys = vec![list(Ty::U32), Ty::F32, list(Ty::U32), Ty::Enum(4), list(Ty::Enum(3))];
        assert_eq!(core.len(), 8);
        let (third, length) = (core[3].as_i32(), core[4].as_i32());
        let store = caller.store();
        let given = Lifted::new(store.bytes(), &tys, core);
        assert_eq!(given.len(), 5);
        assert_eq!(word_list(&given.val(0)), vec![1, 2, 3]);
        assert!(matches!(given.val(1), Val::F32(F32Bits { bits: 0x3f80_0000 })));
        assert_eq!(word_list(&given.val(2)), vec![40, 50]);
        assert_eq!(given.view(2), words(&[40, 50]));
        assert!(matches!(given.val(3), Val::Enum(3)));
        assert_eq!(given.copy(4), words(&[2, 0, 1]));
        vec![CoreVal::I32(third), CoreVal::I32(length)]
    }
}

#[test]
fn every_argument_arrives_in_its_place() {
    let func = Func::new(
        vec![list(Ty::U32), Ty::F32, list(Ty::U32), Ty::Enum(4), list(Ty::Enum(3))],
        vec![list(Ty::U32)],
        Body { code: Box::new(Witness) },
    );
    let call = PreparedCall::new(
        &func,
        &[
            ValSpec::ListFlat,
            ValSpec::Val,
            ValSpec::ListElems(Box::new(ValSpec::Val)),
            ValSpec::Flat,
            ValSpec::Arena,
        ],
    );
    let call = match call {
        Ok(call) => call,
        Err(_) => panic!("the shapes fit"),
    };
    let (u32_ty, enum_ty) = (Ty::U32, Ty::Enum(4));
    let (first, fourth) = (words(&[1, 2, 3]), words(&[3]));
    let arena = Arena::absorb(words(&[1, 2, 0, 1]), Ty::Enum(3)).unwrap();
    let mut store = Store::new(256);
    let got = call
        .bind()
        .arg_list_flat(ValidatedCabiBytes::checked(&first, &u32_ty).unwrap())
        .arg_val(Val::F32(F32Bits { bits: 1.0f32.to_bits() }))
        .arg(ValSource::List(ListSource::Elems(vec![
            ValSource::Val(Val::U32(40)),
            ValSource::Val(Val::U32(50)),
        ])))
        .arg_flat(ValidatedCabiBytes::checked(&fourth, &enum_ty).unwrap())
        .arg_arena(arena.slice(1, 3))
        .invoke(&mut store)
        .map(|r| r.copy(0));
    assert_eq!(got.ok(), Some(words(&[40, 50])));
}

/// Takes a record by value between two streams.
struct Between;

impl GuestBody for Between {
    fn call(&self, caller: Caller<'_, '_>, core: &[CoreVal]) -> Vec<CoreVal> {
        let mut caller = caller;
        assert_eq!(core.len(), 4);
        assert_eq!((core[1].as_i32(), core[2].as_i32()), (7, 8));
        for (handle, expected) in [(core[3], vec![9u8, 9]), (core[0], vec![5u8])] {
            let (ptr, len) = caller.pull(handle.as_i32() as usize).unwrap();
            assert_eq!(caller.store().bytes()[ptr..ptr + len], expected);
            assert!(caller.pull(handle.as_i32() as usize).is_none());
        }
        vec![]
    }
}

#[test]
fn streams_and_records_are_found_too() {
    let pair = Ty::Record(vec![Ty::U32, Ty::U32]);
    let func = Func::new(
        vec![Ty::Handle, pair, Ty::Handle],
        vec![],
        Body { code: Box::new(Between) },
    );
    let call = PreparedCall::new(&func, &[ValSpec::Stream, ValSpec::Val, ValSpec::Stream]);
    let call = match call {
        Ok(call) => call,
        Err(_) => panic!("the shapes fit"),
    };
    let mut store = Store::new(64);
    let done = call
        .bind()
        .arg(ValSource::Stream(Feed { producer: Box::new(ChunkProducer::new(&[5], 4)) }))
        .arg_val(Val::Record(vec![Val::U32(7), Val::U32(8)]))
        .arg(ValSource::Stream(Feed { producer: Box::new(ChunkProducer::new(&[9, 9], 4)) }))
        .invoke(&mut store);
    assert!(done.is_ok());
}

/// Sets its three results backwards, and the last of them twice.
struct Backwards;

impl ImportHandler for Backwards {
    fn handle(&self, call: ImportCall<'_>) {
        let mut call = call;
        call.set(2, Source::Val(Val::List(vec![Val::U32(1)])));
        call.set(1, Source::Flat(&words(&[6])));
        call.set(0, Source::Flat(&words(&[2, 3])));
        call.set(2, Source::Val(Val::List(vec![Val::U32(4), Val::U32(5)])));
    }
}

#[test]
fn results_are_received_in_whatever_order_they_were_set() {
    let results = vec![list(Ty::U32), Ty::U32, list(Ty::U32)];
    let imports = vec![HostImport::new(
        vec![],
        results.clone(),
        Handler { code: Box::new(Backwards) },
    )];
    let mut store = Store::new(64);
    let mut caller = Caller::new(&mut store, &imports, Vec::new());
    let core = match caller.call_import(0, &[]) {
        Ok(core) => core,
        Err(_) => panic!("every result was set"),
    };
    let got = Lifted::new(caller.store().bytes(), &results, &core);
    assert_eq!(word_list(&got.val(0)), vec![2, 3]);
    assert!(matches!(got.val(1), Val::U32(6)));
    assert_eq!(word_list(&got.val(2)), vec![4, 5]);
    assert_eq!(got.view(2), words(&[4, 5]));
}

/// Returns its list with the words reversed.
struct Reversed;

impl GuestBody for Reversed {
    fn call(&self, caller: Caller<'_, '_>, core: &[CoreVal]) -> Vec<CoreVal> {
        let mut caller = caller;
        let s = caller.store();
        let (ptr, n) = (core[0].as_i32() as usize, core[1].as_i32() as usize);
        let out = s.realloc(4 * n, 4);
        for i in 0..n {
            let x = s.read_u32(ptr + 4 * i);
            s.write_u32(out + 4 * (n - 1 - i), x);
        }
        vec![CoreVal::I32(out as i32), core[1]]
    }
}

#[test]
fn bytes_go_from_one_guest_to_another() {
    let func = Func::new(
        vec![list(Ty::U32)],
        vec![list(Ty::U32)],
        Body { code: Box::new(Reversed) },
    );
    let call = match PreparedCall::new(&func, &[ValSpec::ListFlat]) {
        Ok(call) => call,
        Err(_) => panic!("the shapes fit"),
    };
    let ty = Ty::U32;
    let data = words(&[3, 1, 4]);
    let (mut a, mut b) = (Store::new(64), Store::new(64));
    let vb = ValidatedCabiBytes::checked(&data, &ty).unwrap();
    let first = match call.bind().arg_list_flat(vb).invoke(&mut a) {
        Ok(first) => first,
        Err(_) => panic!("the call runs"),
    };
    assert_eq!(word_list(&first.val(0)), vec![4, 1, 3]);
    let passed_on = ValidatedCabiBytes::checked(first.view(0), &ty).unwrap();
    let second = match call.bind().arg_list_flat(passed_on).invoke(&mut b) {
        Ok(second) => second,
        Err(_) => panic!("the call runs"),
    };
    assert_eq!(second.copy(0), data);
}

/// Square numbers, computed when they are asked for.
struct Squares {
    asked: usize,
}

impl LowerOnDemand for Squares {
    fn len(&self) -> usize {
        10
    }

    fn produce_range(&mut self, start: usize, count: usize, out: &mut Vec<u8>) {
        for i in start..start + count {
            out.extend_from_slice(&((i * i) as u32).to_le_bytes());
            self.asked += 1;
        }
    }
}

/// Hands out two chunks.
struct Twice {
    left: usize,
    chunk: Vec<u8>,
}

impl Producer for Twice {
    fn next_chunk(&mut self) -> Option<&[u8]> {
        if self.left == 0 {
            return None;
        }
        self.left -= 1;
        Some(&self.chunk)
    }
}

#[test]
fn sources_and_streams_can_be_written_by_callers() {
    let mut squares = Squares { asked: 0 };
    assert!(!squares.is_empty());
    let pulled = drive_lazy(
        &mut ValSource::Lazy(Column { source: Box::new(&mut squares) }),
        &Ty::U32,
        &[(7, 2), (0, 1)],
    );
    assert_eq!(pulled, words(&[49, 64, 0]));
    assert_eq!(squares.asked, 3);

    let mut twice = Twice { left: 2, chunk: vec![1, 2, 3] };
    let imports: Vec<HostImport> = Vec::new();
    let mut store = Store::new(16);
    let feed = Feed { producer: Box::new(&mut twice) };
    let mut caller = Caller::new(&mut store, &imports, vec![feed]);
    assert_eq!(caller.pull(0), Some((0, 3)));
    assert_eq!(caller.pull(0), Some((4, 3)));
    assert_eq!(caller.pull(0), None);
    assert_eq!(caller.store().bytes()[..8], [1, 2, 3, 0, 1, 2, 3, 0]);
}

fn prepare(params: Vec<Ty>, specs: &[ValSpec], body: Body) -> PreparedCall {
    let results = vec![list(Ty::U32)];
    match PreparedCall::new(&Func::new(params, results, body), specs) {
        Ok(call) => call,
        Err(_) => panic!("the shapes fit"),
    }
}

/// Must not be called.
struct NotCalled;

impl GuestBody for NotCalled {
    fn call(&self, _caller: Caller<'_, '_>, _core: &[CoreVal]) -> Vec<CoreVal> {
        panic!("the guest was called")
    }
}

fn not_called() -> Body {
    Body { code: Box::new(NotCalled) }
}

/// Says that it has two elements, and produces six bytes for them.
struct Short;

impl LowerOnDemand for Short {
    fn len(&self) -> usize {
        2
    }

    fn produce_range(&mut self, _start: usize, _count: usize, out: &mut Vec<u8>) {
        out.extend_from_slice(&[1, 0, 0, 0, 2, 0]);
    }
}

/// Says that it has one element, and produces two.
struct Long;

impl LowerOnDemand for Long {
    fn len(&self) -> usize {
        1
    }

    fn produce_range(&mut self, _start: usize, _count: usize, out: &mut Vec<u8>) {
        out.extend_from_slice(&words(&[1, 2]));
    }
}

#[test]
fn columns_of_the_wrong_length_are_refused() {
    let call = prepare(vec![list(Ty::U32)], &[ValSpec::Lazy], not_called());
    let mut store = Store::new(64);
    let e = call.bind().arg_lazy(Column { source: Box::new(Short) }).invoke(&mut store);
    assert_eq!(e.err(), Some(Error::Validity));
    let e = call
        .bind()
        .arg_lazy(Column { source: Box::new(Long) })
        .invoke_scoped(&mut store, |r| r.len());
    assert_eq!(e.err(), Some(Error::Validity));
    assert_eq!(store.bytes(), [0u8; 64]);
}

#[test]
fn bytes_of_another_type_are_refused() {
    let (words_ty, pair_ty) = (Ty::U32, Ty::Record(vec![Ty::U32, Ty::U32]));
    let seven = words(&[7]);
    let vb = || ValidatedCabiBytes::checked(&seven, &words_ty).unwrap();
    let mut store = Store::new(64);

    let call = prepare(vec![list(Ty::Enum(3))], &[ValSpec::ListFlat], not_called());
    let e = call.bind().arg_list_flat(vb()).invoke(&mut store);
    assert_eq!(e.err(), Some(Error::Validity));

    let call = prepare(vec![Ty::Enum(3)], &[ValSpec::Flat], not_called());
    let e = call.bind().arg_flat(vb()).invoke(&mut store);
    assert_eq!(e.err(), Some(Error::Validity));

    let call = prepare(vec![pair_ty.clone()], &[ValSpec::Flat], not_called());
    let e = call.bind().arg_flat(vb()).invoke(&mut store);
    assert_eq!(e.err(), Some(Error::Validity));

    // Bytes that were checked as narrower or as wider elements are no list of these.
    let call = prepare(vec![list(pair_ty.clone())], &[ValSpec::ListFlat], not_called());
    let e = call.bind().arg_list_flat(vb()).invoke(&mut store);
    assert_eq!(e.err(), Some(Error::Validity));
    let two = words(&[1, 2]);
    let pair = ValidatedCabiBytes::checked(&two, &pair_ty).unwrap();
    let call = prepare(vec![list(Ty::U32)], &[ValSpec::ListFlat], not_called());
    let e = call.bind().arg_list_flat(pair).invoke(&mut store);
    assert_eq!(e.err(), Some(Error::Validity));

    // A seed that was checked as words is no arena of enumerations.
    let seed = ValidatedCabiBytesBuf::checked(words(&[1, 7]), Ty::U32).unwrap();
    let arena = Arena::new(seed, Ty::Enum(3));
    let body = || Body { code: Box::new(SumWords) };
    let call = prepare(vec![list(Ty::Enum(3))], &[ValSpec::Arena], body());
    assert_eq!(
        call.bind().arg_arena(arena.slice(1, 1)).invoke(&mut store).err(),
        Some(Error::Validity)
    );
    let sum = call.bind().arg_arena(arena.slice(0, 1)).invoke(&mut store);
    assert_eq!(sum.ok().map(|r| r.copy(0)), Some(words(&[1])));
}

#[test]
fn what_was_lowered_before_a_refusal_stays_in_memory() {
    let call = prepare(
        vec![list(Ty::U32), list(Ty::U32)],
        &[ValSpec::ListElems(Box::new(ValSpec::Val)), ValSpec::Lazy],
        not_called(),
    );
    let mut store = Store::new(8);
    let e = call
        .bind()
        .arg_val(Val::List(vec![Val::U32(9)]))
        .arg_lazy(Column { source: Box::new(Short) })
        .invoke(&mut store);
    assert_eq!(e.err(), Some(Error::Validity));
    assert_eq!(store.bytes(), [9, 0, 0, 0, 0, 0, 0, 0]);
}

#[test]
fn empty_lists_of_any_type_are_passed() {
    let call = prepare(
        vec![list(Ty::String), list(list(Ty::U32))],
        &[ValSpec::Val, ValSpec::Val],
        Body { code: Box::new(NoOp) },
    );
    let mut store = Store::new(8);
    let empty = || Val::List(vec![]);
    assert!(call.bind().arg_val(empty()).arg_val(empty()).invoke(&mut store).is_ok());
}

#[test]
fn dynamic_values_are_always_a_fallback() {
    let one = ValSource::Val(Val::U32(1));
    for spec in [
        ValSpec::Val,
        ValSpec::Flat,
        ValSpec::ListFlat,
        ValSpec::ListElems(Box::new(ValSpec::Val)),
        ValSpec::Lazy,
        ValSpec::Arena,
    ] {
        assert!(spec.matches(&one), "{:?}", spec);
    }
    assert!(!ValSpec::Stream.matches(&one));
    assert!(!ValSpec::Record(vec![]).matches(&one));

    let call = prepare(
        vec![Ty::Enum(4), list(Ty::U32)],
        &[ValSpec::Flat, ValSpec::Val],
        Body { code: Box::new(Second) },
    );
    let mut store = Store::new(64);
    let got = call
        .bind()
        .arg_val(Val::Enum(2))
        .arg_val(Val::List(vec![Val::U32(8)]))
        .invoke(&mut store);
    assert_eq!(got.ok().map(|r| r.copy(0)), Some(words(&[8])));
}

/// Returns its second argument.
struct Second;

impl GuestBody for Second {
    fn call(&self, _caller: Caller<'_, '_>, core: &[CoreVal]) -> Vec<CoreVal> {
        assert_eq!(core[0].as_i32(), 2);
        vec![core[1], core[2]]
    }
}

#[test]
fn records_are_received_from_their_core_slots() {
    let tys = [
        Ty::Record(vec![Ty::U32, Ty::U32]),
        Ty::Record(vec![]),
        Ty::Record(vec![Ty::F32, list(Ty::U32), Ty::Record(vec![Ty::Enum(2)])]),
        Ty::U32,
    ];
    let mut store = Store::new(8);
    store.write_u32(4, 77);
    let core = [
        CoreVal::I32(1),
        CoreVal::I32(2),
        CoreVal::F32(F32Bits { bits: 5 }),
        CoreVal::I32(4),
        CoreVal::I32(1),
        CoreVal::I32(1),
        CoreVal::I32(-1),
    ];
    let got = Lifted::new(store.bytes(), &tys, &core);
    assert_eq!(format!("{:?}", got.val(0)), "Record([U32(1), U32(2)])");
    assert_eq!(format!("{:?}", got.val(1)), "Record([])");
    assert_eq!(
        format!("{:?}", got.val(2)),
        "Record([F32(F32Bits { bits: 5 }), List([U32(77)]), Record([Enum(1)])])"
    );
    assert!(matches!(got.val(3), Val::U32(u32::MAX)));
}

#[test]
fn what_was_lowered_is_received_back() {
    let pair = Ty::Record(vec![Ty::U32, list(Ty::U32)]);
    let value = Val::Record(vec![Val::U32(3), Val::List(vec![Val::U32(4), Val::U32(5)])]);
    let mut store = Store::new(32);
    let core = lower_source(&mut store, &pair, Source::Val(value.clone()));
    assert_eq!(core.len(), 3);
    let tys = [pair];
    let got = Lifted::new(store.bytes(), &tys, &core);
    assert_eq!(format!("{:?}", got.val(0)), format!("{:?}", value));

    // Elements that take no room are counted all the same.
    let nothings = list(Ty::Record(vec![]));
    let value = Val::List(vec![Val::Record(vec![]), Val::Record(vec![])]);
    let core = lower_source(&mut store, &nothings, Source::Val(value.clone()));
    let tys = [nothings];
    let got = Lifted::new(store.bytes(), &tys, &core);
    assert_eq!(format!("{:?}", got.val(0)), format!("{:?}", value));
}

#[test]
fn results_are_validated_when_they_are_passed_on() {
    let tys = [list(Ty::Enum(3)), list(Ty::Enum(3))];
    let mut store = Store::new(16);
    store.write(0, &words(&[2, 0, 1, 3]));
    let core = [CoreVal::I32(0), CoreVal::I32(3), CoreVal::I32(4), CoreVal::I32(3)];
    let got = Lifted::new(store.bytes(), &tys, &core);
    assert_eq!(got.validated(0).map(|vb| vb.len()).ok(), Some(3));
    assert_eq!(
        got.validated(1).map(|vb| vb.len()).err(),
        Some(ValidityError::BitPattern { element: 2 })
    );
}

#[test]
fn scalars_may_stand_anywhere() {
    let mut store = Store::new(8);
    store_scalar_or_record(&mut store, &Ty::U32, &Val::U32(0x04030201), 3);
    assert_eq!(store.bytes(), [0, 0, 0, 1, 2, 3, 4, 0]);
    let mut core = Vec::new();
    assert_eq!(flatten_image(&Ty::U32, store.bytes(), 3, &mut core), 7);
    assert_eq!(core[0].as_i32(), 0x04030201);
}

#[test]
fn values_of_another_kind_are_refused() {
    let mut store = Store::new(64);
    let pair = Ty::Record(vec![Ty::U32, Ty::Enum(2)]);
    let cases = vec![
        (Ty::U32, Val::F32(F32Bits { bits: 0 })),
        (Ty::U32, Val::List(vec![])),
        (Ty::Enum(3), Val::Enum(3)),
        (Ty::Enum(3), Val::U32(1)),
        (list(Ty::U32), Val::U32(1)),
        (list(Ty::U32), Val::List(vec![Val::U32(1), Val::Enum(1)])),
        (list(Ty::Enum(3)), Val::List(vec![Val::Enum(2), Val::Enum(7)])),
        (pair.clone(), Val::Record(vec![Val::U32(1)])),
        (pair.clone(), Val::Record(vec![Val::U32(1), Val::Enum(2)])),
        (list(pair.clone()), Val::List(vec![Val::Record(vec![])])),
        (Ty::String, Val::List(vec![])),
        (list(Ty::Record(vec![])), Val::List(vec![Val::Record(vec![])])),
    ];
    for (ty, v) in cases {
        let call = prepare(vec![ty], &[ValSpec::Val], not_called());
        let text = format!("{:?}", v);
        assert_eq!(call.bind().arg_val(v).invoke(&mut store).err(), Some(Error::Validity), "{}", text);
    }

    let fields = ValSpec::Record(vec![ValSpec::Val, ValSpec::Val]);
    let call = prepare(vec![pair], &[fields], not_called());
    let nested = ValSource::Record(vec![
        ValSource::Val(Val::U32(1)),
        ValSource::Lazy(Column { source: Box::new(Short) }),
    ]);
    assert_eq!(call.bind().arg(nested).invoke(&mut store).err(), Some(Error::Validity));
    assert_eq!(store.bytes(), [0u8; 64]);
}

#[test]
fn records_are_moved_to_the_next_word() {
    let pair = Ty::Record(vec![Ty::Record(vec![]), Ty::U32, Ty::U32]);
    let value = Val::Record(vec![Val::Record(vec![]), Val::U32(7), Val::U32(8)]);
    let mut store = Store::new(16);
    store_scalar_or_record(&mut store, &pair, &value, 3);
    assert_eq!(store.bytes()[4..12], words(&[7, 8]));
    let mut core = Vec::new();
    assert_eq!(flatten_image(&pair, store.bytes(), 1, &mut core), 12);
    assert_eq!(core.iter().map(|c| c.as_i32()).collect::<Vec<_>>(), vec![7, 8]);

    // A record that takes no room stays where it is.
    let mut core = Vec::new();
    assert_eq!(flatten_image(&Ty::Record(vec![]), &[], 5, &mut core), 5);
    assert!(core.is_empty());
}
