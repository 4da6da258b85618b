use bad_ideas::archetype::{Archetype, Field};
use bad_ideas::arena::Arena;
use bad_ideas::call::PreparedCall;
use bad_ideas::column::ArchetypeColumn;
use bad_ideas::guest::{
    Body, Caller, Func, GuestBody, Handler, HostImport, ImportCall, ImportHandler,
};
use bad_ideas::guests::{NoOp, SumWords};
use bad_ideas::layout::Ty;
use bad_ideas::lower::Source;
use bad_ideas::prng::xorshift_run;
use bad_ideas::shape::{Error, ValSpec};
use bad_ideas::source::{drive_eager, drive_lazy, Column, ListSource, LowerOnDemand, ValSource};
use bad_ideas::store::Store;
use bad_ideas::stream::{ChunkProducer, Feed, Producer};
use bad_ideas::validity::ValidatedCabiBytes;
use bad_ideas::value::{CoreVal, F32Bits, Val};
use std::rc::Rc;

const N: usize = 1_000;

fn vec2() -> Ty {
    Ty::Record(vec![Ty::F32, Ty::F32])
}

fn list(t: Ty) -> Ty {
    Ty::List(Box::new(t))
}

fn f(x: f32) -> F32Bits {
    F32Bits { bits: x.to_bits() }
}

fn words(xs: &[u32]) -> Vec<u8> {
    xs.iter().flat_map(|x| x.to_le_bytes()).collect()
}

fn read_f32(bytes: &[u8], at: usize) -> f32 {
    f32::from_le_bytes([bytes[at], bytes[at + 1], bytes[at + 2], bytes[at + 3]])
}

fn read_u32(bytes: &[u8], at: usize) -> u32 {
    u32::from_le_bytes([bytes[at], bytes[at + 1], bytes[at + 2], bytes[at + 3]])
}

fn rng_f32s(seed: u32, n: usize) -> Vec<u8> {
    xorshift_run(seed, n)
        .iter()
        .flat_map(|s| ((*s as f32 / u32::MAX as f32) * 2.0 - 1.0).to_le_bytes())
        .collect()
}

/// Adds up all components of its lists of `vec2`, and scaled ones from a stream.
struct SumComponents {
    lists: usize,
}

fn components(s: &Store, ptr: usize, count: usize) -> f32 {
    let mut sum = 0.0f32;
    for i in 0..count {
        sum += f32::from_bits(s.read_f32(ptr + i * 8).bits)
            + f32::from_bits(s.read_f32(ptr + i * 8 + 4).bits);
    }
    sum
}

impl GuestBody for SumComponents {
    fn call(&self, caller: Caller<'_, '_>, core: &[CoreVal]) -> Vec<CoreVal> {
        let mut caller = caller;
        let s = caller.store();
        let mut sum = 0.0f32;
        for l in 0..self.lists {
            let ptr = core[2 * l].as_i32() as usize;
            let count = core[2 * l + 1].as_i32() as usize;
            sum += components(s, ptr, count);
        }
        let out = s.realloc(4, 4);
        s.write_f32(out, f(sum));
        vec![CoreVal::I32(out as i32), CoreVal::I32(1)]
    }
}

/// `accumulate(scale, seed, events)`: all components of `seed`, and those of the streamed
/// `events` times `scale`.
struct Accumulate;

impl GuestBody for Accumulate {
    fn call(&self, caller: Caller<'_, '_>, core: &[CoreVal]) -> Vec<CoreVal> {
        let mut caller = caller;
        let scale = match core[0] {
            CoreVal::F32(x) => f32::from_bits(x.bits),
            CoreVal::I32(_) => unreachable!("scale is an f32"),
        };
        let (ptr, count) = (core[1].as_i32() as usize, core[2].as_i32() as usize);
        let stream = core[3].as_i32() as usize;
        let mut total = components(caller.store(), ptr, count);
        while let Some((ptr, len)) = caller.pull(stream) {
            let s = caller.store();
            let mut off = ptr;
            while off + 8 <= ptr + len {
                total += (f32::from_bits(s.read_f32(off).bits)
                    + f32::from_bits(s.read_f32(off + 4).bits))
                    * scale;
                off += 8;
            }
        }
        let s = caller.store();
        let out = s.realloc(4, 4);
        s.write_f32(out, f(total));
        vec![CoreVal::I32(out as i32), CoreVal::I32(1)]
    }
}

/// Hands its list on to host function 0 and returns what comes back.
struct Forward;

impl GuestBody for Forward {
    fn call(&self, caller: Caller<'_, '_>, core: &[CoreVal]) -> Vec<CoreVal> {
        let mut caller = caller;
        caller.call_import(0, core).unwrap_or_else(|e| {
            vec![CoreVal::I32(-1), CoreVal::I32(e.index as i32)]
        })
    }
}

/// Returns each word of the list plus one.
struct PlusOne {
    as_val: bool,
}

impl ImportHandler for PlusOne {
    fn handle(&self, call: ImportCall<'_>) {
        let mut call = call;
        let xs: Vec<u32> = call.args().view(0).chunks(4).map(|c| read_u32(c, 0) + 1).collect();
        if self.as_val {
            call.set(0, Source::Val(Val::List(xs.into_iter().map(Val::U32).collect())));
        } else {
            call.set(0, Source::Flat(&words(&xs)));
        }
    }
}

/// Sets nothing.
struct Silent;

impl ImportHandler for Silent {
    fn handle(&self, _call: ImportCall<'_>) {}
}

fn func(params: Vec<Ty>, results: Vec<Ty>, body: impl GuestBody + 'static) -> Rc<Func> {
    Func::new(params, results, Body { code: Box::new(body) })
}

fn prepared(func: &Rc<Func>, specs: &[ValSpec]) -> PreparedCall {
    match PreparedCall::new(func, specs) {
        Ok(p) => p,
        Err(e) => panic!("{e:?}"),
    }
}

fn refused(func: &Rc<Func>, specs: &[ValSpec]) -> Error {
    match Func::prepare(func, specs) {
        Ok(_) => panic!("prepared"),
        Err(e) => e,
    }
}

#[test]
fn all_dynamic_tree_is_the_simple_case() {
    let raw = rng_f32s(0x1234_5678, N * 2);
    let mut native = 0.0f32;
    for c in raw.chunks_exact(8) {
        native += read_f32(c, 0) + read_f32(c, 4);
    }
    let sum = func(vec![list(vec2())], vec![list(Ty::F32)], SumComponents { lists: 1 });
    let p = prepared(&sum, &[ValSpec::ListElems(Box::new(ValSpec::Val))]);
    let mut store = Store::new(N * 8 * 2 + 4096);
    let elems: Vec<ValSource> = raw
        .chunks_exact(8)
        .map(|c| {
            ValSource::Val(Val::Record(vec![
                Val::F32(f(read_f32(c, 0))),
                Val::F32(f(read_f32(c, 4))),
            ]))
        })
        .collect();
    let got = p
        .bind()
        .arg(ValSource::List(ListSource::Elems(elems)))
        .invoke_scoped(&mut store, |r| read_f32(r.view(0), 0))
        .unwrap();
    assert_eq!(native, got);
}

#[test]
fn guest_cannot_tell_flat_from_elements() {
    let data: Vec<u32> = (0..N as u32).map(|i| i.wrapping_mul(2654435761)).collect();
    let raw = words(&data);
    let native = data.iter().copied().fold(0, u32::wrapping_add);
    let u32_ty = Ty::U32;
    let elems = || -> Vec<ValSource<'static>> {
        data.iter().map(|&n| ValSource::Val(Val::U32(n))).collect()
    };
    let vb = ValidatedCabiBytes::checked(&raw, &u32_ty).unwrap();
    let mut flat = ValSource::List(ListSource::Flat(vb));
    let mut per_elem = ValSource::List(ListSource::Elems(elems()));
    let mut whole = ValSource::Val(Val::List(data.iter().map(|&n| Val::U32(n)).collect()));
    assert_eq!(drive_eager(&mut flat, &Ty::U32), raw);
    assert_eq!(drive_eager(&mut per_elem, &Ty::U32), raw);
    assert_eq!(drive_eager(&mut whole, &Ty::U32), raw);
    let pulls = [(3, 2), (0, 0), (990, 10)];
    assert_eq!(
        drive_lazy(&mut flat, &Ty::U32, &pulls),
        drive_lazy(&mut per_elem, &Ty::U32, &pulls)
    );

    let sum = func(vec![list(Ty::U32)], vec![list(Ty::U32)], SumWords);
    let mut store = Store::new(N * 4 * 2 + 4096);
    let p = prepared(&sum, &[ValSpec::ListFlat]);
    let vb = ValidatedCabiBytes::checked(&raw, &u32_ty).unwrap();
    let a = p
        .bind()
        .arg_list_flat(vb)
        .invoke_scoped(&mut store, |r| read_u32(r.view(0), 0))
        .unwrap();
    let after_flat = store.bytes().to_vec();
    let p = prepared(&sum, &[ValSpec::ListElems(Box::new(ValSpec::Val))]);
    let b = p
        .bind()
        .arg(ValSource::List(ListSource::Elems(elems())))
        .invoke_scoped(&mut store, |r| read_u32(r.view(0), 0))
        .unwrap();
    assert_eq!(native, a);
    assert_eq!(native, b);
    assert_eq!(store.bytes(), &after_flat[..]);
}

#[test]
fn representations_mix_within_one_value() {
    let particle = Ty::Record(vec![vec2(), vec2(), Ty::Enum(3)]);
    let pos = rng_f32s(0xaaaa_1111, N * 2);
    let vel = rng_f32s(0xbbbb_2222, N * 2);
    let vt = vec2();
    let mut native = Vec::new();
    let mut elems = Vec::new();
    for i in 0..N {
        native.extend_from_slice(&pos[i * 8..i * 8 + 8]);
        native.extend_from_slice(&vel[i * 8..i * 8 + 8]);
        native.extend_from_slice(&((i % 3) as u32).to_le_bytes());
        elems.push(ValSource::Record(vec![
            ValSource::Flat(ValidatedCabiBytes::checked(&pos[i * 8..i * 8 + 8], &vt).unwrap()),
            ValSource::Flat(ValidatedCabiBytes::checked(&vel[i * 8..i * 8 + 8], &vt).unwrap()),
            ValSource::Val(Val::Enum((i % 3) as u32)),
        ]));
    }
    let mut mixed = ValSource::List(ListSource::Elems(elems));
    assert_eq!(drive_eager(&mut mixed, &particle), native);
    assert!(ValSpec::ListElems(Box::new(ValSpec::Val)).matches(&mixed));
    assert_eq!(mixed.kind(), "List");
    assert_eq!(mixed.list_len(), N);
}

#[test]
fn eager_and_lazy_yield_the_same_bytes() {
    let (p, v, a) = (
        rng_f32s(0x1111_0000, N * 2),
        rng_f32s(0x2222_0000, N * 2),
        rng_f32s(0x3333_0000, N * 2),
    );
    let mut arch = Archetype::build(N, &p, &v, &a);
    assert_eq!(arch.count(), N);
    let mut keys = arch.open();
    let mut col_e = ArchetypeColumn::new(keys.position.reader());
    let eager = drive_eager(
        &mut ValSource::Lazy(Column { source: Box::new(&mut col_e) }),
        &vec2(),
    );
    assert_eq!(eager, p);
    let mut col_l = ArchetypeColumn::new(keys.position.reader());
    let lazy = drive_lazy(
        &mut ValSource::Lazy(Column { source: Box::new(&mut col_l) }),
        &vec2(),
        &[(0, 10), (10, N - 30), (N - 20, 20)],
    );
    assert_eq!(eager, lazy);
    assert_eq!(col_l.produced(), N);
    assert!(col_l.touched(Field::Position));
    assert!(!col_l.touched(Field::Velocity));

    // A window pulls the window, and nothing else.
    let mut col_w = ArchetypeColumn::new(keys.acceleration.reader());
    assert!(!col_w.touched(Field::Acceleration));
    let window = drive_lazy(
        &mut ValSource::Lazy(Column { source: Box::new(&mut col_w) }),
        &vec2(),
        &[(100, 64)],
    );
    assert_eq!(window, a[800..800 + 64 * 8]);
    assert_eq!(col_w.produced(), 64);
    assert!(!col_w.touched(Field::Position));
    assert!(!col_w.is_empty());
    assert_eq!(col_w.len(), N);
    assert!(keys.touched(Field::Position) && keys.touched(Field::Acceleration));
    assert!(!keys.touched(Field::Velocity));
}

#[test]
fn columns_are_projected_into_a_call() {
    let (p, v, a) = (rng_f32s(1, N * 2), rng_f32s(2, N * 2), rng_f32s(3, N * 2));
    let mut arch = Archetype::build(N, &p, &v, &a);
    let mut keys = arch.open();
    let reader = keys.velocity.reader();
    let (x, y) = reader.read_vec2(7);
    assert_eq!(x.bits.to_le_bytes()[..], v[56..60]);
    assert_eq!(y.bits.to_le_bytes()[..], v[60..64]);
    assert!(reader.reads(Field::Velocity) && !reader.reads(Field::Position));
    assert_eq!(reader.count(), N);
    assert!(keys.touched(Field::Velocity) && !keys.touched(Field::Position));

    // Opening the rows again starts with fresh marks.
    let mut keys = arch.open();
    assert!(!keys.touched(Field::Velocity));

    let sum = func(
        vec![list(vec2()), list(vec2())],
        vec![list(Ty::F32)],
        SumComponents { lists: 2 },
    );
    let call = prepared(&sum, &[ValSpec::Lazy, ValSpec::Lazy]);
    let mut store = Store::new(N * 8 * 4 + 4096);
    let mut pos = ArchetypeColumn::new(keys.position.reader());
    let mut acc = ArchetypeColumn::new(keys.acceleration.reader());
    let got = call
        .bind()
        .arg_lazy(Column { source: Box::new(&mut pos) })
        .arg_lazy(Column { source: Box::new(&mut acc) })
        .invoke_scoped(&mut store, |r| read_f32(r.view(0), 0))
        .unwrap();
    let sum_of = |b: &[u8]| {
        let mut s = 0.0f32;
        for c in b.chunks_exact(8) {
            s += read_f32(c, 0) + read_f32(c, 4);
        }
        s
    };
    assert_eq!(got, 0.0f32 + sum_of(&p) + sum_of(&a));
    assert_eq!((pos.produced(), acc.produced()), (N, N));
    assert!(!pos.touched(Field::Velocity) && !acc.touched(Field::Velocity));
    assert!(!keys.touched(Field::Velocity) && keys.touched(Field::Acceleration));
}

#[test]
fn arena_slices_reach_the_guest_intact() {
    let arena = Arena::absorb(words(&[0, 3, 1, 2]), Ty::Enum(4)).ok().unwrap();
    let sum = func(vec![list(Ty::Enum(4))], vec![list(Ty::U32)], SumWords);
    let call = prepared(&sum, &[ValSpec::Arena]);
    let mut store = Store::new(4096);
    let got = call
        .bind()
        .arg_arena(arena.slice(0, arena.elem_count()))
        .invoke_scoped(&mut store, |r| read_u32(r.view(0), 0))
        .unwrap();
    assert_eq!(got, 3 + 1 + 2);
}

#[test]
fn streams_are_pulled_during_the_call() {
    let seed = rng_f32s(0x5eed_1234, N * 2);
    let events = rng_f32s(0xe0e0_e0e0, N * 2);
    let scale = 0.5f32;
    let mut native = 0.0f32;
    for c in seed.chunks_exact(8) {
        native += read_f32(c, 0) + read_f32(c, 4);
    }
    for c in events.chunks_exact(8) {
        native += (read_f32(c, 0) + read_f32(c, 4)) * scale;
    }
    let acc = func(
        vec![Ty::F32, list(vec2()), list(vec2())],
        vec![list(Ty::F32)],
        Accumulate,
    );
    let call = prepared(&acc, &[ValSpec::Val, ValSpec::ListFlat, ValSpec::Stream]);
    let mut store = Store::new(N * 8 * 3 + 8192);
    let vt = vec2();
    let mut producer = ChunkProducer::new(&events, 64 * 8);
    let total = call
        .bind()
        .arg_val(Val::F32(f(scale)))
        .arg_list_flat(ValidatedCabiBytes::checked(&seed, &vt).unwrap())
        .arg(ValSource::Stream(Feed { producer: Box::new(&mut producer) }))
        .invoke_scoped(&mut store, |r| read_f32(r.view(0), 0))
        .unwrap();
    assert_eq!(native, total);
    assert!(producer.next_chunk().is_none());
}

#[test]
fn chunks_make_up_the_data() {
    let data: Vec<u8> = (0..10).collect();
    for size in [1usize, 3, 5, 10, 11, usize::MAX] {
        let mut p = ChunkProducer::new(&data, size);
        let mut chunks: Vec<Vec<u8>> = Vec::new();
        while let Some(c) = p.next_chunk() {
            chunks.push(c.to_vec());
        }
        assert_eq!(chunks.concat(), data);
        let want: Vec<Vec<u8>> = data.chunks(size).map(|c| c.to_vec()).collect();
        assert_eq!(chunks, want);
    }
    assert!(ChunkProducer::new(&[], 4).next_chunk().is_none());
}

#[test]
fn single_values_are_flattened() {
    let noop = func(vec![vec2(), Ty::U32], vec![], NoOp);
    let call = prepared(&noop, &[ValSpec::Flat, ValSpec::Val]);
    let mut store = Store::new(8);
    let vt = vec2();
    let bytes = words(&[1, 2]);
    let owned = call
        .bind()
        .arg_flat(ValidatedCabiBytes::checked(&bytes, &vt).unwrap())
        .arg_val(Val::U32(3))
        .invoke(&mut store)
        .ok()
        .unwrap();
    assert!(owned.is_empty());
    assert_eq!(store.bytes(), &[0u8; 8]);
}

#[test]
fn prepared_calls_are_reusable_while_buffers_change() {
    let sum = func(vec![list(Ty::U32)], vec![list(Ty::U32)], SumWords);
    let call = prepared(&sum, &[ValSpec::ListFlat]);
    let mut store = Store::new(64);
    let ty = Ty::U32;
    let mut buf = vec![0u8; 16];
    for i in 0..3u8 {
        let vb = ValidatedCabiBytes::checked(&buf, &ty).unwrap();
        let owned = call.bind().arg_list_flat(vb).invoke(&mut store).ok().unwrap();
        let want = if i == 0 { 0 } else { i as u32 - 1 };
        assert_eq!(read_u32(owned.view(0), 0), want);
        buf[0] = i;
    }
}

#[test]
fn shapes_are_checked_when_a_call_is_prepared() {
    let noop = func(vec![list(Ty::U32), Ty::U32], vec![], NoOp);
    assert_eq!(refused(&noop, &[ValSpec::Val]), Error::Arity { expected: 2, got: 1 });
    assert_eq!(
        refused(&noop, &[ValSpec::Val, ValSpec::ListFlat]),
        Error::SpecMismatch { index: 1 }
    );
    assert_eq!(
        refused(&noop, &[ValSpec::Flat, ValSpec::Lazy]),
        Error::NotInline { index: 0 }
    );
    let noop = func(vec![vec2(), list(Ty::String)], vec![], NoOp);
    assert_eq!(
        refused(&noop, &[ValSpec::Record(vec![ValSpec::Val]), ValSpec::Val]),
        Error::RecordArity { index: 0 }
    );
    assert_eq!(
        refused(&noop, &[ValSpec::Flat, ValSpec::Arena]),
        Error::NotInline { index: 1 }
    );
    assert_eq!(
        refused(&noop, &[ValSpec::Flat, ValSpec::ListElems(Box::new(ValSpec::Flat))]),
        Error::NotInline { index: 1 }
    );
    prepared(&noop, &[ValSpec::Record(vec![ValSpec::Flat, ValSpec::Val]), ValSpec::Stream]);
    assert_eq!(ValSpec::Flat.validate(&Ty::Handle, 5), Err(Error::NotInline { index: 5 }));
    assert_eq!(ValSpec::Val.validate(&Ty::Handle, 5), Ok(()));
}

#[test]
fn bindings_are_checked_when_the_call_is_made() {
    let noop = func(vec![list(Ty::U32), Ty::U32], vec![], NoOp);
    let call = prepared(&noop, &[ValSpec::ListFlat, ValSpec::Val]);
    let mut store = Store::new(64);
    store.realloc(5, 1);
    let ty = Ty::U32;
    let bytes = words(&[7, 8]);
    let vb = || ValidatedCabiBytes::checked(&bytes, &ty).unwrap();
    let e = call.bind().arg_list_flat(vb()).invoke(&mut store).err().unwrap();
    assert_eq!(e, Error::Arity { expected: 2, got: 1 });
    assert_eq!(store.bytes(), &[0u8; 64]);
    assert_eq!(store.realloc(1, 1), 5);
    // The first argument is lowered before the second is refused.
    let e = call
        .bind()
        .arg_list_flat(vb())
        .arg_flat(vb())
        .invoke(&mut store)
        .err()
        .unwrap();
    assert_eq!(e, Error::SpecMismatch { index: 1 });
    assert_eq!(store.bytes()[0..8], bytes[..]);
    assert_eq!(store.realloc(1, 1), 8);
    // A dynamic list is an allowed fallback for flat bytes.
    let dynamic = Val::List(vec![Val::U32(7), Val::U32(8)]);
    assert!(call.bind().arg_val(dynamic).arg_val(Val::U32(1)).invoke(&mut store).is_ok());
}

#[test]
fn guests_call_back_into_the_host() {
    for as_val in [false, true] {
        let import = HostImport::new(
            vec![list(Ty::U32)],
            vec![list(Ty::U32)],
            Handler { code: Box::new(PlusOne { as_val }) },
        );
        let forward = Func::with_imports(
            vec![list(Ty::U32)],
            vec![list(Ty::U32)],
            vec![import],
            Body { code: Box::new(Forward) },
        );
        let call = prepared(&forward, &[ValSpec::ListFlat]);
        let mut store = Store::new(64);
        let ty = Ty::U32;
        let bytes = words(&[1, 2, 3]);
        let vb = ValidatedCabiBytes::checked(&bytes, &ty).unwrap();
        let got = call
            .bind()
            .arg_list_flat(vb)
            .invoke_scoped(&mut store, |r| r.copy(0))
            .unwrap();
        assert_eq!(got, words(&[2, 3, 4]));
    }
}

#[test]
fn unset_results_are_reported() {
    let import = HostImport::new(
        vec![],
        vec![Ty::U32, Ty::U32],
        Handler { code: Box::new(Silent) },
    );
    let imports = vec![import];
    let mut store = Store::new(8);
    let mut caller = Caller::new(&mut store, &imports, Vec::new());
    match caller.call_import(0, &[]) {
        Ok(_) => panic!("nothing was set"),
        Err(e) => assert_eq!(e.index, 0),
    }
}
