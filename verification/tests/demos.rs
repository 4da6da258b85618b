use bad_ideas::archetype::{Archetype, Field};
use bad_ideas::demos::{demo_arena_validity, demo_two_backings};
use bad_ideas::float_demos::{
    demo_both_worlds, demo_composite, demo_simple, demo_stream, particle_ty, vec2_ty,
};
use bad_ideas::floats::Addend;
use bad_ideas::prng::xorshift_run;
use bad_ideas::validity::ValidityError;
use bad_ideas::value::F32Bits;

const N: usize = 1_000;

fn read_f32(bytes: &[u8], at: usize) -> f32 {
    f32::from_le_bytes([bytes[at], bytes[at + 1], bytes[at + 2], bytes[at + 3]])
}

fn words(xs: &[u32]) -> Vec<u8> {
    xs.iter().flat_map(|x| x.to_le_bytes()).collect()
}

fn rng_f32s(seed: u32, n: usize) -> Vec<u8> {
    xorshift_run(seed, n)
        .iter()
        .flat_map(|s| ((*s as f32 / u32::MAX as f32) * 2.0 - 1.0).to_le_bytes())
        .collect()
}

fn float(x: F32Bits) -> f32 {
    f32::from_bits(x.bits)
}

fn bits(x: f32) -> F32Bits {
    F32Bits { bits: x.to_bits() }
}

fn add_pair(acc: F32Bits, pair: (F32Bits, F32Bits)) -> F32Bits {
    bits(float(acc) + (float(pair.0) + float(pair.1)))
}

#[test]
fn simple_matches_native() {
    let raw = rng_f32s(0x1234_5678, N * 2);
    let mut native = 0.0f32;
    for c in raw.chunks_exact(8) {
        native += read_f32(c, 0) + read_f32(c, 4);
    }
    assert_eq!(native, float(demo_simple(&raw, add_pair)));
    assert_eq!(0.0, float(demo_simple(&[], add_pair)));
}

#[test]
fn two_backings_match_native() {
    let data: Vec<u32> = (0..N as u32).map(|i| i.wrapping_mul(2654435761)).collect();
    let native = data.iter().copied().fold(0, u32::wrapping_add);
    let r = demo_two_backings(&data);
    assert_eq!(r.flat, words(&data));
    assert_eq!(r.elems, r.flat);
    assert_eq!(r.sum_flat, native);
    assert_eq!(r.sum_elems, native);
}

#[test]
fn composite_matches_native() {
    let pos = rng_f32s(0xaaaa_1111, N * 2);
    let vel = rng_f32s(0xbbbb_2222, N * 2);
    let kinds: Vec<u32> = (0..N).map(|i| (i % 3) as u32).collect();
    let mut native_bytes = Vec::new();
    let mut native = 0.0f32;
    for i in 0..N {
        native_bytes.extend_from_slice(&pos[i * 8..i * 8 + 8]);
        native_bytes.extend_from_slice(&vel[i * 8..i * 8 + 8]);
        native_bytes.extend_from_slice(&kinds[i].to_le_bytes());
        native += read_f32(&pos, i * 8);
        native += read_f32(&pos, i * 8 + 4);
        native += read_f32(&vel, i * 8);
        native += read_f32(&vel, i * 8 + 4);
        native += kinds[i] as f32;
    }
    let r = demo_composite(&pos, &vel, &kinds, |acc: F32Bits, addend: Addend| match addend {
        Addend::Component(x) => bits(float(acc) + float(x)),
        Addend::Kind(k) => bits(float(acc) + k as f32),
    });
    assert_eq!(r.bytes, native_bytes);
    assert_eq!(float(r.sum), native);
    assert_eq!(particle_ty().size(), 20);
    assert_eq!(vec2_ty().size(), 8);
}

#[test]
fn both_worlds_match_native() {
    let (p, v, a) = (
        rng_f32s(0x1111_0000, N * 2),
        rng_f32s(0x2222_0000, N * 2),
        rng_f32s(0x3333_0000, N * 2),
    );
    let mut arch = Archetype::build(N, &p, &v, &a);
    let mut native = 0.0f32;
    for c in p.chunks_exact(8).chain(a.chunks_exact(8)) {
        native += read_f32(c, 0) + read_f32(c, 4);
    }
    let mut keys = arch.open();
    let r = demo_both_worlds(&mut keys, add_pair);
    assert!(!keys.touched(Field::Velocity));
    assert!(keys.touched(Field::Position) && keys.touched(Field::Acceleration));
    assert_eq!(r.eager, p);
    assert_eq!(r.lazy, p);
    assert_eq!(r.window, p[800..800 + 512]);
    assert_eq!(float(r.sum), native);
}

#[test]
fn arena_is_replayed_and_rejects_bad_runs() {
    assert_eq!(demo_arena_validity(words(&[0, 3, 1, 2]), 4), Ok(6));
    assert_eq!(
        demo_arena_validity(words(&[0, 4, 1, 2]), 4),
        Err(ValidityError::BitPattern { element: 1 })
    );
    assert_eq!(demo_arena_validity(vec![0; 5], 4), Err(ValidityError::Length));
    assert_eq!(demo_arena_validity(vec![], 4), Ok(0));
}

#[test]
fn stream_matches_native() {
    let seed = rng_f32s(0x5eed_1234, N * 2);
    let events = rng_f32s(0xe0e0_e0e0, N * 2);
    let scale = 0.5f32;
    let mut native = 0.0f32;
    for c in seed.chunks_exact(8) {
        native += read_f32(c, 0) + read_f32(c, 4);
    }
    for c in events.chunks_exact(8) {
        native += (read_f32(c, 0) + read_f32(c, 4)) * scale;
    }
    let got = demo_stream(
        bits(scale),
        &seed,
        &events,
        add_pair,
        |acc: F32Bits, (scale, x, y): (F32Bits, F32Bits, F32Bits)| {
            bits(float(acc) + (float(x) + float(y)) * float(scale))
        },
    );
    assert_eq!(native, float(got));
}
