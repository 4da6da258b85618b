use bad_ideas::batch::{batched_name, batches, calls_per_step};
use bad_ideas::prng::{xorshift_run, SplitMix64};
use bad_ideas::scenario::{
    env_usize, initial_state, Action, Measurement, DT_BITS, ENTITY_COUNT, SEED, STEPS,
};

#[test]
fn initial_state_is_deterministic() {
    assert_eq!(initial_state(), initial_state());
}

#[test]
fn initial_state_has_expected_shape() {
    let state = initial_state();
    assert_eq!(state.len(), ENTITY_COUNT);
}

#[test]
fn prng_output_is_in_signed_unit_range() {
    let mut rng = SplitMix64::new(SEED);
    for _ in 0..100_000 {
        let x = f32::from_bits(rng.next_f32_signed().bits);
        assert!((-1.0..1.0).contains(&x), "out of range: {x}");
    }
}

#[test]
fn parameters_are_those_of_the_scenario() {
    assert_eq!(ENTITY_COUNT, 100_000);
    assert_eq!(STEPS, 1000);
    assert_eq!(SEED, 0x1234_5678_9ABC_DEF0);
    assert_eq!(f32::from_bits(DT_BITS), 0.01f32);
}

#[test]
fn splitmix_matches_its_published_outputs() {
    let mut rng = SplitMix64::new(0);
    assert_eq!(rng.next_u64(), 0xE220_A839_7B1D_CDAF);
    assert_eq!(rng.next_u64(), 0x6E78_9E6A_A1B9_65F4);
    assert_eq!(rng.next_u64(), 0x06C4_5D18_8009_454F);
    let mut rng = SplitMix64::new(1234567);
    assert_eq!(rng.next_u64(), 6457827717110365317);
    assert_eq!(rng.next_u64(), 3203168211198807973);
}

#[test]
fn signed_floats_match_float_arithmetic() {
    for seed in 0..50u64 {
        let mut raw = SplitMix64::new(seed);
        let mut signed = SplitMix64::new(seed);
        for _ in 0..2000 {
            let bits = (raw.next_u64() >> 40) as u32;
            let unit = (bits as f32) / ((1u32 << 24) as f32);
            let want = unit * 2.0 - 1.0;
            assert_eq!(signed.next_f32_signed().bits, want.to_bits());
        }
    }
}

#[test]
fn rows_are_drawn_in_order() {
    let state = initial_state();
    let mut rng = SplitMix64::new(SEED);
    for row in &state[..100] {
        for c in row {
            assert_eq!(*c, rng.next_f32_signed());
        }
    }
}

#[test]
fn xorshift_follows_its_shifts() {
    let mut s: u32 = 0x1234_5678;
    let run = xorshift_run(s, 10);
    assert_eq!(run.len(), 10);
    for got in run {
        s ^= s << 13;
        s ^= s >> 17;
        s ^= s << 5;
        assert_eq!(got, s);
    }
    assert_eq!(xorshift_run(1, 1), vec![270369]);
    assert!(xorshift_run(7, 0).is_empty());
}

#[test]
fn counts_from_the_environment() {
    assert_eq!(env_usize(None, 2), 2);
    assert_eq!(env_usize(Some("7"), 2), 7);
    assert_eq!(env_usize(Some("+7"), 2), 7);
    assert_eq!(env_usize(Some("007"), 2), 7);
    assert_eq!(env_usize(Some(""), 2), 2);
    assert_eq!(env_usize(Some("+"), 2), 2);
    assert_eq!(env_usize(Some("-1"), 2), 2);
    assert_eq!(env_usize(Some(" 7"), 2), 2);
    assert_eq!(env_usize(Some("7x"), 2), 2);
    assert_eq!(env_usize(Some("18446744073709551615"), 2), usize::MAX);
    assert_eq!(env_usize(Some("18446744073709551616"), 2), 2);
    assert_eq!(env_usize(Some("99999999999999999999999"), 2), 2);
}

#[test]
fn measurements_warm_up_and_then_time() {
    let mut m = Measurement::start(Some("2"), Some("3"));
    let mut seen = Vec::new();
    let mut ns = 10;
    loop {
        let action = m.action();
        seen.push(action);
        match action {
            Action::WarmUp => m = m.warmed_up(),
            Action::Time => {
                m = m.timed(ns);
                ns -= 1;
            }
            Action::Finish => break,
        }
    }
    assert_eq!(
        seen,
        vec![
            Action::WarmUp,
            Action::WarmUp,
            Action::Time,
            Action::Time,
            Action::Time,
            Action::Finish,
        ]
    );
    let results = m.finish("baseline");
    assert_eq!(results.name, "baseline");
    assert_eq!(results.entity_count, ENTITY_COUNT);
    assert_eq!(results.steps, STEPS);
    assert_eq!(results.warmups, 2);
    assert_eq!(results.repeats, 3);
    assert_eq!(results.durations_ns, vec![10, 9, 8]);
    assert_eq!(results.min_ns(), 8);
    assert_eq!(results.total_ns(), Some((27, 3)));
}

#[test]
fn at_least_one_run_is_timed() {
    let m = Measurement::start(Some("0"), Some("0"));
    assert_eq!(m.action(), Action::Time);
    let m = m.timed(5);
    assert_eq!(m.action(), Action::Finish);
    assert_eq!(m.finish("x").repeats, 1);
    let m = Measurement::start(None, Some("many"));
    assert_eq!(m.action(), Action::WarmUp);
    let mut m = m.warmed_up().warmed_up();
    for i in 0..5 {
        assert_eq!(m.action(), Action::Time);
        m = m.timed(i);
    }
    assert_eq!(m.action(), Action::Finish);
}

#[test]
fn batches_cover_the_list_as_chunks_do() {
    for len in [0usize, 1, 2, 5, 9, 10, 11, 100] {
        for size in [1usize, 2, 3, 10, 11, 1000] {
            let data: Vec<usize> = (0..len).collect();
            let want: Vec<Vec<usize>> = data.chunks(size).map(|c| c.to_vec()).collect();
            let got: Vec<Vec<usize>> = batches(len, size)
                .into_iter()
                .map(|(a, b)| data[a..b].to_vec())
                .collect();
            assert_eq!(got, want);
            assert_eq!(calls_per_step(len, size), want.len());
            assert_eq!(calls_per_step(len, size), len.div_ceil(size));
        }
    }
    assert_eq!(batches(5, 2), vec![(0, 2), (2, 4), (4, 5)]);
    assert_eq!(calls_per_step(usize::MAX, 1), usize::MAX);
    assert_eq!(batches(5, usize::MAX), vec![(0, 5)]);
}

#[test]
fn batched_results_are_named_after_their_size() {
    assert_eq!(batched_name(1000), "batched-wasm-1000");
    assert_eq!(batched_name(0), "batched-wasm-0");
}
