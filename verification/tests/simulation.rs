use bad_ideas::report::{
    cpu_source, guest_packages, implementations, regenerate, CpuSource, Impl, ENV_END, ENV_START,
    TABLE_END, TABLE_START,
};
use bad_ideas::scenario::{initial_state, DT_BITS, STEPS};
use bad_ideas::simulation::{
    checksum as sum_of, put_together, run, simulate, simulate_in_batches, step_in_batches, Entity,
    Stepper,
};
use bad_ideas::value::F32Bits;

fn entity(e: [f32; 4]) -> Entity {
    e.map(|c| F32Bits { bits: c.to_bits() })
}

fn floats(e: Entity) -> [f32; 4] {
    e.map(|c| f32::from_bits(c.bits))
}

fn bits(state: &[Entity]) -> Vec<[u32; 4]> {
    state.iter().map(|e| e.map(|c| c.bits)).collect()
}

fn checksum(state: &Vec<Entity>) -> f64 {
    sum_of(state, 0.0f64, |acc: f64, c: F32Bits| acc + f32::from_bits(c.bits) as f64)
}

fn step([px, py, vx, vy]: [f32; 4], dt: f32) -> [f32; 4] {
    let len = (px * px + py * py).sqrt();
    let (ax, ay) = if len > 0.0 {
        (-px / len, -py / len)
    } else {
        (0.0, 0.0)
    };
    let vx = vx + ax * dt;
    let vy = vy + ay * dt;
    [px + vx * dt, py + vy * dt, vx, vy]
}

fn advance(e: Entity) -> Entity {
    entity(step(floats(e), f32::from_bits(DT_BITS)))
}

fn advance_all(rows: &[Entity]) -> Vec<Entity> {
    rows.iter().map(|e| advance(*e)).collect()
}

#[test]
fn checksum_matches_hand_computation() {
    let state = vec![entity([1.0, 2.0, 3.0, 4.0]), entity([-1.0, -2.0, -3.0, -4.0])];
    assert_eq!(checksum(&state), 0.0);
}

#[test]
fn components_are_folded_in_order() {
    let state = vec![entity([1.0, 2.0, 3.0, 4.0]), entity([5.0, 6.0, 7.0, 8.0])];
    let digits = sum_of(&state, 0u64, |acc: u64, c: F32Bits| {
        acc * 10 + f32::from_bits(c.bits) as u64
    });
    assert_eq!(digits, 12345678);
    assert_eq!(checksum(&state), 36.0);
    assert_eq!(checksum(&vec![]), 0.0);
}

#[test]
fn single_step_matches_hand_computation() {
    let entities = vec![entity([1.0, 0.0, 0.0, 0.0])];
    let moved = simulate(entities, 1, |e: Entity| entity(step(floats(e), 0.01)));

    assert_eq!(moved.len(), 1);
    let [px, py, vx, vy] = floats(moved[0]);
    let eps = 1e-6;
    assert!((vx - -0.01).abs() < eps, "vx = {}", vx);
    assert!(vy.abs() < eps, "vy = {}", vy);
    assert!((px - 0.9999).abs() < eps, "px = {}", px);
    assert!(py.abs() < eps, "py = {}", py);
}

#[test]
fn run_is_deterministic() {
    assert_eq!(checksum(&run(advance)), checksum(&run(advance)));
}

#[test]
fn every_entity_takes_every_step() {
    let count = |e: Entity| [e[0], e[1], e[2], F32Bits { bits: e[3].bits + 1 }];
    let start: Vec<Entity> = (0..4u32)
        .map(|i| [i, 2 * i, 3 * i, 10 * i].map(|b| F32Bits { bits: b }))
        .collect();
    let end = simulate(start, 7, count);
    assert_eq!(
        bits(&end),
        vec![[0, 0, 0, 7], [1, 2, 3, 17], [2, 4, 6, 27], [3, 6, 9, 37]]
    );
    assert_eq!(bits(&simulate(end.clone(), 0, count)), bits(&end));
}

#[test]
fn batches_do_not_show_in_the_result() {
    let mut start = initial_state();
    start.truncate(1000);
    let expected = bits(&simulate(start.clone(), 3, advance));
    for size in [1, 7, 250, 999, 1000, 5000] {
        let end = simulate_in_batches(start.clone(), 3, size, advance_all);
        assert_eq!(bits(&end), expected, "batches of {}", size);
    }
}

#[test]
fn a_step_hands_over_the_batches_in_order() {
    let state: Vec<Entity> = (0..5u32).map(|i| [F32Bits { bits: i }; 4]).collect();
    let marked = |rows: &[Entity]| -> Vec<Entity> {
        let n = rows.len() as u32;
        rows.iter()
            .map(|e| [e[0], F32Bits { bits: n }, rows[0][0], e[3]])
            .collect()
    };
    let after = step_in_batches(&state, 2, &marked);
    assert_eq!(
        bits(&after),
        vec![[0, 2, 0, 0], [1, 2, 0, 1], [2, 2, 2, 2], [3, 2, 2, 3], [4, 1, 4, 4]]
    );
}

#[test]
fn pieces_are_put_together_in_order() {
    let piece = |xs: &[u32]| -> Vec<Entity> {
        xs.iter().map(|b| [F32Bits { bits: *b }; 4]).collect()
    };
    let pieces = vec![piece(&[3, 1]), piece(&[]), piece(&[4]), piece(&[1, 5])];
    let all = put_together(&pieces);
    assert_eq!(bits(&all), bits(&piece(&[3, 1, 4, 1, 5])));
    assert!(put_together(&vec![]).is_empty());
}

#[test]
fn readme_is_regenerated_in_both_regions() {
    let readme = format!(
        "# Title\n{ENV_START}\nold machine\n{ENV_END}\nbetween\n{TABLE_START}\nold table\n{TABLE_END}\nend\n"
    );
    assert_eq!(
        regenerate(&readme, "machine", "table"),
        Ok(format!(
            "# Title\n{ENV_START}\nmachine\n{ENV_END}\nbetween\n{TABLE_START}\ntable\n{TABLE_END}\nend\n"
        ))
    );
}

#[test]
fn missing_markers_are_named() {
    let table = format!("{TABLE_START}\n{TABLE_END}\n");
    let env = format!("{ENV_START}\n{ENV_END}\n");
    assert_eq!(regenerate(&table, "m", "t"), Err(ENV_START));
    assert_eq!(regenerate(&format!("{ENV_START}{table}"), "m", "t"), Err(ENV_END));
    assert_eq!(regenerate(&env, "m", "t"), Err(TABLE_START));
    assert_eq!(regenerate(&format!("{env}{TABLE_START}"), "m", "t"), Err(TABLE_END));
}

#[test]
fn guests_are_built_for_those_that_have_one() {
    assert_eq!(
        guest_packages(&implementations()),
        vec!["naive-wasm-guest", "stream-wasm-guest", "bulk-wasm-guest"]
    );
    let native: Vec<Impl> = implementations().into_iter().take(1).collect();
    assert!(guest_packages(&native).is_empty());
}

#[test]
fn processors_are_looked_up_by_system() {
    assert!(matches!(cpu_source("macos"), CpuSource::Sysctl));
    assert!(matches!(cpu_source("linux"), CpuSource::ProcCpuinfo));
    assert!(matches!(cpu_source("windows"), CpuSource::Unknown));
}

#[test]
fn a_run_is_stepped_until_it_is_done() {
    let mut stepper = Stepper::start();
    let first = bits(stepper.input().unwrap());
    assert_eq!(first, bits(&initial_state()));
    let mut taken = 0;
    loop {
        let pieces = match stepper.input() {
            Some(state) => vec![state[..1].to_vec(), state[1..2].to_vec()],
            None => break,
        };
        stepper = stepper.stepped(&pieces);
        taken += 1;
    }
    assert_eq!(taken, STEPS);
    assert_eq!(bits(&stepper.state()), first[..2].to_vec());
}
