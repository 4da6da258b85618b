//! The benchmark scenario: its parameters, its initial state and how it is measured.

use crate::prng;
use crate::prng::SplitMix64;
use crate::results::Results;
use crate::text;
use crate::text::parse_number;
use crate::value::F32Bits;
use vstd::prelude::*;

verus! {

/// Number of independent entities in the simulation.
pub const ENTITY_COUNT: usize = 100_000;

/// Number of integration steps to compute and measure.
pub const STEPS: usize = 1000;

/// The bits of the integration timestep, the `f32` nearest to 0.01 seconds.
pub const DT_BITS: u32 = 0x3C23_D70A;

/// Seed of the initial state. It never changes, so that results stay comparable.
pub const SEED: u64 = 0x1234_5678_9ABC_DEF0;

/// `state` is the initial state: rows of `[px, py, vx, vy]`, each component the next draw.
pub open spec fn is_initial(state: Seq<[F32Bits; 4]>) -> bool {
    &&& state.len() == ENTITY_COUNT
    &&& forall|i: int, j: int|
        0 <= i < ENTITY_COUNT && 0 <= j < 4 ==> prng::is_signed_unit(
            #[trigger] state[i]@[j],
            prng::numerator(prng::draw(SEED, (4 * i + j) as nat)),
        )
}

/// There is one initial state.
pub proof fn law_initial_state_is_determined(a: Seq<[F32Bits; 4]>, b: Seq<[F32Bits; 4]>)
    requires
        is_initial(a),
        is_initial(b),
    ensures
        a == b,
{
    assert forall|i: int| 0 <= i < a.len() implies a[i] == b[i] by {
        assert forall|j: int| 0 <= j < 4 implies a[i]@[j] == b[i]@[j] by {
            prng::law_signed_units_are_determined(
                a[i]@[j],
                b[i]@[j],
                prng::numerator(prng::draw(SEED, (4 * i + j) as nat)),
            );
        }
        assert(a[i] =~= b[i]);
    }
    assert(a =~= b);
}

/// The deterministic initial state: rows of `[px, py, vx, vy]`, each component drawn from
/// `[-1.0, 1.0)` in that order.
pub fn initial_state() -> (r: Vec<[F32Bits; 4]>)
    ensures
        is_initial(r@),
{
    let mut rng = SplitMix64::new(SEED);
    let mut entities: Vec<[F32Bits; 4]> = Vec::new();
    let mut n: usize = 0;
    while n < ENTITY_COUNT
        invariant
            n <= ENTITY_COUNT,
            entities@.len() == n,
            rng.state() == prng::state_after(SEED, (4 * n) as nat),
            forall|i: int, j: int|
                0 <= i < n && 0 <= j < 4 ==> prng::is_signed_unit(
                    #[trigger] entities@[i]@[j],
                    prng::numerator(prng::draw(SEED, (4 * i + j) as nat)),
                ),
        decreases ENTITY_COUNT - n,
    {
        let px = rng.next_f32_signed();
        assert(rng.state() == prng::state_after(SEED, (4 * n + 1) as nat));
        let py = rng.next_f32_signed();
        assert(rng.state() == prng::state_after(SEED, (4 * n + 2) as nat));
        let vx = rng.next_f32_signed();
        assert(rng.state() == prng::state_after(SEED, (4 * n + 3) as nat));
        let vy = rng.next_f32_signed();
        assert(rng.state() == prng::state_after(SEED, (4 * n + 4) as nat));
        let row = [px, py, vx, vy];
        assert(row@ =~= seq![px, py, vx, vy]);
        entities.push(row);
        n += 1;
    }
    entities
}

/// A count given as text, or `default` where there is none or it is no number.
pub open spec fn count_or(given: Option<Seq<char>>, default: usize) -> nat {
    match given {
        Some(s) => match text::parsed(s, usize::MAX as nat) {
            Some(n) => n,
            None => default as nat,
        },
        None => default as nat,
    }
}

/// The text of an optional string.
pub open spec fn text_of(given: Option<&str>) -> Option<Seq<char>> {
    match given {
        Some(s) => Some(s@),
        None => None,
    }
}

/// A count that the environment may set.
pub fn env_usize(given: Option<&str>, default: usize) -> (r: usize)
    ensures
        r == count_or(text_of(given), default),
{
    match given {
        Some(s) => match parse_number(s, usize::MAX as u64) {
            Some(n) => n as usize,
            None => default,
        },
        None => default,
    }
}

/// What to do next in a measurement.
#[derive(Clone, Copy, Debug, PartialEq, Eq, Structural)]
pub enum Action {
    /// Run once, untimed.
    WarmUp,
    /// Run once under the clock.
    Time,
    /// All runs are done.
    Finish,
}

/// A measurement under way: some runs to warm up, then at least one timed run.
pub struct Measurement {
    warmups: usize,
    repeats: usize,
    warmed: usize,
    durations_ns: Vec<u128>,
}

/// The mathematical value of a [`Measurement`].
#[verifier::ext_equal]
pub struct MeasurementModel {
    pub warmups: nat,
    pub repeats: nat,
    pub warmed: nat,
    pub durations_ns: Seq<u128>,
}

impl MeasurementModel {
    /// What to do next.
    pub open spec fn action(self) -> Action {
        if self.warmed < self.warmups {
            Action::WarmUp
        } else if self.durations_ns.len() < self.repeats {
            Action::Time
        } else {
            Action::Finish
        }
    }
}

impl View for Measurement {
    type V = MeasurementModel;

    closed spec fn view(&self) -> MeasurementModel {
        MeasurementModel {
            warmups: self.warmups as nat,
            repeats: self.repeats as nat,
            warmed: self.warmed as nat,
            durations_ns: self.durations_ns@,
        }
    }
}

impl Measurement {
    #[verifier::type_invariant]
    spec fn inv(self) -> bool {
        &&& self.warmed <= self.warmups
        &&& self.durations_ns@.len() <= self.repeats
        &&& self.repeats > 0
    }

    /// Start a measurement with the counts that `BENCH_WARMUPS` and `BENCH_REPEATS` give, 2 and
    /// 5 by default. There is always one timed run.
    pub fn start(warmups: Option<&str>, repeats: Option<&str>) -> (r: Measurement)
        ensures
            r@.warmups == count_or(text_of(warmups), 2),
            r@.repeats == if count_or(text_of(repeats), 5) == 0 {
                1
            } else {
                count_or(text_of(repeats), 5)
            },
            r@.warmed == 0,
            r@.durations_ns == Seq::<u128>::empty(),
    {
        let warmups = env_usize(warmups, 2);
        let repeats = env_usize(repeats, 5);
        let repeats: usize = if repeats < 1 {
            1
        } else {
            repeats
        };
        Measurement { warmups, repeats, warmed: 0, durations_ns: Vec::new() }
    }

    /// What to do next.
    pub fn action(&self) -> (r: Action)
        ensures
            r == self@.action(),
    {
        if self.warmed < self.warmups {
            Action::WarmUp
        } else if self.durations_ns.len() < self.repeats {
            Action::Time
        } else {
            Action::Finish
        }
    }

    /// A warm-up run is done.
    pub fn warmed_up(self) -> (r: Measurement)
        requires
            self@.action() is WarmUp,
        ensures
            r@ == (MeasurementModel { warmed: self@.warmed + 1, ..self@ }),
    {
        proof {
            use_type_invariant(&self);
        }
        Measurement { warmed: self.warmed + 1, ..self }
    }

    /// A timed run is done, and took this long.
    pub fn timed(self, ns: u128) -> (r: Measurement)
        requires
            self@.action() is Time,
        ensures
            r@ == (MeasurementModel { durations_ns: self@.durations_ns.push(ns), ..self@ }),
    {
        proof {
            use_type_invariant(&self);
        }
        let mut durations_ns = self.durations_ns;
        durations_ns.push(ns);
        Measurement {
            warmups: self.warmups,
            repeats: self.repeats,
            warmed: self.warmed,
            durations_ns,
        }
    }

    /// The results of a finished measurement.
    pub fn finish(self, name: &str) -> (r: Results)
        requires
            self@.action() is Finish,
        ensures
            r.name@ == name@,
            r.entity_count == ENTITY_COUNT,
            r.steps == STEPS,
            r.warmups == self@.warmups,
            r.repeats == self@.repeats,
            r.durations_ns@ == self@.durations_ns,
            r.durations_ns@.len() == r.repeats,
            r.repeats > 0,
    {
        proof {
            use_type_invariant(&self);
        }
        Results {
            name: name.to_owned(),
            entity_count: ENTITY_COUNT,
            steps: STEPS,
            warmups: self.warmups,
            repeats: self.repeats,
            durations_ns: self.durations_ns,
        }
    }
}

/// A measurement warms up first, then times, and is finished just when all of its runs are
/// done.
pub proof fn law_measurements_make_all_their_runs(m: MeasurementModel)
    requires
        m.warmed <= m.warmups,
        m.durations_ns.len() <= m.repeats,
    ensures
        m.action() is WarmUp <==> m.warmed < m.warmups,
        m.action() is Time ==> m.warmed == m.warmups && m.durations_ns.len() < m.repeats,
        m.action() is Finish <==> m.warmed == m.warmups && m.durations_ns.len() == m.repeats,
{
}

/// The initial state is drawn in order from the seed `0x123456789ABCDEF0`: component `j` of each
/// of the 100000 entities is draw `4 * i + j`, of which the upper 24 bits, over two to the power
/// of 23 and less one, are the value.
pub proof fn law_initial_state_is_drawn_in_order(state: Seq<[F32Bits; 4]>, i: int, j: int)
    requires
        is_initial(state),
        0 <= i < 100_000,
        0 <= j < 4,
    ensures
        state.len() == 100_000,
        prng::is_signed_unit(
            state[i]@[j],
            prng::draw(0x1234_5678_9ABC_DEF0, (4 * i + j) as nat) / 0x100_0000_0000 - 0x80_0000,
        ),
{
    let drawn = prng::draw(SEED, (4 * i + j) as nat);
    prng::law_numerators_are_the_upper_bits(drawn, drawn);
    let x = state[i]@[j];
    assert(prng::is_signed_unit(x, prng::numerator(drawn)));
}

/// A count is what was given, where that is a number, with or without a sign; else it is the
/// default.
pub proof fn law_given_counts_are_taken(given: Seq<char>, n: nat, default: usize)
    ensures
        count_or(None, default) == default,
        n <= usize::MAX ==> count_or(Some(text::decimal(n)), default) == n,
        n <= usize::MAX ==> count_or(Some(seq!['+'] + text::decimal(n)), default) == n,
        n > usize::MAX ==> count_or(Some(text::decimal(n)), default) == default,
        text::parsed(given, usize::MAX as nat) is None ==> count_or(Some(given), default)
            == default,
{
    text::lemma_decimal(n);
    text::law_parse_undoes_decimal(n, n);
    text::law_numbers_are_read_in_tens(text::decimal(n), 0, usize::MAX as nat, 0);
    assert(text::is_digit(text::decimal(n)[0]));
}

/// The runs of a measurement that are still to be made.
pub open spec fn runs_left(m: MeasurementModel) -> int {
    (m.warmups - m.warmed) + (m.repeats - m.durations_ns.len())
}

/// Every run that is made is one run fewer to make, warm-up runs come before timed ones, and the
/// measurement is finished when none is left: so it makes as many of each as it was started with.
pub proof fn law_every_run_is_counted(m: MeasurementModel, ns: u128)
    requires
        m.warmed <= m.warmups,
        m.durations_ns.len() <= m.repeats,
    ensures
        m.action() is Finish <==> runs_left(m) == 0,
        m.action() is WarmUp ==> runs_left(MeasurementModel { warmed: m.warmed + 1, ..m })
            == runs_left(m) - 1,
        m.action() is Time ==> m.warmed == m.warmups && runs_left(
            MeasurementModel { durations_ns: m.durations_ns.push(ns), ..m },
        ) == runs_left(m) - 1,
{
}

} // verus!
