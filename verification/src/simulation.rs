//! Running the simulation. What one integration step makes of an entity is given; how steps,
//! entities and batches follow one another is what this module is about.

use crate::batch;
use crate::batch::batches;
use crate::scenario;
use crate::scenario::{initial_state, STEPS};
use crate::value::F32Bits;
use vstd::prelude::*;
use vstd::slice::slice_subrange;

verus! {

/// An entity: position and velocity, `[px, py, vx, vy]`.
pub type Entity = [F32Bits; 4];

/// `path` is a run of states of one entity, each of which `advance` may make of the one before.
pub open spec fn is_path<F: Fn(Entity) -> Entity>(advance: F, path: Seq<Entity>) -> bool {
    &&& path.len() > 0
    &&& forall|k: int|
        0 <= k < path.len() - 1 ==> advance.ensures((#[trigger] path[k],), path[k + 1])
}

/// `steps` steps may take an entity from `from` to `to`.
pub open spec fn may_reach<F: Fn(Entity) -> Entity>(
    advance: F,
    from: Entity,
    to: Entity,
    steps: nat,
) -> bool {
    exists|path: Seq<Entity>| #[trigger]
        is_path(advance, path) && path.len() == steps + 1 && path[0] == from && path.last() == to
}

proof fn lemma_reach_none<F: Fn(Entity) -> Entity>(advance: F, from: Entity)
    ensures
        may_reach(advance, from, from, 0),
{
    assert(is_path(advance, seq![from]));
}

proof fn lemma_reach_one_more<F: Fn(Entity) -> Entity>(
    advance: F,
    from: Entity,
    mid: Entity,
    to: Entity,
    steps: nat,
)
    requires
        may_reach(advance, from, mid, steps),
        advance.ensures((mid,), to),
    ensures
        may_reach(advance, from, to, steps + 1),
{
    let path = choose|path: Seq<Entity>| #[trigger]
        is_path(advance, path) && path.len() == steps + 1 && path[0] == from && path.last() == mid;
    let more = path.push(to);
    assert forall|k: int| 0 <= k < more.len() - 1 implies advance.ensures(
        (#[trigger] more[k],),
        more[k + 1],
    ) by {
        if k < path.len() - 1 {
            assert(more[k] == path[k]);
        }
    }
    assert(is_path(advance, more));
}

/// Take every entity `steps` steps on, one entity at a time within each step.
pub fn simulate<F: Fn(Entity) -> Entity>(state: Vec<Entity>, steps: usize, advance: F) -> (r: Vec<
    Entity,
>)
    requires
        forall|e: Entity| #[trigger] advance.requires((e,)),
    ensures
        all_reach(advance, state@, r@, steps as nat),
{
    let ghost start = state@;
    let mut state = state;
    let n = state.len();
    let mut k: usize = 0;
    proof {
        assert forall|i: int| 0 <= i < n implies may_reach(
            advance,
            start[i],
            #[trigger] state@[i],
            0,
        ) by {
            lemma_reach_none(advance, start[i]);
        }
    }
    while k < steps
        invariant
            k <= steps,
            n == start.len(),
            state@.len() == n,
            forall|e: Entity| #[trigger] advance.requires((e,)),
            forall|i: int|
                0 <= i < n ==> may_reach(advance, start[i], #[trigger] state@[i], k as nat),
        decreases steps - k,
    {
        let mut i: usize = 0;
        while i < n
            invariant
                i <= n,
                n == start.len(),
                state@.len() == n,
                forall|e: Entity| #[trigger] advance.requires((e,)),
                forall|j: int|
                    0 <= j < i ==> may_reach(
                        advance,
                        start[j],
                        #[trigger] state@[j],
                        (k + 1) as nat,
                    ),
                forall|j: int|
                    i <= j < n ==> may_reach(advance, start[j], #[trigger] state@[j], k as nat),
            decreases n - i,
        {
            let before = state[i];
            assert(advance.requires((before,)));
            let next = advance(before);
            proof {
                lemma_reach_one_more(advance, start[i as int], before, next, k as nat);
            }
            state.set(i, next);
            i += 1;
        }
        k += 1;
    }
    state
}

/// Runs of entities, one after the other.
pub open spec fn concat(parts: Seq<Seq<Entity>>) -> Seq<Entity>
    decreases parts.len(),
{
    if parts.len() == 0 {
        seq![]
    } else {
        concat(parts.drop_last()) + parts.last()
    }
}

/// `out` is what `advance` may make of the entities `[range.0, range.1)` of `state`.
pub open spec fn may_advance<F: Fn(&[Entity]) -> Vec<Entity>>(
    advance: F,
    state: Seq<Entity>,
    range: (usize, usize),
    out: Seq<Entity>,
) -> bool {
    exists|input: &[Entity], output: Vec<Entity>|
        {
            &&& #[trigger] advance.ensures((input,), output)
            &&& input@ == state.subrange(range.0 as int, range.1 as int)
            &&& output@ == out
        }
}

/// One step in batches: `outs` is what `advance` may make of the first batches of `state`.
pub open spec fn batches_advance<F: Fn(&[Entity]) -> Vec<Entity>>(
    advance: F,
    state: Seq<Entity>,
    size: nat,
    outs: Seq<Seq<Entity>>,
) -> bool {
    let ranges = batch::batches_from(0, state.len(), size);
    &&& outs.len() <= ranges.len()
    &&& forall|j: int|
        0 <= j < outs.len() ==> may_advance(advance, state, ranges[j], #[trigger] outs[j])
}

/// One step in batches may take `from` to `to`.
pub open spec fn may_step<F: Fn(&[Entity]) -> Vec<Entity>>(
    advance: F,
    size: nat,
    from: Seq<Entity>,
    to: Seq<Entity>,
) -> bool {
    exists|outs: Seq<Seq<Entity>>|
        {
            &&& #[trigger] batches_advance(advance, from, size, outs)
            &&& outs.len() == batch::batches_from(0, from.len(), size).len()
            &&& to == concat(outs)
        }
}

/// `path` is a run of states of the whole simulation, each one step behind the one before.
pub open spec fn is_run<F: Fn(&[Entity]) -> Vec<Entity>>(
    advance: F,
    size: nat,
    path: Seq<Seq<Entity>>,
) -> bool {
    &&& path.len() > 0
    &&& forall|k: int|
        0 <= k < path.len() - 1 ==> may_step(advance, size, #[trigger] path[k], path[k + 1])
}

/// One step: pass the entities through `advance` in batches of `size`, and put together what
/// comes back.
pub fn step_in_batches<F: Fn(&[Entity]) -> Vec<Entity>>(
    state: &Vec<Entity>,
    size: usize,
    advance: &F,
) -> (r: Vec<Entity>)
    requires
        size > 0,
        forall|input: &[Entity]| #[trigger] advance.requires((input,)),
    ensures
        may_step(*advance, size as nat, state@, r@),
{
    let ranges = batches(state.len(), size);
    let ghost want = batch::batches_from(0, state@.len(), size as nat);
    let mut next: Vec<Entity> = Vec::new();
    let ghost mut outs: Seq<Seq<Entity>> = seq![];
    let mut j: usize = 0;
    proof {
        assert(state.len() == state@.len());
        batch::law_batches_partition_the_list(0, state@.len(), size as nat);
        batch::lemma_batches_within(0, state@.len(), size as nat);
        assert(concat(outs) =~= seq![]);
    }
    while j < ranges.len()
        invariant
            j <= ranges@.len(),
            ranges@ == want,
            want == batch::batches_from(0, state@.len(), size as nat),
            forall|i: int|
                0 <= i < want.len() ==> (#[trigger] want[i]).0 <= want[i].1 <= state@.len(),
            forall|input: &[Entity]| #[trigger] advance.requires((input,)),
            outs.len() == j,
            batches_advance(*advance, state@, size as nat, outs),
            next@ == concat(outs),
        decreases ranges@.len() - j,
    {
        let (start, end) = ranges[j];
        assert(want[j as int].0 <= want[j as int].1 <= state@.len());
        let input = slice_subrange(state.as_slice(), start, end);
        assert(advance.requires((input,)));
        let mut out = advance(input);
        proof {
            let more = outs.push(out@);
            assert(may_advance(*advance, state@, want[j as int], out@));
            assert forall|i: int| 0 <= i < more.len() implies may_advance(
                *advance,
                state@,
                want[i],
                #[trigger] more[i],
            ) by {
                if i < outs.len() {
                    assert(more[i] == outs[i]);
                }
            }
            assert(more.drop_last() =~= outs);
            outs = more;
        }
        next.append(&mut out);
        assert(next@ =~= concat(outs));
        j += 1;
    }
    next
}

/// Take the simulation `steps` steps on, each of them in batches of `size`.
pub fn simulate_in_batches<F: Fn(&[Entity]) -> Vec<Entity>>(
    state: Vec<Entity>,
    steps: usize,
    size: usize,
    advance: F,
) -> (r: Vec<Entity>)
    requires
        size > 0,
        forall|input: &[Entity]| #[trigger] advance.requires((input,)),
    ensures
        exists|path: Seq<Seq<Entity>>|
            {
                &&& #[trigger] is_run(advance, size as nat, path)
                &&& path.len() == steps + 1
                &&& path[0] == state@
                &&& path.last() == r@
            },
{
    let mut now = state;
    let ghost mut path: Seq<Seq<Entity>> = seq![state@];
    let mut k: usize = 0;
    while k < steps
        invariant
            k <= steps,
            size > 0,
            forall|input: &[Entity]| #[trigger] advance.requires((input,)),
            is_run(advance, size as nat, path),
            path.len() == k + 1,
            path[0] == state@,
            path.last() == now@,
        decreases steps - k,
    {
        let next = step_in_batches(&now, size, &advance);
        proof {
            let more = path.push(next@);
            assert forall|i: int| 0 <= i < more.len() - 1 implies may_step(
                advance,
                size as nat,
                #[trigger] more[i],
                more[i + 1],
            ) by {
                if i < path.len() - 1 {
                    assert(more[i] == path[i]);
                }
            }
            path = more;
        }
        now = next;
        k += 1;
    }
    assert(is_run(advance, size as nat, path));
    now
}

/// The runs of entities in some vectors.
pub open spec fn runs_of(parts: Seq<Vec<Entity>>) -> Seq<Seq<Entity>> {
    Seq::new(parts.len(), |i: int| parts[i]@)
}

/// Put together what a stream delivered in pieces.
pub fn put_together(parts: &Vec<Vec<Entity>>) -> (r: Vec<Entity>)
    ensures
        r@ == concat(runs_of(parts@)),
{
    let ghost runs = runs_of(parts@);
    let mut all: Vec<Entity> = Vec::new();
    let mut i: usize = 0;
    assert(runs.take(0) =~= seq![]);
    while i < parts.len()
        invariant
            i <= parts@.len(),
            runs == runs_of(parts@),
            all@ == concat(runs.take(i as int)),
        decreases parts@.len() - i,
    {
        let ghost before = all@;
        let part = &parts[i];
        let mut j: usize = 0;
        assert(before + part@.take(0) =~= before);
        while j < part.len()
            invariant
                j <= part@.len(),
                all@ == before + part@.take(j as int),
            decreases part@.len() - j,
        {
            all.push(part[j]);
            j += 1;
            assert(all@ =~= before + part@.take(j as int));
        }
        proof {
            assert(part@.take(j as int) =~= part@);
            assert(runs.take(i + 1).drop_last() =~= runs.take(i as int));
        }
        i += 1;
    }
    assert(runs.take(i as int) =~= runs);
    all
}

/// The components of a state, entity by entity.
pub open spec fn components(state: Seq<Entity>) -> Seq<F32Bits> {
    Seq::new(4 * state.len(), |i: int| state[i / 4]@[i % 4])
}

/// `sums` is a run of accumulators over `items`.
pub open spec fn folds<A, F: Fn(A, F32Bits) -> A>(
    step: F,
    items: Seq<F32Bits>,
    sums: Seq<A>,
) -> bool {
    &&& sums.len() == items.len() + 1
    &&& forall|i: int|
        0 <= i < items.len() ==> step.ensures((sums[i], #[trigger] items[i]), sums[i + 1])
}

/// `x` is a checksum of `state`: its components, entity by entity and `px, py, vx, vy` within
/// each, added up by `add` from `zero` on.
pub open spec fn is_checksum<A, F: Fn(A, F32Bits) -> A>(
    add: F,
    zero: A,
    state: Seq<Entity>,
    x: A,
) -> bool {
    exists|sums: Seq<A>|
        {
            &&& #[trigger] folds(add, components(state), sums)
            &&& sums[0] == zero
            &&& sums.last() == x
        }
}

/// The checksum of a state. What it is a number of, and how that is added, is given.
pub fn checksum<A: Copy, F: Fn(A, F32Bits) -> A>(state: &Vec<Entity>, from: A, step: F) -> (r: A)
    requires
        forall|acc: A, x: F32Bits| #[trigger] step.requires((acc, x)),
    ensures
        is_checksum(step, from, state@, r),
{
    let mut acc = from;
    let ghost all = components(state@);
    let ghost mut sums: Seq<A> = seq![from];
    let mut i: usize = 0;
    assert(all.take(0) =~= seq![]);
    while i < state.len()
        invariant
            i <= state@.len(),
            all == components(state@),
            forall|acc: A, x: F32Bits| #[trigger] step.requires((acc, x)),
            folds(step, all.take(4 * i), sums),
            sums[0] == from,
            sums.last() == acc,
        decreases state@.len() - i,
    {
        let mut j: usize = 0;
        while j < 4
            invariant
                j <= 4,
                i < state@.len(),
                all == components(state@),
                forall|acc: A, x: F32Bits| #[trigger] step.requires((acc, x)),
                folds(step, all.take(4 * i + j), sums),
                sums[0] == from,
                sums.last() == acc,
            decreases 4 - j,
        {
            let x = state[i][j];
            assert(step.requires((acc, x)));
            let next = step(acc, x);
            proof {
                let n = 4 * i + j;
                assert(n / 4 == i && n % 4 == j);
                assert(all[n] == x);
                let more = sums.push(next);
                assert forall|k: int| 0 <= k < n + 1 implies step.ensures(
                    (more[k], #[trigger] all.take(n + 1)[k]),
                    more[k + 1],
                ) by {
                    if k < n {
                        assert(all.take(n)[k] == all[k]);
                    }
                }
                sums = more;
            }
            acc = next;
            j += 1;
        }
        i += 1;
    }
    proof {
        assert(all.take(4 * i as int) =~= all);
        assert(folds(step, all, sums));
    }
    acc
}

/// A batch is advanced entity by entity: what `advance` makes of a batch is what `each` may make
/// of every entity in it.
pub open spec fn pointwise<F: Fn(&[Entity]) -> Vec<Entity>, G: Fn(Entity) -> Entity>(
    advance: F,
    each: G,
) -> bool {
    forall|input: &[Entity], output: Vec<Entity>| #[trigger]
        advance.ensures((input,), output) ==> {
            &&& output@.len() == input@.len()
            &&& forall|i: int|
                0 <= i < input@.len() ==> each.ensures((input@[i],), #[trigger] output@[i])
        }
}

/// The first batches of a step advance the first entities, one for one.
proof fn lemma_first_batches<F: Fn(&[Entity]) -> Vec<Entity>, G: Fn(Entity) -> Entity>(
    advance: F,
    each: G,
    state: Seq<Entity>,
    size: nat,
    outs: Seq<Seq<Entity>>,
)
    requires
        pointwise(advance, each),
        size > 0,
        state.len() <= usize::MAX,
        batches_advance(advance, state, size, outs),
    ensures
        ({
            let ranges = batch::batches_from(0, state.len(), size);
            let end = if outs.len() == 0 {
                0
            } else {
                ranges[outs.len() - 1].1 as nat
            };
            &&& concat(outs).len() == end
            &&& end <= state.len()
            &&& forall|i: int|
                0 <= i < end ==> each.ensures((state[i],), #[trigger] concat(outs)[i])
        }),
    decreases outs.len(),
{
    let ranges = batch::batches_from(0, state.len(), size);
    batch::law_batches_partition_the_list(0, state.len(), size);
    batch::lemma_batches_within(0, state.len(), size);
    if outs.len() > 0 {
        let fewer = outs.drop_last();
        let j = outs.len() - 1;
        assert forall|k: int| 0 <= k < fewer.len() implies may_advance(
            advance,
            state,
            ranges[k],
            #[trigger] fewer[k],
        ) by {
            assert(fewer[k] == outs[k]);
        }
        lemma_first_batches(advance, each, state, size, fewer);
        let range = ranges[j];
        assert(range.0 == concat(fewer).len()) by {
            if j > 0 {
                assert(ranges[j - 1].1 == ranges[j - 1 + 1].0);
            }
        }
        assert(may_advance(advance, state, range, outs[j]));
        let (input, output) = choose|input: &[Entity], output: Vec<Entity>|
            {
                &&& #[trigger] advance.ensures((input,), output)
                &&& input@ == state.subrange(range.0 as int, range.1 as int)
                &&& output@ == outs[j]
            };
        let all = concat(outs);
        assert forall|i: int| 0 <= i < range.1 implies each.ensures(
            (state[i],),
            #[trigger] all[i],
        ) by {
            if i < range.0 {
                assert(all[i] == concat(fewer)[i]);
            } else {
                assert(all[i] == output@[i - range.0]);
                assert(input@[i - range.0] == state[i]);
            }
        }
    }
}

/// One step in batches advances every entity, one for one.
proof fn lemma_step_is_pointwise<F: Fn(&[Entity]) -> Vec<Entity>, G: Fn(Entity) -> Entity>(
    advance: F,
    each: G,
    size: nat,
    from: Seq<Entity>,
    to: Seq<Entity>,
)
    requires
        pointwise(advance, each),
        size > 0,
        from.len() <= usize::MAX,
        may_step(advance, size, from, to),
    ensures
        to.len() == from.len(),
        forall|i: int| 0 <= i < from.len() ==> each.ensures((from[i],), #[trigger] to[i]),
{
    let outs = choose|outs: Seq<Seq<Entity>>|
        {
            &&& #[trigger] batches_advance(advance, from, size, outs)
            &&& outs.len() == batch::batches_from(0, from.len(), size).len()
            &&& to == concat(outs)
        };
    batch::law_batches_partition_the_list(0, from.len(), size);
    lemma_first_batches(advance, each, from, size, outs);
}

/// The size of the batches does not show: where a batch is advanced entity by entity, a run in
/// batches takes every entity where steps of its own may take it, whatever the size.
pub proof fn law_batches_do_not_show<F: Fn(&[Entity]) -> Vec<Entity>, G: Fn(Entity) -> Entity>(
    advance: F,
    each: G,
    size: nat,
    path: Seq<Seq<Entity>>,
)
    requires
        pointwise(advance, each),
        size > 0,
        is_run(advance, size, path),
        path[0].len() <= usize::MAX,
    ensures
        path.last().len() == path[0].len(),
        forall|i: int|
            0 <= i < path[0].len() ==> may_reach(
                each,
                path[0][i],
                #[trigger] path.last()[i],
                (path.len() - 1) as nat,
            ),
    decreases path.len(),
{
    if path.len() == 1 {
        assert forall|i: int| 0 <= i < path[0].len() implies may_reach(
            each,
            path[0][i],
            #[trigger] path.last()[i],
            0,
        ) by {
            lemma_reach_none(each, path[0][i]);
        }
    } else {
        let before = path.drop_last();
        let k = path.len() - 2;
        assert forall|j: int| 0 <= j < before.len() - 1 implies may_step(
            advance,
            size,
            #[trigger] before[j],
            before[j + 1],
        ) by {
            assert(before[j] == path[j]);
        }
        law_batches_do_not_show(advance, each, size, before);
        assert(may_step(advance, size, path[k], path[k + 1]));
        lemma_step_is_pointwise(advance, each, size, path[k], path[k + 1]);
        assert forall|i: int| 0 <= i < path[0].len() implies may_reach(
            each,
            path[0][i],
            #[trigger] path.last()[i],
            (path.len() - 1) as nat,
        ) by {
            assert(before.last()[i] == path[k][i]);
            lemma_reach_one_more(
                each,
                path[0][i],
                path[k][i],
                path.last()[i],
                (path.len() - 2) as nat,
            );
        }
    }
}

/// `advance` leaves no choice: it makes the same of the same entity.
pub open spec fn settled<F: Fn(Entity) -> Entity>(advance: F) -> bool {
    forall|e: Entity, a: Entity, b: Entity| #[trigger]
        advance.ensures((e,), a) && #[trigger] advance.ensures((e,), b) ==> a == b
}

/// Where one step leaves no choice, neither does a run: from the same state, the same number of
/// steps leads to the same state, whoever takes them and in whatever batches.
pub proof fn law_runs_are_deterministic<F: Fn(Entity) -> Entity>(
    advance: F,
    from: Entity,
    a: Entity,
    b: Entity,
    steps: nat,
)
    requires
        settled(advance),
        may_reach(advance, from, a, steps),
        may_reach(advance, from, b, steps),
    ensures
        a == b,
{
    let p = choose|path: Seq<Entity>| #[trigger]
        is_path(advance, path) && path.len() == steps + 1 && path[0] == from && path.last() == a;
    let q = choose|path: Seq<Entity>| #[trigger]
        is_path(advance, path) && path.len() == steps + 1 && path[0] == from && path.last() == b;
    lemma_paths_agree(advance, p, q, steps);
}

proof fn lemma_paths_agree<F: Fn(Entity) -> Entity>(
    advance: F,
    p: Seq<Entity>,
    q: Seq<Entity>,
    k: nat,
)
    requires
        settled(advance),
        is_path(advance, p),
        is_path(advance, q),
        p[0] == q[0],
        k < p.len(),
        k < q.len(),
    ensures
        p[k as int] == q[k as int],
    decreases k,
{
    if k > 0 {
        lemma_paths_agree(advance, p, q, (k - 1) as nat);
        assert(advance.ensures((p[k - 1],), p[k - 1 + 1]));
        assert(advance.ensures((q[k - 1],), q[k - 1 + 1]));
    }
}

/// A fold that leaves no choice in any step depends on the components only: equal states have
/// equal checksums.
pub proof fn law_folds_are_deterministic<A, F: Fn(A, F32Bits) -> A>(
    step: F,
    items: Seq<F32Bits>,
    a: Seq<A>,
    b: Seq<A>,
    n: nat,
)
    requires
        forall|acc: A, x: F32Bits, y: A, z: A| #[trigger]
            step.ensures((acc, x), y) && #[trigger] step.ensures((acc, x), z) ==> y == z,
        folds(step, items, a),
        folds(step, items, b),
        a[0] == b[0],
        n <= items.len(),
    ensures
        a[n as int] == b[n as int],
    decreases n,
{
    if n > 0 {
        law_folds_are_deterministic(step, items, a, b, (n - 1) as nat);
        let x = items[n - 1];
        assert(step.ensures((a[n - 1], x), a[n - 1 + 1]));
        assert(step.ensures((b[n - 1], x), b[n - 1 + 1]));
    }
}

/// `end` is a state that a run may lead to: all steps of the scenario, from its initial state.
pub open spec fn is_run_end<F: Fn(Entity) -> Entity>(advance: F, end: Seq<Entity>) -> bool {
    exists|start: Seq<Entity>| #[trigger]
        scenario::is_initial(start) && all_reach(advance, start, end, scenario::STEPS as nat)
}

/// `steps` steps may take each entity of `start` to its counterpart in `end`.
pub open spec fn all_reach<F: Fn(Entity) -> Entity>(
    advance: F,
    start: Seq<Entity>,
    end: Seq<Entity>,
    steps: nat,
) -> bool {
    &&& end.len() == start.len()
    &&& forall|i: int|
        0 <= i < start.len() ==> may_reach(advance, start[i], #[trigger] end[i], steps)
}

/// One full simulation: the initial state, taken through all steps of the scenario.
pub fn run<F: Fn(Entity) -> Entity>(advance: F) -> (r: Vec<Entity>)
    requires
        forall|e: Entity| #[trigger] advance.requires((e,)),
    ensures
        is_run_end(advance, r@),
        exists|start: Seq<Entity>| #[trigger]
            scenario::is_initial(start) && all_reach(advance, start, r@, 1000),
{
    let start = initial_state();
    let ghost from = start@;
    let end = simulate(start, STEPS, advance);
    assert(scenario::is_initial(from) && all_reach(advance, from, end@, STEPS as nat));
    end
}

/// `add` leaves no choice: it makes the same of the same sum and component.
pub open spec fn settled_sum<A, F: Fn(A, F32Bits) -> A>(add: F) -> bool {
    forall|acc: A, x: F32Bits, y: A, z: A| #[trigger]
        add.ensures((acc, x), y) && #[trigger] add.ensures((acc, x), z) ==> y == z
}

/// Runs are deterministic: where neither a step nor an addition leaves a choice, two runs end in
/// the same state, and with the same checksum.
pub proof fn law_run_is_deterministic<A, F: Fn(Entity) -> Entity, G: Fn(A, F32Bits) -> A>(
    advance: F,
    add: G,
    zero: A,
    a: Seq<Entity>,
    b: Seq<Entity>,
    x: A,
    y: A,
)
    requires
        settled(advance),
        settled_sum(add),
        is_run_end(advance, a),
        is_run_end(advance, b),
        is_checksum(add, zero, a, x),
        is_checksum(add, zero, b, y),
    ensures
        a == b,
        x == y,
{
    let start = choose|start: Seq<Entity>| #[trigger]
        scenario::is_initial(start) && all_reach(advance, start, a, scenario::STEPS as nat);
    let other = choose|start: Seq<Entity>| #[trigger]
        scenario::is_initial(start) && all_reach(advance, start, b, scenario::STEPS as nat);
    scenario::law_initial_state_is_determined(start, other);
    assert forall|i: int| 0 <= i < a.len() implies a[i] == b[i] by {
        law_runs_are_deterministic(advance, start[i], a[i], b[i], scenario::STEPS as nat);
    }
    assert(a =~= b);
    let items = components(a);
    let p = choose|sums: Seq<A>|
        {
            &&& #[trigger] folds(add, items, sums)
            &&& sums[0] == zero
            &&& sums.last() == x
        };
    let q = choose|sums: Seq<A>|
        {
            &&& #[trigger] folds(add, items, sums)
            &&& sums[0] == zero
            &&& sums.last() == y
        };
    law_folds_are_deterministic(add, items, p, q, items.len());
}

/// No steps leave an entity where it is, one step takes it where `advance` may, and `a + b` steps
/// are `a` steps and `b` more from wherever those led.
pub proof fn law_steps_add_up<F: Fn(Entity) -> Entity>(
    advance: F,
    from: Entity,
    to: Entity,
    a: nat,
    b: nat,
)
    ensures
        may_reach(advance, from, to, 0) <==> from == to,
        may_reach(advance, from, to, 1) <==> advance.ensures((from,), to),
        may_reach(advance, from, to, a + b) <==> exists|mid: Entity| #[trigger]
            may_reach(advance, from, mid, a) && may_reach(advance, mid, to, b),
{
    if may_reach(advance, from, to, 0) {
        let path = choose|path: Seq<Entity>| #[trigger]
            is_path(advance, path) && path.len() == 0 + 1nat && path[0] == from && path.last()
                == to;
        assert(path[0] == from && path.last() == to);
    }
    lemma_reach_none(advance, from);
    if may_reach(advance, from, to, 1) {
        let path = choose|path: Seq<Entity>| #[trigger]
            is_path(advance, path) && path.len() == 1 + 1nat && path[0] == from && path.last()
                == to;
        assert(advance.ensures((path[0],), path[0 + 1int]));
    }
    if advance.ensures((from,), to) {
        lemma_reach_one_more(advance, from, from, to, 0);
    }
    if may_reach(advance, from, to, a + b) {
        let path = choose|path: Seq<Entity>| #[trigger]
            is_path(advance, path) && path.len() == a + b + 1 && path[0] == from && path.last()
                == to;
        let head = path.take(a + 1int);
        let tail = path.skip(a as int);
        assert forall|k: int| 0 <= k < head.len() - 1 implies advance.ensures(
            (#[trigger] head[k],),
            head[k + 1],
        ) by {
            assert(head[k] == path[k] && head[k + 1] == path[k + 1]);
        }
        assert forall|k: int| 0 <= k < tail.len() - 1 implies advance.ensures(
            (#[trigger] tail[k],),
            tail[k + 1],
        ) by {
            assert(tail[k] == path[a + k] && tail[k + 1] == path[a + k + 1]);
        }
        assert(is_path(advance, head));
        assert(is_path(advance, tail));
        assert(may_reach(advance, from, path[a as int], a));
        assert(may_reach(advance, path[a as int], to, b));
    }
    if exists|mid: Entity| #[trigger]
        may_reach(advance, from, mid, a) && may_reach(advance, mid, to, b) {
        let mid = choose|mid: Entity| #[trigger]
            may_reach(advance, from, mid, a) && may_reach(advance, mid, to, b);
        let p = choose|path: Seq<Entity>| #[trigger]
            is_path(advance, path) && path.len() == a + 1 && path[0] == from && path.last() == mid;
        let q = choose|path: Seq<Entity>| #[trigger]
            is_path(advance, path) && path.len() == b + 1 && path[0] == mid && path.last() == to;
        let path = p + q.skip(1);
        assert forall|k: int| 0 <= k < path.len() - 1 implies advance.ensures(
            (#[trigger] path[k],),
            path[k + 1],
        ) by {
            if k < a {
                assert(path[k] == p[k] && path[k + 1] == p[k + 1]);
            } else {
                assert(path[k] == q[k - a] && path[k + 1] == q[k - a + 1]);
            }
        }
        assert(is_path(advance, path));
        assert(path.last() == to);
    }
}

/// Every step is taken, once: where a step adds one to some count that an entity carries, `steps`
/// steps add `steps` to the count of every entity, and no entity is lost or added.
pub proof fn law_every_step_is_taken_once<F: Fn(Entity) -> Entity>(
    advance: F,
    count: spec_fn(Entity) -> int,
    start: Seq<Entity>,
    end: Seq<Entity>,
    steps: nat,
)
    requires
        forall|e: Entity, r: Entity| #[trigger]
            advance.ensures((e,), r) ==> count(r) == count(e) + 1,
        all_reach(advance, start, end, steps),
    ensures
        end.len() == start.len(),
        forall|i: int| 0 <= i < start.len() ==> count(#[trigger] end[i]) == count(start[i]) + steps,
{
    assert forall|i: int| 0 <= i < start.len() implies count(#[trigger] end[i]) == count(start[i])
        + steps by {
        lemma_steps_are_counted(advance, count, start[i], end[i], steps);
    }
}

proof fn lemma_steps_are_counted<F: Fn(Entity) -> Entity>(
    advance: F,
    count: spec_fn(Entity) -> int,
    from: Entity,
    to: Entity,
    steps: nat,
)
    requires
        forall|e: Entity, r: Entity| #[trigger]
            advance.ensures((e,), r) ==> count(r) == count(e) + 1,
        may_reach(advance, from, to, steps),
    ensures
        count(to) == count(from) + steps,
    decreases steps,
{
    if steps == 0 {
        law_steps_add_up(advance, from, to, 0, 0);
    } else {
        let less = (steps - 1) as nat;
        law_steps_add_up(advance, from, to, less, 1);
        let mid = choose|mid: Entity| #[trigger]
            may_reach(advance, from, mid, less) && may_reach(advance, mid, to, 1);
        lemma_steps_are_counted(advance, count, from, mid, less);
        law_steps_add_up(advance, mid, to, 0, 0);
    }
}

/// A run takes each of the 100000 entities of the initial state through 1000 steps, no more and
/// no fewer: `end` is the end of a run just when 1000 steps may lead there from the initial state,
/// and where a step adds one to some count that an entity carries, a run adds 1000 to it.
pub proof fn law_a_run_has_a_thousand_steps<F: Fn(Entity) -> Entity>(
    advance: F,
    count: spec_fn(Entity) -> int,
    start: Seq<Entity>,
    end: Seq<Entity>,
)
    requires
        scenario::is_initial(start),
    ensures
        is_run_end(advance, end) <==> all_reach(advance, start, end, 1000),
        is_run_end(advance, end) ==> end.len() == 100_000,
        is_run_end(advance, end) && (forall|e: Entity, r: Entity| #[trigger]
            advance.ensures((e,), r) ==> count(r) == count(e) + 1) ==> forall|i: int|
            0 <= i < 100_000 ==> count(#[trigger] end[i]) == count(start[i]) + 1000,
{
    if is_run_end(advance, end) {
        let other = choose|other: Seq<Entity>| #[trigger]
            scenario::is_initial(other) && all_reach(
                advance,
                other,
                end,
                scenario::STEPS as nat,
            );
        scenario::law_initial_state_is_determined(start, other);
        if forall|e: Entity, r: Entity| #[trigger]
            advance.ensures((e,), r) ==> count(r) == count(e) + 1 {
            law_every_step_is_taken_once(advance, count, start, end, 1000);
        }
    }
}

/// Whoever takes the steps, and in whatever batches: where a batch is advanced entity by entity
/// and no step leaves a choice, 1000 steps in batches from the initial state end where a run does.
pub proof fn law_a_run_is_a_run_in_batches<
    F: Fn(&[Entity]) -> Vec<Entity>,
    G: Fn(Entity) -> Entity,
>(advance: F, each: G, size: nat, path: Seq<Seq<Entity>>, end: Seq<Entity>)
    requires
        pointwise(advance, each),
        settled(each),
        size > 0,
        is_run(advance, size, path),
        path.len() == 1001,
        scenario::is_initial(path[0]),
        is_run_end(each, end),
    ensures
        path.last() == end,
{
    law_a_run_has_a_thousand_steps(each, |e: Entity| 0int, path[0], end);
    law_batches_do_not_show(advance, each, size, path);
    assert forall|i: int| 0 <= i < end.len() implies path.last()[i] == end[i] by {
        law_runs_are_deterministic(each, path[0][i], path.last()[i], end[i], 1000);
    }
    assert(path.last() =~= end);
}

/// Every entity brings its four components, in order: component `j` of entity `i` is item
/// `4 * i + j`, nothing else is listed, and the components of one state after another are those
/// of the one, then those of the other.
pub proof fn law_every_component_is_listed(state: Seq<Entity>, other: Seq<Entity>)
    ensures
        components(state).len() == 4 * state.len(),
        forall|i: int, j: int|
            0 <= i < state.len() && 0 <= j < 4 ==> components(state)[4 * i + j] == #[trigger] state[i]@[j],
        components(state + other) == components(state) + components(other),
{
    assert forall|i: int, j: int| 0 <= i < state.len() && 0 <= j < 4 implies components(
        state,
    )[4 * i + j] == #[trigger] state[i]@[j] by {
        assert((4 * i + j) / 4 == i && (4 * i + j) % 4 == j);
    }
    let all = components(state + other);
    let parts = components(state) + components(other);
    assert forall|k: int| 0 <= k < all.len() implies all[k] == parts[k] by {
        let n = 4 * state.len() as int;
        if k < n {
            assert((state + other)[k / 4] == state[k / 4]);
        } else {
            assert((k - n) / 4 == k / 4 - state.len());
            assert((k - n) % 4 == k % 4);
            assert((state + other)[k / 4] == other[(k - n) / 4]);
        }
    }
    assert(all =~= parts);
}

/// The checksum of no entities is what it started from. That of one entity adds its `px`, `py`,
/// `vx` and `vy`, in this order and once each.
pub proof fn law_an_entity_is_summed_by_component<A, F: Fn(A, F32Bits) -> A>(
    step: F,
    from: A,
    entity: Entity,
    x: A,
)
    ensures
        is_checksum(step, from, seq![], x) <==> x == from,
        is_checksum(step, from, seq![entity], x) <==> exists|a: A, b: A, c: A|
            {
                &&& #[trigger] step.ensures((from, entity@[0]), a)
                &&& #[trigger] step.ensures((a, entity@[1]), b)
                &&& #[trigger] step.ensures((b, entity@[2]), c)
                &&& step.ensures((c, entity@[3]), x)
            },
{
    let none = components(seq![]);
    if is_checksum(step, from, seq![], x) {
        let sums = choose|sums: Seq<A>|
            {
                &&& #[trigger] folds(step, none, sums)
                &&& sums[0] == from
                &&& sums.last() == x
            };
        assert(sums.last() == sums[0]);
    }
    if x == from {
        assert(folds(step, none, seq![from]));
    }
    let items = components(seq![entity]);
    law_every_component_is_listed(seq![entity], seq![]);
    assert(items.len() == 4);
    assert(items[0] == entity@[0] && items[1] == entity@[1] && items[2] == entity@[2] && items[3]
        == entity@[3]);
    if is_checksum(step, from, seq![entity], x) {
        let sums = choose|sums: Seq<A>|
            {
                &&& #[trigger] folds(step, items, sums)
                &&& sums[0] == from
                &&& sums.last() == x
            };
        assert(step.ensures((sums[0], items[0]), sums[0 + 1int]));
        assert(step.ensures((sums[1], items[1]), sums[1 + 1int]));
        assert(step.ensures((sums[2], items[2]), sums[2 + 1int]));
        assert(step.ensures((sums[3], items[3]), sums[3 + 1int]));
    }
    if exists|a: A, b: A, c: A|
        {
            &&& #[trigger] step.ensures((from, entity@[0]), a)
            &&& #[trigger] step.ensures((a, entity@[1]), b)
            &&& #[trigger] step.ensures((b, entity@[2]), c)
            &&& step.ensures((c, entity@[3]), x)
        } {
        let (a, b, c) = choose|a: A, b: A, c: A|
            {
                &&& #[trigger] step.ensures((from, entity@[0]), a)
                &&& #[trigger] step.ensures((a, entity@[1]), b)
                &&& #[trigger] step.ensures((b, entity@[2]), c)
                &&& step.ensures((c, entity@[3]), x)
            };
        let sums = seq![from, a, b, c, x];
        assert(folds(step, items, sums));
    }
}

/// No entity is left out: the checksum of one state after another goes on over the second from
/// the checksum of the first.
pub proof fn law_checksums_go_on<A, F: Fn(A, F32Bits) -> A>(
    step: F,
    from: A,
    state: Seq<Entity>,
    other: Seq<Entity>,
    x: A,
)
    ensures
        is_checksum(step, from, state + other, x) <==> exists|mid: A| #[trigger]
            is_checksum(step, from, state, mid) && is_checksum(step, mid, other, x),
{
    law_every_component_is_listed(state, other);
    let p = components(state);
    let q = components(other);
    if is_checksum(step, from, state + other, x) {
        let sums = choose|sums: Seq<A>|
            {
                &&& #[trigger] folds(step, p + q, sums)
                &&& sums[0] == from
                &&& sums.last() == x
            };
        let head = sums.take(p.len() + 1int);
        let tail = sums.skip(p.len() as int);
        assert forall|i: int| 0 <= i < p.len() implies step.ensures(
            (head[i], #[trigger] p[i]),
            head[i + 1],
        ) by {
            assert((p + q)[i] == p[i]);
        }
        assert forall|i: int| 0 <= i < q.len() implies step.ensures(
            (tail[i], #[trigger] q[i]),
            tail[i + 1],
        ) by {
            assert((p + q)[p.len() + i] == q[i]);
        }
        assert(folds(step, p, head));
        assert(folds(step, q, tail));
        assert(is_checksum(step, from, state, head.last()));
        assert(tail.last() == sums.last());
        assert(is_checksum(step, head.last(), other, x));
    }
    if exists|mid: A| #[trigger]
        is_checksum(step, from, state, mid) && is_checksum(step, mid, other, x) {
        let mid = choose|mid: A| #[trigger]
            is_checksum(step, from, state, mid) && is_checksum(step, mid, other, x);
        let a = choose|sums: Seq<A>|
            {
                &&& #[trigger] folds(step, p, sums)
                &&& sums[0] == from
                &&& sums.last() == mid
            };
        let b = choose|sums: Seq<A>|
            {
                &&& #[trigger] folds(step, q, sums)
                &&& sums[0] == mid
                &&& sums.last() == x
            };
        let sums = a + b.skip(1);
        assert forall|i: int| 0 <= i < (p + q).len() implies step.ensures(
            (sums[i], #[trigger] (p + q)[i]),
            sums[i + 1],
        ) by {
            if i < p.len() {
                assert((p + q)[i] == p[i]);
                assert(sums[i] == a[i] && sums[i + 1] == a[i + 1]);
            } else {
                assert((p + q)[i] == q[i - p.len()]);
                assert(sums[i] == b[i - p.len()] && sums[i + 1] == b[i - p.len() + 1]);
            }
        }
        assert(folds(step, p + q, sums));
        assert(sums.last() == x);
    }
}

/// Where a step adds one to some count that a sum carries, the checksum of `n` entities adds
/// `4 * n` to it.
pub proof fn law_checksums_take_every_component<A, F: Fn(A, F32Bits) -> A>(
    step: F,
    count: spec_fn(A) -> int,
    from: A,
    state: Seq<Entity>,
    x: A,
)
    requires
        forall|acc: A, item: F32Bits, r: A| #[trigger]
            step.ensures((acc, item), r) ==> count(r) == count(acc) + 1,
        is_checksum(step, from, state, x),
    ensures
        count(x) == count(from) + 4 * state.len(),
    decreases state.len(),
{
    if state.len() == 0 {
        assert(state =~= seq![]);
        law_an_entity_is_summed_by_component(step, from, state[0], x);
    } else {
        let fewer = state.drop_last();
        assert(state =~= fewer + seq![state.last()]);
        law_checksums_go_on(step, from, fewer, seq![state.last()], x);
        let mid = choose|mid: A| #[trigger]
            is_checksum(step, from, fewer, mid) && is_checksum(step, mid, seq![state.last()], x);
        law_checksums_take_every_component(step, count, from, fewer, mid);
        law_an_entity_is_summed_by_component(step, mid, state.last(), x);
    }
}

/// Pieces are put together in order, and nothing is lost or added: no pieces are no entities, one
/// piece is itself, and some pieces after others are the entities of the ones after those of the
/// others.
pub proof fn law_pieces_are_put_together_in_order(
    piece: Seq<Entity>,
    parts: Seq<Seq<Entity>>,
    more: Seq<Seq<Entity>>,
)
    ensures
        concat(seq![]) == Seq::<Entity>::empty(),
        concat(seq![piece]) == piece,
        concat(parts + more) == concat(parts) + concat(more),
    decreases more.len(),
{
    assert(concat(seq![]) =~= Seq::<Entity>::empty());
    assert(seq![piece].drop_last() =~= seq![]);
    assert(concat(seq![piece]) =~= piece);
    if more.len() == 0 {
        assert(parts + more =~= parts);
        assert(concat(parts) + concat(more) =~= concat(parts));
    } else {
        let fewer = more.drop_last();
        law_pieces_are_put_together_in_order(piece, parts, fewer);
        assert((parts + more).drop_last() =~= parts + fewer);
        assert((parts + more).last() == more.last());
        assert(concat(parts + more) =~= concat(parts) + concat(more));
    }
}

/// A run that is taken step by step: what every step is given is known, and what it gives comes
/// back in pieces.
pub struct Stepper {
    state: Vec<Entity>,
    left: usize,
}

/// The mathematical value of a [`Stepper`]: the state reached, and the steps still to be taken.
#[verifier::ext_equal]
pub struct StepperModel {
    pub state: Seq<Entity>,
    pub left: nat,
}

impl View for Stepper {
    type V = StepperModel;

    closed spec fn view(&self) -> StepperModel {
        StepperModel { state: self.state@, left: self.left as nat }
    }
}

impl Stepper {
    /// A run from the initial state, with all its steps still to be taken.
    pub fn start() -> (r: Stepper)
        ensures
            scenario::is_initial(r@.state),
            r@.left == scenario::STEPS,
            r@.left == 1000,
            r@.state.len() == 100_000,
    {
        Stepper { state: initial_state(), left: STEPS }
    }

    /// What the next step is given, or `None` when all steps are taken.
    pub fn input(&self) -> (r: Option<&Vec<Entity>>)
        ensures
            match r {
                Some(state) => self@.left > 0 && state@ == self@.state,
                None => self@.left == 0,
            },
    {
        if self.left > 0 {
            Some(&self.state)
        } else {
            None
        }
    }

    /// A step was taken, and gave these pieces.
    pub fn stepped(self, pieces: &Vec<Vec<Entity>>) -> (r: Stepper)
        requires
            self@.left > 0,
        ensures
            r@ == (StepperModel {
                state: concat(runs_of(pieces@)),
                left: (self@.left - 1) as nat,
            }),
    {
        Stepper { state: put_together(pieces), left: self.left - 1 }
    }

    /// The state reached.
    pub fn state(self) -> (r: Vec<Entity>)
        ensures
            r@ == self@.state,
    {
        self.state
    }
}

/// `out` is what `advance` may make of batch number `j`: the entities from `j * size` on, as many
/// as a batch holds or as are left.
pub open spec fn may_make_of_batch<F: Fn(&[Entity]) -> Vec<Entity>>(
    advance: F,
    from: Seq<Entity>,
    size: nat,
    j: int,
    out: Seq<Entity>,
) -> bool {
    exists|input: &[Entity], output: Vec<Entity>|
        {
            &&& #[trigger] advance.ensures((input,), output)
            &&& (j + 1) * size <= from.len() ==> input@ == from.subrange(j * size, (j + 1) * size)
            &&& (j + 1) * size > from.len() ==> input@ == from.skip(j * size)
            &&& output@ == out
        }
}

/// A step hands every batch over once, in order: it takes as many calls as there are batches, and
/// what the calls give, one after the other, is the next state.
pub proof fn law_a_step_hands_over_every_batch<F: Fn(&[Entity]) -> Vec<Entity>>(
    advance: F,
    size: nat,
    from: Seq<Entity>,
    to: Seq<Entity>,
) -> (outs: Seq<Seq<Entity>>)
    requires
        may_step(advance, size, from, to),
        size > 0,
        from.len() <= usize::MAX,
    ensures
        outs.len() == (from.len() + size - 1) / size as int,
        to == concat(outs),
        forall|j: int|
            0 <= j < outs.len() ==> may_make_of_batch(advance, from, size, j, #[trigger] outs[j]),
{
    let outs = choose|outs: Seq<Seq<Entity>>|
        {
            &&& #[trigger] batches_advance(advance, from, size, outs)
            &&& outs.len() == batch::batches_from(0, from.len(), size).len()
            &&& to == concat(outs)
        };
    batch::law_batches_partition_the_list(0, from.len(), size);
    let ranges = batch::batches_from(0, from.len(), size);
    assert forall|j: int| 0 <= j < outs.len() implies may_make_of_batch(
        advance,
        from,
        size,
        j,
        #[trigger] outs[j],
    ) by {
        batch::law_batches_stand_at_multiples(from.len(), size, j as nat);
        assert(may_advance(advance, from, ranges[j], outs[j]));
        if (j + 1) * size > from.len() {
            assert(from.subrange(j * size, from.len() as int) =~= from.skip(j * size));
        }
    }
    outs
}

} // verus!
