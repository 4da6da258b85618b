//! Guest functions that fold over floats. How two floats are combined is given to them: the
//! order in which they meet which floats, and what they leave in memory, is theirs.

use crate::guest;
use crate::guest::{Caller, GuestBody, Handed};
use crate::lower;
use crate::store;
use crate::store::{Store, StoreModel};
use crate::stream;
use crate::value;
use crate::value::{CoreVal, F32Bits};
use vstd::prelude::*;

verus! {

/// The pair of floats at `at`.
pub open spec fn pair_at(mem: Seq<u8>, at: int) -> (F32Bits, F32Bits) {
    (
        F32Bits { bits: value::word_at(mem, at) },
        F32Bits { bits: value::word_at(mem, at + 4) },
    )
}

/// `n` pairs of floats, one after the other from `ptr` on.
pub open spec fn pairs_at(mem: Seq<u8>, ptr: int, n: nat) -> Seq<(F32Bits, F32Bits)> {
    Seq::new(n, |i: int| pair_at(mem, ptr + 8 * i))
}

/// `sums` is a run of accumulators over `items`: each is what `step` may make of the one before
/// it and the item between them.
pub open spec fn accumulates<T, F: Fn(F32Bits, T) -> F32Bits>(
    step: F,
    items: Seq<T>,
    sums: Seq<F32Bits>,
) -> bool {
    &&& sums.len() == items.len() + 1
    &&& forall|i: int|
        0 <= i < items.len() ==> step.ensures((sums[i], #[trigger] items[i]), sums[i + 1])
}

/// Adding up `items` from `from` on may give `to`.
pub open spec fn may_sum<T, F: Fn(F32Bits, T) -> F32Bits>(
    step: F,
    items: Seq<T>,
    from: F32Bits,
    to: F32Bits,
) -> bool {
    exists|sums: Seq<F32Bits>| #[trigger]
        accumulates(step, items, sums) && sums[0] == from && sums.last() == to
}

/// `step` can be made from any accumulator and item.
pub open spec fn total<T, F: Fn(F32Bits, T) -> F32Bits>(step: F) -> bool {
    forall|acc: F32Bits, item: T| #[trigger] step.requires((acc, item))
}

/// Nothing is added to nothing.
proof fn lemma_sum_nothing<T, F: Fn(F32Bits, T) -> F32Bits>(step: F, from: F32Bits)
    ensures
        may_sum(step, Seq::<T>::empty(), from, from),
{
    assert(accumulates(step, Seq::<T>::empty(), seq![from]));
}

/// One item more.
proof fn lemma_sum_one<T, F: Fn(F32Bits, T) -> F32Bits>(
    step: F,
    items: Seq<T>,
    from: F32Bits,
    mid: F32Bits,
    item: T,
    to: F32Bits,
)
    requires
        may_sum(step, items, from, mid),
        step.ensures((mid, item), to),
    ensures
        may_sum(step, items.push(item), from, to),
{
    let sums = choose|sums: Seq<F32Bits>| #[trigger]
        accumulates(step, items, sums) && sums[0] == from && sums.last() == mid;
    let more = sums.push(to);
    assert forall|i: int| 0 <= i < items.push(item).len() implies step.ensures(
        (more[i], #[trigger] items.push(item)[i]),
        more[i + 1],
    ) by {
        if i < items.len() {
            assert(items.push(item)[i] == items[i]);
        }
    }
    assert(accumulates(step, items.push(item), more));
}

/// Add up `count` pairs of memory from `ptr` on.
fn sum_pairs<F: Fn(F32Bits, (F32Bits, F32Bits)) -> F32Bits>(
    s: &Store,
    ptr: usize,
    count: usize,
    step: &F,
    from: F32Bits,
    Ghost(before): Ghost<Seq<(F32Bits, F32Bits)>>,
    Ghost(start): Ghost<F32Bits>,
) -> (r: F32Bits)
    requires
        ptr + 8 * count <= s@.mem.len(),
        total(*step),
        may_sum(*step, before, start, from),
    ensures
        may_sum(*step, before + pairs_at(s@.mem, ptr as int, count as nat), start, r),
{
    let mut sum = from;
    let mut i: usize = 0;
    proof {
        store::lemma_mem_fits(*s);
        assert(before + pairs_at(s@.mem, ptr as int, 0) =~= before);
    }
    while i < count
        invariant
            i <= count,
            ptr + 8 * count <= s@.mem.len(),
            s@.mem.len() <= usize::MAX,
            total(*step),
            may_sum(*step, before + pairs_at(s@.mem, ptr as int, i as nat), start, sum),
        decreases count - i,
    {
        let at = ptr + i * 8;
        let x = s.read_f32(at);
        let y = s.read_f32(at + 4);
        assert(step.requires((sum, (x, y))));
        let next = step(sum, (x, y));
        proof {
            let pairs = before + pairs_at(s@.mem, ptr as int, i as nat);
            lemma_sum_one(*step, pairs, start, sum, (x, y), next);
            assert(pairs.push((x, y)) =~= before + pairs_at(s@.mem, ptr as int, (i + 1) as nat));
        }
        sum = next;
        i += 1;
    }
    sum
}

/// A guest that takes lists of `vec2` and returns a list with one float: all components, added
/// up list by list and pair by pair.
pub struct SumPairs<F> {
    pub lists: usize,
    pub step: F,
}

/// The pairs of the first `n` lists that a guest is handed.
pub open spec fn pairs_of_lists(handed: Handed, n: nat) -> Seq<(F32Bits, F32Bits)>
    decreases n,
{
    if n == 0 {
        seq![]
    } else {
        pairs_of_lists(handed, (n - 1) as nat) + pairs_at(
            handed.store.mem,
            guest::int_in(handed.core, 2 * (n - 1)),
            guest::int_in(handed.core, 2 * (n - 1) + 1) as nat,
        )
    }
}

impl<F: Fn(F32Bits, (F32Bits, F32Bits)) -> F32Bits> GuestBody for SumPairs<F> {
    open spec fn accepts(&self, handed: Handed) -> bool {
        &&& total(self.step)
        &&& 2 * self.lists <= handed.core.len()
        &&& forall|l: int|
            0 <= l < self.lists ==> {
                &&& #[trigger] guest::int_in(handed.core, 2 * l) >= 0
                &&& guest::int_in(handed.core, 2 * l + 1) >= 0
                &&& guest::int_in(handed.core, 2 * l) + 8 * guest::int_in(handed.core, 2 * l + 1)
                    <= handed.store.mem.len()
            }
        &&& handed.store.room(4, 4)
    }

    open spec fn may_return(
        &self,
        handed: Handed,
        after: StoreModel,
        results: Seq<CoreVal>,
    ) -> bool {
        &&& exists|sum: F32Bits|
            {
                &&& #[trigger] may_sum(
                    self.step,
                    pairs_of_lists(handed, self.lists as nat),
                    F32Bits { bits: 0 },
                    sum,
                )
                &&& after == handed.store.with(value::le_bytes(sum.bits), 4)
            }
        &&& results == seq![CoreVal::I32(handed.store.slot(4) as i32), CoreVal::I32(1)]
    }

    fn call(&self, caller: Caller<'_, '_>, core: &[CoreVal]) -> (r: Vec<CoreVal>) {
        let mut caller = caller;
        let ghost handed = Handed {
            store: caller.store@,
            streams: guest::chunks(caller.streams@),
            imports: caller.imports@,
            core: core@,
        };
        let s = caller.store();
        let zero = F32Bits { bits: 0 };
        let mut sum = zero;
        let mut l: usize = 0;
        proof {
            lemma_sum_nothing(self.step, zero);
            assert(core.len() == core@.len());
        }
        while l < self.lists
            invariant
                l <= self.lists,
                s@ == handed.store,
                core@ == handed.core,
                core@.len() <= usize::MAX,
                self.accepts(handed),
                zero == (F32Bits { bits: 0 }),
                may_sum(self.step, pairs_of_lists(handed, l as nat), zero, sum),
            decreases self.lists - l,
        {
            assert(guest::int_in(handed.core, 2 * (l as int)) >= 0);
            let ptr = core[2 * l].as_i32() as usize;
            let count = core[2 * l + 1].as_i32() as usize;
            sum = sum_pairs(
                s,
                ptr,
                count,
                &self.step,
                sum,
                Ghost(pairs_of_lists(handed, l as nat)),
                Ghost(zero),
            );
            l += 1;
        }
        return_float(s, sum)
    }
}

/// Return one float as a list.
fn return_float(s: &mut Store, x: F32Bits) -> (r: Vec<CoreVal>)
    requires
        old(s)@.room(4, 4),
    ensures
        final(s)@ == old(s)@.with(value::le_bytes(x.bits), 4),
        r@ == seq![CoreVal::I32(old(s)@.slot(4) as i32), CoreVal::I32(1)],
{
    proof {
        lower::lemma_slot_mask(s@, 4);
    }
    let out = s.realloc(4, 4);
    s.write_f32(out, x);
    let mut results: Vec<CoreVal> = Vec::new();
    results.push(CoreVal::I32(#[verifier::truncate] (out as i32)));
    results.push(CoreVal::I32(1));
    assert(results@ =~= seq![CoreVal::I32(out as i32), CoreVal::I32(1)]);
    results
}

/// What a particle adds to a sum: a component of its position or velocity, or its kind.
#[derive(Clone, Copy, Debug, PartialEq, Eq, Structural)]
pub enum Addend {
    Component(F32Bits),
    Kind(u32),
}

/// Addend `k` of the particle at `at`: two components each of position and velocity, and the
/// kind.
pub open spec fn addend_at(mem: Seq<u8>, at: int, k: int) -> Addend {
    let word = value::word_at(mem, at + 4 * k);
    if k < 4 {
        Addend::Component(F32Bits { bits: word })
    } else {
        Addend::Kind(word)
    }
}

/// The first `n` addends of a run of particles of 20 bytes from `ptr` on.
pub open spec fn addends_at(mem: Seq<u8>, ptr: int, n: nat) -> Seq<Addend> {
    Seq::new(n, |i: int| addend_at(mem, ptr + 20 * (i / 5), i % 5))
}

/// A guest that takes a list of particles, records of position, velocity and kind, and returns
/// a list with one float: all components and kinds, added up in that order.
pub struct SumParticles<F> {
    pub step: F,
}

impl<F: Fn(F32Bits, Addend) -> F32Bits> GuestBody for SumParticles<F> {
    open spec fn accepts(&self, handed: Handed) -> bool {
        &&& total(self.step)
        &&& handed.core.len() >= 2
        &&& guest::int_in(handed.core, 0) >= 0
        &&& guest::int_in(handed.core, 1) >= 0
        &&& guest::int_in(handed.core, 0) + 20 * guest::int_in(handed.core, 1) <= handed.store.mem.len()
        &&& handed.store.room(4, 4)
    }

    open spec fn may_return(
        &self,
        handed: Handed,
        after: StoreModel,
        results: Seq<CoreVal>,
    ) -> bool {
        &&& exists|sum: F32Bits|
            {
                &&& #[trigger] may_sum(
                    self.step,
                    addends_at(
                        handed.store.mem,
                        guest::int_in(handed.core, 0),
                        (5 * guest::int_in(handed.core, 1)) as nat,
                    ),
                    F32Bits { bits: 0 },
                    sum,
                )
                &&& after == handed.store.with(value::le_bytes(sum.bits), 4)
            }
        &&& results == seq![CoreVal::I32(handed.store.slot(4) as i32), CoreVal::I32(1)]
    }

    fn call(&self, caller: Caller<'_, '_>, core: &[CoreVal]) -> (r: Vec<CoreVal>) {
        let mut caller = caller;
        let ptr = core[0].as_i32() as usize;
        let count = core[1].as_i32() as usize;
        let s = caller.store();
        let ghost mem = s@.mem;
        let zero = F32Bits { bits: 0 };
        let mut sum = zero;
        let mut i: usize = 0;
        proof {
            store::lemma_mem_fits(*s);
            lemma_sum_nothing::<Addend, F>(self.step, zero);
            assert(addends_at(mem, ptr as int, 0) =~= seq![]);
        }
        while i < count
            invariant
                i <= count,
                s@.mem == mem,
                ptr + 20 * count <= mem.len(),
                mem.len() <= usize::MAX,
                total(self.step),
                may_sum(self.step, addends_at(mem, ptr as int, (5 * i) as nat), zero, sum),
            decreases count - i,
        {
            let at = ptr + i * 20;
            let mut k: usize = 0;
            while k < 5
                invariant
                    k <= 5,
                    i < count,
                    at == ptr + 20 * i,
                    s@.mem == mem,
                    ptr + 20 * count <= mem.len(),
                    mem.len() <= usize::MAX,
                    total(self.step),
                    may_sum(self.step, addends_at(mem, ptr as int, (5 * i + k) as nat), zero, sum),
                decreases 5 - k,
            {
                let word = s.read_u32(at + k * 4);
                let item = if k < 4 {
                    Addend::Component(F32Bits { bits: word })
                } else {
                    Addend::Kind(word)
                };
                assert(self.step.requires((sum, item)));
                let next = (self.step)(sum, item);
                proof {
                    let n = (5 * i + k) as nat;
                    let items = addends_at(mem, ptr as int, n);
                    assert(n as int / 5 == i && n as int % 5 == k);
                    lemma_sum_one(self.step, items, zero, sum, item, next);
                    assert(items.push(item) =~= addends_at(mem, ptr as int, n + 1));
                }
                sum = next;
                k += 1;
            }
            i += 1;
        }
        return_float(s, sum)
    }
}

/// The pairs of floats in a chunk, each with the scale that it is taken at; what is left over at
/// the end of the chunk is no pair.
pub open spec fn scaled_pairs(scale: F32Bits, chunk: Seq<u8>) -> Seq<(F32Bits, F32Bits, F32Bits)> {
    Seq::new(
        chunk.len() / 8,
        |i: int| (scale, pair_at(chunk, 8 * i).0, pair_at(chunk, 8 * i).1),
    )
}

/// The pairs of floats in a run of chunks.
pub open spec fn scaled_events(scale: F32Bits, chunks: Seq<Seq<u8>>) -> Seq<
    (F32Bits, F32Bits, F32Bits),
>
    decreases chunks.len(),
{
    if chunks.len() == 0 {
        seq![]
    } else {
        scaled_pairs(scale, chunks[0]) + scaled_events(scale, chunks.skip(1))
    }
}

/// Where a stream is cut does not show, as long as it is cut between pairs: its chunks hold the
/// pairs of the whole.
pub proof fn law_chunks_do_not_show(scale: F32Bits, data: Seq<u8>, size: nat)
    requires
        size > 0,
        size % 8 == 0,
    ensures
        scaled_events(scale, stream::chunked(data, size)) == scaled_pairs(scale, data),
    decreases data.len(),
{
    let chunks = stream::chunked(data, size);
    if data.len() == 0 {
        assert(scaled_pairs(scale, data) =~= seq![]);
    } else if data.len() <= size {
        assert(chunks.skip(1) =~= seq![]);
        assert(scaled_events(scale, chunks.skip(1)) =~= seq![]);
    } else {
        let head = data.take(size as int);
        let rest = data.skip(size as int);
        law_chunks_do_not_show(scale, rest, size);
        assert(chunks[0] == head);
        assert(chunks.skip(1) =~= stream::chunked(rest, size));
        let whole = scaled_pairs(scale, data);
        let parts = scaled_pairs(scale, head) + scaled_pairs(scale, rest);
        let n = size / 8;
        assert(whole.len() == parts.len());
        assert forall|i: int| 0 <= i < whole.len() implies whole[i] == parts[i] by {
            if i < n {
                assert(pair_at(head, 8 * i) == pair_at(data, 8 * i));
            } else {
                assert(pair_at(rest, 8 * (i - n)) == pair_at(data, 8 * i));
            }
        }
        assert(whole =~= parts);
    }
}

/// Memory after a run of chunks was pulled.
pub open spec fn after_pulls(store: StoreModel, chunks: Seq<Seq<u8>>) -> StoreModel
    decreases chunks.len(),
{
    if chunks.len() == 0 {
        store
    } else {
        after_pulls(store.with(chunks[0], 4), chunks.skip(1))
    }
}

/// There is room to pull a run of chunks.
pub open spec fn room_for_pulls(store: StoreModel, chunks: Seq<Seq<u8>>) -> bool
    decreases chunks.len(),
{
    chunks.len() == 0 || (store.room(chunks[0].len(), 4) && room_for_pulls(
        store.with(chunks[0], 4),
        chunks.skip(1),
    ))
}

/// A guest that takes a scale, a list of `vec2` and a stream of `vec2`, and returns a list with
/// one float: all components of the list, and then all of the stream at that scale. The stream
/// is pulled chunk by chunk.
pub struct Accumulate<F, G> {
    pub plain: F,
    pub scaled: G,
}

/// The scale that a guest is handed first.
pub open spec fn scale_in(handed: Handed) -> F32Bits {
    match handed.core[0] {
        CoreVal::F32(x) => x,
        CoreVal::I32(_) => F32Bits { bits: 0 },
    }
}

/// The chunks of the stream that a guest is handed last.
pub open spec fn chunks_in(handed: Handed) -> Seq<Seq<u8>> {
    handed.streams[guest::int_in(handed.core, 3)]
}

impl<
    F: Fn(F32Bits, (F32Bits, F32Bits)) -> F32Bits,
    G: Fn(F32Bits, (F32Bits, F32Bits, F32Bits)) -> F32Bits,
> GuestBody for Accumulate<F, G> {
    open spec fn accepts(&self, handed: Handed) -> bool {
        &&& total(self.plain)
        &&& total(self.scaled)
        &&& handed.core.len() >= 4
        &&& handed.core[0] is F32
        &&& guest::int_in(handed.core, 1) >= 0
        &&& guest::int_in(handed.core, 2) >= 0
        &&& guest::int_in(handed.core, 1) + 8 * guest::int_in(handed.core, 2)
            <= handed.store.mem.len()
        &&& 0 <= guest::int_in(handed.core, 3) < handed.streams.len()
        &&& room_for_pulls(handed.store, chunks_in(handed))
        &&& after_pulls(handed.store, chunks_in(handed)).room(4, 4)
    }

    open spec fn may_return(
        &self,
        handed: Handed,
        after: StoreModel,
        results: Seq<CoreVal>,
    ) -> bool {
        let pulled = after_pulls(handed.store, chunks_in(handed));
        &&& exists|seed: F32Bits, sum: F32Bits|
            {
                &&& #[trigger] may_sum(
                    self.plain,
                    pairs_at(
                        handed.store.mem,
                        guest::int_in(handed.core, 1),
                        guest::int_in(handed.core, 2) as nat,
                    ),
                    F32Bits { bits: 0 },
                    seed,
                )
                &&& #[trigger] may_sum(
                    self.scaled,
                    scaled_events(scale_in(handed), chunks_in(handed)),
                    seed,
                    sum,
                )
                &&& after == pulled.with(value::le_bytes(sum.bits), 4)
            }
        &&& results == seq![CoreVal::I32(pulled.slot(4) as i32), CoreVal::I32(1)]
    }

    fn call(&self, caller: Caller<'_, '_>, core: &[CoreVal]) -> (r: Vec<CoreVal>) {
        let mut caller = caller;
        let ghost handed = Handed {
            store: caller.store@,
            streams: guest::chunks(caller.streams@),
            imports: caller.imports@,
            core: core@,
        };
        let scale = match core[0] {
            CoreVal::F32(x) => x,
            CoreVal::I32(_) => vstd::pervasive::unreached(),
        };
        let ptr = core[1].as_i32() as usize;
        let count = core[2].as_i32() as usize;
        let stream = core[3].as_i32() as usize;
        let zero = F32Bits { bits: 0 };
        let ghost pairs = pairs_at(handed.store.mem, ptr as int, count as nat);
        let ghost none: Seq<(F32Bits, F32Bits)> = Seq::empty();
        proof {
            lemma_sum_nothing::<(F32Bits, F32Bits), F>(self.plain, zero);
        }
        let seed = sum_pairs(
            &*caller.store,
            ptr,
            count,
            &self.plain,
            zero,
            Ghost(none),
            Ghost(zero),
        );
        assert(none + pairs =~= pairs);
        assert(guest::chunks(caller.streams@)[stream as int]
            == caller.streams@[stream as int].producer.remaining());
        let sum = sum_stream(&mut caller, stream, &self.scaled, scale, seed);
        assert(may_sum(self.plain, pairs, zero, seed));
        assert(may_sum(
            self.scaled,
            scaled_events(scale_in(handed), chunks_in(handed)),
            seed,
            sum,
        ));
        return_float(caller.store(), sum)
    }
}

/// Pull a stream to its end and add up its pairs.
fn sum_stream<G: Fn(F32Bits, (F32Bits, F32Bits, F32Bits)) -> F32Bits>(
    caller: &mut Caller<'_, '_>,
    stream: usize,
    step: &G,
    scale: F32Bits,
    from: F32Bits,
) -> (r: F32Bits)
    requires
        stream < old(caller).streams@.len(),
        total(*step),
        room_for_pulls(
            old(caller).store@,
            old(caller).streams@[stream as int].producer.remaining(),
        ),
    ensures
        final(caller).store@ == after_pulls(
            old(caller).store@,
            old(caller).streams@[stream as int].producer.remaining(),
        ),
        may_sum(
            *step,
            scaled_events(scale, old(caller).streams@[stream as int].producer.remaining()),
            from,
            r,
        ),
        *final(final(caller).store) == *final(old(caller).store),
{
    let ghost all = caller.streams@[stream as int].producer.remaining();
    let ghost first = caller.store@;
    let ghost mut left = all;
    let ghost mut done: Seq<(F32Bits, F32Bits, F32Bits)> = seq![];
    let mut sum = from;
    proof {
        lemma_sum_nothing::<(F32Bits, F32Bits, F32Bits), G>(*step, from);
        assert(done + scaled_events(scale, left) =~= scaled_events(scale, all));
    }
    loop
        invariant
            stream < caller.streams@.len(),
            all == old(caller).streams@[stream as int].producer.remaining(),
            first == old(caller).store@,
            total(*step),
            left == guest::chunks(caller.streams@)[stream as int],
            room_for_pulls(caller.store@, left),
            after_pulls(caller.store@, left) == after_pulls(first, all),
            done + scaled_events(scale, left) == scaled_events(scale, all),
            may_sum(*step, done, from, sum),
            *final(caller.store) == *final(old(caller).store),
        decreases left.len(),
    {
        match caller.pull(stream) {
            None => {
                assert(done + scaled_events(scale, left) =~= done);
                return sum;
            },
            Some((ptr, len)) => {
                let ghost chunk = left[0];
                proof {
                    assert(guest::chunks(caller.streams@).len() == caller.streams@.len());
                    assert(caller.store@.mem.subrange(ptr as int, ptr + len) =~= chunk);
                }
                sum = sum_chunk(
                    &*caller.store,
                    ptr,
                    len,
                    step,
                    scale,
                    sum,
                    Ghost(chunk),
                    Ghost(done),
                    Ghost(from),
                );
                proof {
                    let more = done + scaled_pairs(scale, chunk);
                    assert(more + scaled_events(scale, left.skip(1)) =~= done + scaled_events(
                        scale,
                        left,
                    ));
                    done = more;
                    left = left.skip(1);
                }
            },
        }
    }
}

/// Add up the pairs of a chunk that was pulled to `ptr`.
fn sum_chunk<G: Fn(F32Bits, (F32Bits, F32Bits, F32Bits)) -> F32Bits>(
    s: &Store,
    ptr: usize,
    len: usize,
    step: &G,
    scale: F32Bits,
    from: F32Bits,
    Ghost(chunk): Ghost<Seq<u8>>,
    Ghost(before): Ghost<Seq<(F32Bits, F32Bits, F32Bits)>>,
    Ghost(start): Ghost<F32Bits>,
) -> (r: F32Bits)
    requires
        len == chunk.len(),
        ptr + len <= s@.mem.len(),
        s@.mem.subrange(ptr as int, ptr + len) == chunk,
        total(*step),
        may_sum(*step, before, start, from),
    ensures
        may_sum(*step, before + scaled_pairs(scale, chunk), start, r),
{
    let mut sum = from;
    let mut off: usize = ptr;
    let ghost mut n: nat = 0;
    let ghost pairs = scaled_pairs(scale, chunk);
    proof {
        store::lemma_mem_fits(*s);
        assert(before + pairs.take(0) =~= before);
    }
    while ptr + len - off >= 8
        invariant
            len == chunk.len(),
            off == ptr + 8 * n,
            off <= ptr + len <= s@.mem.len(),
            s@.mem.len() <= usize::MAX,
            s@.mem.subrange(ptr as int, ptr + len) == chunk,
            pairs == scaled_pairs(scale, chunk),
            n <= pairs.len(),
            total(*step),
            may_sum(*step, before + pairs.take(n as int), start, sum),
        decreases ptr + len - off,
    {
        let x = s.read_f32(off);
        let y = s.read_f32(off + 4);
        assert(step.requires((sum, (scale, x, y))));
        let next = step(sum, (scale, x, y));
        proof {
            let at = 8 * n as int;
            assert forall|k: int| 0 <= k < 8 implies s@.mem[#[trigger] (off + k)] == chunk[at
                + k] by {
                assert(chunk[at + k] == s@.mem.subrange(ptr as int, ptr + len)[at + k]);
            }
            value::lemma_word_same(s@.mem, off as int, chunk, at);
            assert forall|k: int| 0 <= k < 4 implies s@.mem[#[trigger] (off + 4 + k)]
                == chunk[at + 4 + k] by {
                assert(s@.mem[off + (4 + k)] == chunk[at + (4 + k)]);
            }
            value::lemma_word_same(s@.mem, off + 4, chunk, at + 4);
            assert(pairs[n as int] == (scale, x, y));
            lemma_sum_one(*step, before + pairs.take(n as int), start, sum, (scale, x, y), next);
            assert((before + pairs.take(n as int)).push((scale, x, y)) =~= before + pairs.take(
                n + 1int,
            ));
            n = n + 1;
        }
        sum = next;
        off = off + 8;
    }
    assert(pairs.take(n as int) =~= pairs);
    sum
}

// ---------------------------------------------------------------------------------------
// What holds of sums.
// ---------------------------------------------------------------------------------------

/// Every item is added, once and in order: no items leave a sum as it is, one item is one step,
/// and items after others go on from where those led.
pub proof fn law_sums_go_on<T, F: Fn(F32Bits, T) -> F32Bits>(
    step: F,
    items: Seq<T>,
    more: Seq<T>,
    item: T,
    from: F32Bits,
    to: F32Bits,
)
    ensures
        may_sum(step, Seq::<T>::empty(), from, to) <==> from == to,
        may_sum(step, seq![item], from, to) <==> step.ensures((from, item), to),
        may_sum(step, items + more, from, to) <==> exists|mid: F32Bits| #[trigger]
            may_sum(step, items, from, mid) && may_sum(step, more, mid, to),
{
    let none = Seq::<T>::empty();
    lemma_sum_nothing::<T, F>(step, from);
    if may_sum(step, none, from, to) {
        let sums = choose|sums: Seq<F32Bits>| #[trigger]
            accumulates(step, none, sums) && sums[0] == from && sums.last() == to;
        assert(sums.last() == sums[0]);
    }
    if step.ensures((from, item), to) {
        lemma_sum_one(step, none, from, from, item, to);
        assert(none.push(item) =~= seq![item]);
    }
    if may_sum(step, seq![item], from, to) {
        let sums = choose|sums: Seq<F32Bits>| #[trigger]
            accumulates(step, seq![item], sums) && sums[0] == from && sums.last() == to;
        assert(step.ensures((sums[0], seq![item][0]), sums[0 + 1int]));
    }
    let all = items + more;
    let n = items.len() as int;
    if may_sum(step, all, from, to) {
        let sums = choose|sums: Seq<F32Bits>| #[trigger]
            accumulates(step, all, sums) && sums[0] == from && sums.last() == to;
        let head = sums.take(n + 1);
        let tail = sums.skip(n);
        assert forall|i: int| 0 <= i < items.len() implies step.ensures(
            (head[i], #[trigger] items[i]),
            head[i + 1],
        ) by {
            assert(all[i] == items[i]);
        }
        assert forall|i: int| 0 <= i < more.len() implies step.ensures(
            (tail[i], #[trigger] more[i]),
            tail[i + 1],
        ) by {
            assert(all[n + i] == more[i]);
        }
        assert(accumulates(step, items, head));
        assert(accumulates(step, more, tail));
        assert(may_sum(step, items, from, sums[n]));
        assert(tail.last() == sums.last());
        assert(may_sum(step, more, sums[n], to));
    }
    if exists|mid: F32Bits| #[trigger]
        may_sum(step, items, from, mid) && may_sum(step, more, mid, to) {
        let mid = choose|mid: F32Bits| #[trigger]
            may_sum(step, items, from, mid) && may_sum(step, more, mid, to);
        let p = choose|sums: Seq<F32Bits>| #[trigger]
            accumulates(step, items, sums) && sums[0] == from && sums.last() == mid;
        let q = choose|sums: Seq<F32Bits>| #[trigger]
            accumulates(step, more, sums) && sums[0] == mid && sums.last() == to;
        let sums = p + q.skip(1);
        assert forall|i: int| 0 <= i < all.len() implies step.ensures(
            (sums[i], #[trigger] all[i]),
            sums[i + 1],
        ) by {
            if i < n {
                assert(all[i] == items[i]);
                assert(sums[i] == p[i] && sums[i + 1] == p[i + 1]);
            } else {
                assert(all[i] == more[i - n]);
                assert(sums[i] == q[i - n] && sums[i + 1] == q[i - n + 1]);
            }
        }
        assert(accumulates(step, all, sums));
        assert(sums.last() == to);
    }
}

/// Pairs are read from where they stand: pair `i` is the two words at eight times `i`, and the
/// pairs behind others are those that start where the others end.
pub proof fn law_pairs_stand_side_by_side(mem: Seq<u8>, ptr: int, n: nat, m: nat, i: int)
    requires
        0 <= ptr,
        ptr + 8 * n <= mem.len(),
    ensures
        pairs_at(mem, ptr, n).len() == n,
        0 <= i < n ==> mem.subrange(ptr + 8 * i, ptr + 8 * i + 8) == value::le_bytes(
            pairs_at(mem, ptr, n)[i].0.bits,
        ) + value::le_bytes(pairs_at(mem, ptr, n)[i].1.bits),
        pairs_at(mem, ptr, n + m) == pairs_at(mem, ptr, n) + pairs_at(mem, ptr + 8 * n, m),
{
    if 0 <= i < n {
        let at = ptr + 8 * i;
        value::lemma_bytes_of_word(mem, at);
        value::lemma_bytes_of_word(mem, at + 4);
        assert(mem.subrange(at, at + 8) =~= mem.subrange(at, at + 4) + mem.subrange(
            at + 4,
            at + 8,
        ));
    }
    assert(pairs_at(mem, ptr, n + m) =~= pairs_at(mem, ptr, n) + pairs_at(mem, ptr + 8 * n, m));
}

/// Every particle adds its five words in order: the components of its position and velocity, and
/// then its kind. Particles behind others add theirs behind those.
pub proof fn law_every_particle_is_added(mem: Seq<u8>, ptr: int, n: nat, m: nat)
    ensures
        addends_at(mem, ptr, 5) == seq![
            Addend::Component(F32Bits { bits: value::word_at(mem, ptr) }),
            Addend::Component(F32Bits { bits: value::word_at(mem, ptr + 4) }),
            Addend::Component(F32Bits { bits: value::word_at(mem, ptr + 8) }),
            Addend::Component(F32Bits { bits: value::word_at(mem, ptr + 12) }),
            Addend::Kind(value::word_at(mem, ptr + 16)),
        ],
        addends_at(mem, ptr, 5 * (n + m)) == addends_at(mem, ptr, 5 * n) + addends_at(
            mem,
            ptr + 20 * n,
            5 * m,
        ),
{
    assert(addends_at(mem, ptr, 5) =~= seq![
        Addend::Component(F32Bits { bits: value::word_at(mem, ptr) }),
        Addend::Component(F32Bits { bits: value::word_at(mem, ptr + 4) }),
        Addend::Component(F32Bits { bits: value::word_at(mem, ptr + 8) }),
        Addend::Component(F32Bits { bits: value::word_at(mem, ptr + 12) }),
        Addend::Kind(value::word_at(mem, ptr + 16)),
    ]);
    let all = addends_at(mem, ptr, 5 * (n + m));
    let parts = addends_at(mem, ptr, 5 * n) + addends_at(mem, ptr + 20 * n, 5 * m);
    assert forall|i: int| 0 <= i < all.len() implies all[i] == parts[i] by {
        if i >= 5 * n {
            let k = i - 5 * n;
            assert(k / 5 == i / 5 - n && k % 5 == i % 5);
            assert(ptr + 20 * n + 20 * (k / 5) == ptr + 20 * (i / 5));
        }
    }
    assert(all =~= parts);
}

/// Every list is added, in order: another list that a guest is handed adds its pairs behind those
/// of the lists before it.
pub proof fn law_every_list_is_added(handed: Handed, n: nat)
    ensures
        pairs_of_lists(handed, 0) == Seq::<(F32Bits, F32Bits)>::empty(),
        pairs_of_lists(handed, n + 1) == pairs_of_lists(handed, n) + pairs_at(
            handed.store.mem,
            guest::int_in(handed.core, 2 * n as int),
            guest::int_in(handed.core, 2 * n + 1int) as nat,
        ),
{
}

/// Every chunk of a stream is taken, in order, and at the scale: chunks behind others add their
/// pairs behind those, and the pairs of a chunk are its own, each with the scale.
pub proof fn law_every_chunk_is_taken(
    scale: F32Bits,
    chunks: Seq<Seq<u8>>,
    more: Seq<Seq<u8>>,
    chunk: Seq<u8>,
)
    ensures
        scaled_events(scale, seq![]) == Seq::<(F32Bits, F32Bits, F32Bits)>::empty(),
        scaled_events(scale, seq![chunk]).len() == chunk.len() / 8,
        forall|i: int|
            0 <= i < chunk.len() / 8 ==> #[trigger] scaled_events(scale, seq![chunk])[i] == (
                scale,
                F32Bits { bits: value::word_at(chunk, 8 * i) },
                F32Bits { bits: value::word_at(chunk, 8 * i + 4) },
            ),
        scaled_events(scale, chunks + more) == scaled_events(scale, chunks) + scaled_events(
            scale,
            more,
        ),
    decreases chunks.len(),
{
    assert(scaled_events(scale, seq![]) =~= Seq::<(F32Bits, F32Bits, F32Bits)>::empty());
    assert(seq![chunk].skip(1) =~= seq![]);
    assert(scaled_events(scale, seq![chunk]) =~= scaled_pairs(scale, chunk));
    let all = chunks + more;
    if chunks.len() == 0 {
        assert(all =~= more);
    } else {
        law_every_chunk_is_taken(scale, chunks.skip(1), more, chunk);
        assert(all[0] == chunks[0]);
        assert(all.skip(1) =~= chunks.skip(1) + more);
    }
    assert(scaled_events(scale, all) =~= scaled_events(scale, chunks) + scaled_events(scale, more));
}

/// Every chunk is copied into memory where there is room next, one behind the other.
pub proof fn law_chunks_are_pulled_in_order(
    store: StoreModel,
    chunks: Seq<Seq<u8>>,
    more: Seq<Seq<u8>>,
    chunk: Seq<u8>,
)
    ensures
        after_pulls(store, seq![]) == store,
        after_pulls(store, seq![chunk]) == store.with(chunk, 4),
        after_pulls(store, chunks + more) == after_pulls(after_pulls(store, chunks), more),
        room_for_pulls(store, chunks + more) <==> room_for_pulls(store, chunks) && room_for_pulls(
            after_pulls(store, chunks),
            more,
        ),
    decreases chunks.len(),
{
    assert(seq![chunk].skip(1) =~= seq![]);
    assert(after_pulls(store.with(chunk, 4), seq![chunk].skip(1)) == store.with(chunk, 4));
    let all = chunks + more;
    if chunks.len() == 0 {
        assert(all =~= more);
    } else {
        let next = store.with(chunks[0], 4);
        law_chunks_are_pulled_in_order(next, chunks.skip(1), more, chunk);
        assert(all[0] == chunks[0]);
        assert(all.skip(1) =~= chunks.skip(1) + more);
    }
}

} // verus!
