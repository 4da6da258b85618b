//! The claims of the transfer surface on floats. What adds two floats up is given to each of
//! these; which floats a guest meets, and in which order, is what they show.

use crate::archetype::{Columns, Field, FieldKey, Keys};
use crate::arena;
use crate::call;
use crate::call::{BoundCall, Passed, PreparedCall};
use crate::column::ArchetypeColumn;
use crate::demos;
use crate::demos::first_word;
use crate::floats;
use crate::floats::{Accumulate, Addend, SumPairs, SumParticles};
use crate::guest;
use crate::guest::{Body, Func, GuestBody, Handed};
use crate::laws;
use crate::laws::Meaning;
use crate::layout;
use crate::layout::{Ty, TyModel};
use crate::lift::{Lifted, LiftedModel};
use crate::shape;
use crate::shape::{SpecModel, ValSpec};
use crate::source;
use crate::source::LowerOnDemand;
use crate::source::{drive_eager, drive_lazy, Column, ListSource, SourceModel, ValSource};
use crate::store::{Store, StoreModel};
use crate::stream;
use crate::stream::{ChunkProducer, Feed, Producer};
use crate::validity;
use crate::validity::ValidatedCabiBytes;
use crate::value;
use crate::value::{read_word, CoreVal, F32Bits, Val, ValModel};
use std::rc::Rc;
use vstd::prelude::*;
use vstd::slice::slice_subrange;

verus! {

/// A record of two floats.
pub open spec fn vec2() -> TyModel {
    TyModel::Record(seq![TyModel::F32, TyModel::F32])
}

/// A record of two floats.
pub fn vec2_ty() -> (r: Ty)
    ensures
        r@ == vec2(),
        r.sized(),
{
    let mut fields: Vec<Ty> = Vec::new();
    fields.push(Ty::F32);
    fields.push(Ty::F32);
    proof {
        lemma_vec2();
        layout::lemma_models(fields@);
        reveal_with_fuel(Ty::model, 3);
        assert(layout::models(fields@) =~= seq![TyModel::F32, TyModel::F32]);
    }
    Ty::Record(fields)
}

/// It takes eight bytes, whatever they are.
pub proof fn lemma_vec2()
    ensures
        vec2().size() == 8,
        vec2().align() == 4,
        vec2().inline(),
        vec2().total(),
{
    let fields = seq![TyModel::F32, TyModel::F32];
    layout::lemma_fields_words(fields, 0);
    layout::lemma_fields_words(fields, 1);
    layout::lemma_fields_words(fields, 2);
    layout::lemma_all_inline(fields, 2);
    layout::lemma_all_total(fields, 2);
}

/// The pairs of an image are the pairs of the memory that it stands in.
proof fn lemma_pairs_of_image(mem: Seq<u8>, ptr: int, image: Seq<u8>, n: nat)
    requires
        laws::stands_at(mem, ptr, image),
        8 * n <= image.len(),
    ensures
        floats::pairs_at(mem, ptr, n) == floats::pairs_at(image, 0, n),
{
    let (a, b) = (floats::pairs_at(mem, ptr, n), floats::pairs_at(image, 0, n));
    assert forall|i: int| 0 <= i < n implies #[trigger] a[i] == b[i] by {
        assert forall|k: int| 0 <= k < 8 implies mem[#[trigger] (ptr + 8 * i + k)] == image[8 * i
            + k] by {
            assert(mem.subrange(ptr, ptr + image.len())[8 * i + k] == mem[ptr + 8 * i + k]);
        }
        value::lemma_word_same(mem, ptr + 8 * i, image, 8 * i);
        assert forall|k: int| 0 <= k < 4 implies mem[#[trigger] (ptr + 8 * i + 4 + k)] == image[8
            * i + 4 + k] by {
            assert(mem[ptr + 8 * i + (4 + k)] == image[8 * i + (4 + k)]);
        }
        value::lemma_word_same(mem, ptr + 8 * i + 4, image, 8 * i + 4);
    }
    assert(a =~= b);
}

/// The guest function of this call is `g`, and returns a list of floats.
spec fn runs_body<G: GuestBody>(b: BoundCall<'_>, g: G) -> bool {
    let code = b.prepared().func().body.code;
    &&& forall|h: Handed| #[trigger] code.accepts(h) == g.accepts(h)
    &&& forall|h: Handed, after: StoreModel, r: Seq<CoreVal>| #[trigger]
        code.may_return(h, after, r) == g.may_return(h, after, r)
    &&& layout::models(b.prepared().func().results@) == seq![
        TyModel::List(Box::new(TyModel::F32)),
    ]
}

/// The sum of the pairs of some images, one image after the other, may be the float in `x`.
pub open spec fn pairs_sum_to<F: Fn(F32Bits, (F32Bits, F32Bits)) -> F32Bits>(
    step: F,
    pairs: Seq<(F32Bits, F32Bits)>,
    x: F32Bits,
) -> bool {
    floats::may_sum(step, pairs, F32Bits { bits: 0 }, x)
}

/// The pairs of an image.
pub open spec fn pairs_of(image: Seq<u8>) -> Seq<(F32Bits, F32Bits)> {
    floats::pairs_at(image, 0, image.len() / 8)
}

/// What a guest is handed where its one argument is a list whose image is `image`.
spec fn handed_one(handed: Handed, image: Seq<u8>, size: nat) -> bool {
    &&& handed.core == seq![CoreVal::I32(0), CoreVal::I32((image.len() / size) as i32)]
    &&& handed.store.next == image.len()
    &&& laws::stands_at(handed.store.mem, 0, image)
    &&& image.len() + 8 <= handed.store.mem.len() <= i32::MAX
}

proof fn lemma_handed_one(handed: Handed, image: Seq<u8>, size: nat)
    requires
        handed_one(handed, image, size),
        size > 0,
    ensures
        guest::int_in(handed.core, 0) == 0,
        guest::int_in(handed.core, 1) == image.len() / size,
        handed.store.room(4, 4),
{
    layout::lemma_round_up(image.len(), 4);
    assert(image.len() / size <= image.len()) by (nonlinear_arith)
        requires
            size > 0,
    ;
}

/// The results hold one float, of which `sum` is true.
spec fn gives(results: LiftedModel, sum: spec_fn(F32Bits) -> bool) -> bool {
    &&& results.has_view(0)
    &&& results.bytes(0).len() == 4
    &&& sum(F32Bits { bits: value::word_at(results.bytes(0), 0) })
}

/// What is received where a guest returned one float.
proof fn lemma_one_float_comes_back(
    before: StoreModel,
    after: StoreModel,
    results: LiftedModel,
    x: F32Bits,
)
    requires
        before.room(4, 4),
        before.mem.len() <= i32::MAX,
        after == before.with(value::le_bytes(x.bits), 4),
        results.mem == after.mem,
        results.tys == seq![TyModel::List(Box::new(TyModel::F32))],
        results.core == seq![CoreVal::I32(before.slot(4) as i32), CoreVal::I32(1)],
    ensures
        results.has_view(0),
        results.bytes(0).len() == 4,
        value::word_at(results.bytes(0), 0) == x.bits,
{
    demos::lemma_one_word_comes_back(before, TyModel::F32, x.bits);
    value::lemma_word_of_bytes(x.bits);
}

/// A guest that sums one list of pairs gives a sum of its pairs.
proof fn lemma_pair_outcome<F: Fn(F32Bits, (F32Bits, F32Bits)) -> F32Bits>(
    g: SumPairs<F>,
    handed: Handed,
    image: Seq<u8>,
    after: StoreModel,
    results: LiftedModel,
)
    requires
        g.lists == 1,
        handed_one(handed, image, 8),
        g.may_return(handed, after, results.core),
        results.mem == after.mem,
        results.tys == seq![TyModel::List(Box::new(TyModel::F32))],
    ensures
        gives(results, |x: F32Bits| pairs_sum_to(g.step, pairs_of(image), x)),
{
    lemma_handed_one(handed, image, 8);
    lemma_pairs_of_image(handed.store.mem, 0, image, image.len() / 8);
    reveal_with_fuel(floats::pairs_of_lists, 2);
    assert(floats::pairs_of_lists(handed, 1) =~= pairs_of(image));
    let sum = choose|sum: F32Bits|
        {
            &&& #[trigger] floats::may_sum(
                g.step,
                floats::pairs_of_lists(handed, g.lists as nat),
                F32Bits { bits: 0 },
                sum,
            )
            &&& after == handed.store.with(value::le_bytes(sum.bits), 4)
        };
    lemma_one_float_comes_back(handed.store, after, results, sum);
}

/// A guest that sums one list of pairs runs on it, and gives a sum of its pairs.
#[verifier::rlimit(30)]
proof fn lemma_pair_call<F: Fn(F32Bits, (F32Bits, F32Bits)) -> F32Bits>(
    b: BoundCall<'_>,
    g: SumPairs<F>,
    store: StoreModel,
)
    requires
        runs_body(b, g),
        g.lists == 1,
        floats::total(g.step),
        one_list(b, store, vec2()),
    ensures
        b.runs(store),
        b.results_fit(),
        b.refusal(store) is None,
        forall|after: StoreModel, results: LiftedModel| #[trigger]
            b.may_give(store, after, results) ==> gives(
                results,
                |x: F32Bits|
                    pairs_sum_to(g.step, pairs_of(b.args()[0].list_image(vec2())), x),
            ),
{
    let image = b.args()[0].list_image(vec2());
    let handed = b.handed(store);
    lemma_vec2();
    lemma_one_list(b, store, vec2());
    lemma_handed_one(handed, image, 8);
    lemma_results_fit(b);
    assert(g.accepts(handed));
    assert forall|after: StoreModel, results: LiftedModel| #[trigger]
        b.may_give(store, after, results) implies gives(
        results,
        |x: F32Bits| pairs_sum_to(g.step, pairs_of(image), x),
    ) by {
        lemma_pair_outcome(g, handed, image, after, results);
    }
}

/// The one argument of this call is a list of `elem`, provided in the representation that was
/// prepared for, and there is room for it and for a float.
spec fn one_list(b: BoundCall<'_>, store: StoreModel, elem: TyModel) -> bool {
    &&& b.complete()
    &&& b.args().len() == 1
    &&& shape::admits(b.prepared().specs()[0], b.args()[0])
    &&& b.prepared().params().len() == 1
    &&& b.prepared().params()[0] == TyModel::List(Box::new(elem))
    &&& b.args()[0] !is Stream
    &&& b.args()[0].is_list()
    &&& b.args()[0].has_range(elem, 0, b.args()[0].list_len())
    &&& call::sound(b.args()[0], b.prepared().params()[0])
    &&& b.args()[0].list_image(elem).len() + 8 <= store.mem.len()
    &&& store.mem.len() <= i32::MAX
}

proof fn lemma_one_list(b: BoundCall<'_>, store: StoreModel, elem: TyModel)
    requires
        one_list(b, store, elem),
        elem.align() == 4,
        0 < elem.size() <= usize::MAX,
    ensures
        b.accepted() == 1,
        Passed::nothing(store).takes_args(b.prepared().params(), b.args(), 1),
        b.refusal(store) is None,
        handed_one(b.handed(store), b.args()[0].list_image(elem), elem.size()),
{
    let image = b.args()[0].list_image(elem);
    demos::lemma_one_list_is_handed(b, store, elem);
    assert(b.handed(store).store.mem.subrange(0, image.len() as int) =~= image);
}

proof fn lemma_results_fit(b: BoundCall<'_>)
    requires
        layout::models(b.prepared().func().results@) == seq![
            TyModel::List(Box::new(TyModel::F32)),
        ],
    ensures
        b.results_fit(),
{
    reveal_with_fuel(layout::slots_upto, 2);
}

/// A guest function with `lists` parameters `list<vec2>` and one result `list<f32>`.
fn pair_func(lists: usize, body: Body) -> (r: Rc<Func>)
    ensures
        layout::models(r.params@) == Seq::new(
            lists as nat,
            |i: int| TyModel::List(Box::new(vec2())),
        ),
        layout::models(r.results@) == seq![TyModel::List(Box::new(TyModel::F32))],
        r.imports@ == Seq::<guest::HostImport>::empty(),
        r.body == body,
{
    let mut params: Vec<Ty> = Vec::new();
    let mut i: usize = 0;
    while i < lists
        invariant
            i <= lists,
            params@.len() == i,
            forall|k: int|
                0 <= k < i ==> (#[trigger] params@[k])@ == TyModel::List(Box::new(vec2())),
        decreases lists - i,
    {
        params.push(Ty::List(Box::new(vec2_ty())));
        i += 1;
    }
    let mut results: Vec<Ty> = Vec::new();
    results.push(Ty::List(Box::new(Ty::F32)));
    proof {
        layout::lemma_models(params@);
        layout::lemma_models(results@);
        assert(layout::models(params@) =~= Seq::new(
            lists as nat,
            |i: int| TyModel::List(Box::new(vec2())),
        ));
        reveal_with_fuel(Ty::model, 3);
        assert(layout::models(results@) =~= seq![TyModel::List(Box::new(TyModel::F32))]);
    }
    Func::new(params, results, body)
}

/// The float in the first result.
fn first_float(r: &Lifted<'_>) -> (x: F32Bits)
    requires
        r.model().has_view(0),
        r.model().bytes(0).len() >= 4,
    ensures
        x.bits == value::word_at(r.model().bytes(0), 0),
{
    F32Bits { bits: first_word(r) }
}

/// Have a guest sum the pairs of a list of `vec2`, provided as `src`.
#[verifier::rlimit(30)]
fn sum_pairs_through_a_guest<
    'a,
    F: Fn(F32Bits, (F32Bits, F32Bits)) -> F32Bits + 'static,
>(shape_of: ValSpec, src: ValSource<'a>, step: F, store: &mut Store) -> (r: F32Bits)
    requires
        floats::total(step),
        shape::shape_error(shape_of@, TyModel::List(Box::new(vec2())), 0) is None,
        shape::admits(shape_of@, src@),
        src@ !is Stream,
        src@.is_list(),
        src@.has_range(vec2(), 0, src@.list_len()),
        call::sound(src@, TyModel::List(Box::new(vec2()))),
        src@.list_image(vec2()).len() + 8 <= old(store)@.mem.len(),
        old(store)@.mem.len() <= i32::MAX,
    ensures
        pairs_sum_to(step, pairs_of(src@.list_image(vec2())), r),
{
    let g = SumPairs { lists: 1, step };
    let ghost guest_of = g;
    let func = pair_func(1, Body { code: Box::new(g) });
    let mut specs: Vec<ValSpec> = Vec::new();
    specs.push(shape_of);
    proof {
        shape::lemma_models(specs@);
        reveal_with_fuel(call::first_error, 2);
    }
    let prepared = match PreparedCall::new(&func, specs.as_slice()) {
        Ok(prepared) => prepared,
        Err(_) => vstd::pervasive::unreached(),
    };
    let bound = prepared.bind().arg(src);
    proof {
        assert(runs_body(bound, guest_of));
        assert(one_list(bound, store@, vec2()));
        lemma_pair_call(bound, guest_of, store@);
    }
    match bound.invoke_scoped(store, first_float) {
        Ok(x) => x,
        Err(_) => vstd::pervasive::unreached(),
    }
}

/// Parts that are the pieces of some data, one after the other, make up the data.
proof fn lemma_pieces_make_up(parts: Seq<Seq<u8>>, size: nat, data: Seq<u8>, n: nat)
    requires
        n <= parts.len(),
        parts.len() * size <= data.len(),
        forall|i: int|
            0 <= i < parts.len() ==> #[trigger] parts[i] == data.subrange(
                i * size,
                i * size + size,
            ),
    ensures
        source::join(parts, 0, n) == data.take((n * size) as int),
    decreases n,
{
    if n == 0 {
        assert(0 * size == 0);
        assert(data.take(0) =~= seq![]);
    } else {
        let m = (n - 1) as nat;
        lemma_pieces_make_up(parts, size, data, m);
        assert(n * size == m * size + size) by (nonlinear_arith)
            requires
                n == m + 1,
        ;
        assert(n * size <= parts.len() * size) by (nonlinear_arith)
            requires
                n <= parts.len(),
        ;
        assert(data.take((n * size) as int) =~= data.take((m * size) as int) + data.subrange(
            (m * size) as int,
            (m * size + size) as int,
        ));
    }
}

/// The dynamic value of the pair at `at`.
pub open spec fn pair_value(data: Seq<u8>, at: int) -> ValModel {
    let (x, y) = floats::pair_at(data, at);
    ValModel::Record(seq![ValModel::F32(x), ValModel::F32(y)])
}

/// Its image is the eight bytes it was read from.
proof fn lemma_pair_image(data: Seq<u8>, at: int)
    requires
        0 <= at,
        at + 8 <= data.len(),
    ensures
        value::fits(vec2(), pair_value(data, at)),
        value::encode(vec2(), pair_value(data, at)) == data.subrange(at, at + 8),
{
    let fields = seq![TyModel::F32, TyModel::F32];
    let (x, y) = floats::pair_at(data, at);
    let vals = seq![ValModel::F32(x), ValModel::F32(y)];
    assert(value::fits(fields[0], vals[0]));
    assert(value::fits(fields[1], vals[1]));
    assert(value::all_fit(fields, vals, 0));
    assert(value::all_fit(fields, vals, 1));
    assert(value::all_fit(fields, vals, 2));
    value::lemma_encode_words(vec2(), pair_value(data, at));
    value::lemma_encode_fields_words(fields, vals, 2);
    value::lemma_encode_fields_words(fields, vals, 1);
    value::lemma_bytes_of_word(data, at);
    value::lemma_bytes_of_word(data, at + 4);
    assert(value::encode_fields(fields, vals, 0) =~= seq![]);
    assert(value::encode(fields[0], vals[0]) == value::le_bytes(x.bits));
    assert(value::encode(fields[1], vals[1]) == value::le_bytes(y.bits));
    assert(value::encode_fields(fields, vals, 2) =~= value::le_bytes(x.bits) + value::le_bytes(
        y.bits,
    ));
    assert(data.subrange(at, at + 8) =~= data.subrange(at, at + 4) + data.subrange(at + 4, at + 8));
}

/// The pairs of some bytes as dynamic values.
pub open spec fn pair_values(data: Seq<u8>) -> Seq<ValModel> {
    Seq::new(data.len() / 8, |i: int| pair_value(data, 8 * i))
}

/// A list of pairs has the image that it was read from.
proof fn lemma_pairs_image(data: Seq<u8>)
    requires
        data.len() % 8 == 0,
    ensures
        laws::all_items_fit(vec2(), pair_values(data)),
        laws::list_encode(vec2(), pair_values(data)) == data,
{
    let items = pair_values(data);
    let images = source::encode_all(vec2(), items);
    assert forall|i: int| 0 <= i < items.len() implies value::fits(vec2(), #[trigger] items[i])
        && images[i] == data.subrange(i * 8, i * 8 + 8) by {
        lemma_pair_image(data, 8 * i);
    }
    lemma_pieces_make_up(images, 8, data, images.len());
    assert(data.take((images.len() * 8) as int) =~= data);
}

/// A source that stands for a list supplies what it should.
proof fn lemma_list_is_sound(src: SourceModel, elem: TyModel, items: Seq<ValModel>)
    requires
        elem.size() > 0,
        items.len() <= usize::MAX,
        laws::all_items_fit(elem, items),
        laws::denotes_list(src, elem, items),
    ensures
        call::sound(src, TyModel::List(Box::new(elem))),
{
    laws::law_meaningful_sources_are_sound(
        src,
        TyModel::List(Box::new(elem)),
        Meaning::Value(ValModel::List(items)),
    );
}

/// A list of pairs that are gathered on demand supplies what it should, as every eight bytes are
/// a pair.
proof fn lemma_column_is_sound(elements: Seq<Seq<u8>>)
    requires
        forall|i: int| 0 <= i < elements.len() ==> (#[trigger] elements[i]).len() == 8,
    ensures
        call::sound(SourceModel::Lazy(elements), TyModel::List(Box::new(vec2()))),
{
    let n = elements.len();
    let image = source::join(elements, 0, n);
    lemma_vec2();
    laws::lemma_join_len(elements, 8, 0, n);
    assert forall|k: int| 0 <= k < n implies #[trigger] validity::valid_at(
        vec2(),
        image,
        k * vec2().size(),
    ) by {
        validity::lemma_total_valid(vec2(), image, k * vec2().size());
    }
}

/// The tree of dynamic values alone is the simple case, and works: a guest sums a list of
/// `vec2` of which every element is a dynamic value.
pub fn demo_simple<F: Fn(F32Bits, (F32Bits, F32Bits)) -> F32Bits + 'static>(
    raw: &[u8],
    step: F,
) -> (r: F32Bits)
    requires
        raw@.len() % 8 == 0,
        raw@.len() + 4096 <= i32::MAX,
        floats::total(step),
    ensures
        pairs_sum_to(step, pairs_of(raw@), r),
{
    let n = raw.len() / 8;
    let ghost items = pair_values(raw@);
    let mut elems: Vec<ValSource<'_>> = Vec::new();
    let mut i: usize = 0;
    while i < n
        invariant
            i <= n,
            8 * n == raw@.len(),
            raw@.len() <= i32::MAX,
            items == pair_values(raw@),
            elems@.len() == i,
            forall|k: int| 0 <= k < i ==> (#[trigger] elems@[k])@ == SourceModel::Val(items[k]),
        decreases n - i,
    {
        let mut parts: Vec<Val> = Vec::new();
        parts.push(Val::F32(F32Bits { bits: read_word(raw, i * 8) }));
        parts.push(Val::F32(F32Bits { bits: read_word(raw, i * 8 + 4) }));
        proof {
            value::lemma_models(parts@);
            reveal_with_fuel(Val::model, 3);
            assert(value::models(parts@) =~= seq![
                ValModel::F32(floats::pair_at(raw@, 8 * i as int).0),
                ValModel::F32(floats::pair_at(raw@, 8 * i as int).1),
            ]);
        }
        elems.push(ValSource::Val(Val::Record(parts)));
        i += 1;
    }
    let mut store = Store::new(raw.len() + 4096);
    proof {
        source::lemma_models(elems@);
        lemma_vec2();
        lemma_pairs_image(raw@);
        reveal_with_fuel(ValSpec::model, 3);
        reveal_with_fuel(shape::shape_error, 3);
    }
    let src = ValSource::List(ListSource::Elems(elems));
    proof {
        assert(laws::denotes_list(src@, vec2(), items));
        laws::law_range_image_depends_on_the_list(src@, vec2(), items, 0, items.len());
        lemma_list_is_sound(src@, vec2(), items);
    }
    let by_elem = ValSpec::ListElems(Box::new(ValSpec::Val));
    sum_pairs_through_a_guest(by_elem, src, step, &mut store)
}

/// What a guest is handed where its two arguments are lists of pairs with the images `a` and
/// `c`.
spec fn handed_two(handed: Handed, a: Seq<u8>, c: Seq<u8>) -> bool {
    &&& handed.core == seq![
        CoreVal::I32(0),
        CoreVal::I32((a.len() / 8) as i32),
        CoreVal::I32(a.len() as i32),
        CoreVal::I32((c.len() / 8) as i32),
    ]
    &&& handed.store.next == a.len() + c.len()
    &&& laws::stands_at(handed.store.mem, 0, a)
    &&& laws::stands_at(handed.store.mem, a.len() as int, c)
    &&& a.len() + c.len() + 8 <= handed.store.mem.len() <= i32::MAX
}

/// The two arguments of this call are lists of pairs.
spec fn two_lists(b: BoundCall<'_>, store: StoreModel) -> bool {
    let (s, t) = (b.args()[0], b.args()[1]);
    &&& b.complete()
    &&& b.args().len() == 2
    &&& shape::admits(b.prepared().specs()[0], s)
    &&& shape::admits(b.prepared().specs()[1], t)
    &&& b.prepared().params().len() == 2
    &&& b.prepared().params()[0] == TyModel::List(Box::new(vec2()))
    &&& b.prepared().params()[1] == TyModel::List(Box::new(vec2()))
    &&& s !is Stream && s.is_list() && s.has_range(vec2(), 0, s.list_len())
    &&& t !is Stream && t.is_list() && t.has_range(vec2(), 0, t.list_len())
    &&& call::sound(s, b.prepared().params()[0])
    &&& call::sound(t, b.prepared().params()[1])
    &&& s.list_image(vec2()).len() % 4 == 0
    &&& s.list_image(vec2()).len() + t.list_image(vec2()).len() + 8 <= store.mem.len()
    &&& store.mem.len() <= i32::MAX
}

proof fn lemma_two_lists(b: BoundCall<'_>, store: StoreModel)
    requires
        two_lists(b, store),
    ensures
        b.accepted() == 2,
        Passed::nothing(store).takes_args(b.prepared().params(), b.args(), 2),
        b.refusal(store) is None,
        handed_two(
            b.handed(store),
            b.args()[0].list_image(vec2()),
            b.args()[1].list_image(vec2()),
        ),
{
    let (s, t) = (b.args()[0], b.args()[1]);
    let (a, c) = (s.list_image(vec2()), t.list_image(vec2()));
    let start = Passed::nothing(store);
    let tys = b.prepared().params();
    lemma_vec2();
    layout::lemma_round_up(0, 4);
    layout::lemma_round_up(a.len(), 4);
    assert(call::accepted(b.prepared().specs(), tys, b.args(), 0) == 0);
    assert(call::accepted(b.prepared().specs(), tys, b.args(), 1) == 1);
    assert(call::accepted(b.prepared().specs(), tys, b.args(), 2) == 2);
    let none = start.args(tys, b.args(), 0);
    assert(none == start);
    assert(start.takes_args(tys, b.args(), 0));
    let one = start.args(tys, b.args(), 1);
    assert(one == start.arg(tys[0], s));
    assert(start.takes(tys[0], s));
    assert(start.takes_args(tys, b.args(), 1));
    assert(one.lowered.store.next == a.len());
    let two = start.args(tys, b.args(), 2);
    assert(two == one.arg(tys[1], t));
    assert(one.takes(tys[1], t));
    assert(one.lowered.core =~= seq![CoreVal::I32(0), CoreVal::I32((a.len() / 8) as i32)]);
    assert(two.lowered.core =~= seq![
        CoreVal::I32(0),
        CoreVal::I32((a.len() / 8) as i32),
        CoreVal::I32(a.len() as i32),
        CoreVal::I32((c.len() / 8) as i32),
    ]);
    let mem = two.lowered.store.mem;
    assert(mem.subrange(0, a.len() as int) =~= a);
    assert(mem.subrange(a.len() as int, a.len() + c.len() as int) =~= c);
}

/// A guest that sums two lists of pairs gives a sum of the pairs of both.
proof fn lemma_two_lists_outcome<F: Fn(F32Bits, (F32Bits, F32Bits)) -> F32Bits>(
    g: SumPairs<F>,
    handed: Handed,
    a: Seq<u8>,
    c: Seq<u8>,
    after: StoreModel,
    results: LiftedModel,
)
    requires
        g.lists == 2,
        handed_two(handed, a, c),
        handed.store.room(4, 4),
        g.may_return(handed, after, results.core),
        results.mem == after.mem,
        results.tys == seq![TyModel::List(Box::new(TyModel::F32))],
    ensures
        gives(results, |x: F32Bits| pairs_sum_to(g.step, pairs_of(a) + pairs_of(c), x)),
{
    lemma_pairs_of_image(handed.store.mem, 0, a, a.len() / 8);
    lemma_pairs_of_image(handed.store.mem, a.len() as int, c, c.len() / 8);
    assert(guest::int_in(handed.core, 0) == 0);
    assert(guest::int_in(handed.core, 1) == a.len() / 8);
    assert(guest::int_in(handed.core, 2) == a.len());
    assert(guest::int_in(handed.core, 3) == c.len() / 8);
    assert(floats::pairs_of_lists(handed, 0) =~= seq![]);
    assert(floats::pairs_of_lists(handed, 1) =~= pairs_of(a));
    assert(floats::pairs_of_lists(handed, 2) =~= pairs_of(a) + pairs_of(c));
    let sum = choose|sum: F32Bits|
        {
            &&& #[trigger] floats::may_sum(
                g.step,
                floats::pairs_of_lists(handed, g.lists as nat),
                F32Bits { bits: 0 },
                sum,
            )
            &&& after == handed.store.with(value::le_bytes(sum.bits), 4)
        };
    lemma_one_float_comes_back(handed.store, after, results, sum);
}

/// A guest that sums two lists of pairs runs on them.
proof fn lemma_two_lists_call<F: Fn(F32Bits, (F32Bits, F32Bits)) -> F32Bits>(
    b: BoundCall<'_>,
    g: SumPairs<F>,
    store: StoreModel,
)
    requires
        runs_body(b, g),
        g.lists == 2,
        floats::total(g.step),
        two_lists(b, store),
    ensures
        b.runs(store),
        b.results_fit(),
        b.refusal(store) is None,
        forall|after: StoreModel, results: LiftedModel| #[trigger]
            b.may_give(store, after, results) ==> gives(
                results,
                |x: F32Bits|
                    pairs_sum_to(
                        g.step,
                        pairs_of(b.args()[0].list_image(vec2())) + pairs_of(
                            b.args()[1].list_image(vec2()),
                        ),
                        x,
                    ),
            ),
{
    let a = b.args()[0].list_image(vec2());
    let c = b.args()[1].list_image(vec2());
    let handed = b.handed(store);
    lemma_two_lists(b, store);
    lemma_results_fit(b);
    layout::lemma_round_up(a.len() + c.len(), 4);
    assert(guest::int_in(handed.core, 0) == 0);
    assert(guest::int_in(handed.core, 1) == a.len() / 8);
    assert(guest::int_in(handed.core, 2) == a.len());
    assert(guest::int_in(handed.core, 3) == c.len() / 8);
    assert forall|l: int| 0 <= l < g.lists implies {
        &&& #[trigger] guest::int_in(handed.core, 2 * l) >= 0
        &&& guest::int_in(handed.core, 2 * l + 1) >= 0
        &&& guest::int_in(handed.core, 2 * l) + 8 * guest::int_in(handed.core, 2 * l + 1)
            <= handed.store.mem.len()
    } by {
        if l == 0 {
        } else {
            assert(l == 1);
        }
    }
    assert(g.accepts(handed));
    assert forall|after: StoreModel, results: LiftedModel| #[trigger]
        b.may_give(store, after, results) implies gives(
        results,
        |x: F32Bits| pairs_sum_to(g.step, pairs_of(a) + pairs_of(c), x),
    ) by {
        lemma_two_lists_outcome(g, handed, a, c, after, results);
    }
}

/// The column that a key opens, ready to be bound.
fn column_of<'a>(key: &mut FieldKey<'a>) -> (r: Column<'a>)
    ensures
        r.source.elements() == old(key).columns().column(old(key).field()),
        r.source.asked() == Some(Seq::<(nat, nat)>::empty()),
        final(key).columns() == old(key).columns(),
        final(key).field() == old(key).field(),
{
    Column { source: Box::new(ArchetypeColumn::new(key.reader())) }
}

/// The column that a key opens, as a source.
fn column_source<'a>(key: &mut FieldKey<'a>) -> (r: ValSource<'a>)
    ensures
        r@ == SourceModel::Lazy(old(key).columns().column(old(key).field())),
        r.asked() == Some(Seq::<(nat, nat)>::empty()),
        final(key).columns() == old(key).columns(),
        final(key).field() == old(key).field(),
{
    ValSource::Lazy(column_of(key))
}

/// Every position and every acceleration takes eight bytes.
proof fn lemma_columns(columns: Columns, n: nat)
    requires
        forall|f: Field| n == (#[trigger] columns.column(f)).len(),
        forall|f: Field, i: int| 0 <= i < n ==> (#[trigger] columns.column(f)[i]).len() == 8,
    ensures
        columns.position.len() == n,
        columns.acceleration.len() == n,
        forall|i: int| 0 <= i < n ==> (#[trigger] columns.position[i]).len() == 8,
        forall|i: int| 0 <= i < n ==> (#[trigger] columns.acceleration[i]).len() == 8,
{
    assert(columns.column(Field::Position) == columns.position);
    assert(columns.column(Field::Acceleration) == columns.acceleration);
    assert forall|i: int| 0 <= i < n implies (#[trigger] columns.position[i]).len() == 8 by {
        assert(columns.column(Field::Position)[i].len() == 8);
    }
    assert forall|i: int| 0 <= i < n implies (#[trigger] columns.acceleration[i]).len() == 8 by {
        assert(columns.column(Field::Acceleration)[i].len() == 8);
    }
}

/// What comes of driving one source in both worlds.
pub struct BothWorlds<'a> {
    /// The position column, materialised up front.
    pub eager: Vec<u8>,
    /// The source that was materialised.
    pub materialised: ValSource<'a>,
    /// The position column, pulled in three uneven pieces.
    pub lazy: Vec<u8>,
    /// The source that the pieces were pulled from.
    pub pulled: ValSource<'a>,
    /// A window of 64 positions from number 100 on, and nothing else.
    pub window: Vec<u8>,
    /// The source that the window was pulled from.
    pub windowed: ValSource<'a>,
    /// What a guest makes of positions and accelerations; velocities are stored, but no source.
    pub sum: F32Bits,
}

/// One interface for both worlds: a column that is gathered on demand yields the same bytes
/// whether it is driven eagerly or lazily, a source that a window is pulled from is asked for the
/// window only, and a guest that wants two of three columns is handed just those: the key to the
/// velocities stays as it was.
#[verifier::rlimit(30)]
pub fn demo_both_worlds<'a, F: Fn(F32Bits, (F32Bits, F32Bits)) -> F32Bits + 'static>(
    keys: &mut Keys<'a>,
    step: F,
) -> (r: BothWorlds<'a>)
    requires
        old(keys).of(old(keys).position.columns()),
        old(keys).position.columns().position.len() >= 164,
        16 * old(keys).position.columns().position.len() + 4096 <= i32::MAX,
        floats::total(step),
    ensures
        final(keys).of(old(keys).position.columns()),
        final(keys).velocity == old(keys).velocity,
        ({
            let arch = old(keys).position.columns();
            let n = arch.position.len();
            &&& r.eager@ == source::join(arch.position, 0, n)
            &&& r.materialised@ == SourceModel::Lazy(arch.position)
            &&& r.materialised.asked() == Some(seq![(0nat, n)])
            &&& r.lazy@ == r.eager@
            &&& r.pulled@ == SourceModel::Lazy(arch.position)
            &&& r.pulled.asked() == Some(
                seq![(0nat, 10nat), (10nat, (n - 30) as nat), ((n - 20) as nat, 20nat)],
            )
            &&& r.window@ == source::join(arch.position, 100, 64)
            &&& r.window@.len() == 64 * 8
            &&& r.windowed@ == SourceModel::Lazy(arch.position)
            &&& r.windowed.asked() == Some(seq![(100nat, 64nat)])
            &&& pairs_sum_to(
                step,
                pairs_of(source::join(arch.position, 0, n)) + pairs_of(
                    source::join(arch.acceleration, 0, arch.acceleration.len()),
                ),
                r.sum,
            )
        }),
{
    let n = keys.position.count();
    let vt = vec2_ty();
    let ghost arch = keys.position.columns();
    proof {
        lemma_columns(arch, n as nat);
        assert(arch.column(Field::Position) == arch.position);
        laws::lemma_join_len(arch.position, 8, 0, n as nat);
        laws::lemma_join_len(arch.position, 8, 100, 64);
        lemma_vec2();
    }
    let mut materialised = column_source(&mut keys.position);
    let eager = drive_eager(&mut materialised, &vt);
    assert(materialised.asked()->Some_0 =~= seq![(0nat, n as nat)]);
    let mut pulls: Vec<(usize, usize)> = Vec::new();
    pulls.push((0, 10));
    pulls.push((10, n - 30));
    pulls.push((n - 20, 20));
    let mut pulled = column_source(&mut keys.position);
    proof {
        let p = pulls@;
        assert(laws::reach(p, 0) == 0);
        assert(laws::reach(p, 1) == 10);
        assert(laws::reach(p, 2) == n - 20);
        assert(laws::reach(p, 3) == n);
        assert(laws::consecutive(p));
        laws::law_eager_is_lazy(pulled@, vec2(), p);
    }
    let lazy = drive_lazy(&mut pulled, &vt, pulls.as_slice());
    assert(pulled.asked()->Some_0 =~= seq![
        (0nat, 10nat),
        (10nat, (n - 30) as nat),
        ((n - 20) as nat, 20nat),
    ]);
    let mut part: Vec<(usize, usize)> = Vec::new();
    part.push((100, 64));
    let mut windowed = column_source(&mut keys.position);
    let window = drive_lazy(&mut windowed, &vt, part.as_slice());
    proof {
        assert(windowed.asked()->Some_0 =~= seq![(100nat, 64nat)]);
        reveal_with_fuel(source::pulled, 2);
        assert(window@ =~= source::join(arch.position, 100, 64));
    }
    let sum = sum_columns(&mut keys.position, &mut keys.acceleration, step);
    BothWorlds { eager, materialised, lazy, pulled, window, windowed, sum }
}

/// Have a guest sum the positions and the accelerations of an archetype.
#[verifier::rlimit(30)]
fn sum_columns<'a, F: Fn(F32Bits, (F32Bits, F32Bits)) -> F32Bits + 'static>(
    position: &mut FieldKey<'a>,
    acceleration: &mut FieldKey<'a>,
    step: F,
) -> (r: F32Bits)
    requires
        old(position).field() == Field::Position,
        old(acceleration).field() == Field::Acceleration,
        old(acceleration).columns() == old(position).columns(),
        16 * old(position).columns().position.len() + 4096 <= i32::MAX,
        floats::total(step),
    ensures
        final(position).columns() == old(position).columns(),
        final(position).field() == old(position).field(),
        final(acceleration).columns() == old(acceleration).columns(),
        final(acceleration).field() == old(acceleration).field(),
        ({
            let arch = old(position).columns();
            pairs_sum_to(
                step,
                pairs_of(source::join(arch.position, 0, arch.position.len())) + pairs_of(
                    source::join(arch.acceleration, 0, arch.acceleration.len()),
                ),
                r,
            )
        }),
{
    let n = position.count();
    let ghost arch = position.columns();
    let g = SumPairs { lists: 2, step };
    let ghost guest_of = g;
    let func = pair_func(2, Body { code: Box::new(g) });
    let mut specs: Vec<ValSpec> = Vec::new();
    specs.push(ValSpec::Lazy);
    specs.push(ValSpec::Lazy);
    proof {
        lemma_columns(arch, n as nat);
        assert(arch.column(Field::Position) == arch.position);
        assert(arch.column(Field::Acceleration) == arch.acceleration);
        laws::lemma_join_len(arch.position, 8, 0, n as nat);
        laws::lemma_join_len(arch.acceleration, 8, 0, n as nat);
        lemma_column_is_sound(arch.position);
        lemma_column_is_sound(arch.acceleration);
        lemma_vec2();
        shape::lemma_models(specs@);
        assert(call::first_error(shape::models(specs@), layout::models(func.params@), 0) is None);
        assert(call::first_error(shape::models(specs@), layout::models(func.params@), 1) is None);
        assert(call::first_error(shape::models(specs@), layout::models(func.params@), 2) is None);
    }
    let prepared = match PreparedCall::new(&func, specs.as_slice()) {
        Ok(prepared) => prepared,
        Err(_) => vstd::pervasive::unreached(),
    };
    let mut store = Store::new(n * 16 + 4096);
    let bound = prepared.bind().arg(column_source(position)).arg(column_source(acceleration));
    proof {
        assert(runs_body(bound, guest_of));
        assert(two_lists(bound, store@));
        lemma_two_lists_call(bound, guest_of, store@);
    }
    match bound.invoke_scoped(&mut store, first_float) {
        Ok(x) => x,
        Err(_) => vstd::pervasive::unreached(),
    }
}

/// A particle: position, velocity, and one of three kinds.
pub open spec fn particle() -> TyModel {
    TyModel::Record(seq![vec2(), vec2(), TyModel::Enum(3)])
}

/// It takes twenty bytes.
pub proof fn lemma_particle()
    ensures
        particle().size() == 20,
        particle().align() == 4,
        particle().inline(),
{
    let fields = seq![vec2(), vec2(), TyModel::Enum(3)];
    lemma_vec2();
    layout::lemma_fields_words(fields, 0);
    layout::lemma_fields_words(fields, 1);
    layout::lemma_fields_words(fields, 2);
    layout::lemma_fields_words(fields, 3);
    layout::lemma_all_inline(fields, 3);
    layout::lemma_words(particle());
}

/// A particle: position, velocity, and one of three kinds.
pub fn particle_ty() -> (r: Ty)
    ensures
        r@ == particle(),
        r.sized(),
{
    let mut fields: Vec<Ty> = Vec::new();
    fields.push(vec2_ty());
    fields.push(vec2_ty());
    fields.push(Ty::Enum(3));
    proof {
        lemma_particle();
        layout::lemma_models(fields@);
        assert(layout::models(fields@) =~= seq![vec2(), vec2(), TyModel::Enum(3)]);
    }
    Ty::Record(fields)
}

/// The image of particle `i`: the bytes of its position, of its velocity, and its kind.
pub open spec fn particle_image(
    pos: Seq<u8>,
    vel: Seq<u8>,
    kinds: Seq<u32>,
    i: int,
) -> Seq<u8> {
    pos.subrange(8 * i, 8 * i + 8) + vel.subrange(8 * i, 8 * i + 8) + value::le_bytes(kinds[i])
}

/// The images of all particles.
pub open spec fn particle_images(pos: Seq<u8>, vel: Seq<u8>, kinds: Seq<u32>) -> Seq<Seq<u8>> {
    Seq::new(kinds.len(), |i: int| particle_image(pos, vel, kinds, i))
}

/// Particle `i` as a dynamic value.
spec fn particle_value(pos: Seq<u8>, vel: Seq<u8>, kinds: Seq<u32>, i: int) -> ValModel {
    ValModel::Record(
        seq![pair_value(pos, 8 * i), pair_value(vel, 8 * i), ValModel::Enum(kinds[i])],
    )
}

/// Some bytes whose lengths and kinds make up particles.
pub open spec fn particles(pos: Seq<u8>, vel: Seq<u8>, kinds: Seq<u32>) -> bool {
    &&& pos.len() == 8 * kinds.len()
    &&& vel.len() == 8 * kinds.len()
    &&& forall|i: int| 0 <= i < kinds.len() ==> #[trigger] kinds[i] < 3
}

proof fn lemma_particle_image(pos: Seq<u8>, vel: Seq<u8>, kinds: Seq<u32>, i: int)
    requires
        particles(pos, vel, kinds),
        0 <= i < kinds.len(),
    ensures
        value::fits(particle(), particle_value(pos, vel, kinds, i)),
        value::encode(particle(), particle_value(pos, vel, kinds, i)) == particle_image(
            pos,
            vel,
            kinds,
            i,
        ),
{
    let fields = seq![vec2(), vec2(), TyModel::Enum(3)];
    let vals = seq![pair_value(pos, 8 * i), pair_value(vel, 8 * i), ValModel::Enum(kinds[i])];
    lemma_pair_image(pos, 8 * i);
    lemma_pair_image(vel, 8 * i);
    assert(value::fits(fields[2], vals[2]));
    assert(value::all_fit(fields, vals, 0));
    assert(value::all_fit(fields, vals, 1));
    assert(value::all_fit(fields, vals, 2));
    assert(value::all_fit(fields, vals, 3));
    value::lemma_encode_words(particle(), particle_value(pos, vel, kinds, i));
    value::lemma_encode_fields_words(fields, vals, 3);
    value::lemma_encode_fields_words(fields, vals, 2);
    value::lemma_encode_fields_words(fields, vals, 1);
    assert(value::encode_fields(fields, vals, 0) =~= seq![]);
    assert(value::encode(fields[2], vals[2]) == value::le_bytes(kinds[i]));
    assert(value::encode_fields(fields, vals, 1) =~= value::encode(fields[0], vals[0]));
    assert(value::encode_fields(fields, vals, 3) =~= particle_image(pos, vel, kinds, i));
}

/// Particle `i` as a record of two flat fields and a dynamic one.
fn mixed_particle<'a>(
    pos: &'a [u8],
    vel: &'a [u8],
    kinds: &[u32],
    vt: &'a Ty,
    i: usize,
) -> (r: ValSource<'a>)
    requires
        particles(pos@, vel@, kinds@),
        i < kinds@.len(),
        vt@ == vec2(),
        vt.sized(),
    ensures
        laws::denotes(r@, particle(), particle_value(pos@, vel@, kinds@, i as int)),
{
    assert(pos.len() == pos@.len());
    let at = i * 8;
    let p = slice_subrange(pos, at, at + 8);
    let v = slice_subrange(vel, at, at + 8);
    proof {
        lemma_vec2();
        laws::law_total_types_need_no_sweep(vec2(), p@);
        laws::law_total_types_need_no_sweep(vec2(), v@);
        lemma_pair_image(pos@, 8 * i as int);
        lemma_pair_image(vel@, 8 * i as int);
    }
    let mut fields: Vec<ValSource<'a>> = Vec::new();
    match ValidatedCabiBytes::checked(p, vt) {
        Ok(vb) => fields.push(ValSource::Flat(vb)),
        Err(_) => vstd::pervasive::unreached(),
    }
    match ValidatedCabiBytes::checked(v, vt) {
        Ok(vb) => fields.push(ValSource::Flat(vb)),
        Err(_) => vstd::pervasive::unreached(),
    }
    fields.push(ValSource::Val(Val::Enum(kinds[i])));
    proof {
        source::lemma_models(fields@);
        let sources = source::models(fields@);
        let tys = seq![vec2(), vec2(), TyModel::Enum(3)];
        let vals = seq![
            pair_value(pos@, 8 * i as int),
            pair_value(vel@, 8 * i as int),
            ValModel::Enum(kinds@[i as int]),
        ];
        assert(laws::denotes(sources[0], tys[0], vals[0]));
        assert(laws::denotes(sources[1], tys[1], vals[1]));
        assert(laws::denotes(sources[2], tys[2], vals[2]));
        assert(laws::all_denote(sources, tys, vals, 0));
        assert(laws::all_denote(sources, tys, vals, 1));
        assert(laws::all_denote(sources, tys, vals, 2));
        assert(laws::all_denote(sources, tys, vals, 3));
    }
    ValSource::Record(fields)
}

/// The addends of an image are those of the memory that it stands in.
proof fn lemma_addends_of_image(mem: Seq<u8>, image: Seq<u8>, n: nat)
    requires
        laws::stands_at(mem, 0, image),
        20 * n <= image.len(),
    ensures
        floats::addends_at(mem, 0, 5 * n) == floats::addends_at(image, 0, 5 * n),
{
    let (a, b) = (floats::addends_at(mem, 0, 5 * n), floats::addends_at(image, 0, 5 * n));
    assert forall|i: int| 0 <= i < 5 * n implies #[trigger] a[i] == b[i] by {
        let at = 20 * (i / 5) + 4 * (i % 5);
        assert(0 <= at && at + 4 <= image.len());
        assert forall|k: int| 0 <= k < 4 implies mem[#[trigger] (at + k)] == image[at + k] by {
            assert(mem.subrange(0, image.len() as int)[at + k] == mem[at + k]);
        }
        value::lemma_word_same(mem, at, image, at);
    }
    assert(a =~= b);
}

/// The sum of the addends of an image may be the float in `x`.
pub open spec fn addends_sum_to<F: Fn(F32Bits, Addend) -> F32Bits>(
    step: F,
    image: Seq<u8>,
    x: F32Bits,
) -> bool {
    floats::may_sum(
        step,
        floats::addends_at(image, 0, 5 * (image.len() / 20)),
        F32Bits { bits: 0 },
        x,
    )
}

/// A guest that sums particles gives a sum of their addends.
proof fn lemma_particles_outcome<F: Fn(F32Bits, Addend) -> F32Bits>(
    g: SumParticles<F>,
    handed: Handed,
    image: Seq<u8>,
    after: StoreModel,
    results: LiftedModel,
)
    requires
        handed_one(handed, image, 20),
        g.may_return(handed, after, results.core),
        results.mem == after.mem,
        results.tys == seq![TyModel::List(Box::new(TyModel::F32))],
    ensures
        gives(results, |x: F32Bits| addends_sum_to(g.step, image, x)),
{
    let n = image.len() / 20;
    lemma_handed_one(handed, image, 20);
    lemma_addends_of_image(handed.store.mem, image, n);
    let sum = choose|sum: F32Bits|
        {
            &&& #[trigger] floats::may_sum(
                g.step,
                floats::addends_at(
                    handed.store.mem,
                    guest::int_in(handed.core, 0),
                    (5 * guest::int_in(handed.core, 1)) as nat,
                ),
                F32Bits { bits: 0 },
                sum,
            )
            &&& after == handed.store.with(value::le_bytes(sum.bits), 4)
        };
    lemma_one_float_comes_back(handed.store, after, results, sum);
}

/// A guest that sums particles runs on a list of them.
proof fn lemma_particles_call<F: Fn(F32Bits, Addend) -> F32Bits>(
    b: BoundCall<'_>,
    g: SumParticles<F>,
    store: StoreModel,
)
    requires
        runs_body(b, g),
        floats::total(g.step),
        one_list(b, store, particle()),
    ensures
        b.runs(store),
        b.results_fit(),
        b.refusal(store) is None,
        forall|after: StoreModel, results: LiftedModel| #[trigger]
            b.may_give(store, after, results) ==> gives(
                results,
                |x: F32Bits| addends_sum_to(g.step, b.args()[0].list_image(particle()), x),
            ),
{
    let image = b.args()[0].list_image(particle());
    let handed = b.handed(store);
    lemma_particle();
    lemma_one_list(b, store, particle());
    lemma_handed_one(handed, image, 20);
    lemma_results_fit(b);
    assert(g.accepts(handed));
    assert forall|after: StoreModel, results: LiftedModel| #[trigger]
        b.may_give(store, after, results) implies gives(
        results,
        |x: F32Bits| addends_sum_to(g.step, image, x),
    ) by {
        lemma_particles_outcome(g, handed, image, after, results);
    }
}

/// Have a guest sum a list of particles, provided as records of two flat fields and a dynamic
/// one.
#[verifier::rlimit(30)]
fn sum_particles_through_a_guest<'a, F: Fn(F32Bits, Addend) -> F32Bits + 'static>(
    src: ValSource<'a>,
    step: F,
    store: &mut Store,
) -> (r: F32Bits)
    requires
        floats::total(step),
        src@ is ListElems,
        src@.has_range(particle(), 0, src@.list_len()),
        call::sound(src@, TyModel::List(Box::new(particle()))),
        src@.list_image(particle()).len() + 8 <= old(store)@.mem.len(),
        old(store)@.mem.len() <= i32::MAX,
    ensures
        addends_sum_to(step, src@.list_image(particle()), r),
{
    let g = SumParticles { step };
    let ghost guest_of = g;
    let mut params: Vec<Ty> = Vec::new();
    params.push(Ty::List(Box::new(particle_ty())));
    let mut results: Vec<Ty> = Vec::new();
    results.push(Ty::List(Box::new(Ty::F32)));
    let mut fields: Vec<ValSpec> = Vec::new();
    fields.push(ValSpec::Flat);
    fields.push(ValSpec::Flat);
    fields.push(ValSpec::Val);
    let ghost flat_flat_val = fields@;
    let mut specs: Vec<ValSpec> = Vec::new();
    specs.push(ValSpec::ListElems(Box::new(ValSpec::Record(fields))));
    proof {
        layout::lemma_models(params@);
        layout::lemma_models(results@);
        shape::lemma_models(flat_flat_val);
        shape::lemma_models(specs@);
        lemma_vec2();
        reveal_with_fuel(Ty::model, 3);
        reveal_with_fuel(ValSpec::model, 3);
        assert(layout::models(results@) =~= seq![TyModel::List(Box::new(TyModel::F32))]);
        let shapes = seq![SpecModel::Flat, SpecModel::Flat, SpecModel::Val];
        let tys = seq![vec2(), vec2(), TyModel::Enum(3)];
        assert(shape::models(flat_flat_val) =~= shapes);
        assert(specs@[0]@ == SpecModel::ListElems(Box::new(SpecModel::Record(shapes))));
        assert(shape::shape_error(shapes[0], tys[0], 0) is None);
        assert(shape::shape_error(shapes[1], tys[1], 0) is None);
        assert(shape::shape_error(shapes[2], tys[2], 0) is None);
        assert(shape::fields_error(shapes, tys, 0, 0) is None);
        assert(shape::fields_error(shapes, tys, 0, 1) is None);
        assert(shape::fields_error(shapes, tys, 0, 2) is None);
        assert(shape::fields_error(shapes, tys, 0, 3) is None);
        assert(shape::shape_error(SpecModel::Record(shapes), particle(), 0) is None);
        assert(shape::shape_error(
            specs@[0]@,
            TyModel::List(Box::new(particle())),
            0,
        ) is None);
        reveal_with_fuel(call::first_error, 2);
    }
    let func = Func::new(params, results, Body { code: Box::new(g) });
    let prepared = match PreparedCall::new(&func, specs.as_slice()) {
        Ok(prepared) => prepared,
        Err(_) => vstd::pervasive::unreached(),
    };
    let bound = prepared.bind().arg(src);
    proof {
        assert(runs_body(bound, guest_of));
        assert(one_list(bound, store@, particle()));
        lemma_particles_call(bound, guest_of, store@);
    }
    match bound.invoke_scoped(store, first_float) {
        Ok(x) => x,
        Err(_) => vstd::pervasive::unreached(),
    }
}

/// What comes of mixing representations within one value.
pub struct Composite {
    /// The bytes of the list.
    pub bytes: Vec<u8>,
    /// What a guest makes of it.
    pub sum: F32Bits,
}

/// Representations mix within one value: a list of particles, each of them a record with two
/// flat fields and a dynamic one, has exactly the canonical image, and a guest reads it.
#[verifier::rlimit(30)]
pub fn demo_composite<F: Fn(F32Bits, Addend) -> F32Bits + 'static>(
    pos: &[u8],
    vel: &[u8],
    kinds: &[u32],
    step: F,
) -> (r: Composite)
    requires
        particles(pos@, vel@, kinds@),
        20 * kinds@.len() + 4096 <= i32::MAX,
        floats::total(step),
    ensures
        r.bytes@ == source::join(particle_images(pos@, vel@, kinds@), 0, kinds@.len()),
        addends_sum_to(step, r.bytes@, r.sum),
{
    let vt = vec2_ty();
    let ty = particle_ty();
    let ghost items = Seq::new(
        kinds@.len(),
        |i: int| particle_value(pos@, vel@, kinds@, i),
    );
    let mut elems: Vec<ValSource<'_>> = Vec::new();
    let mut i: usize = 0;
    while i < kinds.len()
        invariant
            i <= kinds@.len(),
            particles(pos@, vel@, kinds@),
            vt@ == vec2(),
            vt.sized(),
            elems@.len() == i,
            items == Seq::new(
                kinds@.len(),
                |i: int| particle_value(pos@, vel@, kinds@, i),
            ),
            forall|k: int|
                0 <= k < i ==> laws::denotes((#[trigger] elems@[k])@, particle(), items[k]),
        decreases kinds@.len() - i,
    {
        elems.push(mixed_particle(pos, vel, kinds, &vt, i));
        i += 1;
    }
    proof {
        source::lemma_models(elems@);
        lemma_particle();
        assert(kinds.len() == kinds@.len());
        assert forall|k: int| 0 <= k < items.len() implies value::fits(
            particle(),
            #[trigger] items[k],
        ) by {
            lemma_particle_image(pos@, vel@, kinds@, k);
        }
        let images = particle_images(pos@, vel@, kinds@);
        let encoded = source::encode_all(particle(), items);
        assert forall|k: int| 0 <= k < items.len() implies #[trigger] encoded[k] == images[k] by {
            lemma_particle_image(pos@, vel@, kinds@, k);
        }
        assert(encoded =~= images);
    }
    let mut mixed = ValSource::List(ListSource::Elems(elems));
    proof {
        assert(laws::denotes_list(mixed@, particle(), items));
        laws::law_range_image_depends_on_the_list(mixed@, particle(), items, 0, items.len());
        lemma_list_is_sound(mixed@, particle(), items);
    }
    let bytes = drive_eager(&mut mixed, &ty);
    let mut store = Store::new(kinds.len() * 20 + 4096);
    let sum = sum_particles_through_a_guest(mixed, step, &mut store);
    Composite { bytes, sum }
}

/// What a guest is handed where its arguments are a scale, a list with the image `seed`, and a
/// stream.
spec fn handed_stream(handed: Handed, scale: F32Bits, seed: Seq<u8>, chunks: Seq<Seq<u8>>) -> bool {
    &&& handed.core == seq![
        CoreVal::F32(scale),
        CoreVal::I32(0),
        CoreVal::I32((seed.len() / 8) as i32),
        CoreVal::I32(0),
    ]
    &&& handed.streams == seq![chunks]
    &&& handed.store.next == seed.len()
    &&& laws::stands_at(handed.store.mem, 0, seed)
    &&& handed.store.mem.len() <= i32::MAX
}

/// The arguments of this call are a scale, a list of pairs, and a stream.
spec fn scale_list_stream(
    b: BoundCall<'_>,
    store: StoreModel,
    scale: F32Bits,
    chunks: Seq<Seq<u8>>,
) -> bool {
    let s = b.args()[1];
    &&& b.complete()
    &&& b.args().len() == 3
    &&& b.args()[0] == SourceModel::Val(ValModel::F32(scale))
    &&& b.args()[2] == SourceModel::Stream(chunks)
    &&& shape::admits(b.prepared().specs()[0], b.args()[0])
    &&& shape::admits(b.prepared().specs()[1], s)
    &&& shape::admits(b.prepared().specs()[2], b.args()[2])
    &&& b.prepared().params().len() == 3
    &&& b.prepared().params()[0] == TyModel::F32
    &&& b.prepared().params()[1] == TyModel::List(Box::new(vec2()))
    &&& s !is Stream && s.is_list() && s.has_range(vec2(), 0, s.list_len())
    &&& call::sound(s, b.prepared().params()[1])
    &&& s.list_image(vec2()).len() <= store.mem.len()
    &&& store.mem.len() <= i32::MAX
}

proof fn lemma_scale_list_stream(
    b: BoundCall<'_>,
    store: StoreModel,
    scale: F32Bits,
    chunks: Seq<Seq<u8>>,
)
    requires
        scale_list_stream(b, store, scale, chunks),
    ensures
        b.accepted() == 3,
        Passed::nothing(store).takes_args(b.prepared().params(), b.args(), 3),
        b.refusal(store) is None,
        handed_stream(b.handed(store), scale, b.args()[1].list_image(vec2()), chunks),
{
    let args = b.args();
    let tys = b.prepared().params();
    let specs = b.prepared().specs();
    let seed = args[1].list_image(vec2());
    let start = Passed::nothing(store);
    lemma_vec2();
    layout::lemma_round_up(0, 4);
    value::lemma_word_of_bytes(scale.bits);
    assert(call::accepted(specs, tys, args, 0) == 0);
    assert(call::accepted(specs, tys, args, 1) == 1);
    assert(call::accepted(specs, tys, args, 2) == 2);
    assert(call::accepted(specs, tys, args, 3) == 3);
    assert(start.args(tys, args, 0) == start);
    assert(start.takes_args(tys, args, 0));
    let one = start.args(tys, args, 1);
    assert(one == start.arg(tys[0], args[0]));
    assert(start.takes(tys[0], args[0]));
    assert(start.takes_args(tys, args, 1));
    assert(one.lowered.core =~= seq![CoreVal::F32(scale)]);
    let two = start.args(tys, args, 2);
    assert(two == one.arg(tys[1], args[1]));
    assert(one.takes(tys[1], args[1]));
    assert(start.takes_args(tys, args, 2));
    assert(two.lowered.core =~= seq![
        CoreVal::F32(scale),
        CoreVal::I32(0),
        CoreVal::I32((seed.len() / 8) as i32),
    ]);
    let three = start.args(tys, args, 3);
    assert(three == two.arg(tys[2], args[2]));
    assert(three.lowered.core =~= seq![
        CoreVal::F32(scale),
        CoreVal::I32(0),
        CoreVal::I32((seed.len() / 8) as i32),
        CoreVal::I32(0),
    ]);
    assert(three.streams =~= seq![chunks]);
    assert(three.lowered.store.mem.subrange(0, seed.len() as int) =~= seed);
}

/// Chunks of whole words fit wherever their data fits.
proof fn lemma_room_for_chunks(s: StoreModel, data: Seq<u8>, size: nat)
    requires
        s.next % 4 == 0,
        size > 0,
        size % 4 == 0,
        s.next + data.len() <= s.mem.len() <= i32::MAX,
    ensures
        floats::room_for_pulls(s, stream::chunked(data, size)),
        floats::after_pulls(s, stream::chunked(data, size)).next == s.next + data.len(),
        floats::after_pulls(s, stream::chunked(data, size)).mem.len() == s.mem.len(),
    decreases data.len(),
{
    let chunks = stream::chunked(data, size);
    layout::lemma_round_up(s.next, 4);
    if data.len() == 0 {
    } else if data.len() <= size {
        assert(chunks.skip(1) =~= seq![]);
        assert(floats::after_pulls(s.with(data, 4), seq![]) == s.with(data, 4));
        assert(floats::room_for_pulls(s.with(data, 4), seq![]));
    } else {
        let rest = data.skip(size as int);
        let t = s.with(chunks[0], 4);
        assert(chunks[0] == data.take(size as int));
        assert(chunks.skip(1) =~= stream::chunked(rest, size));
        lemma_room_for_chunks(t, rest, size);
    }
}

/// The sum of a list, and then of a stream at some scale, may be the float in `x`.
pub open spec fn streamed_sum_to<
    F: Fn(F32Bits, (F32Bits, F32Bits)) -> F32Bits,
    G: Fn(F32Bits, (F32Bits, F32Bits, F32Bits)) -> F32Bits,
>(
    plain: F,
    scaled: G,
    scale: F32Bits,
    seed: Seq<u8>,
    chunks: Seq<Seq<u8>>,
    x: F32Bits,
) -> bool {
    exists|mid: F32Bits| #[trigger]
        pairs_sum_to(plain, pairs_of(seed), mid) && floats::may_sum(
            scaled,
            floats::scaled_events(scale, chunks),
            mid,
            x,
        )
}

/// A guest that accumulates gives a sum of its list and its stream.
proof fn lemma_stream_outcome<
    F: Fn(F32Bits, (F32Bits, F32Bits)) -> F32Bits,
    G: Fn(F32Bits, (F32Bits, F32Bits, F32Bits)) -> F32Bits,
>(
    g: Accumulate<F, G>,
    handed: Handed,
    scale: F32Bits,
    seed: Seq<u8>,
    chunks: Seq<Seq<u8>>,
    after: StoreModel,
    results: LiftedModel,
)
    requires
        handed_stream(handed, scale, seed, chunks),
        floats::after_pulls(handed.store, chunks).room(4, 4),
        floats::after_pulls(handed.store, chunks).mem.len() <= i32::MAX,
        g.may_return(handed, after, results.core),
        results.mem == after.mem,
        results.tys == seq![TyModel::List(Box::new(TyModel::F32))],
    ensures
        gives(
            results,
            |x: F32Bits| streamed_sum_to(g.plain, g.scaled, scale, seed, chunks, x),
        ),
{
    let pulled = floats::after_pulls(handed.store, chunks);
    assert(guest::int_in(handed.core, 1) == 0);
    assert(guest::int_in(handed.core, 2) == seed.len() / 8);
    assert(guest::int_in(handed.core, 3) == 0);
    assert(floats::chunks_in(handed) == chunks);
    assert(floats::scale_in(handed) == scale);
    lemma_pairs_of_image(handed.store.mem, 0, seed, seed.len() / 8);
    let (mid, sum) = choose|mid: F32Bits, sum: F32Bits|
        {
            &&& #[trigger] floats::may_sum(
                g.plain,
                floats::pairs_at(
                    handed.store.mem,
                    guest::int_in(handed.core, 1),
                    guest::int_in(handed.core, 2) as nat,
                ),
                F32Bits { bits: 0 },
                mid,
            )
            &&& #[trigger] floats::may_sum(
                g.scaled,
                floats::scaled_events(floats::scale_in(handed), floats::chunks_in(handed)),
                mid,
                sum,
            )
            &&& after == pulled.with(value::le_bytes(sum.bits), 4)
        };
    assert(pairs_sum_to(g.plain, pairs_of(seed), mid));
    lemma_one_float_comes_back(pulled, after, results, sum);
}

/// A guest that accumulates runs on a scale, a list and a stream.
proof fn lemma_stream_call<
    F: Fn(F32Bits, (F32Bits, F32Bits)) -> F32Bits,
    G: Fn(F32Bits, (F32Bits, F32Bits, F32Bits)) -> F32Bits,
>(
    b: BoundCall<'_>,
    g: Accumulate<F, G>,
    store: StoreModel,
    scale: F32Bits,
    data: Seq<u8>,
    size: nat,
)
    requires
        runs_body(b, g),
        floats::total(g.plain),
        floats::total(g.scaled),
        scale_list_stream(b, store, scale, stream::chunked(data, size)),
        size > 0,
        size % 4 == 0,
        b.args()[1].list_image(vec2()).len() % 4 == 0,
        b.args()[1].list_image(vec2()).len() + data.len() + 8 <= store.mem.len(),
    ensures
        b.runs(store),
        b.results_fit(),
        b.refusal(store) is None,
        forall|after: StoreModel, results: LiftedModel| #[trigger]
            b.may_give(store, after, results) ==> gives(
                results,
                |x: F32Bits|
                    streamed_sum_to(
                        g.plain,
                        g.scaled,
                        scale,
                        b.args()[1].list_image(vec2()),
                        stream::chunked(data, size),
                        x,
                    ),
            ),
{
    let seed = b.args()[1].list_image(vec2());
    let chunks = stream::chunked(data, size);
    let handed = b.handed(store);
    lemma_scale_list_stream(b, store, scale, chunks);
    lemma_results_fit(b);
    assert(handed.store.mem.len() == store.mem.len()) by {
        lemma_lowering_keeps_the_size(b, store, 3);
    }
    lemma_room_for_chunks(handed.store, data, size);
    layout::lemma_round_up(seed.len() + data.len(), 4);
    assert(guest::int_in(handed.core, 1) == 0);
    assert(guest::int_in(handed.core, 2) == seed.len() / 8);
    assert(guest::int_in(handed.core, 3) == 0);
    assert(floats::chunks_in(handed) == chunks);
    assert(g.accepts(handed));
    assert forall|after: StoreModel, results: LiftedModel| #[trigger]
        b.may_give(store, after, results) implies gives(
        results,
        |x: F32Bits| streamed_sum_to(g.plain, g.scaled, scale, seed, chunks, x),
    ) by {
        lemma_stream_outcome(g, handed, scale, seed, chunks, after, results);
    }
}

/// Lowering arguments does not change the size of memory.
proof fn lemma_lowering_keeps_the_size(b: BoundCall<'_>, store: StoreModel, n: nat)
    requires
        n <= b.args().len(),
    ensures
        Passed::nothing(store).args(
            b.prepared().params(),
            b.args(),
            n,
        ).lowered.store.mem.len() == store.mem.len(),
    decreases n,
{
    if n > 0 {
        lemma_lowering_keeps_the_size(b, store, (n - 1) as nat);
    }
}

/// A stream of some bytes in chunks, ready to be bound.
fn feed_of<'a>(data: &'a [u8], chunk_bytes: usize) -> (r: Feed<'a>)
    requires
        chunk_bytes > 0,
    ensures
        r.producer.remaining() == stream::chunked(data@, chunk_bytes as nat),
{
    Feed { producer: Box::new(ChunkProducer::new(data, chunk_bytes)) }
}

/// The chunks of a stream hold the pairs that it would hold in one piece.
proof fn lemma_one_piece(scale: F32Bits, data: Seq<u8>, size: nat)
    requires
        size > 0,
        size % 8 == 0,
    ensures
        floats::scaled_events(scale, stream::chunked(data, size)) == floats::scaled_events(
            scale,
            seq![data],
        ),
{
    floats::law_chunks_do_not_show(scale, data, size);
    assert(seq![data].skip(1) =~= Seq::<Seq<u8>>::empty());
    assert(floats::scaled_events(scale, seq![data].skip(1)) =~= seq![]);
}

/// A dynamic scalar, a flat list and a stream mix in one call. The stream is pulled during the
/// call, 64 pairs at a time, and none of it is materialised before; what comes out is what would
/// come out of the stream in one piece.
#[verifier::rlimit(30)]
pub fn demo_stream<
    F: Fn(F32Bits, (F32Bits, F32Bits)) -> F32Bits + 'static,
    G: Fn(F32Bits, (F32Bits, F32Bits, F32Bits)) -> F32Bits + 'static,
>(scale: F32Bits, seed: &[u8], events: &[u8], plain: F, scaled: G) -> (r: F32Bits)
    requires
        seed@.len() % 8 == 0,
        seed@.len() + events@.len() + 8192 <= i32::MAX,
        floats::total(plain),
        floats::total(scaled),
    ensures
        streamed_sum_to(plain, scaled, scale, seed@, seq![events@], r),
{
    let vt = vec2_ty();
    let g = Accumulate { plain, scaled };
    let ghost guest_of = g;
    let mut params: Vec<Ty> = Vec::new();
    params.push(Ty::F32);
    params.push(Ty::List(Box::new(vec2_ty())));
    params.push(Ty::List(Box::new(vec2_ty())));
    let mut results: Vec<Ty> = Vec::new();
    results.push(Ty::List(Box::new(Ty::F32)));
    let mut specs: Vec<ValSpec> = Vec::new();
    specs.push(ValSpec::Val);
    specs.push(ValSpec::ListFlat);
    specs.push(ValSpec::Stream);
    proof {
        layout::lemma_models(params@);
        layout::lemma_models(results@);
        shape::lemma_models(specs@);
        lemma_vec2();
        reveal_with_fuel(Ty::model, 3);
        assert(layout::models(results@) =~= seq![TyModel::List(Box::new(TyModel::F32))]);
        assert(call::first_error(shape::models(specs@), layout::models(params@), 0) is None);
        assert(call::first_error(shape::models(specs@), layout::models(params@), 1) is None);
        assert(call::first_error(shape::models(specs@), layout::models(params@), 2) is None);
        assert(call::first_error(shape::models(specs@), layout::models(params@), 3) is None);
        laws::law_total_types_need_no_sweep(vec2(), seed@);
    }
    let func = Func::new(params, results, Body { code: Box::new(g) });
    let prepared = match PreparedCall::new(&func, specs.as_slice()) {
        Ok(prepared) => prepared,
        Err(_) => vstd::pervasive::unreached(),
    };
    let vb = match ValidatedCabiBytes::checked(seed, &vt) {
        Ok(vb) => vb,
        Err(_) => vstd::pervasive::unreached(),
    };
    let mut store = Store::new(seed.len() + events.len() + 8192);
    let bound = prepared.bind().arg_val(Val::F32(scale)).arg_list_flat(vb).arg(
        ValSource::Stream(feed_of(events, 512)),
    );
    proof {
        let listed = bound.args()[1];
        assert(arena::strided(seed@, 8, 0, seed@.len() / 8) =~= seed@);
        assert(listed.list_image(vec2()) == seed@);
        assert(runs_body(bound, guest_of));
        assert(scale_list_stream(bound, store@, scale, stream::chunked(events@, 512)));
        lemma_stream_call(bound, guest_of, store@, scale, events@, 512);
        lemma_one_piece(scale, events@, 512);
    }
    match bound.invoke_scoped(&mut store, first_float) {
        Ok(x) => x,
        Err(_) => vstd::pervasive::unreached(),
    }
}

/// The pairs of bytes that follow one another are those of the first, then those of the second;
/// and a sum of pairs starts from zero.
pub proof fn law_pairs_are_those_of_the_parts<F: Fn(F32Bits, (F32Bits, F32Bits)) -> F32Bits>(
    step: F,
    a: Seq<u8>,
    b: Seq<u8>,
    x: F32Bits,
)
    requires
        a.len() % 8 == 0,
    ensures
        pairs_of(a + b).len() == (a.len() + b.len()) / 8,
        pairs_of(a + b) == pairs_of(a) + pairs_of(b),
        pairs_sum_to(step, seq![], x) <==> x.bits == 0,
        pairs_sum_to(step, pairs_of(a + b), x) <==> exists|mid: F32Bits| #[trigger]
            pairs_sum_to(step, pairs_of(a), mid) && floats::may_sum(step, pairs_of(b), mid, x),
{
    let whole = pairs_of(a + b);
    let parts = pairs_of(a) + pairs_of(b);
    let n = a.len() / 8;
    assert(whole.len() == parts.len());
    assert forall|i: int| 0 <= i < whole.len() implies whole[i] == parts[i] by {
        if i < n {
            assert(floats::pair_at(a + b, 0 + 8 * i) == floats::pair_at(a, 0 + 8 * i));
        } else {
            assert(floats::pair_at(a + b, 0 + 8 * i) == floats::pair_at(b, 0 + 8 * (i - n)));
        }
    }
    assert(whole =~= parts);
    let zero = F32Bits { bits: 0 };
    floats::law_sums_go_on(step, pairs_of(a), pairs_of(b), (zero, zero), zero, x);
    assert(Seq::<(F32Bits, F32Bits)>::empty() =~= seq![]);
    if exists|mid: F32Bits| #[trigger]
        floats::may_sum(step, pairs_of(a), zero, mid) && floats::may_sum(
            step,
            pairs_of(b),
            mid,
            x,
        ) {
        let mid = choose|mid: F32Bits| #[trigger]
            floats::may_sum(step, pairs_of(a), zero, mid) && floats::may_sum(
                step,
                pairs_of(b),
                mid,
                x,
            );
        assert(pairs_sum_to(step, pairs_of(a), mid));
    }
    if exists|mid: F32Bits| #[trigger]
        pairs_sum_to(step, pairs_of(a), mid) && floats::may_sum(step, pairs_of(b), mid, x) {
        let mid = choose|mid: F32Bits| #[trigger]
            pairs_sum_to(step, pairs_of(a), mid) && floats::may_sum(step, pairs_of(b), mid, x);
        assert(floats::may_sum(step, pairs_of(a), zero, mid));
    }
}

/// Every particle is in its place: of the images of all particles, one after the other, twenty
/// bytes are particle `i`, its position first, then its velocity, then its kind.
pub proof fn law_every_particle_is_in_its_place(
    pos: Seq<u8>,
    vel: Seq<u8>,
    kinds: Seq<u32>,
    i: int,
)
    requires
        pos.len() == 8 * kinds.len(),
        vel.len() == 8 * kinds.len(),
        0 <= i < kinds.len(),
    ensures
        ({
            let all = source::join(particle_images(pos, vel, kinds), 0, kinds.len());
            &&& all.len() == 20 * kinds.len()
            &&& all.subrange(20 * i, 20 * i + 8) == pos.subrange(8 * i, 8 * i + 8)
            &&& all.subrange(20 * i + 8, 20 * i + 16) == vel.subrange(8 * i, 8 * i + 8)
            &&& all.subrange(20 * i + 16, 20 * i + 20) == value::le_bytes(kinds[i])
        }),
{
    let parts = particle_images(pos, vel, kinds);
    let n = kinds.len();
    let src = SourceModel::Lazy(parts);
    let all = source::join(parts, 0, n);
    assert forall|k: int| 0 <= k < n implies (#[trigger] parts[k]).len() == 20 by {
        value::lemma_word_of_bytes(kinds[k]);
    }
    laws::lemma_join_len(parts, 20, 0, n);
    laws::lemma_join_len(parts, 20, 0, i as nat);
    laws::law_ranges_add_up(src, TyModel::F32, 0, i as nat, (n - i) as nat);
    laws::law_ranges_add_up(src, TyModel::F32, i as nat, 1, (n - i - 1) as nat);
    laws::law_a_range_of_one_is_its_element(src, TyModel::F32, i as nat);
    let head = source::join(parts, 0, i as nat);
    let own = parts[i];
    let tail = source::join(parts, (i + 1) as nat, (n - i - 1) as nat);
    assert(all == head + (own + tail));
    value::lemma_word_of_bytes(kinds[i]);
    assert(all.subrange(20 * i, 20 * i + 8) =~= pos.subrange(8 * i, 8 * i + 8));
    assert(all.subrange(20 * i + 8, 20 * i + 16) =~= vel.subrange(8 * i, 8 * i + 8));
    assert(all.subrange(20 * i + 16, 20 * i + 20) =~= value::le_bytes(kinds[i]));
}

} // verus!
