//! The claims of the transfer surface, each made good by calls from end to end.

use crate::arena;
use crate::arena::Arena;
use crate::call;
use crate::call::{BoundCall, Passed, PreparedCall};
use crate::guest;
use crate::guest::{Body, Func, GuestBody, Handed};
use crate::guests;
use crate::guests::SumWords;
use crate::laws;
use crate::layout;
use crate::layout::{Ty, TyModel};
use crate::lift::{Lifted, LiftedModel};
use crate::shape;
use crate::shape::ValSpec;
use crate::source;
use crate::source::{drive_eager, ListSource, SourceModel, ValSource};
use crate::store;
use crate::store::{Store, StoreModel};
use crate::validity;
use crate::validity::{ValidatedCabiBytes, ValidityError};
use crate::value;
use crate::value::{push_word, read_word, CoreVal, Val, ValModel};
use vstd::prelude::*;

verus! {

/// The first word of the first result.
pub(crate) fn first_word(r: &Lifted<'_>) -> (x: u32)
    requires
        r.model().has_view(0),
        r.model().bytes(0).len() >= 4,
    ensures
        x == value::word_at(r.model().bytes(0), 0),
{
    read_word(r.view(0), 0)
}

/// What is received where a guest returned one word as a list.
pub proof fn lemma_one_word_comes_back(before: StoreModel, elem: TyModel, x: u32)
    requires
        elem is U32 || elem is F32,
        before.room(4, 4),
        before.mem.len() <= i32::MAX,
    ensures
        ({
            let received = LiftedModel {
                mem: before.with(value::le_bytes(x), 4).mem,
                tys: seq![TyModel::List(Box::new(elem))],
                core: seq![CoreVal::I32(before.slot(4) as i32), CoreVal::I32(1)],
            };
            &&& received.has_view(0)
            &&& received.bytes(0) == value::le_bytes(x)
            &&& value::word_at(received.bytes(0), 0) == x
        }),
{
    let received = LiftedModel {
        mem: before.with(value::le_bytes(x), 4).mem,
        tys: seq![TyModel::List(Box::new(elem))],
        core: seq![CoreVal::I32(before.slot(4) as i32), CoreVal::I32(1)],
    };
    value::lemma_word_of_bytes(x);
    assert(layout::slots_upto(received.tys, 0) == 0);
    assert(received.ptr(0) == before.slot(4));
    assert(received.count(0) == 1);
    assert(received.bytes(0) =~= value::le_bytes(x));
}

/// What a guest is handed where its one argument is a list.
pub proof fn lemma_one_list_is_handed(b: BoundCall<'_>, store: StoreModel, elem: TyModel)
    requires
        b.complete(),
        b.args().len() == 1,
        shape::admits(b.prepared().specs()[0], b.args()[0]),
        b.prepared().params().len() == 1,
        b.prepared().params()[0] == TyModel::List(Box::new(elem)),
        b.args()[0] !is Stream,
        b.args()[0].is_list(),
        b.args()[0].has_range(elem, 0, b.args()[0].list_len()),
        call::sound(b.args()[0], b.prepared().params()[0]),
        elem.align() == 4,
        0 < elem.size() <= usize::MAX,
        b.args()[0].list_image(elem).len() <= store.mem.len(),
        store.mem.len() <= i32::MAX,
    ensures
        ({
            let image = b.args()[0].list_image(elem);
            let passed = Passed::nothing(store);
            &&& b.accepted() == 1
            &&& passed.takes_args(b.prepared().params(), b.args(), 1)
            &&& b.refusal(store) is None
            &&& b.handed(store) == Handed {
                store: StoreModel {
                    mem: store::overwrite(store.mem, 0, image),
                    next: image.len(),
                },
                streams: seq![],
                imports: b.prepared().func().imports@,
                core: seq![CoreVal::I32(0), CoreVal::I32((image.len() / elem.size()) as i32)],
            }
        }),
{
    let src = b.args()[0];
    let image = src.list_image(elem);
    let start = Passed::nothing(store);
    let params = b.prepared().params();
    reveal_with_fuel(call::accepted, 2);
    reveal_with_fuel(Passed::args, 2);
    reveal_with_fuel(Passed::takes_args, 2);
    layout::lemma_round_up(0, 4);
    assert(start.lowered.store.slot(4) == 0);
    assert(start.args(params, b.args(), 0) == start);
    assert(start.takes(params[0], src));
    let handed = b.handed(store);
    assert(handed.core =~= seq![
        CoreVal::I32(0),
        CoreVal::I32((image.len() / elem.size()) as i32),
    ]);
}

/// The guest function of this call sums words.
spec fn sums_words(b: BoundCall<'_>) -> bool {
    let code = b.prepared().func().body.code;
    &&& forall|h: Handed| #[trigger] code.accepts(h) == SumWords.accepts(h)
    &&& forall|h: Handed, after: StoreModel, r: Seq<CoreVal>| #[trigger]
        code.may_return(h, after, r) == SumWords.may_return(h, after, r)
    &&& layout::models(b.prepared().func().results@) == seq![
        TyModel::List(Box::new(TyModel::U32)),
    ]
}

/// A guest that sums words runs on a list of words, and what it gives is their sum.
proof fn lemma_summing_call(b: BoundCall<'_>, store: StoreModel, elem: TyModel)
    requires
        sums_words(b),
        elem is U32 || elem is Enum,
        b.complete(),
        b.args().len() == 1,
        shape::admits(b.prepared().specs()[0], b.args()[0]),
        b.prepared().params().len() == 1,
        b.prepared().params()[0] == TyModel::List(Box::new(elem)),
        b.args()[0] !is Stream,
        b.args()[0].is_list(),
        b.args()[0].has_range(elem, 0, b.args()[0].list_len()),
        call::sound(b.args()[0], b.prepared().params()[0]),
        b.args()[0].list_image(elem).len() + 8 <= store.mem.len(),
        store.mem.len() <= i32::MAX,
    ensures
        b.runs(store),
        b.results_fit(),
        b.refusal(store) is None,
        ({
            let image = b.args()[0].list_image(elem);
            forall|after: StoreModel, results: LiftedModel| #[trigger]
                b.may_give(store, after, results) ==> {
                    &&& results.has_view(0)
                    &&& results.bytes(0).len() == 4
                    &&& value::word_at(results.bytes(0), 0) == guests::sum_of_words(
                        image,
                        0,
                        image.len() / 4,
                    )
                    &&& after.mem.len() == store.mem.len()
                }
        }),
{
    let image = b.args()[0].list_image(elem);
    let handed = b.handed(store);
    lemma_one_list_is_handed(b, store, elem);
    layout::lemma_round_up(image.len(), 4);
    lemma_sum_of_image(store.mem, image, image.len() / 4);
    assert(guest::int_in(handed.core, 0) == 0);
    assert(guest::int_in(handed.core, 1) == image.len() / 4);
    assert(SumWords.accepts(handed));
    lemma_one_word_comes_back(handed.store, TyModel::U32, SumWords::sum(handed));
    let tys = layout::models(b.prepared().func().results@);
    assert(layout::slots_upto(tys, tys.len()) == 2) by {
        reveal_with_fuel(layout::slots_upto, 2);
    }
}

/// Have a guest sum the words of a list of `elem`, provided as `src`.
#[verifier::rlimit(30)]
fn sum_through_a_guest<'a>(elem: Ty, shape_of: ValSpec, src: ValSource<'a>, store: &mut Store) -> (r:
    u32)
    requires
        elem@ is U32 || elem@ is Enum,
        shape::shape_error(shape_of@, TyModel::List(Box::new(elem@)), 0) is None,
        shape::admits(shape_of@, src@),
        src@ !is Stream,
        src@.is_list(),
        src@.has_range(elem@, 0, src@.list_len()),
        call::sound(src@, TyModel::List(Box::new(elem@))),
        src@.list_image(elem@).len() + 8 <= old(store)@.mem.len(),
        old(store)@.mem.len() <= i32::MAX,
    ensures
        r == guests::sum_of_words(
            src@.list_image(elem@),
            0,
            src@.list_image(elem@).len() / 4,
        ),
        final(store)@.mem.len() == old(store)@.mem.len(),
{
    let ghost ty = elem@;
    let mut params: Vec<Ty> = Vec::new();
    params.push(Ty::List(Box::new(elem)));
    let mut results: Vec<Ty> = Vec::new();
    results.push(Ty::List(Box::new(Ty::U32)));
    let mut specs: Vec<ValSpec> = Vec::new();
    specs.push(shape_of);
    proof {
        layout::lemma_models(params@);
        layout::lemma_models(results@);
        shape::lemma_models(specs@);
        reveal_with_fuel(Ty::model, 3);
        assert(layout::models(results@) =~= seq![TyModel::List(Box::new(TyModel::U32))]);
        reveal_with_fuel(call::first_error, 2);
    }
    let func = Func::new(params, results, Body { code: Box::new(SumWords) });
    let prepared = match PreparedCall::new(&func, specs.as_slice()) {
        Ok(prepared) => prepared,
        Err(_) => vstd::pervasive::unreached(),
    };
    let bound = prepared.bind().arg(src);
    proof {
        assert(sums_words(bound));
        lemma_summing_call(bound, store@, ty);
    }
    match bound.invoke_scoped(store, first_word) {
        Ok(x) => x,
        Err(_) => vstd::pervasive::unreached(),
    }
}

/// The words of an image are the words of the memory that it was copied into.
proof fn lemma_sum_of_image(mem: Seq<u8>, image: Seq<u8>, n: nat)
    requires
        4 * n <= image.len() <= mem.len(),
    ensures
        guests::sum_of_words(store::overwrite(mem, 0, image), 0, n) == guests::sum_of_words(
            image,
            0,
            n,
        ),
    decreases n,
{
    if n > 0 {
        lemma_sum_of_image(mem, image, (n - 1) as nat);
        value::lemma_word_same(
            store::overwrite(mem, 0, image),
            4 * (n - 1),
            image,
            4 * (n - 1),
        );
    }
}

/// Words as the flat image of a list, and as one dynamic value each.
fn two_forms<'a>(data: &Vec<u32>) -> (r: (Vec<u8>, Vec<ValSource<'a>>))
    requires
        4 * data@.len() <= usize::MAX,
    ensures
        r.0@ == laws::list_encode(TyModel::U32, laws::word_values(data@)),
        r.0@.len() == 4 * data@.len(),
        source::models(r.1@).len() == data@.len(),
        forall|k: int|
            0 <= k < data@.len() ==> #[trigger] source::models(r.1@)[k] == SourceModel::Val(
                ValModel::U32(data@[k]),
            ),
{
    let ghost images = source::encode_all(TyModel::U32, laws::word_values(data@));
    let mut flat: Vec<u8> = Vec::new();
    let mut elems: Vec<ValSource<'a>> = Vec::new();
    let mut i: usize = 0;
    while i < data.len()
        invariant
            i <= data@.len(),
            elems@.len() == i,
            flat@.len() == 4 * i,
            images == source::encode_all(TyModel::U32, laws::word_values(data@)),
            flat@ == source::join(images, 0, i as nat),
            forall|k: int|
                0 <= k < i ==> (#[trigger] elems@[k])@ == SourceModel::Val(
                    ValModel::U32(data@[k]),
                ),
        decreases data@.len() - i,
    {
        push_word(&mut flat, data[i]);
        elems.push(ValSource::Val(Val::U32(data[i])));
        assert(images[i as int] == value::le_bytes(data@[i as int]));
        i += 1;
    }
    proof {
        source::lemma_models(elems@);
    }
    (flat, elems)
}

/// What comes of providing one list in two ways.
pub struct TwoBackings {
    /// The bytes that the flat backing produces.
    pub flat: Vec<u8>,
    /// The bytes that the backing with one value per element produces.
    pub elems: Vec<u8>,
    /// What a guest makes of the flat backing.
    pub sum_flat: u32,
    /// What it makes of the other.
    pub sum_elems: u32,
}

/// The guest cannot tell: a list provided as flat bytes, and then as one value per element,
/// produces the same bytes, and the same guest gives the same result for both, the sum of the
/// list.
#[verifier::rlimit(30)]
pub fn demo_two_backings(data: &Vec<u32>) -> (r: TwoBackings)
    requires
        4 * data@.len() + 4096 <= i32::MAX,
    ensures
        r.flat@ == laws::list_encode(TyModel::U32, laws::word_values(data@)),
        r.elems@ == r.flat@,
        r.sum_flat == laws::wrapping_sum(data@, data@.len()),
        r.sum_elems == laws::wrapping_sum(data@, data@.len()),
{
    let ghost items = laws::word_values(data@);
    let u32_ty = Ty::U32;
    let (raw, each) = two_forms(data);
    let mut store = Store::new(data.len() * 4 + 4096);
    proof {
        assert(laws::all_items_fit(TyModel::U32, items));
        laws::law_images_are_valid_run(TyModel::U32, items);
        lemma_sum_of_words(raw@, data@);
    }
    let mut flat = match ValidatedCabiBytes::checked(raw.as_slice(), &u32_ty) {
        Ok(vb) => ValSource::List(ListSource::Flat(vb)),
        Err(_) => vstd::pervasive::unreached(),
    };
    let mut per_elem = ValSource::List(ListSource::Elems(each));
    proof {
        assert(laws::denotes_list(flat@, TyModel::U32, items));
        assert(laws::denotes_list(per_elem@, TyModel::U32, items));
        laws::law_range_image_depends_on_the_list(flat@, TyModel::U32, items, 0, items.len());
        laws::law_range_image_depends_on_the_list(per_elem@, TyModel::U32, items, 0, items.len());
        reveal_with_fuel(ValSpec::model, 3);
        reveal_with_fuel(shape::shape_error, 3);
    }
    let flat_bytes = drive_eager(&mut flat, &u32_ty);
    let elem_bytes = drive_eager(&mut per_elem, &u32_ty);
    let sum_flat = sum_through_a_guest(Ty::U32, ValSpec::ListFlat, flat, &mut store);
    let by_elem = ValSpec::ListElems(Box::new(ValSpec::Val));
    let sum_elems = sum_through_a_guest(Ty::U32, by_elem, per_elem, &mut store);
    TwoBackings { flat: flat_bytes, elems: elem_bytes, sum_flat, sum_elems }
}

/// The words of the image of some words are those words.
proof fn lemma_sum_of_words(image: Seq<u8>, xs: Seq<u32>)
    requires
        image == laws::list_encode(TyModel::U32, laws::word_values(xs)),
        image.len() == 4 * xs.len(),
    ensures
        guests::sum_of_words(image, 0, image.len() / 4) == laws::wrapping_sum(xs, xs.len()),
{
    assert(image.subrange(0, image.len() as int) =~= image);
    laws::lemma_sum_upto(image, 0, xs, xs.len());
}

/// A run of discriminants is validated once, when an arena absorbs it, and then replayed into a
/// call with nothing checked again. The guest sums the discriminants; bytes that are no run of
/// discriminants never reach it.
pub fn demo_arena_validity(bytes: Vec<u8>, cases: u32) -> (r: Result<u32, ValidityError>)
    requires
        bytes@.len() + 4096 <= i32::MAX,
    ensures
        match r {
            Ok(sum) => {
                &&& validity::valid_run(TyModel::Enum(cases), bytes@)
                &&& sum == guests::sum_of_words(bytes@, 0, bytes@.len() / 4)
            },
            Err(e) => e.explains(TyModel::Enum(cases), bytes@),
        },
{
    let ghost all = bytes@;
    let mut store = Store::new(bytes.len() + 4096);
    let arena = match Arena::absorb(bytes, Ty::Enum(cases)) {
        Ok(arena) => arena,
        Err(e) => {
            return Err(e);
        },
    };
    let n = arena.elem_count();
    proof {
        assert(n * 4 == all.len());
        assert(arena::strided(all, 4, 0, n as nat) =~= all);
    }
    let src = ValSource::Arena(arena.slice(0, n));
    Ok(sum_through_a_guest(Ty::Enum(cases), ValSpec::Arena, src, &mut store))
}

} // verus!
