//! What is handed over arrives: every argument that a host passes is found by the guest, and
//! every result that a host function sets is received.

use crate::call::Passed;
use crate::guest;
use crate::laws;
use crate::laws::Meaning;
use crate::layout;
use crate::layout::TyModel;
use crate::lift;
use crate::lift::LiftedModel;
use crate::lower::{Lowered, Provided};
use crate::source::SourceModel;
use crate::store::StoreModel;
use crate::value;
use crate::value::{CoreVal, ValModel};
use vstd::prelude::*;

verus! {

/// `v` is a value of type `ty` that can be passed: a scalar, a list of inline values, or a record
/// of such values.
pub open spec fn passable(ty: TyModel, v: ValModel) -> bool
    decreases ty, 0nat,
{
    match (ty, v) {
        (TyModel::List(elem), ValModel::List(items)) => {
            &&& laws::all_items_fit(*elem, items)
            &&& elem.size() <= usize::MAX
            &&& elem.size() > 0 || items.len() <= i32::MAX
        },
        (TyModel::Record(fields), ValModel::Record(vals)) => {
            &&& fields.len() == vals.len()
            &&& all_passable(fields, vals, fields.len())
        },
        _ => value::fits(ty, v),
    }
}

/// The first `n` values can be passed as the first `n` fields.
pub open spec fn all_passable(fields: Seq<TyModel>, vals: Seq<ValModel>, n: nat) -> bool
    decreases fields, n,
{
    n == 0 || n > fields.len() || (all_passable(fields, vals, (n - 1) as nat) && passable(
        fields[n - 1],
        vals[n - 1],
    ))
}

/// Values of inline types can be passed.
proof fn lemma_fits_is_passable(ty: TyModel, v: ValModel)
    requires
        value::fits(ty, v),
    ensures
        passable(ty, v),
    decreases ty, 0nat,
{
    if let (TyModel::Record(fields), ValModel::Record(vals)) = (ty, v) {
        lemma_all_fit_is_passable(fields, vals, fields.len());
    }
}

proof fn lemma_all_fit_is_passable(fields: Seq<TyModel>, vals: Seq<ValModel>, n: nat)
    requires
        n <= fields.len(),
        value::all_fit(fields, vals, n),
    ensures
        all_passable(fields, vals, n),
    decreases fields, n,
{
    if n > 0 {
        lemma_all_fit_is_passable(fields, vals, (n - 1) as nat);
        lemma_fits_is_passable(fields[n - 1], vals[n - 1]);
    }
}

/// `core` stands for the value `v`: a scalar is in `core` itself; a list has its image in
/// allocated memory, and `core` says where and how long it is; a record is there field by field.
pub open spec fn holds(store: StoreModel, core: Seq<CoreVal>, ty: TyModel, v: ValModel) -> bool
    decreases ty, 0nat,
{
    match (ty, v) {
        (TyModel::F32, ValModel::F32(x)) => core == seq![CoreVal::F32(x)],
        (TyModel::U32, ValModel::U32(x)) => core == seq![CoreVal::I32(x as i32)],
        (TyModel::Enum(_), ValModel::Enum(d)) => core == seq![CoreVal::I32(d as i32)],
        (TyModel::List(elem), ValModel::List(items)) => {
            &&& core.len() == 2
            &&& core[0] is I32
            &&& core[0]->I32_0 >= 0
            &&& elem.size() > 0 ==> core[0]->I32_0 % 4 == 0
            &&& items.len() <= i32::MAX
            &&& core[1] == CoreVal::I32(items.len() as i32)
            &&& laws::stands_at(
                store.mem,
                core[0]->I32_0 as int,
                laws::list_encode(*elem, items),
            )
            &&& core[0]->I32_0 + laws::list_encode(*elem, items).len() <= store.next
        },
        (TyModel::Record(fields), ValModel::Record(vals)) => {
            &&& core.len() == layout::slots_upto(fields, fields.len())
            &&& fields.len() == vals.len()
            &&& fields_hold(store, core, fields, vals, fields.len())
        },
        _ => false,
    }
}

/// The first `n` fields of a record are in `core`, each in its slots.
pub open spec fn fields_hold(
    store: StoreModel,
    core: Seq<CoreVal>,
    fields: Seq<TyModel>,
    vals: Seq<ValModel>,
    n: nat,
) -> bool
    decreases fields, n,
{
    n == 0 || n > fields.len() || (fields_hold(store, core, fields, vals, (n - 1) as nat)
        && holds(
        store,
        core.subrange(
            layout::slots_upto(fields, (n - 1) as nat) as int,
            layout::slots_upto(fields, n) as int,
        ),
        fields[n - 1],
        vals[n - 1],
    ))
}

/// Nothing that was allocated is lost on the way from one state of a memory to a later one.
pub open spec fn keeps(before: StoreModel, after: StoreModel) -> bool {
    &&& after.mem.len() == before.mem.len()
    &&& before.next <= after.next
    &&& forall|i: int| 0 <= i < before.next && i < before.mem.len() ==> #[trigger] after.mem[i]
        == before.mem[i]
}

proof fn lemma_holds_on(
    before: StoreModel,
    after: StoreModel,
    core: Seq<CoreVal>,
    ty: TyModel,
    v: ValModel,
)
    requires
        keeps(before, after),
        holds(before, core, ty, v),
    ensures
        holds(after, core, ty, v),
    decreases ty, 0nat,
{
    match (ty, v) {
        (TyModel::List(elem), ValModel::List(items)) => {
            let at = core[0]->I32_0 as int;
            let image = laws::list_encode(*elem, items);
            assert(after.mem.subrange(at, at + image.len()) =~= before.mem.subrange(
                at,
                at + image.len(),
            ));
        },
        (TyModel::Record(fields), ValModel::Record(vals)) => {
            assert(core.take(core.len() as int) =~= core);
            lemma_fields_hold_on(before, after, core, core, fields, vals, fields.len());
        },
        _ => {},
    }
}

/// Fields stay where they are when memory grows, and when more core values follow.
proof fn lemma_fields_hold_on(
    before: StoreModel,
    after: StoreModel,
    core: Seq<CoreVal>,
    longer: Seq<CoreVal>,
    fields: Seq<TyModel>,
    vals: Seq<ValModel>,
    n: nat,
)
    requires
        keeps(before, after),
        n <= fields.len(),
        layout::slots_upto(fields, n) <= core.len() <= longer.len(),
        longer.take(core.len() as int) == core,
        fields_hold(before, core, fields, vals, n),
    ensures
        fields_hold(after, longer, fields, vals, n),
    decreases fields, n,
{
    if n > 0 {
        let from = layout::slots_upto(fields, (n - 1) as nat) as int;
        let to = layout::slots_upto(fields, n) as int;
        lemma_fields_hold_on(before, after, core, longer, fields, vals, (n - 1) as nat);
        lemma_holds_on(before, after, core.subrange(from, to), fields[n - 1], vals[n - 1]);
        assert(longer.subrange(from, to) =~= longer.take(core.len() as int).subrange(from, to));
    }
}

/// Lowering a dynamic value appends core values that stand for it, and keeps what was there.
proof fn lemma_val_holds(start: Lowered, ty: TyModel, v: ValModel)
    requires
        passable(ty, v),
        start.takes_val(ty, v),
        start.store.mem.len() <= i32::MAX,
    ensures
        ({
            let after = start.val(ty, v);
            let n = start.core.len() as int;
            &&& after.core.len() == n + ty.slots()
            &&& after.core.take(n) == start.core
            &&& holds(after.store, after.core.skip(n), ty, v)
            &&& keeps(start.store, after.store)
        }),
    decreases ty, 0nat,
{
    let after = start.val(ty, v);
    let n = start.core.len() as int;
    match (ty, v) {
        (TyModel::List(elem), ValModel::List(items)) => {
            lemma_list_holds(start, *elem, items);
        },
        (TyModel::Record(fields), ValModel::Record(vals)) => {
            lemma_fields_lowered_hold(start, fields, vals, fields.len());
        },
        (TyModel::F32, ValModel::F32(x)) => {
            assert(after.core.take(n) =~= start.core);
            assert(after.core.skip(n) =~= seq![CoreVal::F32(x)]);
        },
        (TyModel::U32, ValModel::U32(x)) => {
            assert(after.core.take(n) =~= start.core);
            assert(after.core.skip(n) =~= seq![CoreVal::I32(x as i32)]);
        },
        (TyModel::Enum(_), ValModel::Enum(x)) => {
            assert(after.core.take(n) =~= start.core);
            assert(after.core.skip(n) =~= seq![CoreVal::I32(x as i32)]);
        },
        _ => {},
    }
}

proof fn lemma_list_holds(start: Lowered, elem: TyModel, items: Seq<ValModel>)
    requires
        passable(TyModel::List(Box::new(elem)), ValModel::List(items)),
        start.takes_val(TyModel::List(Box::new(elem)), ValModel::List(items)),
        start.store.mem.len() <= i32::MAX,
    ensures
        ({
            let ty = TyModel::List(Box::new(elem));
            let v = ValModel::List(items);
            let after = start.val(ty, v);
            let n = start.core.len() as int;
            &&& after.core.len() == n + 2
            &&& after.core.take(n) == start.core
            &&& holds(after.store, after.core.skip(n), ty, v)
            &&& keeps(start.store, after.store)
        }),
{
    let after = start.val(TyModel::List(Box::new(elem)), ValModel::List(items));
    let n = start.core.len() as int;
    let image = laws::list_encode(elem, items);
    let size = elem.size();
    let count = items.len();
    let ptr = start.store.slot(elem.align());
    laws::lemma_encode_all_len(elem, items);
    if size > 0 {
        assert(count <= count * size) by (nonlinear_arith)
            requires
                size > 0,
        ;
    }
    layout::lemma_words(elem);
    layout::lemma_round_up(start.store.next, 4);
    layout::lemma_round_up(start.store.next, 1);
    laws::lemma_storing_items(start.store.mem, elem, items, ptr as int, count);
    laws::law_allocations_are_disjoint(start.store, image, elem.align(), 1);
    assert(after.store == start.store.with(image, elem.align()));
    assert(after.core.take(n) =~= start.core);
    assert(after.core.skip(n) =~= seq![CoreVal::I32(ptr as i32), CoreVal::I32(count as i32)]);
}

proof fn lemma_fields_lowered_hold(
    start: Lowered,
    fields: Seq<TyModel>,
    vals: Seq<ValModel>,
    n: nat,
)
    requires
        n <= fields.len(),
        all_passable(fields, vals, n),
        start.takes_fields(fields, vals, n),
        start.store.mem.len() <= i32::MAX,
    ensures
        ({
            let after = start.fields(fields, vals, n);
            let s = start.core.len() as int;
            &&& after.core.len() == s + layout::slots_upto(fields, n)
            &&& after.core.take(s) == start.core
            &&& fields_hold(after.store, after.core.skip(s), fields, vals, n)
            &&& keeps(start.store, after.store)
        }),
    decreases fields, n,
{
    let s = start.core.len() as int;
    if n == 0 {
        assert(start.core.take(s) =~= start.core);
    } else {
        let m = (n - 1) as nat;
        lemma_fields_lowered_hold(start, fields, vals, m);
        let before = start.fields(fields, vals, m);
        let after = start.fields(fields, vals, n);
        lemma_val_holds(before, fields[n - 1], vals[n - 1]);
        let was = before.core.skip(s);
        let now = after.core.skip(s);
        assert(now.take(was.len() as int) =~= was) by {
            assert(after.core.take(before.core.len() as int).skip(s) =~= now.take(
                was.len() as int,
            ));
        }
        lemma_fields_hold_on(before.store, after.store, was, now, fields, vals, m);
        assert(now.subrange(
            layout::slots_upto(fields, m) as int,
            layout::slots_upto(fields, n) as int,
        ) =~= after.core.skip(before.core.len() as int));
        assert(after.core.take(s) =~= after.core.take(before.core.len() as int).take(s));
        assert(before.core.take(s) =~= start.core);
        assert forall|i: int|
            0 <= i < start.store.next && i < start.store.mem.len() implies #[trigger] after.store.mem[i]
            == start.store.mem[i] by {
            assert(before.store.mem[i] == start.store.mem[i]);
        }
    }
}

/// Lowering an image appends core values that stand for the value, and keeps what was there.
proof fn lemma_image_holds(start: Lowered, ty: TyModel, v: ValModel)
    requires
        laws::value_of(ty, v),
        start.takes_image(ty, laws::bytes_of(ty, v)),
        start.store.mem.len() <= i32::MAX,
    ensures
        passable(ty, v),
        ({
            let after = start.image(ty, laws::bytes_of(ty, v));
            let n = start.core.len() as int;
            &&& after.core.len() == n + ty.slots()
            &&& after.core.take(n) == start.core
            &&& holds(after.store, after.core.skip(n), ty, v)
            &&& keeps(start.store, after.store)
        }),
{
    if !(ty is List && v is List) {
        lemma_fits_is_passable(ty, v);
    }
    laws::law_provided_val_is_provided_flat(start, ty, v);
    lemma_val_holds(start, ty, v);
}

/// Value `i` was received as `v`: dynamically, and, where it is a list of inline elements, as
/// the bytes of its image too.
pub open spec fn arrives(received: LiftedModel, i: nat, v: ValModel) -> bool {
    &&& received.has_val(i)
    &&& received.val(i) == v
    &&& match (received.tys[i as int], v) {
        (TyModel::List(elem), ValModel::List(items)) => elem.inline() ==> {
            &&& received.has_view(i)
            &&& received.bytes(i) == laws::list_encode(*elem, items)
        },
        _ => true,
    }
}

/// Core values that stand for a value are received as the value.
proof fn lemma_receive_at(
    store: StoreModel,
    core: Seq<CoreVal>,
    ty: TyModel,
    v: ValModel,
    slot: int,
)
    requires
        passable(ty, v),
        0 <= slot,
        slot + ty.slots() <= core.len(),
        holds(store, core.subrange(slot, slot + ty.slots()), ty, v),
    ensures
        lift::has_val_at(store.mem, core, ty, slot),
        lift::val_at(store.mem, core, ty, slot) == v,
    decreases ty, 0nat,
{
    let part = core.subrange(slot, slot + ty.slots());
    match (ty, v) {
        (TyModel::List(elem), ValModel::List(items)) => {
            assert(part[0] == core[slot]);
            assert(part[1] == core[slot + 1]);
            lemma_receive_list(store, core, *elem, items, slot);
        },
        (TyModel::Record(fields), ValModel::Record(vals)) => {
            lemma_receive_fields(store, core, fields, vals, slot, fields.len());
            assert(vals.take(fields.len() as int) =~= vals);
        },
        (TyModel::F32, ValModel::F32(x)) => {
            assert(part[0] == core[slot]);
        },
        (TyModel::U32, ValModel::U32(x)) => {
            assert(part[0] == core[slot]);
            assert((x as i32) as u32 == x) by (bit_vector);
        },
        (TyModel::Enum(_), ValModel::Enum(x)) => {
            assert(part[0] == core[slot]);
            assert((x as i32) as u32 == x) by (bit_vector);
        },
        _ => {},
    }
}

proof fn lemma_receive_list(
    store: StoreModel,
    core: Seq<CoreVal>,
    elem: TyModel,
    items: Seq<ValModel>,
    slot: int,
)
    requires
        passable(TyModel::List(Box::new(elem)), ValModel::List(items)),
        0 <= slot,
        slot + 2 <= core.len(),
        holds(
            store,
            core.subrange(slot, slot + 2),
            TyModel::List(Box::new(elem)),
            ValModel::List(items),
        ),
    ensures
        lift::has_val_at(store.mem, core, TyModel::List(Box::new(elem)), slot),
        lift::val_at(store.mem, core, TyModel::List(Box::new(elem)), slot) == ValModel::List(
            items,
        ),
{
    let ty = TyModel::List(Box::new(elem));
    let mem = store.mem;
    let part = core.subrange(slot, slot + 2);
    assert(part[0] == core[slot]);
    assert(part[1] == core[slot + 1]);
    let ptr = core[slot]->I32_0 as int;
    let size = elem.size();
    let n = items.len();
    laws::lemma_encode_all_len(elem, items);
    let values = lift::val_at(mem, core, ty, slot)->List_0;
    assert(values.len() == n);
    assert forall|k: int| 0 <= k < n implies values[k] == items[k] by {
        laws::lemma_item_stands(mem, elem, items, ptr, k as nat);
        if size > 0 {
            laws::law_lifting_reads_the_image(mem, elem, items[k], (ptr + k * size) as nat);
        } else {
            value::lemma_encode_size(elem, items[k]);
            assert(laws::stands_at(mem, 0, value::encode(elem, items[k]))) by {
                assert(mem.subrange(0, 0) =~= value::encode(elem, items[k]));
            }
            laws::law_lifting_reads_the_image(mem, elem, items[k], 0);
            lift::lemma_lifted_nothing(mem, elem, (ptr + k * size) as nat, 0);
        }
    }
    assert(values =~= items);
    assert forall|k: nat| k < core[slot + 1]->I32_0 as usize implies #[trigger] lift::readable(
        elem,
        ((core[slot]->I32_0 as usize) + k * size) as nat,
        mem.len(),
    ) by {
        laws::lemma_item_stands(mem, elem, items, ptr, k);
        layout::lemma_round_up((ptr + k * size) as nat, 4);
    }
}

proof fn lemma_receive_fields(
    store: StoreModel,
    core: Seq<CoreVal>,
    fields: Seq<TyModel>,
    vals: Seq<ValModel>,
    slot: int,
    n: nat,
)
    requires
        n <= fields.len(),
        fields.len() == vals.len(),
        all_passable(fields, vals, n),
        0 <= slot,
        slot + layout::slots_upto(fields, fields.len()) <= core.len(),
        fields_hold(
            store,
            core.subrange(slot, slot + layout::slots_upto(fields, fields.len())),
            fields,
            vals,
            n,
        ),
    ensures
        lift::fields_have_vals(store.mem, core, fields, slot, n),
        lift::fields_vals(store.mem, core, fields, slot, n) == vals.take(n as int),
    decreases fields, n,
{
    if n == 0 {
        assert(vals.take(0) =~= seq![]);
    } else {
        let whole = core.subrange(slot, slot + layout::slots_upto(fields, fields.len()));
        let from = layout::slots_upto(fields, (n - 1) as nat) as int;
        let to = layout::slots_upto(fields, n) as int;
        layout::lemma_slots_monotone(fields, n, fields.len());
        lemma_receive_fields(store, core, fields, vals, slot, (n - 1) as nat);
        assert(whole.subrange(from, to) =~= core.subrange(slot + from, slot + to));
        lemma_receive_at(store, core, fields[n - 1], vals[n - 1], slot + from);
        assert(vals.take(n as int) =~= vals.take(n - 1).push(vals[n - 1]));
    }
}

/// Core values that stand for a value, in the slots of that value, are received as the value.
proof fn lemma_receive(store: StoreModel, received: LiftedModel, i: nat, v: ValModel)
    requires
        i < received.tys.len(),
        passable(received.tys[i as int], v),
        received.mem == store.mem,
        received.slot(i) + received.tys[i as int].slots() <= received.core.len(),
        holds(
            store,
            received.core.subrange(
                received.slot(i),
                received.slot(i) + received.tys[i as int].slots(),
            ),
            received.tys[i as int],
            v,
        ),
    ensures
        arrives(received, i, v),
{
    let ty = received.tys[i as int];
    lemma_receive_at(store, received.core, ty, v, received.slot(i));
    if let (TyModel::List(elem), ValModel::List(items)) = (ty, v) {
        let core = received.core.subrange(received.slot(i), received.slot(i) + 2);
        assert(core[0] == received.core[received.slot(i)]);
        assert(core[1] == received.core[received.slot(i) + 1]);
        laws::lemma_encode_all_len(*elem, items);
    }
}

/// What was lowered is received back: a scalar, a list or a record of them, provided as a dynamic
/// value or as bytes, comes out of memory and core values as it went in, and a list also as the
/// bytes of its image.
///
/// Pointers travel as `i32`, so this is said of memories that an `i32` reaches.
pub proof fn law_lift_undoes_lower(store: StoreModel, ty: TyModel, v: ValModel, src: Provided)
    requires
        passable(ty, v),
        src == Provided::Val(v) || {
            &&& laws::value_of(ty, v)
            &&& laws::measurable(ty)
            &&& src == Provided::Flat(laws::bytes_of(ty, v))
        },
        (Lowered { store, core: seq![] }).takes(ty, src),
        store.mem.len() <= i32::MAX,
    ensures
        ({
            let lowered = (Lowered { store, core: seq![] }).provided(ty, src);
            &&& lowered.core.len() == ty.slots()
            &&& arrives(
                LiftedModel { mem: lowered.store.mem, tys: seq![ty], core: lowered.core },
                0,
                v,
            )
        }),
{
    let start = Lowered { store, core: seq![] };
    if src is Flat {
        laws::law_provided_val_is_provided_flat(start, ty, v);
    }
    lemma_val_holds(start, ty, v);
    let lowered = start.val(ty, v);
    let received = LiftedModel { mem: lowered.store.mem, tys: seq![ty], core: lowered.core };
    assert(layout::slots_upto(received.tys, 0) == 0);
    assert(lowered.core.skip(0) =~= lowered.core.subrange(0, ty.slots() as int));
    lemma_receive(lowered.store, received, 0, v);
}

/// `core` is what a guest needs to find an argument: the core values that stand for a value, or
/// the handle of a stream.
#[verifier::opaque]
pub open spec fn found(
    passed: Passed,
    core: Seq<CoreVal>,
    ty: TyModel,
    meaning: Meaning,
) -> bool {
    match meaning {
        Meaning::Value(v) => holds(passed.lowered.store, core, ty, v),
        Meaning::Chunks(chunks) => {
            &&& core.len() == 1
            &&& core[0] is I32
            &&& 0 <= core[0]->I32_0 < passed.streams.len()
            &&& passed.streams[core[0]->I32_0 as int] == chunks
        },
    }
}

/// The number of core values that the first `k` arguments are passed in.
pub open spec fn core_before(
    store: StoreModel,
    tys: Seq<TyModel>,
    sources: Seq<SourceModel>,
    k: nat,
) -> int {
    Passed::nothing(store).args(tys, sources, k).lowered.core.len() as int
}

/// Passing one more argument makes it found, and keeps those before it.
proof fn lemma_arg_found(before: Passed, ty: TyModel, src: SourceModel, meaning: Meaning)
    requires
        laws::means(src, ty, meaning),
        before.takes(ty, src),
        before.lowered.store.mem.len() <= i32::MAX,
        before.streams.len() < i32::MAX,
    ensures
        ({
            let after = before.arg(ty, src);
            let n = before.lowered.core.len() as int;
            &&& after.lowered.core.len() >= n
            &&& after.lowered.core.take(n) == before.lowered.core
            &&& found(after, after.lowered.core.skip(n), ty, meaning)
            &&& keeps(before.lowered.store, after.lowered.store)
            &&& before.streams.len() <= after.streams.len() <= before.streams.len() + 1
            &&& after.streams.take(before.streams.len() as int) == before.streams
        }),
{
    let after = before.arg(ty, src);
    let n = before.lowered.core.len() as int;
    reveal(found);
    match (meaning, ty) {
        (Meaning::Chunks(chunks), _) => {
            assert(after.lowered.core.take(n) =~= before.lowered.core);
            assert(after.lowered.core.skip(n) =~= seq![
                CoreVal::I32(before.streams.len() as i32),
            ]);
        },
        (Meaning::Value(ValModel::List(items)), TyModel::List(elem)) => {
            laws::law_range_image_depends_on_the_list(src, *elem, items, 0, items.len());
            lemma_image_holds(before.lowered, ty, ValModel::List(items));
        },
        (Meaning::Value(v), _) => {
            laws::law_value_image_depends_on_the_value(src, ty, v);
            lemma_image_holds(before.lowered, ty, v);
        },
    }
    assert(after.streams.take(before.streams.len() as int) =~= before.streams);
}

proof fn lemma_found_on(
    before: Passed,
    after: Passed,
    core: Seq<CoreVal>,
    ty: TyModel,
    meaning: Meaning,
)
    requires
        found(before, core, ty, meaning),
        keeps(before.lowered.store, after.lowered.store),
        before.streams.len() <= after.streams.len(),
        after.streams.take(before.streams.len() as int) == before.streams,
    ensures
        found(after, core, ty, meaning),
{
    reveal(found);
    match meaning {
        Meaning::Value(v) => {
            lemma_holds_on(before.lowered.store, after.lowered.store, core, ty, v);
        },
        Meaning::Chunks(chunks) => {
            let h = core[0]->I32_0 as int;
            assert(after.streams.take(before.streams.len() as int)[h] == after.streams[h]);
        },
    }
}

/// Every argument of a call arrives: when all are passed, the guest finds each of them, in the
/// core values that follow those of the arguments before it. No argument disturbs another.
#[verifier::rlimit(30)]
pub proof fn law_guest_finds_every_argument(
    store: StoreModel,
    tys: Seq<TyModel>,
    sources: Seq<SourceModel>,
    meanings: Seq<Meaning>,
    n: nat,
)
    requires
        n <= sources.len(),
        n <= i32::MAX,
        forall|k: int| 0 <= k < n ==> laws::means(#[trigger] sources[k], tys[k], meanings[k]),
        Passed::nothing(store).takes_args(tys, sources, n),
        store.mem.len() <= i32::MAX,
    ensures
        ({
            let passed = Passed::nothing(store).args(tys, sources, n);
            &&& passed.lowered.store.mem.len() == store.mem.len()
            &&& passed.streams.len() <= n
            &&& forall|k: int| #![trigger sources[k]]
                0 <= k < n ==> {
                    let from = core_before(store, tys, sources, k as nat);
                    let to = core_before(store, tys, sources, (k + 1) as nat);
                    &&& from <= to <= passed.lowered.core.len()
                    &&& found(
                        passed,
                        passed.lowered.core.subrange(from, to),
                        tys[k],
                        meanings[k],
                    )
                }
        }),
    decreases n,
{
    if n > 0 {
        let m = (n - 1) as nat;
        law_guest_finds_every_argument(store, tys, sources, meanings, m);
        let before = Passed::nothing(store).args(tys, sources, m);
        let after = Passed::nothing(store).args(tys, sources, n);
        lemma_arg_found(before, tys[m as int], sources[m as int], meanings[m as int]);
        let was = before.lowered.core;
        let now = after.lowered.core;
        assert forall|k: int| #![trigger sources[k]] 0 <= k < n implies {
            let from = core_before(store, tys, sources, k as nat);
            let to = core_before(store, tys, sources, (k + 1) as nat);
            &&& from <= to <= now.len()
            &&& found(after, now.subrange(from, to), tys[k], meanings[k])
        } by {
            let from = core_before(store, tys, sources, k as nat);
            let to = core_before(store, tys, sources, (k + 1) as nat);
            if k == m {
                assert(now.subrange(from, to) =~= now.skip(was.len() as int));
            } else {
                assert(now.take(was.len() as int).subrange(from, to) =~= now.subrange(from, to));
                lemma_found_on(before, after, was.subrange(from, to), tys[k], meanings[k]);
            }
        }
    }
}

/// `src` provides the value `v` of type `ty`.
#[verifier::opaque]
pub open spec fn provides(src: SourceModel, ty: TyModel, v: ValModel) -> bool {
    laws::means(src, ty, Meaning::Value(v))
}

/// Where an argument stands among the core values, and what it is there.
#[verifier::rlimit(30)]
proof fn lemma_argument_held(
    store: StoreModel,
    tys: Seq<TyModel>,
    sources: Seq<SourceModel>,
    values: Seq<ValModel>,
    n: nat,
    k: nat,
)
    requires
        k < n <= sources.len(),
        n <= i32::MAX,
        forall|j: int| 0 <= j < n ==> #[trigger] provides(sources[j], tys[j], values[j]),
        Passed::nothing(store).takes_args(tys, sources, n),
        store.mem.len() <= i32::MAX,
    ensures
        ({
            let passed = Passed::nothing(store).args(tys, sources, n);
            let from = core_before(store, tys, sources, k);
            let to = core_before(store, tys, sources, k + 1);
            &&& 0 <= from <= to <= passed.lowered.core.len()
            &&& to == from + tys[k as int].slots()
            &&& holds(
                passed.lowered.store,
                passed.lowered.core.subrange(from, to),
                tys[k as int],
                values[k as int],
            )
            &&& laws::value_of(tys[k as int], values[k as int])
        }),
{
    let meanings = Seq::new(n, |j: int| Meaning::Value(values[j]));
    assert forall|j: int| 0 <= j < n implies laws::means(
        #[trigger] sources[j],
        tys[j],
        meanings[j],
    ) by {
        reveal(provides);
        assert(provides(sources[j], tys[j], values[j]));
    }
    law_guest_finds_every_argument(store, tys, sources, meanings, n);
    let passed = Passed::nothing(store).args(tys, sources, n);
    let from = core_before(store, tys, sources, k);
    let to = core_before(store, tys, sources, k + 1);
    assert(provides(sources[k as int], tys[k as int], values[k as int]));
    assert(laws::value_of(tys[k as int], values[k as int])) by {
        reveal(provides);
    }
    assert(sources[k as int] == sources[k as int]);
    assert(found(
        passed,
        passed.lowered.core.subrange(from, to),
        tys[k as int],
        meanings[k as int],
    ));
    reveal(found);
}

proof fn lemma_slots_of_arguments(
    store: StoreModel,
    tys: Seq<TyModel>,
    sources: Seq<SourceModel>,
    values: Seq<ValModel>,
    n: nat,
)
    requires
        n <= sources.len(),
        n <= tys.len(),
        n <= i32::MAX,
        forall|k: int| 0 <= k < n ==> #[trigger] provides(sources[k], tys[k], values[k]),
        Passed::nothing(store).takes_args(tys, sources, n),
        store.mem.len() <= i32::MAX,
    ensures
        core_before(store, tys, sources, n) == layout::slots_upto(tys, n),
    decreases n,
{
    if n > 0 {
        let m = (n - 1) as nat;
        lemma_slots_of_arguments(store, tys, sources, values, m);
        lemma_argument_held(store, tys, sources, values, n, m);
    }
}

/// What a host passes is what is received on the other side: arguments, from whichever
/// representations, come out of memory and core values again, each in its place.
#[verifier::rlimit(30)]
pub proof fn law_arguments_are_received(
    store: StoreModel,
    tys: Seq<TyModel>,
    sources: Seq<SourceModel>,
    values: Seq<ValModel>,
    k: nat,
)
    requires
        k < sources.len(),
        tys.len() == sources.len(),
        sources.len() <= i32::MAX,
        forall|j: int|
            0 <= j < sources.len() ==> #[trigger] provides(sources[j], tys[j], values[j]),
        Passed::nothing(store).takes_args(tys, sources, sources.len()),
        store.mem.len() <= i32::MAX,
    ensures
        ({
            let passed = Passed::nothing(store).args(tys, sources, sources.len());
            arrives(
                LiftedModel { mem: passed.lowered.store.mem, tys, core: passed.lowered.core },
                k,
                values[k as int],
            )
        }),
{
    let n = sources.len();
    let passed = Passed::nothing(store).args(tys, sources, n);
    let received = LiftedModel { mem: passed.lowered.store.mem, tys, core: passed.lowered.core };
    lemma_takes_each(Passed::nothing(store), tys, sources, n, k);
    lemma_slots_of_arguments(store, tys, sources, values, k);
    lemma_argument_held(store, tys, sources, values, n, k);
    assert(passable(tys[k as int], values[k as int])) by {
        reveal(provides);
        assert(provides(sources[k as int], tys[k as int], values[k as int]));
        if !(tys[k as int] is List && values[k as int] is List) {
            lemma_fits_is_passable(tys[k as int], values[k as int]);
        }
    }
    lemma_receive(passed.lowered.store, received, k, values[k as int]);
}

/// Where all arguments can be passed, the first of them can.
proof fn lemma_takes_each(
    before: Passed,
    tys: Seq<TyModel>,
    sources: Seq<SourceModel>,
    n: nat,
    k: nat,
)
    requires
        k <= n <= sources.len(),
        before.takes_args(tys, sources, n),
    ensures
        before.takes_args(tys, sources, k),
        k < n ==> before.args(tys, sources, k).takes(tys[k as int], sources[k as int]),
    decreases n,
{
    if k < n {
        lemma_takes_each(before, tys, sources, (n - 1) as nat, k);
    }
}

/// One result that a host function sets: which, and what to.
pub struct Setting {
    pub index: nat,
    pub src: Provided,
}

/// What a host function has answered so far: guest memory, and the core values of the results
/// that are set.
#[verifier::ext_equal]
pub struct Answer {
    pub store: StoreModel,
    pub outs: Seq<Option<Seq<CoreVal>>>,
}

impl Answer {
    /// No result is set.
    pub open spec fn none(store: StoreModel, results: nat) -> Answer {
        Answer { store, outs: Seq::new(results, |i: int| None) }
    }

    /// One result is set, as by [`guest::ImportCall::set`]: it is lowered at once.
    pub open spec fn set(self, results: Seq<TyModel>, s: Setting) -> Answer {
        let lowered = (Lowered { store: self.store, core: seq![] }).provided(
            results[s.index as int],
            s.src,
        );
        Answer {
            store: lowered.store,
            outs: self.outs.update(s.index as int, Some(lowered.core)),
        }
    }

    /// One result can be set.
    pub open spec fn takes(self, results: Seq<TyModel>, s: Setting) -> bool {
        &&& s.index < results.len()
        &&& (Lowered { store: self.store, core: seq![] }).takes(
            results[s.index as int],
            s.src,
        )
    }

    /// The first `n` of a run of settings are made.
    pub open spec fn sets(self, results: Seq<TyModel>, settings: Seq<Setting>, n: nat) -> Answer
        decreases n,
    {
        if n == 0 || n > settings.len() {
            self
        } else {
            self.sets(results, settings, (n - 1) as nat).set(results, settings[n - 1])
        }
    }

    /// The first `n` of a run of settings can be made.
    pub open spec fn takes_sets(
        self,
        results: Seq<TyModel>,
        settings: Seq<Setting>,
        n: nat,
    ) -> bool
        decreases n,
    {
        n == 0 || n > settings.len() || (self.takes_sets(results, settings, (n - 1) as nat)
            && self.sets(results, settings, (n - 1) as nat).takes(results, settings[n - 1]))
    }
}

/// A host function starts with no result set, as a call of it hands it over.
pub proof fn law_no_result_is_set_at_first(store: StoreModel, outs: Seq<Option<Vec<CoreVal>>>)
    requires
        forall|k: int| 0 <= k < outs.len() ==> #[trigger] outs[k] is None,
    ensures
        guest::outs_model(outs) == Answer::none(store, outs.len()).outs,
{
    assert(guest::outs_model(outs) =~= Answer::none(store, outs.len()).outs);
}

/// A setting gives its result the value `v`, dynamically or, where it has one image, as bytes.
pub open spec fn gives(results: Seq<TyModel>, s: Setting, v: ValModel) -> bool {
    let ty = results[s.index as int];
    &&& passable(ty, v)
    &&& s.src == Provided::Val(v) || {
        &&& laws::value_of(ty, v)
        &&& laws::measurable(ty)
        &&& s.src == Provided::Flat(laws::bytes_of(ty, v))
    }
}

/// The value that the first `n` settings leave result `i` with, where they set it at all.
pub open spec fn left_with(
    settings: Seq<Setting>,
    values: Seq<ValModel>,
    i: nat,
    n: nat,
) -> Option<ValModel>
    decreases n,
{
    if n == 0 || n > settings.len() {
        None
    } else if settings[n - 1].index == i {
        Some(values[n - 1])
    } else {
        left_with(settings, values, i, (n - 1) as nat)
    }
}

proof fn lemma_setting_holds(
    before: Answer,
    results: Seq<TyModel>,
    s: Setting,
    v: ValModel,
)
    requires
        gives(results, s, v),
        before.takes(results, s),
        before.outs.len() == results.len(),
        before.store.mem.len() <= i32::MAX,
    ensures
        ({
            let after = before.set(results, s);
            &&& after.outs[s.index as int] is Some
            &&& after.outs[s.index as int]->Some_0.len() == results[s.index as int].slots()
            &&& holds(
                after.store,
                after.outs[s.index as int]->Some_0,
                results[s.index as int],
                v,
            )
            &&& keeps(before.store, after.store)
        }),
{
    let ty = results[s.index as int];
    let start = Lowered { store: before.store, core: seq![] };
    if s.src is Flat {
        laws::law_provided_val_is_provided_flat(start, ty, v);
    }
    lemma_val_holds(start, ty, v);
    let after = start.val(ty, v);
    assert(after.core.skip(0) =~= after.core);
}

proof fn lemma_settings_hold(
    store: StoreModel,
    results: Seq<TyModel>,
    settings: Seq<Setting>,
    values: Seq<ValModel>,
    n: nat,
    i: nat,
)
    requires
        n <= settings.len(),
        forall|m: int| 0 <= m < n ==> gives(results, #[trigger] settings[m], values[m]),
        Answer::none(store, results.len()).takes_sets(results, settings, n),
        store.mem.len() <= i32::MAX,
        i < results.len(),
    ensures
        ({
            let answer = Answer::none(store, results.len()).sets(results, settings, n);
            &&& answer.outs.len() == results.len()
            &&& answer.store.mem.len() == store.mem.len()
            &&& match left_with(settings, values, i, n) {
                None => answer.outs[i as int] is None,
                Some(v) => {
                    &&& answer.outs[i as int] is Some
                    &&& passable(results[i as int], v)
                    &&& answer.outs[i as int]->Some_0.len() == results[i as int].slots()
                    &&& holds(
                        answer.store,
                        answer.outs[i as int]->Some_0,
                        results[i as int],
                        v,
                    )
                },
            }
        }),
    decreases n,
{
    if n > 0 {
        let m = (n - 1) as nat;
        lemma_settings_hold(store, results, settings, values, m, i);
        let before = Answer::none(store, results.len()).sets(results, settings, m);
        let after = Answer::none(store, results.len()).sets(results, settings, n);
        let s = settings[m as int];
        lemma_setting_holds(before, results, s, values[m as int]);
        if s.index != i {
            assert(after.outs[i as int] == before.outs[i as int]);
            if let Some(v) = left_with(settings, values, i, m) {
                lemma_holds_on(
                    before.store,
                    after.store,
                    before.outs[i as int]->Some_0,
                    results[i as int],
                    v,
                );
            }
        }
    }
}

/// Results one after the other, each in as many core values as its type has slots, are found at
/// those slots.
proof fn lemma_out_at_its_slots(
    results: Seq<TyModel>,
    outs: Seq<Option<Seq<CoreVal>>>,
    n: nat,
    i: nat,
)
    requires
        i < n <= outs.len(),
        outs.len() == results.len(),
        forall|k: int|
            0 <= k < n ==> (#[trigger] outs[k]) is Some && outs[k]->Some_0.len()
                == results[k].slots(),
    ensures
        guest::outs_core(outs, n).len() == layout::slots_upto(results, n),
        layout::slots_upto(results, i) + results[i as int].slots() <= layout::slots_upto(results, n),
        guest::outs_core(outs, n).subrange(
            layout::slots_upto(results, i) as int,
            (layout::slots_upto(results, i) + results[i as int].slots()) as int,
        ) == outs[i as int]->Some_0,
    decreases n,
{
    let m = (n - 1) as nat;
    let before = guest::outs_core(outs, m);
    let now = guest::outs_core(outs, n);
    assert(outs[m as int] is Some);
    if m > 0 {
        lemma_out_at_its_slots(results, outs, m, if i < m { i } else { 0 });
    }
    let from = layout::slots_upto(results, i) as int;
    let to = from + results[i as int].slots();
    if i < m {
        assert(now.subrange(from, to) =~= before.subrange(from, to));
    } else {
        assert(now.subrange(from, to) =~= outs[i as int]->Some_0);
    }
}

/// What a host function sets is what its guest receives: results may be set in whatever order,
/// as dynamic values or as bytes, and more than once; those that were never set are missing, and
/// when none is, the guest finds in each the value that it was set to last.
#[verifier::rlimit(30)]
pub proof fn law_results_are_received(
    store: StoreModel,
    results: Seq<TyModel>,
    settings: Seq<Setting>,
    values: Seq<ValModel>,
    i: nat,
)
    requires
        i < results.len(),
        forall|j: int|
            0 <= j < settings.len() ==> gives(results, #[trigger] settings[j], values[j]),
        Answer::none(store, results.len()).takes_sets(results, settings, settings.len()),
        store.mem.len() <= i32::MAX,
    ensures
        ({
            let answer = Answer::none(store, results.len()).sets(
                results,
                settings,
                settings.len(),
            );
            let value = left_with(settings, values, i, settings.len());
            &&& answer.outs[i as int] is Some <==> value is Some
            &&& (forall|k: int| 0 <= k < answer.outs.len() ==> #[trigger] answer.outs[k] is Some)
                ==> arrives(
                LiftedModel {
                    mem: answer.store.mem,
                    tys: results,
                    core: guest::outs_core(answer.outs, answer.outs.len()),
                },
                i,
                value->Some_0,
            )
        }),
{
    let n = settings.len();
    let answer = Answer::none(store, results.len()).sets(results, settings, n);
    lemma_settings_hold(store, results, settings, values, n, i);
    if forall|k: int| 0 <= k < answer.outs.len() ==> #[trigger] answer.outs[k] is Some {
        assert forall|k: int| 0 <= k < results.len() implies (#[trigger] answer.outs[k]) is Some
            && answer.outs[k]->Some_0.len() == results[k].slots() by {
            lemma_settings_hold(store, results, settings, values, n, k as nat);
                }
        lemma_out_at_its_slots(results, answer.outs, results.len(), i);
        lemma_receive(
            answer.store,
            LiftedModel {
                mem: answer.store.mem,
                tys: results,
                core: guest::outs_core(answer.outs, answer.outs.len()),
            },
            i,
            left_with(settings, values, i, n)->Some_0,
        );
    }
}

} // verus!
