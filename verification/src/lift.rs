//! Lifting: receiving values that stand in guest memory and core values.

use crate::layout;
use crate::layout::{align_up, Ty, TyModel};
use crate::validity;
use crate::validity::{Validated, ValidatedCabiBytes, ValidityError};
use crate::value;
use crate::value::{read_word, CoreVal, F32Bits, Val, ValModel};
use vstd::prelude::*;
use vstd::slice::slice_subrange;

verus! {

/// The core slot at which each type starts: a list or a string takes two slots, a record those
/// of its fields, every other type one.
pub fn core_slot_offsets(tys: &[Ty]) -> (r: Vec<usize>)
    requires
        layout::slots_upto(layout::models(tys@), tys@.len()) <= usize::MAX,
    ensures
        r@.len() == tys@.len(),
        forall|i: int|
            0 <= i < tys@.len() ==> #[trigger] r@[i] == layout::slots_upto(
                layout::models(tys@),
                i as nat,
            ),
{
    let ghost model = layout::models(tys@);
    proof {
        layout::lemma_models(tys@);
    }
    let mut offs: Vec<usize> = Vec::new();
    let mut n: usize = 0;
    let mut i: usize = 0;
    while i < tys.len()
        invariant
            i <= tys@.len(),
            model == layout::models(tys@),
            model.len() == tys@.len(),
            layout::slots_upto(model, tys@.len()) <= usize::MAX,
            n == layout::slots_upto(model, i as nat),
            offs@.len() == i,
            forall|k: int| 0 <= k < i ==> #[trigger] offs@[k] == layout::slots_upto(model, k as nat),
        decreases tys@.len() - i,
    {
        proof {
            layout::lemma_models(tys@);
            layout::lemma_slots_monotone(model, (i + 1) as nat, model.len());
        }
        offs.push(n);
        n = n + tys[i].slots();
        i += 1;
    }
    offs
}

/// Bulk lift: borrow `count` elements of guest memory in place.
pub fn lift_flat_view<'s>(mem: &'s [u8], ty: &Ty, ptr: usize, count: usize) -> (r: &'s [u8])
    requires
        ty@.elem().size() <= usize::MAX,
        ptr + count * ty@.elem().size() <= mem@.len(),
    ensures
        r@ == mem@.subrange(ptr as int, ptr + count * ty@.elem().size()),
{
    proof {
        assert(mem.len() == mem@.len());
        assert(count * ty@.elem().size() >= 0) by (nonlinear_arith);
    }
    let len = count * ty.elem_size();
    slice_subrange(mem, ptr, ptr + len)
}

/// The inline value that stands at `off`; a record starts at the next place that is aligned
/// for it.
pub open spec fn lifted(mem: Seq<u8>, ty: TyModel, off: nat) -> ValModel
    decreases ty, 0nat,
{
    match ty {
        TyModel::F32 => ValModel::F32(F32Bits { bits: value::word_at(mem, off as int) }),
        TyModel::U32 => ValModel::U32(value::word_at(mem, off as int)),
        TyModel::Enum(_) => ValModel::Enum(value::word_at(mem, off as int)),
        TyModel::Record(fields) => ValModel::Record(
            lifted_fields(
                mem,
                fields,
                layout::round_up(off, layout::fields_align(fields, fields.len())),
                fields.len(),
            ),
        ),
        _ => arbitrary(),
    }
}

/// The first `n` fields of the record that starts at `base`.
pub open spec fn lifted_fields(mem: Seq<u8>, fields: Seq<TyModel>, base: nat, n: nat) -> Seq<
    ValModel,
>
    decreases fields, n,
{
    if n == 0 || n > fields.len() {
        seq![]
    } else {
        lifted_fields(mem, fields, base, (n - 1) as nat).push(
            lifted(
                mem,
                fields[n - 1],
                base + layout::field_offset(fields, (n - 1) as nat),
            ),
        )
    }
}

/// An inline value can be read at `off` in a memory of `len` bytes.
pub open spec fn readable(ty: TyModel, off: nat, len: nat) -> bool {
    &&& ty.inline()
    &&& ty.size() > 0 ==> (if ty is Record {
        layout::round_up(off, 4)
    } else {
        off
    }) + ty.size() <= len
}

/// Where a type takes no room, it does not matter where it is read.
pub proof fn lemma_lifted_nothing(mem: Seq<u8>, ty: TyModel, a: nat, b: nat)
    requires
        ty.size() == 0,
    ensures
        lifted(mem, ty, a) == lifted(mem, ty, b),
    decreases ty, 0nat,
{
    layout::lemma_words(ty);
    if let TyModel::Record(fields) = ty {
        layout::lemma_fields_words(fields, fields.len());
        lemma_lifted_nothing_fields(
            mem,
            fields,
            layout::round_up(a, ty.align()),
            layout::round_up(b, ty.align()),
            fields.len(),
        );
    }
}

proof fn lemma_lifted_nothing_fields(
    mem: Seq<u8>,
    fields: Seq<TyModel>,
    a: nat,
    b: nat,
    n: nat,
)
    requires
        n <= fields.len(),
        layout::fields_end(fields, n) == 0,
    ensures
        lifted_fields(mem, fields, a, n) == lifted_fields(mem, fields, b, n),
    decreases fields, n,
{
    if n > 0 {
        layout::lemma_fields_words(fields, n);
        lemma_lifted_nothing_fields(mem, fields, a, b, (n - 1) as nat);
        lemma_lifted_nothing(
            mem,
            fields[n - 1],
            a + layout::field_offset(fields, (n - 1) as nat),
            b + layout::field_offset(fields, (n - 1) as nat),
        );
    }
}

/// Lift the inline value at `off`, the inverse of storing one.
#[verifier::rlimit(60)]
#[verifier::spinoff_prover]
pub fn lift_scalar_or_record(mem: &[u8], ty: &Ty, off: usize) -> (r: Val)
    requires
        readable(ty@, off as nat, mem@.len()),
    ensures
        r@ == lifted(mem@, ty@, off as nat),
    decreases ty,
{
    assert(mem.len() == mem@.len());
    match ty {
        Ty::F32 => Val::F32(F32Bits { bits: read_word(mem, off) }),
        Ty::U32 => Val::U32(read_word(mem, off)),
        Ty::Enum(_) => Val::Enum(read_word(mem, off)),
        Ty::Record(fields) => {
            let ghost model = layout::models(fields@);
            let ghost base = layout::round_up(off as nat, ty@.align());
            proof {
                layout::lemma_models(fields@);
                layout::lemma_words(ty@);
                layout::lemma_round_up(off as nat, 4);
                layout::lemma_round_up(off as nat, 1);
                layout::lemma_fields_words(model, model.len());
            }
            let mut o: usize = off;
            let mut vals: Vec<Val> = Vec::new();
            let mut i: usize = 0;
            while i < fields.len()
                invariant
                    i <= fields@.len(),
                    *ty matches Ty::Record(f) && f == *fields,
                    ty@ == TyModel::Record(model),
                    model == layout::models(fields@),
                    model.len() == fields@.len(),
                    readable(ty@, off as nat, mem@.len()),
                    mem@.len() <= usize::MAX,
                    base == layout::round_up(off as nat, ty@.align()),
                    o == if layout::fields_end(model, i as nat) == 0 {
                        off as nat
                    } else {
                        base + layout::fields_end(model, i as nat)
                    },
                    vals@.len() == i,
                    value::models(vals@) == lifted_fields(mem@, model, base, i as nat),
                decreases fields@.len() - i,
            {
                assert(decreases_to!(ty => fields@[i as int]));
                let ghost vals_before = vals@;
                proof {
                    layout::lemma_models(fields@);
                    layout::lemma_field_within(model, i as nat);
                    layout::lemma_fields_words(model, i as nat);
                    layout::lemma_fields_words(model, (i + 1) as nat);
                    layout::lemma_words(model[i as int]);
                    layout::lemma_words(ty@);
                    layout::lemma_small_powers();
                    layout::lemma_all_inline(model, model.len());
                    assert(model[i as int].inline());
                    layout::lemma_round_up(off as nat, 4);
                    layout::lemma_round_up(o as nat, 4);
                    layout::lemma_round_up(o as nat, 1);
                    assert(usize::MAX % 4 == 3);
                    if model[i as int].size() == 0 {
                        lemma_lifted_nothing(
                            mem@,
                            model[i as int],
                            o as nat,
                            base + layout::field_offset(model, i as nat),
                        );
                    } else {
                        layout::lemma_round_up(base + layout::fields_end(model, i as nat), 4);
                    }
                }
                o = align_up(o, fields[i].align());
                let v = lift_scalar_or_record(mem, &fields[i], o);
                vals.push(v);
                o = o + fields[i].size();
                i += 1;
                proof {
                    value::lemma_models(vals_before);
                    value::lemma_models(vals@);
                    assert(value::models(vals@) =~= value::models(vals_before).push(v@));
                }
            }
            Val::Record(vals)
        },
        Ty::List(_) | Ty::String | Ty::Handle => vstd::pervasive::unreached(),
    }
}

/// The mathematical value of the values that a guest hands over: its memory, the types of the
/// values, and their core values.
#[verifier::ext_equal]
pub struct LiftedModel {
    pub mem: Seq<u8>,
    pub tys: Seq<TyModel>,
    pub core: Seq<CoreVal>,
}

impl LiftedModel {
    /// The core slot at which value `i` starts.
    pub open spec fn slot(self, i: nat) -> int {
        layout::slots_upto(self.tys, i) as int
    }

    /// Value `i` has a pointer and a length in its core slots.
    pub open spec fn has_pair(self, i: nat) -> bool {
        &&& self.slot(i) + 1 < self.core.len()
        &&& self.core[self.slot(i)] is I32
        &&& self.core[self.slot(i) + 1] is I32
    }

    /// The pointer of value `i`.
    pub open spec fn ptr(self, i: nat) -> usize {
        self.core[self.slot(i)]->I32_0 as usize
    }

    /// The length of value `i`, in elements.
    pub open spec fn count(self, i: nat) -> usize {
        self.core[self.slot(i) + 1]->I32_0 as usize
    }

    /// The bytes of value `i` can be looked at in place.
    pub open spec fn has_view(self, i: nat) -> bool {
        &&& i < self.tys.len()
        &&& self.tys[i as int].elem().inline()
        &&& self.tys[i as int].elem().size() <= usize::MAX
        &&& self.has_pair(i)
        &&& self.ptr(i) + self.count(i) * self.tys[i as int].elem().size() <= self.mem.len()
    }

    /// The bytes of value `i`.
    pub open spec fn bytes(self, i: nat) -> Seq<u8> {
        self.mem.subrange(
            self.ptr(i) as int,
            self.ptr(i) + self.count(i) * self.tys[i as int].elem().size(),
        )
    }

    /// Value `i` can be received as a dynamic value.
    pub open spec fn has_val(self, i: nat) -> bool {
        &&& i < self.tys.len()
        &&& has_val_at(self.mem, self.core, self.tys[i as int], self.slot(i))
    }

    /// Value `i` as a dynamic value.
    pub open spec fn val(self, i: nat) -> ValModel {
        val_at(self.mem, self.core, self.tys[i as int], self.slot(i))
    }
}

/// A value can be received dynamically from the core slots that start at `slot`: a scalar from
/// its slot, a list of inline elements out of memory, and a record field by field.
pub open spec fn has_val_at(mem: Seq<u8>, core: Seq<CoreVal>, ty: TyModel, slot: int) -> bool
    decreases ty, 0nat,
{
    match ty {
        TyModel::List(elem) => {
            &&& slot + 1 < core.len()
            &&& core[slot] is I32
            &&& core[slot + 1] is I32
            &&& elem.size() <= usize::MAX
            &&& forall|k: nat|
                k < core[slot + 1]->I32_0 as usize ==> #[trigger] readable(
                    *elem,
                    ((core[slot]->I32_0 as usize) + k * elem.size()) as nat,
                    mem.len(),
                )
        },
        TyModel::F32 => slot < core.len(),
        TyModel::U32 | TyModel::Enum(_) => slot < core.len() && core[slot] is I32,
        TyModel::Record(fields) => fields_have_vals(mem, core, fields, slot, fields.len()),
        _ => false,
    }
}

/// The first `n` fields of a record can be received from the core slots that start at `slot`.
pub open spec fn fields_have_vals(
    mem: Seq<u8>,
    core: Seq<CoreVal>,
    fields: Seq<TyModel>,
    slot: int,
    n: nat,
) -> bool
    decreases fields, n,
{
    n == 0 || n > fields.len() || (fields_have_vals(mem, core, fields, slot, (n - 1) as nat)
        && has_val_at(
        mem,
        core,
        fields[n - 1],
        slot + layout::slots_upto(fields, (n - 1) as nat),
    ))
}

/// The dynamic value in the core slots that start at `slot`.
pub open spec fn val_at(mem: Seq<u8>, core: Seq<CoreVal>, ty: TyModel, slot: int) -> ValModel
    decreases ty, 0nat,
{
    match ty {
        TyModel::List(elem) => ValModel::List(
            Seq::new(
                (core[slot + 1]->I32_0 as usize) as nat,
                |k: int|
                    lifted(
                        mem,
                        *elem,
                        ((core[slot]->I32_0 as usize) + k * elem.size()) as nat,
                    ),
            ),
        ),
        TyModel::F32 => match core[slot] {
            CoreVal::F32(x) => ValModel::F32(x),
            CoreVal::I32(x) => ValModel::F32(F32Bits { bits: x as u32 }),
        },
        TyModel::Enum(_) => ValModel::Enum(core[slot]->I32_0 as u32),
        TyModel::Record(fields) => ValModel::Record(
            fields_vals(mem, core, fields, slot, fields.len()),
        ),
        _ => ValModel::U32(core[slot]->I32_0 as u32),
    }
}

/// The dynamic values of the first `n` fields of a record in the core slots that start at `slot`.
pub open spec fn fields_vals(
    mem: Seq<u8>,
    core: Seq<CoreVal>,
    fields: Seq<TyModel>,
    slot: int,
    n: nat,
) -> Seq<ValModel>
    decreases fields, n,
{
    if n == 0 || n > fields.len() {
        seq![]
    } else {
        fields_vals(mem, core, fields, slot, (n - 1) as nat).push(
            val_at(
                mem,
                core,
                fields[n - 1],
                slot + layout::slots_upto(fields, (n - 1) as nat),
            ),
        )
    }
}

proof fn lemma_field_has_val(
    mem: Seq<u8>,
    core: Seq<CoreVal>,
    fields: Seq<TyModel>,
    slot: int,
    n: nat,
    i: nat,
)
    requires
        i < n <= fields.len(),
        fields_have_vals(mem, core, fields, slot, n),
    ensures
        has_val_at(mem, core, fields[i as int], slot + layout::slots_upto(fields, i)),
    decreases n,
{
    if i < n - 1 {
        lemma_field_has_val(mem, core, fields, slot, (n - 1) as nat, i);
    }
}

/// Receive the `count` elements of a list that stand at `ptr`.
fn lift_items(mem: &[u8], elem: &Ty, ptr: usize, count: usize) -> (r: Vec<Val>)
    requires
        elem.sized(),
        forall|j: nat|
            j < count ==> #[trigger] readable(
                elem@,
                (ptr + j * elem@.size()) as nat,
                mem@.len(),
            ),
    ensures
        value::models(r@) == Seq::new(
            count as nat,
            |k: int| lifted(mem@, elem@, (ptr + k * elem@.size()) as nat),
        ),
{
    let stride = elem.size();
    let mut items: Vec<Val> = Vec::new();
    let mut off: usize = ptr;
    let mut k: usize = 0;
    while k < count
        invariant
            k <= count,
            elem.sized(),
            stride == elem@.size(),
            off == ptr + k * stride,
            forall|j: nat|
                j < count ==> #[trigger] readable(
                    elem@,
                    (ptr + j * elem@.size()) as nat,
                    mem@.len(),
                ),
            items@.len() == k,
            forall|j: int|
                0 <= j < k ==> (#[trigger] items@[j])@ == lifted(
                    mem@,
                    elem@,
                    (ptr + j * elem@.size()) as nat,
                ),
        decreases count - k,
    {
        proof {
            assert(readable(elem@, (ptr + (k as nat) * elem@.size()) as nat, mem@.len()));
            assert((k + 1) * stride == k * stride + stride) by (nonlinear_arith);
            layout::lemma_round_up(off as nat, 4);
            assert(mem.len() == mem@.len());
        }
        items.push(lift_scalar_or_record(mem, elem, off));
        off = off + stride;
        k += 1;
    }
    proof {
        value::lemma_models(items@);
        assert(value::models(items@) =~= Seq::new(
            count as nat,
            |k: int| lifted(mem@, elem@, (ptr + k * elem@.size()) as nat),
        ));
    }
    items
}

/// Receive the value of type `ty` in the core slots that start at `slot`.
fn lift_core(mem: &[u8], core: &[CoreVal], ty: &Ty, slot: usize) -> (r: Val)
    requires
        has_val_at(mem@, core@, ty@, slot as int),
        slot + ty@.slots() <= usize::MAX,
    ensures
        r@ == val_at(mem@, core@, ty@, slot as int),
    decreases ty,
{
    proof {
        assert(core.len() == core@.len());
    }
    match ty {
        Ty::List(elem) => Val::List(
            lift_items(
                mem,
                elem,
                core[slot].as_i32() as usize,
                core[slot + 1].as_i32() as usize,
            ),
        ),
        Ty::F32 => match core[slot] {
            CoreVal::F32(x) => Val::F32(x),
            CoreVal::I32(x) => Val::F32(F32Bits { bits: #[verifier::truncate] (x as u32) }),
        },
        Ty::U32 => Val::U32(#[verifier::truncate] (core[slot].as_i32() as u32)),
        Ty::Enum(_) => Val::Enum(#[verifier::truncate] (core[slot].as_i32() as u32)),
        Ty::Record(fields) => {
            let ghost model = layout::models(fields@);
            proof {
                layout::lemma_models(fields@);
            }
            let mut vals: Vec<Val> = Vec::new();
            let mut at: usize = slot;
            let mut i: usize = 0;
            while i < fields.len()
                invariant
                    i <= fields@.len(),
                    *ty matches Ty::Record(f) && f == *fields,
                    model == layout::models(fields@),
                    model.len() == fields@.len(),
                    fields_have_vals(mem@, core@, model, slot as int, model.len()),
                    slot + layout::slots_upto(model, model.len()) <= usize::MAX,
                    at == slot + layout::slots_upto(model, i as nat),
                    vals@.len() == i,
                    value::models(vals@) == fields_vals(mem@, core@, model, slot as int, i as nat),
                decreases fields@.len() - i,
            {
                assert(decreases_to!(ty => fields@[i as int]));
                proof {
                    layout::lemma_models(fields@);
                    layout::lemma_slots_monotone(model, (i + 1) as nat, model.len());
                    lemma_field_has_val(
                        mem@,
                        core@,
                        model,
                        slot as int,
                        model.len(),
                        i as nat,
                    );
                }
                let ghost before = vals@;
                let v = lift_core(mem, core, &fields[i], at);
                let ghost v_model = v@;
                vals.push(v);
                proof {
                    value::lemma_models(before);
                    value::lemma_models(vals@);
                    assert(value::models(vals@) =~= value::models(before).push(v_model));
                }
                at = at + fields[i].slots();
                i += 1;
            }
            Val::Record(vals)
        },
        Ty::String | Ty::Handle => vstd::pervasive::unreached(),
    }
}

/// Guest-owned values, exposed for lifting: each can be received as a borrowed view, an owned
/// copy or a dynamic value, and more than once.
pub struct Lifted<'a> {
    mem: &'a [u8],
    tys: &'a [Ty],
    core: &'a [CoreVal],
    slots: Vec<usize>,
}

impl<'a> Lifted<'a> {
    /// The mathematical value of this accessor.
    pub closed spec fn model(&self) -> LiftedModel {
        LiftedModel { mem: self.mem@, tys: layout::models(self.tys@), core: self.core@ }
    }
}

impl<'a> Lifted<'a> {
    #[verifier::type_invariant]
    spec fn inv(self) -> bool {
        &&& self.slots@.len() == self.tys@.len()
        &&& layout::slots_upto(layout::models(self.tys@), self.tys@.len()) <= usize::MAX
        &&& forall|i: int|
            0 <= i < self.tys@.len() ==> #[trigger] self.slots@[i] == layout::slots_upto(
                layout::models(self.tys@),
                i as nat,
            )
    }

    /// The values of types `tys` that `core` and `mem` hold.
    pub fn new(mem: &'a [u8], tys: &'a [Ty], core: &'a [CoreVal]) -> (r: Lifted<'a>)
        requires
            layout::slots_upto(layout::models(tys@), tys@.len()) <= usize::MAX,
        ensures
            r.model() == (LiftedModel { mem: mem@, tys: layout::models(tys@), core: core@ }),
    {
        Lifted { mem, tys, core, slots: core_slot_offsets(tys) }
    }

    /// Number of values.
    pub fn len(&self) -> (r: usize)
        ensures
            r == self.model().tys.len(),
    {
        proof {
            layout::lemma_models(self.tys@);
        }
        self.tys.len()
    }

    /// Whether there are no values.
    pub fn is_empty(&self) -> (r: bool)
        ensures
            r == (self.model().tys.len() == 0),
    {
        self.len() == 0
    }

    fn list_ptr_count(&self, index: usize) -> (r: (usize, usize))
        requires
            index < self.model().tys.len(),
            self.model().has_pair(index as nat),
        ensures
            r.0 == self.model().ptr(index as nat),
            r.1 == self.model().count(index as nat),
    {
        proof {
            use_type_invariant(self);
            layout::lemma_models(self.tys@);
            assert(self.core.len() == self.core@.len());
            assert(self.slots@[index as int] == layout::slots_upto(
                layout::models(self.tys@),
                index as nat,
            ));
        }
        let slot = self.slots[index];
        (self.core[slot].as_i32() as usize, self.core[slot + 1].as_i32() as usize)
    }

    /// Value `index` as the bytes in guest memory.
    pub fn lift_view(&self, index: usize) -> (r: &'a [u8])
        requires
            self.model().has_view(index as nat),
        ensures
            r@ == self.model().bytes(index as nat),
    {
        proof {
            layout::lemma_models(self.tys@);
        }
        let (ptr, count) = self.list_ptr_count(index);
        lift_flat_view(self.mem, &self.tys[index], ptr, count)
    }

    /// Value `index`, taken from its core slots and from memory.
    pub fn lift_val(&self, index: usize) -> (r: Val)
        requires
            self.model().has_val(index as nat),
        ensures
            r@ == self.model().val(index as nat),
    {
        proof {
            use_type_invariant(self);
            layout::lemma_models(self.tys@);
            assert(self.slots@[index as int] == layout::slots_upto(
                layout::models(self.tys@),
                index as nat,
            ));
            layout::lemma_slots_monotone(
                layout::models(self.tys@),
                (index + 1) as nat,
                self.tys@.len(),
            );
        }
        lift_core(self.mem, self.core, &self.tys[index], self.slots[index])
    }

    /// The receive primitive: value `index` as any sink type `T`.
    pub fn get<'r, T: FromResult<'r>>(&'r self, index: usize) -> (r: T)
        requires
            T::can_lift(self.model(), index as nat),
        ensures
            T::is_lift(r, self.model(), index as nat),
    {
        T::from_result(self, index)
    }

    /// Value `index` as a zero-copy view, confined to the borrow of this accessor.
    pub fn view(&self, index: usize) -> (r: &[u8])
        requires
            self.model().has_view(index as nat),
        ensures
            r@ == self.model().bytes(index as nat),
    {
        self.get::<&[u8]>(index)
    }

    /// Value `index` as an owned copy of its bytes.
    pub fn copy(&self, index: usize) -> (r: Vec<u8>)
        requires
            self.model().has_view(index as nat),
        ensures
            r@ == self.model().bytes(index as nat),
    {
        self.get::<Vec<u8>>(index)
    }

    /// Value `index`, a list, as bytes that are known to be valid, or what is wrong with them: a
    /// guest's result is checked before it is passed on as proof-carrying bytes.
    pub fn validated(&self, index: usize) -> (r: Result<ValidatedCabiBytes<'_>, ValidityError>)
        requires
            self.model().has_view(index as nat),
            self.model().tys[index as int] is List,
        ensures
            ({
                let elem = self.model().tys[index as int].elem();
                let bytes = self.model().bytes(index as nat);
                &&& r is Ok <==> validity::valid_run(elem, bytes)
                &&& r matches Ok(vb) ==> vb@ == (Validated { bytes, elem })
                &&& r matches Err(e) ==> e.explains(elem, bytes)
            }),
    {
        proof {
            layout::lemma_models(self.tys@);
        }
        match &self.tys[index] {
            Ty::List(elem) => ValidatedCabiBytes::checked(self.lift_view(index), elem),
            _ => vstd::pervasive::unreached(),
        }
    }

    /// Value `index` as a dynamic value.
    pub fn val(&self, index: usize) -> (r: Val)
        requires
            self.model().has_val(index as nat),
        ensures
            r@ == self.model().val(index as nat),
    {
        self.get::<Val>(index)
    }
}

/// A type that a guest's value can be received as.
pub trait FromResult<'a>: Sized {
    /// Value `index` can be received as this type.
    spec fn can_lift(results: LiftedModel, index: nat) -> bool;

    /// `r` is what value `index` is, received as this type.
    spec fn is_lift(r: Self, results: LiftedModel, index: nat) -> bool;

    fn from_result(results: &'a Lifted<'_>, index: usize) -> (r: Self)
        requires
            Self::can_lift(results.model(), index as nat),
        ensures
            Self::is_lift(r, results.model(), index as nat),
    ;
}

impl<'a> FromResult<'a> for &'a [u8] {
    open spec fn can_lift(results: LiftedModel, index: nat) -> bool {
        results.has_view(index)
    }

    open spec fn is_lift(r: &'a [u8], results: LiftedModel, index: nat) -> bool {
        r@ == results.bytes(index)
    }

    fn from_result(results: &'a Lifted<'_>, index: usize) -> (r: &'a [u8]) {
        results.lift_view(index)
    }
}

impl<'a> FromResult<'a> for Vec<u8> {
    open spec fn can_lift(results: LiftedModel, index: nat) -> bool {
        results.has_view(index)
    }

    open spec fn is_lift(r: Vec<u8>, results: LiftedModel, index: nat) -> bool {
        r@ == results.bytes(index)
    }

    fn from_result(results: &'a Lifted<'_>, index: usize) -> (r: Vec<u8>) {
        let bytes = results.lift_view(index);
        vstd::slice::slice_to_vec(bytes)
    }
}

impl<'a> FromResult<'a> for Val {
    open spec fn can_lift(results: LiftedModel, index: nat) -> bool {
        results.has_val(index)
    }

    open spec fn is_lift(r: Val, results: LiftedModel, index: nat) -> bool {
        r@ == results.val(index)
    }

    fn from_result(results: &'a Lifted<'_>, index: usize) -> (r: Val) {
        results.lift_val(index)
    }
}

/// Results that own the memory they stand in.
pub struct OwnedResults {
    mem: Vec<u8>,
    tys: Vec<Ty>,
    core: Vec<CoreVal>,
}

impl OwnedResults {
    /// The mathematical value of these results.
    pub closed spec fn model(&self) -> LiftedModel {
        LiftedModel { mem: self.mem@, tys: layout::models(self.tys@), core: self.core@ }
    }

    #[verifier::type_invariant]
    spec fn inv(self) -> bool {
        layout::slots_upto(layout::models(self.tys@), self.tys@.len()) <= usize::MAX
    }

    /// The values of types `tys` that `core` and `mem` hold.
    pub fn new(mem: Vec<u8>, tys: Vec<Ty>, core: Vec<CoreVal>) -> (r: OwnedResults)
        requires
            layout::slots_upto(layout::models(tys@), tys@.len()) <= usize::MAX,
        ensures
            r.model() == (LiftedModel { mem: mem@, tys: layout::models(tys@), core: core@ }),
    {
        OwnedResults { mem, tys, core }
    }

    /// The accessor over these results.
    pub fn lifted(&self) -> (r: Lifted<'_>)
        ensures
            r.model() == self.model(),
    {
        proof {
            use_type_invariant(self);
        }
        Lifted::new(self.mem.as_slice(), self.tys.as_slice(), self.core.as_slice())
    }

    /// Number of results.
    pub fn len(&self) -> (r: usize)
        ensures
            r == self.model().tys.len(),
    {
        self.lifted().len()
    }

    /// Whether there are no results.
    pub fn is_empty(&self) -> (r: bool)
        ensures
            r == (self.model().tys.len() == 0),
    {
        self.len() == 0
    }

    /// Result `index` as a view of the owned memory.
    pub fn view(&self, index: usize) -> (r: &[u8])
        requires
            self.model().has_view(index as nat),
        ensures
            r@ == self.model().bytes(index as nat),
    {
        self.lifted().lift_view(index)
    }

    /// Result `index` as an owned copy of its bytes.
    pub fn copy(&self, index: usize) -> (r: Vec<u8>)
        requires
            self.model().has_view(index as nat),
        ensures
            r@ == self.model().bytes(index as nat),
    {
        self.lifted().copy(index)
    }

    /// Result `index` as a dynamic value.
    pub fn val(&self, index: usize) -> (r: Val)
        requires
            self.model().has_val(index as nat),
        ensures
            r@ == self.model().val(index as nat),
    {
        self.lifted().val(index)
    }
}

/// A record is lifted field by field, each from where those before it end, and a word is lifted as
/// it stands, whatever it holds.
pub proof fn law_records_are_lifted_by_field(
    mem: Seq<u8>,
    fields: Seq<TyModel>,
    t: TyModel,
    off: nat,
    cases: u32,
)
    requires
        off % 4 == 0,
    ensures
        lifted(mem, TyModel::F32, off) == ValModel::F32(
            F32Bits { bits: value::word_at(mem, off as int) },
        ),
        lifted(mem, TyModel::U32, off) == ValModel::U32(value::word_at(mem, off as int)),
        lifted(mem, TyModel::Enum(cases), off) == ValModel::Enum(value::word_at(mem, off as int)),
        lifted(mem, TyModel::Record(seq![]), off) == ValModel::Record(seq![]),
        lifted(mem, TyModel::Record(fields), off) is Record,
        lifted(mem, TyModel::Record(fields.push(t)), off) == ValModel::Record(
            lifted(mem, TyModel::Record(fields), off)->Record_0.push(
                lifted(mem, t, off + TyModel::Record(fields).size()),
            ),
        ),
{
    let more = fields.push(t);
    let n = fields.len();
    layout::lemma_round_up(off, 4);
    layout::lemma_round_up(off, 1);
    layout::lemma_fields_words(fields, n);
    layout::lemma_fields_words(more, n + 1);
    layout::lemma_fields_words(seq![], 0);
    layout::law_records_are_laid_out_by_field(fields, t);
    assert(lifted_fields(mem, seq![], off, 0) =~= seq![]);
    lemma_lifted_front(mem, fields, more, off, n);
    assert(lifted_fields(mem, more, off, n + 1) == lifted_fields(mem, more, off, n).push(
        lifted(mem, t, off + layout::field_offset(more, n)),
    ));
}

proof fn lemma_lifted_front(
    mem: Seq<u8>,
    a: Seq<TyModel>,
    b: Seq<TyModel>,
    base: nat,
    n: nat,
)
    requires
        n <= a.len(),
        n <= b.len(),
        forall|i: int| 0 <= i < n ==> a[i] == b[i],
    ensures
        lifted_fields(mem, a, base, n) == lifted_fields(mem, b, base, n),
    decreases n,
{
    if n > 0 {
        let m = (n - 1) as nat;
        lemma_lifted_front(mem, a, b, base, m);
        layout::law_fields_follow_one_another(a, m);
        layout::law_fields_follow_one_another(b, m);
        assert(a.take(m as int) =~= b.take(m as int));
        assert(a[m as int] == b[m as int]);
    }
}

/// Each value is received from its own slots: those of another type start behind the slots of the
/// types before it.
pub proof fn law_slots_follow_one_another(received: LiftedModel, i: nat)
    requires
        i < received.tys.len(),
    ensures
        received.slot(0) == 0,
        received.slot(i + 1) == received.slot(i) + received.tys[i as int].slots(),
{
}

} // verus!
