//! Lowering: moving values that the host provides into guest memory and core values.

use crate::layout;
use crate::layout::{align_up, Ty, TyModel};
use crate::store;
use crate::store::{Store, StoreModel};
use crate::value;
use crate::value::{read_word, CoreVal, F32Bits, Val, ValModel};
use vstd::prelude::*;

verus! {

/// How the host provides one value on the import side.
pub enum Source<'a> {
    /// The canonical bytes of a list, or of a single value.
    Flat(&'a [u8]),
    /// A dynamic value, walked element by element.
    Val(Val),
}

/// The mathematical value of a [`Source`].
pub enum Provided {
    Flat(Seq<u8>),
    Val(ValModel),
}

impl<'a> View for Source<'a> {
    type V = Provided;

    open spec fn view(&self) -> Provided {
        match self {
            Source::Flat(bytes) => Provided::Flat(bytes@),
            Source::Val(v) => Provided::Val(v@),
        }
    }
}

/// Guest memory and the core values so far, in the course of lowering.
#[verifier::ext_equal]
pub struct Lowered {
    pub store: StoreModel,
    pub core: Seq<CoreVal>,
}

/// The core values of the inline value whose image stands at `off`.
pub open spec fn flat_core(ty: TyModel, bytes: Seq<u8>, off: int) -> Seq<CoreVal>
    decreases ty, 0nat,
{
    match ty {
        TyModel::F32 => seq![CoreVal::F32(F32Bits { bits: value::word_at(bytes, off) })],
        TyModel::U32 | TyModel::Enum(_) => seq![CoreVal::I32(value::word_at(bytes, off) as i32)],
        TyModel::Record(fields) => fields_core(fields, bytes, off, fields.len()),
        _ => seq![],
    }
}

/// The core values of the first `n` fields of the record at `off`.
pub open spec fn fields_core(fields: Seq<TyModel>, bytes: Seq<u8>, off: int, n: nat) -> Seq<
    CoreVal,
>
    decreases fields, n,
{
    if n == 0 || n > fields.len() {
        seq![]
    } else {
        fields_core(fields, bytes, off, (n - 1) as nat) + flat_core(
            fields[n - 1],
            bytes,
            off + layout::field_offset(fields, (n - 1) as nat),
        )
    }
}

/// Memory after an inline value is stored at `off`.
pub open spec fn stored(mem: Seq<u8>, ty: TyModel, v: ValModel, off: int) -> Seq<u8>
    decreases ty, 0nat,
{
    match (ty, v) {
        (TyModel::F32, ValModel::F32(x)) => store::overwrite(mem, off, value::le_bytes(x.bits)),
        (TyModel::U32, ValModel::U32(x)) => store::overwrite(mem, off, value::le_bytes(x)),
        (TyModel::Enum(_), ValModel::Enum(d)) => store::overwrite(mem, off, value::le_bytes(d)),
        (TyModel::Record(fields), ValModel::Record(vals)) => stored_fields(
            mem,
            fields,
            vals,
            off,
            value::pairs(fields.len(), vals.len()),
        ),
        _ => mem,
    }
}

/// Memory after the first `n` fields of a record are stored, each at its own offset from `off`.
pub open spec fn stored_fields(
    mem: Seq<u8>,
    fields: Seq<TyModel>,
    vals: Seq<ValModel>,
    off: int,
    n: nat,
) -> Seq<u8>
    decreases fields, n,
{
    if n == 0 || n > fields.len() {
        mem
    } else {
        stored(
            stored_fields(mem, fields, vals, off, (n - 1) as nat),
            fields[n - 1],
            vals[n - 1],
            off + layout::field_offset(fields, (n - 1) as nat),
        )
    }
}

/// Memory after the first `n` items of a list are stored from `ptr` on.
pub open spec fn stored_items(
    mem: Seq<u8>,
    elem: TyModel,
    items: Seq<ValModel>,
    ptr: int,
    n: nat,
) -> Seq<u8>
    decreases n,
{
    if n == 0 || n > items.len() {
        mem
    } else {
        stored(
            stored_items(mem, elem, items, ptr, (n - 1) as nat),
            elem,
            items[n - 1],
            ptr + (n - 1) * elem.size(),
        )
    }
}

/// Storing changes bytes, not the size of memory.
pub proof fn lemma_stored_len(mem: Seq<u8>, ty: TyModel, v: ValModel, off: int)
    ensures
        stored(mem, ty, v, off).len() == mem.len(),
    decreases ty, 0nat,
{
    match (ty, v) {
        (TyModel::Record(fields), ValModel::Record(vals)) => {
            lemma_stored_fields_len(
                mem,
                fields,
                vals,
                off,
                value::pairs(fields.len(), vals.len()),
            );
        },
        _ => {},
    }
}

pub proof fn lemma_stored_fields_len(
    mem: Seq<u8>,
    fields: Seq<TyModel>,
    vals: Seq<ValModel>,
    off: int,
    n: nat,
)
    ensures
        stored_fields(mem, fields, vals, off, n).len() == mem.len(),
    decreases fields, n,
{
    if n == 0 || n > fields.len() {
    } else {
        lemma_stored_fields_len(mem, fields, vals, off, (n - 1) as nat);
        lemma_stored_len(
            stored_fields(mem, fields, vals, off, (n - 1) as nat),
            fields[n - 1],
            vals[n - 1],
            off + layout::field_offset(fields, (n - 1) as nat),
        );
    }
}

pub proof fn lemma_stored_items_len(
    mem: Seq<u8>,
    elem: TyModel,
    items: Seq<ValModel>,
    ptr: int,
    n: nat,
)
    ensures
        stored_items(mem, elem, items, ptr, n).len() == mem.len(),
    decreases n,
{
    if n == 0 || n > items.len() {
    } else {
        lemma_stored_items_len(mem, elem, items, ptr, (n - 1) as nat);
        lemma_stored_len(
            stored_items(mem, elem, items, ptr, (n - 1) as nat),
            elem,
            items[n - 1],
            ptr + (n - 1) * elem.size(),
        );
    }
}

impl Lowered {
    /// A (pointer, length) pair is appended to the core values.
    pub open spec fn push_list(self, ptr: nat, len: nat) -> Lowered {
        Lowered {
            store: self.store,
            core: self.core + seq![CoreVal::I32(ptr as i32), CoreVal::I32(len as i32)],
        }
    }

    /// A list image is copied into memory, and its pointer and length are passed on.
    pub open spec fn list_image(self, elem: TyModel, bytes: Seq<u8>) -> Lowered {
        Lowered { store: self.store.with(bytes, elem.align()), core: self.core }.push_list(
            self.store.slot(elem.align()),
            bytes.len() / elem.size(),
        )
    }

    /// A list image of `elem` elements can be copied into memory.
    pub open spec fn takes_list_image(self, elem: TyModel, len: nat) -> bool {
        &&& 0 < elem.size() <= usize::MAX
        &&& self.store.room(len, elem.align())
    }

    /// A dynamic value is lowered: scalars become core values, a list is stored in memory, a
    /// record is lowered field by field.
    pub open spec fn val(self, ty: TyModel, v: ValModel) -> Lowered
        decreases ty, 0nat,
    {
        match (ty, v) {
            (TyModel::F32, ValModel::F32(x)) => Lowered {
                store: self.store,
                core: self.core.push(CoreVal::F32(x)),
            },
            (TyModel::U32, ValModel::U32(x)) => Lowered {
                store: self.store,
                core: self.core.push(CoreVal::I32(x as i32)),
            },
            (TyModel::Enum(_), ValModel::Enum(d)) => Lowered {
                store: self.store,
                core: self.core.push(CoreVal::I32(d as i32)),
            },
            (TyModel::List(elem), ValModel::List(items)) => {
                let ptr = self.store.slot(elem.align());
                Lowered {
                    store: StoreModel {
                        mem: stored_items(self.store.mem, *elem, items, ptr as int, items.len()),
                        next: ptr + items.len() * elem.size(),
                    },
                    core: self.core,
                }.push_list(ptr, items.len())
            },
            (TyModel::Record(fields), ValModel::Record(vals)) => self.fields(
                fields,
                vals,
                value::pairs(fields.len(), vals.len()),
            ),
            _ => self,
        }
    }

    /// The first `n` fields of a record are lowered, one after the other.
    pub open spec fn fields(self, fields: Seq<TyModel>, vals: Seq<ValModel>, n: nat) -> Lowered
        decreases fields, n,
    {
        if n == 0 || n > fields.len() {
            self
        } else {
            self.fields(fields, vals, (n - 1) as nat).val(fields[n - 1], vals[n - 1])
        }
    }

    /// A dynamic value can be lowered: it has the shape of its type, and there is room for
    /// every list in it.
    pub open spec fn takes_val(self, ty: TyModel, v: ValModel) -> bool
        decreases ty, 0nat,
    {
        match (ty, v) {
            (TyModel::F32, ValModel::F32(_)) => true,
            (TyModel::U32, ValModel::U32(_)) => true,
            (TyModel::Enum(cases), ValModel::Enum(d)) => d < cases,
            (TyModel::List(elem), ValModel::List(items)) => {
                &&& elem.size() <= usize::MAX
                &&& self.store.room(items.len() * elem.size(), elem.align())
                &&& forall|k: int|
                    0 <= k < items.len() ==> value::encodable(*elem, #[trigger] items[k])
            },
            (TyModel::Record(fields), ValModel::Record(vals)) => self.takes_fields(
                fields,
                vals,
                value::pairs(fields.len(), vals.len()),
            ),
            _ => false,
        }
    }

    /// The first `n` fields of a record can be lowered, one after the other.
    pub open spec fn takes_fields(
        self,
        fields: Seq<TyModel>,
        vals: Seq<ValModel>,
        n: nat,
    ) -> bool
        decreases fields, n,
    {
        n == 0 || n > fields.len() || (self.takes_fields(fields, vals, (n - 1) as nat)
            && self.fields(fields, vals, (n - 1) as nat).takes_val(fields[n - 1], vals[n - 1]))
    }

    /// Pre-encoded bytes are lowered: a list image into memory, a single value straight into
    /// core values.
    pub open spec fn image(self, ty: TyModel, bytes: Seq<u8>) -> Lowered {
        match ty {
            TyModel::List(elem) => self.list_image(*elem, bytes),
            _ => Lowered { store: self.store, core: self.core + flat_core(ty, bytes, 0) },
        }
    }

    /// Pre-encoded bytes can be lowered.
    pub open spec fn takes_image(self, ty: TyModel, bytes: Seq<u8>) -> bool {
        match ty {
            TyModel::List(elem) => self.takes_list_image(*elem, bytes.len()),
            _ => ty.inline() && ty.size() <= bytes.len() && ty.size() <= usize::MAX,
        }
    }

    /// A provided value is lowered.
    pub open spec fn provided(self, ty: TyModel, src: Provided) -> Lowered {
        match src {
            Provided::Flat(bytes) => self.image(ty, bytes),
            Provided::Val(v) => self.val(ty, v),
        }
    }

    /// A provided value can be lowered.
    pub open spec fn takes(self, ty: TyModel, src: Provided) -> bool {
        match src {
            Provided::Flat(bytes) => self.takes_image(ty, bytes),
            Provided::Val(v) => self.takes_val(ty, v),
        }
    }
}

/// Bulk lower: copy an element image into freshly allocated memory in one go, and return where
/// it is and how many elements it has.
pub fn lower_flat(store: &mut Store, ty: &Ty, bytes: &[u8]) -> (r: (usize, usize))
    requires
        0 < ty@.elem().size() <= usize::MAX,
        old(store)@.room(bytes@.len(), ty@.elem().align()),
    ensures
        r.0 == old(store)@.slot(ty@.elem().align()),
        r.1 == bytes@.len() / ty@.elem().size(),
        final(store)@ == old(store)@.with(bytes@, ty@.elem().align()),
{
    proof {
        layout::lemma_words(ty@.elem());
        layout::lemma_small_powers();
        assert(bytes.len() == bytes@.len());
    }
    let count = bytes.len() / ty.elem_size();
    let align = ty.elem_align();
    proof {
        lemma_slot_mask(store@, align);
    }
    let ptr = store.realloc(bytes.len(), align);
    store.write(ptr, bytes);
    (ptr, count)
}

/// For the alignments that occur, the masked and the arithmetic form of a slot agree.
pub proof fn lemma_slot_mask(s: StoreModel, align: usize)
    requires
        align == 1 || align == 4,
        s.next + align - 1 <= usize::MAX,
    ensures
        ((s.next + align - 1) as usize & !((align - 1) as usize)) == s.slot(align as nat),
{
    layout::lemma_small_powers();
    layout::lemma_mask_rounds(s.next as usize, align);
}

/// Where a value that is read or stored at `off` comes to stand: a record starts at the next
/// place that is aligned for it.
pub open spec fn landing(off: nat, ty: TyModel) -> nat {
    if ty is Record {
        layout::round_up(off, ty.align())
    } else {
        off
    }
}

/// A type that takes no room has no core values.
proof fn lemma_flat_core_nothing(ty: TyModel, bytes: Seq<u8>, off: int)
    requires
        ty.size() == 0,
    ensures
        flat_core(ty, bytes, off) == Seq::<CoreVal>::empty(),
    decreases ty, 0nat,
{
    if let TyModel::Record(fields) = ty {
        layout::lemma_fields_words(fields, fields.len());
        lemma_fields_core_nothing(fields, bytes, off, fields.len());
    }
}

proof fn lemma_fields_core_nothing(fields: Seq<TyModel>, bytes: Seq<u8>, off: int, n: nat)
    requires
        n <= fields.len(),
        layout::fields_end(fields, n) == 0,
    ensures
        fields_core(fields, bytes, off, n) == Seq::<CoreVal>::empty(),
    decreases fields, n,
{
    if n > 0 {
        layout::lemma_fields_words(fields, n);
        lemma_fields_core_nothing(fields, bytes, off, (n - 1) as nat);
        lemma_flat_core_nothing(
            fields[n - 1],
            bytes,
            off + layout::field_offset(fields, (n - 1) as nat),
        );
    }
}

/// A type that takes no room leaves memory as it is.
proof fn lemma_stored_nothing(mem: Seq<u8>, ty: TyModel, v: ValModel, off: int)
    requires
        ty.size() == 0,
    ensures
        stored(mem, ty, v, off) == mem,
    decreases ty, 0nat,
{
    if let (TyModel::Record(fields), ValModel::Record(vals)) = (ty, v) {
        let n = value::pairs(fields.len(), vals.len());
        layout::lemma_fields_words(fields, fields.len());
        layout::lemma_fields_end_monotone(fields, n, fields.len());
        lemma_stored_fields_nothing(mem, fields, vals, off, n);
    }
}

proof fn lemma_stored_fields_nothing(
    mem: Seq<u8>,
    fields: Seq<TyModel>,
    vals: Seq<ValModel>,
    off: int,
    n: nat,
)
    requires
        n <= fields.len(),
        layout::fields_end(fields, n) == 0,
    ensures
        stored_fields(mem, fields, vals, off, n) == mem,
    decreases fields, n,
{
    if n > 0 {
        layout::lemma_fields_words(fields, n);
        lemma_stored_fields_nothing(mem, fields, vals, off, (n - 1) as nat);
        lemma_stored_nothing(
            mem,
            fields[n - 1],
            vals[n - 1],
            off + layout::field_offset(fields, (n - 1) as nat),
        );
    }
}

/// Where the walk over the fields of a record stands after `i` of them: at `off` until there is
/// something to place, and behind the first `i` fields from then on.
spec fn walked(off: nat, fields: Seq<TyModel>, i: nat) -> nat {
    if layout::fields_end(fields, i) == 0 {
        off
    } else {
        landing(off, TyModel::Record(fields)) + layout::fields_end(fields, i)
    }
}

/// Aligning the walk for the next field brings it to that field, and cannot overflow.
proof fn lemma_walk(off: usize, fields: Seq<TyModel>, i: nat, o: usize)
    requires
        i < fields.len(),
        o == walked(off as nat, fields, i),
        TyModel::Record(fields).size() > 0 ==> landing(off as nat, TyModel::Record(fields))
            + TyModel::Record(fields).size() <= usize::MAX,
    ensures
        layout::power_of_two(fields[i as int].align()),
        fields[i as int].align() > 0,
        o + fields[i as int].align() - 1 <= usize::MAX,
        ({
            let base = landing(off as nat, TyModel::Record(fields));
            let at = layout::round_up(o as nat, fields[i as int].align());
            &&& layout::fields_end(fields, i + 1) <= TyModel::Record(fields).size()
            &&& landing(at, fields[i as int]) == at
            &&& fields[i as int].size() == 0 ==> at == o
            &&& fields[i as int].size() > 0 ==> at == base + layout::field_offset(fields, i)
            &&& at + fields[i as int].size() == walked(off as nat, fields, i + 1)
        }),
{
    let ty = TyModel::Record(fields);
    layout::lemma_field_within(fields, i);
    layout::lemma_fields_words(fields, i);
    layout::lemma_fields_words(fields, i + 1);
    layout::lemma_words(fields[i as int]);
    layout::lemma_words(ty);
    layout::lemma_small_powers();
    layout::lemma_round_up(off as nat, 4);
    layout::lemma_round_up(off as nat, 1);
    layout::lemma_round_up(o as nat, 4);
    layout::lemma_round_up(o as nat, 1);
    let at = layout::round_up(o as nat, fields[i as int].align());
    layout::lemma_round_up(at, 4);
    layout::lemma_round_up(at, 1);
    assert(usize::MAX % 4 == 3);
}

/// Read the image of a single value out of `bytes` at `off`, flattening it into core values, and
/// return the offset just past it.
#[verifier::rlimit(60)]
#[verifier::spinoff_prover]
pub fn flatten_image(ty: &Ty, bytes: &[u8], off: usize, core: &mut Vec<CoreVal>) -> (r: usize)
    requires
        ty@.inline(),
        ty@.size() > 0 ==> landing(off as nat, ty@) + ty@.size() <= bytes@.len(),
    ensures
        r == landing(off as nat, ty@) + ty@.size(),
        final(core)@ == old(core)@ + flat_core(ty@, bytes@, landing(off as nat, ty@) as int),
    decreases ty,
{
    assert(bytes.len() == bytes@.len());
    match ty {
        Ty::F32 => {
            core.push(CoreVal::F32(F32Bits { bits: read_word(bytes, off) }));
            assert(core@ =~= old(core)@ + flat_core(ty@, bytes@, off as int));
            off + 4
        },
        Ty::U32 | Ty::Enum(_) => {
            core.push(CoreVal::I32(read_word(bytes, off) as i32));
            assert(core@ =~= old(core)@ + flat_core(ty@, bytes@, off as int));
            off + 4
        },
        Ty::Record(fields) => {
            let ghost model = layout::models(fields@);
            let ghost base: int = landing(off as nat, ty@) as int;
            proof {
                layout::lemma_models(fields@);
            }
            let mut o: usize = off;
            let mut i: usize = 0;
            while i < fields.len()
                invariant
                    i <= fields@.len(),
                    *ty matches Ty::Record(f) && f == *fields,
                    ty@ == TyModel::Record(model),
                    model == layout::models(fields@),
                    model.len() == fields@.len(),
                    ty@.inline(),
                    base == landing(off as nat, ty@) as int,
                    ty@.size() > 0 ==> base + ty@.size() <= bytes@.len(),
                    bytes@.len() <= usize::MAX,
                    o == walked(off as nat, model, i as nat),
                    core@ == old(core)@ + fields_core(model, bytes@, base, i as nat),
                decreases fields@.len() - i,
            {
                assert(decreases_to!(ty => fields@[i as int]));
                let ghost before = core@;
                proof {
                    layout::lemma_models(fields@);
                    lemma_walk(off, model, i as nat, o);
                    layout::lemma_all_inline(model, model.len());
                    assert(model[i as int].inline());
                    layout::lemma_field_within(model, i as nat);
                    if model[i as int].size() == 0 {
                        lemma_flat_core_nothing(
                            model[i as int],
                            bytes@,
                            base + layout::field_offset(model, i as nat),
                        );
                        lemma_flat_core_nothing(model[i as int], bytes@, o as int);
                    }
                }
                o = align_up(o, fields[i].align());
                o = flatten_image(&fields[i], bytes, o, core);
                i += 1;
                assert(core@ =~= before + flat_core(
                    model[i - 1],
                    bytes@,
                    base + layout::field_offset(model, (i - 1) as nat),
                ));
                assert(core@ =~= old(core)@ + fields_core(model, bytes@, base, i as nat));
            }
            proof {
                layout::lemma_words(ty@);
                layout::lemma_fields_words(model, model.len());
                layout::lemma_small_powers();
                layout::lemma_round_up(off as nat, 4);
                layout::lemma_round_up(off as nat, 1);
                layout::lemma_round_up(o as nat, 4);
                layout::lemma_round_up(o as nat, 1);
                assert(usize::MAX % 4 == 3);
            }
            align_up(o, ty.align())
        },
        Ty::List(_) | Ty::String | Ty::Handle => vstd::pervasive::unreached(),
    }
}

/// `off` is a place where a value of type `t` may stand: a word boundary, unless the type takes
/// no room.
pub open spec fn aligned_for(off: nat, t: TyModel) -> bool {
    t.align() == 1 || off % 4 == 0
}

/// An offset that is aligned for a type stays where it is, and rounding it cannot overflow.
pub proof fn lemma_aligned(o: usize, t: TyModel)
    requires
        aligned_for(o as nat, t),
    ensures
        t.align() > 0,
        layout::power_of_two(t.align()),
        o + t.align() - 1 <= usize::MAX,
        layout::round_up(o as nat, t.align()) == o,
{
    layout::lemma_words(t);
    layout::lemma_small_powers();
    layout::lemma_round_up(o as nat, 4);
    layout::lemma_round_up(o as nat, 1);
    assert(usize::MAX % 4 == 3);
}

/// Store one inline value at `off`, field by field.
#[verifier::rlimit(60)]
pub fn store_scalar_or_record(store: &mut Store, ty: &Ty, val: &Val, off: usize)
    requires
        value::encodable(ty@, val@),
        ty@.size() > 0 ==> landing(off as nat, ty@) + ty@.size() <= old(store)@.mem.len(),
    ensures
        final(store)@.mem == stored(
            old(store)@.mem,
            ty@,
            val@,
            landing(off as nat, ty@) as int,
        ),
        final(store)@.next == old(store)@.next,
    decreases ty,
{
    proof {
        store::lemma_mem_fits(*store);
    }
    match (ty, val) {
        (Ty::F32, Val::F32(x)) => store.write_f32(off, *x),
        (Ty::U32, Val::U32(x)) => store.write_u32(off, *x),
        (Ty::Enum(_), Val::Enum(d)) => store.write_u32(off, *d),
        (Ty::Record(fields), Val::Record(vals)) => {
            let ghost fs = layout::models(fields@);
            let ghost vs = value::models(vals@);
            let ghost base: int = landing(off as nat, ty@) as int;
            let n = if fields.len() < vals.len() {
                fields.len()
            } else {
                vals.len()
            };
            proof {
                layout::lemma_models(fields@);
                value::lemma_models(vals@);
            }
            let mut o: usize = off;
            let mut i: usize = 0;
            while i < n
                invariant
                    i <= n,
                    n <= fields@.len(),
                    n <= vals@.len(),
                    *ty matches Ty::Record(f) && f == *fields,
                    ty@ == TyModel::Record(fs),
                    fs == layout::models(fields@),
                    fs.len() == fields@.len(),
                    vs == value::models(vals@),
                    vs.len() == vals@.len(),
                    value::all_encodable(fs, vs, n as nat),
                    base == landing(off as nat, ty@) as int,
                    ty@.size() > 0 ==> base + ty@.size() <= old(store)@.mem.len(),
                    old(store)@.mem.len() <= usize::MAX,
                    o == walked(off as nat, fs, i as nat),
                    store@.mem == stored_fields(old(store)@.mem, fs, vs, base, i as nat),
                    store@.next == old(store)@.next,
                decreases n - i,
            {
                assert(decreases_to!(ty => fields@[i as int]));
                proof {
                    layout::lemma_models(fields@);
                    value::lemma_models(vals@);
                    lemma_walk(off, fs, i as nat, o);
                    layout::lemma_field_within(fs, i as nat);
                    value::lemma_all_encodable(fs, vs, n as nat, i as nat);
                    lemma_stored_fields_len(old(store)@.mem, fs, vs, base, i as nat);
                    if fs[i as int].size() == 0 {
                        lemma_stored_nothing(store@.mem, fs[i as int], vs[i as int], o as int);
                        lemma_stored_nothing(
                            store@.mem,
                            fs[i as int],
                            vs[i as int],
                            base + layout::field_offset(fs, i as nat),
                        );
                    }
                }
                o = align_up(o, fields[i].align());
                store_scalar_or_record(store, &fields[i], &vals[i], o);
                o = o + fields[i].size();
                i += 1;
            }
        },
        _ => vstd::pervasive::unreached(),
    }
}

/// Lower a dynamic value by walking it element by element.
pub fn lower_val(store: &mut Store, ty: &Ty, val: &Val, core: &mut Vec<CoreVal>)
    requires
        (Lowered { store: old(store)@, core: old(core)@ }).takes_val(ty@, val@),
    ensures
        (Lowered { store: final(store)@, core: final(core)@ }) == (Lowered {
            store: old(store)@,
            core: old(core)@,
        }).val(ty@, val@),
    decreases ty,
{
    let ghost start = Lowered { store: store@, core: core@ };
    match (ty, val) {
        (Ty::F32, Val::F32(x)) => core.push(CoreVal::F32(*x)),
        (Ty::U32, Val::U32(x)) => core.push(CoreVal::I32(#[verifier::truncate] (*x as i32))),
        (Ty::Enum(_), Val::Enum(d)) => core.push(CoreVal::I32(#[verifier::truncate] (*d as i32))),
        (Ty::List(elem), Val::List(items)) => {
            let ghost vs = value::models(items@);
            proof {
                value::lemma_models(items@);
                layout::lemma_words(elem@);
                layout::lemma_small_powers();
                store::lemma_mem_fits(*store);
                assert(items.len() == items@.len());
            }
            let stride = elem.size();
            let align = elem.align();
            proof {
                lemma_slot_mask(store@, align);
                layout::lemma_round_up(store@.next, align as nat);
            }
            let ptr = store.realloc(items.len() * stride, align);
            let mut off: usize = ptr;
            let mut i: usize = 0;
            while i < items.len()
                invariant
                    i <= items@.len(),
                    vs == value::models(items@),
                    vs.len() == items@.len(),
                    stride == elem@.size(),
                    stride % 4 == 0,
                    aligned_for(ptr as nat, elem@),
                    ptr + items@.len() * stride <= start.store.mem.len(),
                    start.store.mem.len() <= usize::MAX,
                    off == ptr + i * stride,
                    forall|k: int| 0 <= k < vs.len() ==> value::encodable(elem@, #[trigger] vs[k]),
                    core@ == start.core,
                    store@.next == ptr + items@.len() * stride,
                    store@.mem == stored_items(start.store.mem, elem@, vs, ptr as int, i as nat),
                decreases items@.len() - i,
            {
                proof {
                    value::lemma_models(items@);
                    lemma_item_within(items@.len(), i as nat, stride as nat);
                    layout::lemma_words(elem@);
                    lemma_stored_items_len(start.store.mem, elem@, vs, ptr as int, i as nat);
                    lemma_aligned(off, elem@);
                    assert(vs[i as int] == items@[i as int]@);
                }
                store_scalar_or_record(store, elem, &items[i], off);
                off = off + stride;
                i += 1;
            }
            core.push(CoreVal::I32(ptr as i32));
            core.push(CoreVal::I32(items.len() as i32));
            assert(core@ =~= start.core + seq![
                CoreVal::I32(ptr as i32),
                CoreVal::I32(vs.len() as i32),
            ]);
        },
        (Ty::Record(fields), Val::Record(vals)) => {
            let ghost fs = layout::models(fields@);
            let ghost vs = value::models(vals@);
            let n = if fields.len() < vals.len() {
                fields.len()
            } else {
                vals.len()
            };
            proof {
                layout::lemma_models(fields@);
                value::lemma_models(vals@);
            }
            let mut i: usize = 0;
            while i < n
                invariant
                    i <= n,
                    n <= fields@.len(),
                    n <= vals@.len(),
                    *ty matches Ty::Record(f) && f == *fields,
                    fs == layout::models(fields@),
                    fs.len() == fields@.len(),
                    vs == value::models(vals@),
                    vs.len() == vals@.len(),
                    start.takes_fields(fs, vs, n as nat),
                    (Lowered { store: store@, core: core@ }) == start.fields(fs, vs, i as nat),
                decreases n - i,
            {
                assert(decreases_to!(ty => fields@[i as int]));
                proof {
                    layout::lemma_models(fields@);
                    value::lemma_models(vals@);
                    start.lemma_takes_fields(fs, vs, n as nat, i as nat);
                }
                lower_val(store, &fields[i], &vals[i], core);
                i += 1;
            }
        },
        _ => vstd::pervasive::unreached(),
    }
}

impl Lowered {
    proof fn lemma_takes_fields(
        self,
        fields: Seq<TyModel>,
        vals: Seq<ValModel>,
        n: nat,
        i: nat,
    )
        requires
            i < n <= fields.len(),
            self.takes_fields(fields, vals, n),
        ensures
            self.fields(fields, vals, i).takes_val(fields[i as int], vals[i as int]),
        decreases n,
    {
        if i < n - 1 {
            self.lemma_takes_fields(fields, vals, (n - 1) as nat, i);
        }
    }
}

proof fn lemma_item_within(len: nat, i: nat, stride: nat)
    requires
        i < len,
        stride % 4 == 0,
    ensures
        i * stride + stride <= len * stride,
        (i + 1) * stride == i * stride + stride,
        (i * stride) % 4 == 0,
{
    assert((i + 1) * stride == i * stride + stride) by (nonlinear_arith);
    assert((i + 1) * stride <= len * stride) by (nonlinear_arith)
        requires
            i + 1 <= len,
    ;
    let q = stride / 4;
    assert(i * stride == 4 * (i * q)) by (nonlinear_arith)
        requires
            stride == 4 * q,
    ;
}

/// Lower pre-encoded canonical bytes, without building a dynamic value.
fn lower_flat_image(store: &mut Store, ty: &Ty, bytes: &[u8], core: &mut Vec<CoreVal>)
    requires
        (Lowered { store: old(store)@, core: old(core)@ }).takes_image(ty@, bytes@),
    ensures
        (Lowered { store: final(store)@, core: final(core)@ }) == (Lowered {
            store: old(store)@,
            core: old(core)@,
        }).image(ty@, bytes@),
{
    match ty {
        Ty::List(_) => {
            let (ptr, len) = lower_flat(store, ty, bytes);
            core.push(CoreVal::I32(ptr as i32));
            core.push(CoreVal::I32(len as i32));
            assert(core@ =~= old(core)@ + seq![
                CoreVal::I32(ptr as i32),
                CoreVal::I32(len as i32),
            ]);
        },
        _ => {
            proof {
                layout::lemma_round_up(0, 4);
                layout::lemma_round_up(0, 1);
                layout::lemma_words(ty@);
            }
            flatten_image(ty, bytes, 0, core);
        },
    }
}

/// Lower one provided value, and return its core values: the one way in for everything that
/// the host provides on the import side.
pub fn lower_source(store: &mut Store, ty: &Ty, src: Source<'_>) -> (r: Vec<CoreVal>)
    requires
        (Lowered { store: old(store)@, core: seq![] }).takes(ty@, src@),
    ensures
        (Lowered { store: final(store)@, core: r@ }) == (Lowered {
            store: old(store)@,
            core: seq![],
        }).provided(ty@, src@),
{
    let mut core: Vec<CoreVal> = Vec::new();
    match src {
        Source::Flat(bytes) => lower_flat_image(store, ty, bytes, &mut core),
        Source::Val(v) => lower_val(store, ty, &v, &mut core),
    }
    core
}

/// An image is flattened word by word: a number or a discriminant is one core value with its bits,
/// and a record passes those of its fields, one after the other, each from where those before it
/// end.
pub proof fn law_images_are_flattened_by_field(
    fields: Seq<TyModel>,
    t: TyModel,
    bytes: Seq<u8>,
    off: int,
    cases: u32,
)
    ensures
        flat_core(TyModel::F32, bytes, off) == seq![
            CoreVal::F32(F32Bits { bits: value::word_at(bytes, off) }),
        ],
        flat_core(TyModel::U32, bytes, off) == seq![
            CoreVal::I32(value::word_at(bytes, off) as i32),
        ],
        flat_core(TyModel::Enum(cases), bytes, off) == flat_core(TyModel::U32, bytes, off),
        flat_core(TyModel::Record(seq![]), bytes, off) == Seq::<CoreVal>::empty(),
        flat_core(TyModel::Record(fields.push(t)), bytes, off) == flat_core(
            TyModel::Record(fields),
            bytes,
            off,
        ) + flat_core(t, bytes, off + TyModel::Record(fields).size()),
{
    let more = fields.push(t);
    let n = fields.len();
    layout::law_records_are_laid_out_by_field(fields, t);
    lemma_core_front(fields, more, bytes, off, n);
    assert(fields_core(seq![], bytes, off, 0) =~= seq![]);
    assert(fields_core(more, bytes, off, n + 1) == fields_core(more, bytes, off, n) + flat_core(
        t,
        bytes,
        off + layout::field_offset(more, n),
    ));
}

proof fn lemma_core_front(
    a: Seq<TyModel>,
    b: Seq<TyModel>,
    bytes: Seq<u8>,
    off: int,
    n: nat,
)
    requires
        n <= a.len(),
        n <= b.len(),
        forall|i: int| 0 <= i < n ==> a[i] == b[i],
    ensures
        fields_core(a, bytes, off, n) == fields_core(b, bytes, off, n),
    decreases n,
{
    if n > 0 {
        let m = (n - 1) as nat;
        lemma_core_front(a, b, bytes, off, m);
        layout::law_fields_follow_one_another(a, m);
        layout::law_fields_follow_one_another(b, m);
        assert(a.take(m as int) =~= b.take(m as int));
        assert(a[m as int] == b[m as int]);
    }
}

/// A list is lowered to where it is and how many elements it has: its bytes stand at the pointer,
/// the length times the size of an element is their number, and all that was passed before is
/// left as it was.
pub proof fn law_lists_are_lowered_to_their_place(before: Lowered, elem: TyModel, bytes: Seq<u8>)
    requires
        elem.size() > 0,
        bytes.len() % elem.size() == 0,
        before.store.room(bytes.len(), elem.align()),
        before.store.mem.len() <= i32::MAX,
    ensures
        ({
            let after = before.image(TyModel::List(Box::new(elem)), bytes);
            let n = before.core.len() as int;
            &&& after.core.len() == n + 2
            &&& after.core.take(n) == before.core
            &&& after.core[n] matches CoreVal::I32(ptr) && before.store.next <= ptr && ptr
                + bytes.len() == after.store.next && after.store.mem.subrange(
                ptr as int,
                ptr + bytes.len(),
            ) == bytes
            &&& after.core[n + 1] matches CoreVal::I32(len) && len * elem.size() == bytes.len()
        }),
{
    let after = before.image(TyModel::List(Box::new(elem)), bytes);
    let n = before.core.len() as int;
    layout::lemma_words(elem);
    layout::lemma_round_up(before.store.next, elem.align());
    let size = elem.size() as int;
    let len = bytes.len() as int / size;
    vstd::arithmetic::div_mod::lemma_fundamental_div_mod(bytes.len() as int, size);
    assert(len * size == size * len) by (nonlinear_arith);
    assert(0 <= len <= bytes.len()) by (nonlinear_arith)
        requires
            size > 0,
            size * len == bytes.len(),
    ;
    let ptr = before.store.slot(elem.align()) as int;
    store::law_writes_change_only_their_place(before.store.mem, ptr, bytes, 0);
    assert(after.core.take(n) =~= before.core);
}

/// A record is stored, and lowered, field by field: another field is stored where those before it
/// end, and lowered after them. Surplus values and fields are left aside.
pub proof fn law_records_are_lowered_by_field(
    start: Lowered,
    fields: Seq<TyModel>,
    vals: Seq<ValModel>,
    t: TyModel,
    v: ValModel,
    off: int,
)
    ensures
        fields.len() == vals.len() ==> stored(
            start.store.mem,
            TyModel::Record(fields.push(t)),
            ValModel::Record(vals.push(v)),
            off,
        ) == stored(
            stored(start.store.mem, TyModel::Record(fields), ValModel::Record(vals), off),
            t,
            v,
            off + TyModel::Record(fields).size(),
        ),
        fields.len() == vals.len() ==> start.val(
            TyModel::Record(fields.push(t)),
            ValModel::Record(vals.push(v)),
        ) == start.val(TyModel::Record(fields), ValModel::Record(vals)).val(t, v),
        fields.len() <= vals.len() ==> stored(
            start.store.mem,
            TyModel::Record(fields),
            ValModel::Record(vals.push(v)),
            off,
        ) == stored(start.store.mem, TyModel::Record(fields), ValModel::Record(vals), off)
            && start.val(TyModel::Record(fields), ValModel::Record(vals.push(v))) == start.val(
            TyModel::Record(fields),
            ValModel::Record(vals),
        ),
        vals.len() <= fields.len() ==> stored(
            start.store.mem,
            TyModel::Record(fields.push(t)),
            ValModel::Record(vals),
            off,
        ) == stored(start.store.mem, TyModel::Record(fields), ValModel::Record(vals), off)
            && start.val(TyModel::Record(fields.push(t)), ValModel::Record(vals)) == start.val(
            TyModel::Record(fields),
            ValModel::Record(vals),
        ),
{
    let n = value::pairs(fields.len(), vals.len());
    let (more, others) = (fields.push(t), vals.push(v));
    layout::law_records_are_laid_out_by_field(fields, t);
    lemma_lowered_front(start, fields, vals, more, others, off, n);
    lemma_lowered_front(start, fields, vals, fields, others, off, n);
    lemma_lowered_front(start, fields, vals, more, vals, off, n);
}

proof fn lemma_lowered_front(
    start: Lowered,
    a: Seq<TyModel>,
    x: Seq<ValModel>,
    b: Seq<TyModel>,
    y: Seq<ValModel>,
    off: int,
    n: nat,
)
    requires
        n <= a.len() && n <= x.len(),
        n <= b.len() && n <= y.len(),
        forall|i: int| 0 <= i < n ==> a[i] == b[i],
        forall|i: int| 0 <= i < n ==> x[i] == y[i],
    ensures
        stored_fields(start.store.mem, a, x, off, n) == stored_fields(
            start.store.mem,
            b,
            y,
            off,
            n,
        ),
        start.fields(a, x, n) == start.fields(b, y, n),
    decreases n,
{
    if n > 0 {
        let m = (n - 1) as nat;
        lemma_lowered_front(start, a, x, b, y, off, m);
        layout::law_fields_follow_one_another(a, m);
        layout::law_fields_follow_one_another(b, m);
        assert(a.take(m as int) =~= b.take(m as int));
        assert(a[m as int] == b[m as int] && x[m as int] == y[m as int]);
    }
}

} // verus!
