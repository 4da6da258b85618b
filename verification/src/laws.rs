//! What holds of the transfer surfaces as a whole.

use crate::arena;
use crate::call;
use crate::guest;
use crate::guest::Handed;
use crate::guests;
use crate::guests::SumWords;
use crate::layout;
use crate::layout::TyModel;
use crate::lift;
use crate::lift::LiftedModel;
use crate::lower;
use crate::lower::{Lowered, Provided};
use crate::shape;
use crate::shape::{Error, SpecModel};
use crate::source;
use crate::source::SourceModel;
use crate::store;
use crate::store::StoreModel;
use crate::stream;
use crate::validity;
use crate::validity::Validated;
use crate::value;
use crate::value::{CoreVal, ValModel};
use vstd::prelude::*;

verus! {

// ---------------------------------------------------------------------------------------
// Single values.
// ---------------------------------------------------------------------------------------

proof fn lemma_overwrite_nothing(mem: Seq<u8>, at: int)
    ensures
        store::overwrite(mem, at, seq![]) == mem,
{
    assert(store::overwrite(mem, at, seq![]) =~= mem);
}

proof fn lemma_overwrite_more(mem: Seq<u8>, at: int, a: Seq<u8>, b: Seq<u8>)
    ensures
        store::overwrite(store::overwrite(mem, at, a), at + a.len(), b) == store::overwrite(
            mem,
            at,
            a + b,
        ),
{
    assert(store::overwrite(store::overwrite(mem, at, a), at + a.len(), b) =~= store::overwrite(
        mem,
        at,
        a + b,
    ));
}

/// Storing a value field by field writes exactly its canonical image.
pub proof fn law_storing_writes_the_image(mem: Seq<u8>, ty: TyModel, v: ValModel, off: int)
    requires
        value::fits(ty, v),
    ensures
        lower::stored(mem, ty, v, off) == store::overwrite(mem, off, value::encode(ty, v)),
    decreases ty, 0nat,
{
    match (ty, v) {
        (TyModel::Record(fields), ValModel::Record(vals)) => {
            lemma_storing_fields(mem, fields, vals, off, fields.len());
            value::lemma_encode_words(ty, v);
        },
        _ => {},
    }
}

proof fn lemma_storing_fields(
    mem: Seq<u8>,
    fields: Seq<TyModel>,
    vals: Seq<ValModel>,
    off: int,
    n: nat,
)
    requires
        n <= fields.len(),
        value::all_fit(fields, vals, n),
    ensures
        lower::stored_fields(mem, fields, vals, off, n) == store::overwrite(
            mem,
            off,
            value::encode_fields(fields, vals, n),
        ),
    decreases fields, n,
{
    if n == 0 {
        lemma_overwrite_nothing(mem, off);
    } else {
        let before = value::encode_fields(fields, vals, (n - 1) as nat);
        lemma_storing_fields(mem, fields, vals, off, (n - 1) as nat);
        law_storing_writes_the_image(
            store::overwrite(mem, off, before),
            fields[n - 1],
            vals[n - 1],
            off + layout::field_offset(fields, (n - 1) as nat),
        );
        value::lemma_encode_fields_size(fields, vals, (n - 1) as nat);
        value::lemma_encode_fields_words(fields, vals, n);
        layout::lemma_fields_words(fields, n);
        lemma_overwrite_more(mem, off, before, value::encode(fields[n - 1], vals[n - 1]));
    }
}

/// `image` stands at `at`.
pub open spec fn stands_at(mem: Seq<u8>, at: int, image: Seq<u8>) -> bool {
    0 <= at && at + image.len() <= mem.len() && mem.subrange(at, at + image.len()) == image
}

proof fn lemma_stands_part(mem: Seq<u8>, at: int, a: Seq<u8>, b: Seq<u8>)
    requires
        stands_at(mem, at, a + b),
    ensures
        stands_at(mem, at, a),
        stands_at(mem, at + a.len(), b),
{
    let whole = mem.subrange(at, at + (a + b).len());
    assert(a =~= whole.subrange(0, a.len() as int));
    assert(b =~= whole.subrange(a.len() as int, (a + b).len() as int));
    assert(mem.subrange(at, at + a.len()) =~= whole.subrange(0, a.len() as int));
    assert(mem.subrange(at + a.len(), at + a.len() + b.len()) =~= whole.subrange(
        a.len() as int,
        (a + b).len() as int,
    ));
}

proof fn lemma_word_stands(mem: Seq<u8>, at: int, x: u32)
    requires
        stands_at(mem, at, value::le_bytes(x)),
    ensures
        value::word_at(mem, at) == x,
{
    let image = mem.subrange(at, at + 4);
    value::lemma_word_of_bytes(x);
    value::lemma_word_same(mem, at, image, 0);
}

/// Lifting reads back the value whose canonical image stands in memory.
pub proof fn law_lifting_reads_the_image(mem: Seq<u8>, ty: TyModel, v: ValModel, off: nat)
    requires
        value::fits(ty, v),
        off % 4 == 0,
        stands_at(mem, off as int, value::encode(ty, v)),
    ensures
        lift::lifted(mem, ty, off) == v,
    decreases ty, 0nat,
{
    match (ty, v) {
        (TyModel::F32, ValModel::F32(x)) => {
            lemma_word_stands(mem, off as int, x.bits);
        },
        (TyModel::U32, ValModel::U32(x)) => {
            lemma_word_stands(mem, off as int, x);
        },
        (TyModel::Enum(_), ValModel::Enum(d)) => {
            lemma_word_stands(mem, off as int, d);
        },
        (TyModel::Record(fields), ValModel::Record(vals)) => {
            value::lemma_encode_words(ty, v);
            layout::lemma_fields_words(fields, fields.len());
            layout::lemma_round_up(off, 4);
            layout::lemma_round_up(off, 1);
            lemma_lifting_fields(mem, fields, vals, off, fields.len());
            assert(vals.take(fields.len() as int) =~= vals);
        },
        _ => {},
    }
}

proof fn lemma_lifting_fields(
    mem: Seq<u8>,
    fields: Seq<TyModel>,
    vals: Seq<ValModel>,
    off: nat,
    n: nat,
)
    requires
        n <= fields.len(),
        n <= vals.len(),
        value::all_fit(fields, vals, n),
        off % 4 == 0,
        stands_at(mem, off as int, value::encode_fields(fields, vals, n)),
    ensures
        lift::lifted_fields(mem, fields, off, n) == vals.take(n as int),
    decreases fields, n,
{
    if n == 0 {
        assert(vals.take(0) =~= seq![]);
    } else {
        let before = value::encode_fields(fields, vals, (n - 1) as nat);
        value::lemma_encode_fields_words(fields, vals, n);
        value::lemma_encode_fields_size(fields, vals, (n - 1) as nat);
        layout::lemma_fields_words(fields, n);
        layout::lemma_fields_words(fields, (n - 1) as nat);
        lemma_stands_part(mem, off as int, before, value::encode(fields[n - 1], vals[n - 1]));
        lemma_lifting_fields(mem, fields, vals, off, (n - 1) as nat);
        law_lifting_reads_the_image(
            mem,
            fields[n - 1],
            vals[n - 1],
            off + layout::field_offset(fields, (n - 1) as nat),
        );
        assert(vals.take(n as int) =~= vals.take(n - 1).push(vals[n - 1]));
    }
}

/// What was stored is what is lifted: reading gives back what was written.
pub proof fn law_lift_undoes_store(mem: Seq<u8>, ty: TyModel, v: ValModel, off: nat)
    requires
        value::fits(ty, v),
        off % 4 == 0,
        off + ty.size() <= mem.len(),
    ensures
        lift::lifted(lower::stored(mem, ty, v, off as int), ty, off) == v,
{
    law_storing_writes_the_image(mem, ty, v, off as int);
    value::lemma_encode_size(ty, v);
    let after = store::overwrite(mem, off as int, value::encode(ty, v));
    assert(after.subrange(off as int, off + value::encode(ty, v).len() as int) =~= value::encode(
        ty,
        v,
    ));
    law_lifting_reads_the_image(after, ty, v, off);
}

/// The canonical image of a value is always valid.
pub proof fn law_images_are_valid(ty: TyModel, v: ValModel, bytes: Seq<u8>, at: int)
    requires
        value::fits(ty, v),
        stands_at(bytes, at, value::encode(ty, v)),
    ensures
        ty.inline(),
        validity::valid_at(ty, bytes, at),
    decreases ty, 0nat,
{
    match (ty, v) {
        (TyModel::Enum(_), ValModel::Enum(d)) => {
            lemma_word_stands(bytes, at, d);
        },
        (TyModel::Record(fields), ValModel::Record(vals)) => {
            value::lemma_encode_words(ty, v);
            lemma_field_images_are_valid(fields, vals, bytes, at, fields.len());
        },
        _ => {},
    }
}

proof fn lemma_field_images_are_valid(
    fields: Seq<TyModel>,
    vals: Seq<ValModel>,
    bytes: Seq<u8>,
    at: int,
    n: nat,
)
    requires
        n <= fields.len(),
        value::all_fit(fields, vals, n),
        stands_at(bytes, at, value::encode_fields(fields, vals, n)),
    ensures
        layout::all_inline(fields, n),
        validity::fields_valid_at(fields, bytes, at, n),
    decreases fields, n,
{
    if n > 0 {
        let before = value::encode_fields(fields, vals, (n - 1) as nat);
        value::lemma_encode_fields_words(fields, vals, n);
        value::lemma_encode_fields_size(fields, vals, (n - 1) as nat);
        layout::lemma_fields_words(fields, n);
        lemma_stands_part(bytes, at, before, value::encode(fields[n - 1], vals[n - 1]));
        lemma_field_images_are_valid(fields, vals, bytes, at, (n - 1) as nat);
        law_images_are_valid(
            fields[n - 1],
            vals[n - 1],
            bytes,
            at + layout::field_offset(fields, (n - 1) as nat),
        );
    }
}

/// And what is valid is the image of the value that is lifted from it: validation accepts
/// neither more nor less than images.
pub proof fn law_valid_bytes_are_an_image(ty: TyModel, bytes: Seq<u8>, at: nat)
    requires
        ty.inline(),
        at % 4 == 0,
        at + ty.size() <= bytes.len(),
        validity::valid_at(ty, bytes, at as int),
    ensures
        value::fits(ty, lift::lifted(bytes, ty, at)),
        stands_at(bytes, at as int, value::encode(ty, lift::lifted(bytes, ty, at))),
    decreases ty, 0nat,
{
    match ty {
        TyModel::F32 | TyModel::U32 | TyModel::Enum(_) => {
            value::lemma_bytes_of_word(bytes, at as int);
        },
        TyModel::Record(fields) => {
            layout::lemma_fields_words(fields, fields.len());
            layout::lemma_round_up(at, 4);
            layout::lemma_round_up(at, 1);
            lemma_valid_fields_are_images(fields, bytes, at, fields.len());
            value::lemma_encode_words(ty, lift::lifted(bytes, ty, at));
        },
        _ => {},
    }
}

proof fn lemma_valid_fields_are_images(fields: Seq<TyModel>, bytes: Seq<u8>, at: nat, n: nat)
    requires
        n <= fields.len(),
        layout::all_inline(fields, n),
        at % 4 == 0,
        at + layout::fields_end(fields, n) <= bytes.len(),
        validity::fields_valid_at(fields, bytes, at as int, n),
    ensures
        lift::lifted_fields(bytes, fields, at, n).len() == n,
        value::all_fit(fields, lift::lifted_fields(bytes, fields, at, n), n),
        stands_at(
            bytes,
            at as int,
            value::encode_fields(fields, lift::lifted_fields(bytes, fields, at, n), n),
        ),
    decreases fields, n,
{
    if n == 0 {
        assert(bytes.subrange(at as int, at as int) =~= seq![]);
    } else {
        let m = (n - 1) as nat;
        let vals = lift::lifted_fields(bytes, fields, at, n);
        let fewer = lift::lifted_fields(bytes, fields, at, m);
        layout::lemma_fields_words(fields, n);
        layout::lemma_fields_words(fields, m);
        layout::lemma_fields_end_monotone(fields, m, n);
        lemma_valid_fields_are_images(fields, bytes, at, m);
        law_valid_bytes_are_an_image(
            fields[n - 1],
            bytes,
            at + layout::field_offset(fields, m),
        );
        assert forall|k: int| 0 <= k < m implies vals[k] == fewer[k] by {}
        lemma_fields_by_value(fields, fewer, vals, m);
        value::lemma_encode_fields_size(fields, vals, m);
        value::lemma_encode_fields_words(fields, vals, n);
        let a = value::encode_fields(fields, vals, m);
        let b = value::encode(fields[n - 1], vals[n - 1]);
        assert(bytes.subrange(at as int, at + (a + b).len() as int) =~= bytes.subrange(
            at as int,
            at + a.len() as int,
        ) + bytes.subrange(at + a.len() as int, at + a.len() + b.len() as int));
    }
}

/// Only the first `n` values matter to the first `n` fields.
proof fn lemma_fields_by_value(
    fields: Seq<TyModel>,
    a: Seq<ValModel>,
    b: Seq<ValModel>,
    n: nat,
)
    requires
        n <= fields.len(),
        forall|k: int| 0 <= k < n ==> a[k] == b[k],
    ensures
        value::all_fit(fields, a, n) == value::all_fit(fields, b, n),
        value::encode_fields(fields, a, n) == value::encode_fields(fields, b, n),
    decreases n,
{
    if n > 0 {
        lemma_fields_by_value(fields, a, b, (n - 1) as nat);
    }
}

/// Lowering a single dynamic value passes the same core values as flattening its image, wherever
/// that image stands, and leaves memory alone.
pub proof fn law_flattening_agrees(
    start: Lowered,
    ty: TyModel,
    v: ValModel,
    bytes: Seq<u8>,
    at: int,
)
    requires
        value::fits(ty, v),
        stands_at(bytes, at, value::encode(ty, v)),
    ensures
        start.takes_val(ty, v),
        start.val(ty, v) == (Lowered {
            store: start.store,
            core: start.core + lower::flat_core(ty, bytes, at),
        }),
    decreases ty, 0nat,
{
    match (ty, v) {
        (TyModel::F32, ValModel::F32(x)) => {
            lemma_word_stands(bytes, at, x.bits);
            assert(start.core.push(CoreVal::F32(x)) =~= start.core + seq![CoreVal::F32(x)]);
        },
        (TyModel::U32, ValModel::U32(x)) => {
            lemma_word_stands(bytes, at, x);
            assert(start.core.push(CoreVal::I32(x as i32)) =~= start.core + seq![
                CoreVal::I32(x as i32),
            ]);
        },
        (TyModel::Enum(_), ValModel::Enum(d)) => {
            lemma_word_stands(bytes, at, d);
            assert(start.core.push(CoreVal::I32(d as i32)) =~= start.core + seq![
                CoreVal::I32(d as i32),
            ]);
        },
        (TyModel::Record(fields), ValModel::Record(vals)) => {
            value::lemma_encode_words(ty, v);
            lemma_flattening_fields(start, fields, vals, bytes, at, fields.len());
        },
        _ => {},
    }
}

proof fn lemma_flattening_fields(
    start: Lowered,
    fields: Seq<TyModel>,
    vals: Seq<ValModel>,
    bytes: Seq<u8>,
    at: int,
    n: nat,
)
    requires
        n <= fields.len(),
        value::all_fit(fields, vals, n),
        stands_at(bytes, at, value::encode_fields(fields, vals, n)),
    ensures
        start.takes_fields(fields, vals, n),
        start.fields(fields, vals, n) == (Lowered {
            store: start.store,
            core: start.core + lower::fields_core(fields, bytes, at, n),
        }),
    decreases fields, n,
{
    if n == 0 {
        assert(start.core + lower::fields_core(fields, bytes, at, 0) =~= start.core);
    } else {
        let m = (n - 1) as nat;
        let before = value::encode_fields(fields, vals, m);
        value::lemma_encode_fields_words(fields, vals, n);
        value::lemma_encode_fields_size(fields, vals, m);
        layout::lemma_fields_words(fields, n);
        lemma_stands_part(bytes, at, before, value::encode(fields[n - 1], vals[n - 1]));
        lemma_flattening_fields(start, fields, vals, bytes, at, m);
        law_flattening_agrees(
            start.fields(fields, vals, m),
            fields[n - 1],
            vals[n - 1],
            bytes,
            at + layout::field_offset(fields, m),
        );
        assert(start.core + lower::fields_core(fields, bytes, at, n) =~= (start.core
            + lower::fields_core(fields, bytes, at, m)) + lower::flat_core(
            fields[n - 1],
            bytes,
            at + layout::field_offset(fields, m),
        ));
    }
}

// ---------------------------------------------------------------------------------------
// Lists.
// ---------------------------------------------------------------------------------------

/// The image of a list: the images of its elements, one after the other.
pub open spec fn list_encode(elem: TyModel, items: Seq<ValModel>) -> Seq<u8> {
    source::join(source::encode_all(elem, items), 0, items.len())
}

/// Every item is a value of the element type.
pub open spec fn all_items_fit(elem: TyModel, items: Seq<ValModel>) -> bool {
    forall|k: int| 0 <= k < items.len() ==> value::fits(elem, #[trigger] items[k])
}

/// `v` is a value of type `ty`: a value of an inline type, or a list of them.
pub open spec fn value_of(ty: TyModel, v: ValModel) -> bool {
    match (ty, v) {
        (TyModel::List(elem), ValModel::List(items)) => elem.size() > 0 && all_items_fit(
            *elem,
            items,
        ),
        _ => value::fits(ty, v),
    }
}

/// The size of a value of type `ty`, or of an element of a list, is a machine number.
pub open spec fn measurable(ty: TyModel) -> bool {
    match ty {
        TyModel::List(elem) => elem.size() <= usize::MAX,
        _ => ty.size() <= usize::MAX,
    }
}

/// The pre-encoded bytes of a value: a list image, or the image of a single value.
pub open spec fn bytes_of(ty: TyModel, v: ValModel) -> Seq<u8> {
    match (ty, v) {
        (TyModel::List(elem), ValModel::List(items)) => list_encode(*elem, items),
        _ => value::encode(ty, v),
    }
}

/// Parts of one size make up as many of that size.
pub proof fn lemma_join_len(parts: Seq<Seq<u8>>, size: nat, start: nat, count: nat)
    requires
        start + count <= parts.len(),
        forall|k: int| 0 <= k < parts.len() ==> (#[trigger] parts[k]).len() == size,
    ensures
        source::join(parts, start, count).len() == count * size,
    decreases count,
{
    if count == 0 {
        assert(0 * size == 0);
    } else {
        lemma_join_len(parts, size, start, (count - 1) as nat);
        assert(parts[start + count - 1].len() == size);
        assert((count - 1) * size + size == count * size) by (nonlinear_arith);
    }
}

pub proof fn lemma_encode_all_len(elem: TyModel, items: Seq<ValModel>)
    requires
        all_items_fit(elem, items),
    ensures
        source::encode_all(elem, items).len() == items.len(),
        forall|k: int|
            0 <= k < items.len() ==> (#[trigger] source::encode_all(elem, items)[k]).len()
                == elem.size(),
        list_encode(elem, items).len() == items.len() * elem.size(),
{
    assert forall|k: int| 0 <= k < items.len() implies (#[trigger] source::encode_all(
        elem,
        items,
    )[k]).len() == elem.size() by {
        value::lemma_encode_size(elem, items[k]);
    }
    lemma_join_len(source::encode_all(elem, items), elem.size(), 0, items.len());
}

pub proof fn lemma_storing_items(
    mem: Seq<u8>,
    elem: TyModel,
    items: Seq<ValModel>,
    ptr: int,
    n: nat,
)
    requires
        n <= items.len(),
        all_items_fit(elem, items),
    ensures
        lower::stored_items(mem, elem, items, ptr, n) == store::overwrite(
            mem,
            ptr,
            source::join(source::encode_all(elem, items), 0, n),
        ),
    decreases n,
{
    if n == 0 {
        lemma_overwrite_nothing(mem, ptr);
    } else {
        let images = source::encode_all(elem, items);
        let before = source::join(images, 0, (n - 1) as nat);
        lemma_storing_items(mem, elem, items, ptr, (n - 1) as nat);
        lemma_encode_all_len(elem, items);
        lemma_join_len(images, elem.size(), 0, (n - 1) as nat);
        law_storing_writes_the_image(
            store::overwrite(mem, ptr, before),
            elem,
            items[n - 1],
            ptr + (n - 1) * elem.size(),
        );
        assert(images[n - 1] == value::encode(elem, items[n - 1]));
        lemma_overwrite_more(mem, ptr, before, images[n - 1]);
    }
}

/// The choice between a dynamic value and pre-encoded bytes shows nowhere: both leave the same
/// memory and pass the same core values, and one can be lowered just when the other can.
pub proof fn law_provided_val_is_provided_flat(start: Lowered, ty: TyModel, v: ValModel)
    requires
        value_of(ty, v),
        measurable(ty),
    ensures
        start.takes(ty, Provided::Val(v)) <==> start.takes(ty, Provided::Flat(bytes_of(ty, v))),
        start.provided(ty, Provided::Val(v)) == start.provided(
            ty,
            Provided::Flat(bytes_of(ty, v)),
        ),
{
    match (ty, v) {
        (TyModel::List(elem), ValModel::List(items)) => {
            let n = items.len();
            let ptr = start.store.slot(elem.align());
            lemma_encode_all_len(*elem, items);
            lemma_storing_items(start.store.mem, *elem, items, ptr as int, n);
            assert forall|k: int| 0 <= k < n implies value::encodable(
                *elem,
                #[trigger] items[k],
            ) by {
                value::lemma_encode_size(*elem, items[k]);
            }
            vstd::arithmetic::div_mod::lemma_div_by_multiple(n as int, elem.size() as int);
        },
        _ => {
            let image = value::encode(ty, v);
            value::lemma_encode_size(ty, v);
            lemma_fits_inline(ty, v);
            assert(image.subrange(0, image.len() as int) =~= image);
            law_flattening_agrees(start, ty, v, image, 0);
        },
    }
}

/// Only values of inline types fit.
proof fn lemma_fits_inline(ty: TyModel, v: ValModel)
    requires
        value::fits(ty, v),
    ensures
        ty.inline(),
{
    let image = value::encode(ty, v);
    assert(image.subrange(0, image.len() as int) =~= image);
    law_images_are_valid(ty, v, image, 0);
}

/// Item `k` of a list image stands where it belongs.
#[verifier::rlimit(30)]
pub proof fn lemma_item_stands(
    mem: Seq<u8>,
    elem: TyModel,
    items: Seq<ValModel>,
    ptr: int,
    k: nat,
)
    requires
        all_items_fit(elem, items),
        k < items.len(),
        stands_at(mem, ptr, list_encode(elem, items)),
    ensures
        stands_at(mem, ptr + k * elem.size(), value::encode(elem, items[k as int])),
        (ptr + k * elem.size()) % 4 == ptr % 4,
        ptr + k * elem.size() + elem.size() <= mem.len(),
        elem.inline(),
{
    let size = elem.size();
    let at = ptr + k * size;
    lemma_item_image_stands(mem, elem, items, ptr, k);
    value::lemma_encode_size(elem, items[k as int]);
    lemma_fits_inline(elem, items[k as int]);
    assert(at % 4 == ptr % 4) by {
        layout::lemma_words(elem);
        lemma_multiple_of_four(ptr, k, size);
    }
}

/// The part of the list image that belongs to item `k`.
proof fn lemma_item_image_stands(
    mem: Seq<u8>,
    elem: TyModel,
    items: Seq<ValModel>,
    ptr: int,
    k: nat,
)
    requires
        all_items_fit(elem, items),
        k < items.len(),
        stands_at(mem, ptr, list_encode(elem, items)),
    ensures
        stands_at(mem, ptr + k * elem.size(), value::encode(elem, items[k as int])),
{
    let images = source::encode_all(elem, items);
    let more = (items.len() - k - 1) as nat;
    let a = source::join(images, 0, k);
    let image = images[k as int];
    let rest = source::join(images, k + 1, more);
    assert(source::join(images, 0, k + 1) == a + image);
    assert(list_encode(elem, items) == (a + image) + rest) by {
        lemma_join_splits(images, 0, k + 1, more);
    }
    assert(a.len() == k * elem.size()) by {
        lemma_encode_all_len(elem, items);
        lemma_join_len(images, elem.size(), 0, k);
    }
    lemma_stands_part(mem, ptr, a + image, rest);
    lemma_stands_part(mem, ptr, a, image);
}

proof fn lemma_multiple_of_four(at: int, k: nat, size: nat)
    requires
        size % 4 == 0,
    ensures
        (at + k * size) % 4 == at % 4,
{
    let q = size / 4;
    let n = k * q;
    assert(k * size == 4 * n) by (nonlinear_arith)
        requires
            size == 4 * q,
            n == k * q,
    ;
}

/// A range followed by the next range is the range of both.
proof fn lemma_join_splits(parts: Seq<Seq<u8>>, start: nat, a: nat, b: nat)
    ensures
        source::join(parts, start, a + b) == source::join(parts, start, a) + source::join(
            parts,
            start + a,
            b,
        ),
    decreases b,
{
    if b == 0 {
        assert(source::join(parts, start, a) + source::join(parts, start + a, 0) =~= source::join(
            parts,
            start,
            a,
        ));
    } else {
        lemma_join_splits(parts, start, a, (b - 1) as nat);
        assert(source::join(parts, start, a + b) == source::join(
            parts,
            start,
            (a + b - 1) as nat,
        ) + parts[start + a + b - 1]);
        assert(source::join(parts, start, a + b) =~= source::join(parts, start, a) + source::join(
            parts,
            start + a,
            b,
        ));
    }
}

/// The image of a list of values is a valid run: what the library encodes, it accepts.
pub proof fn law_images_are_valid_run(elem: TyModel, items: Seq<ValModel>)
    requires
        elem.inline(),
        elem.size() > 0,
        all_items_fit(elem, items),
    ensures
        validity::valid_run(elem, list_encode(elem, items)),
{
    let image = list_encode(elem, items);
    let size = elem.size();
    lemma_encode_all_len(elem, items);
    vstd::arithmetic::div_mod::lemma_mod_multiples_basic(items.len() as int, size as int);
    vstd::arithmetic::div_mod::lemma_div_by_multiple(items.len() as int, size as int);
    assert(image.subrange(0, image.len() as int) =~= image);
    assert forall|k: int| 0 <= k < image.len() / size implies #[trigger] validity::valid_at(
        elem,
        image,
        k * size,
    ) by {
        lemma_item_stands(image, elem, items, 0, k as nat);
        law_images_are_valid(elem, items[k], image, k * size);
    }
}

// ---------------------------------------------------------------------------------------
// Sources.
// ---------------------------------------------------------------------------------------

/// `src` supplies the single value `v`, in whichever representation.
pub open spec fn denotes(src: SourceModel, ty: TyModel, v: ValModel) -> bool
    decreases ty, 0nat,
{
    match (src, ty, v) {
        (SourceModel::Val(w), _, _) => w == v,
        (SourceModel::Flat(vb), _, _) => vb.bytes == value::encode(ty, v),
        (
            SourceModel::Record(sources),
            TyModel::Record(fields),
            ValModel::Record(vals),
        ) => sources.len() == fields.len() && all_denote(sources, fields, vals, fields.len()),
        _ => false,
    }
}

/// The first `n` sources supply the first `n` values.
pub open spec fn all_denote(
    sources: Seq<SourceModel>,
    fields: Seq<TyModel>,
    vals: Seq<ValModel>,
    n: nat,
) -> bool
    decreases fields, n,
{
    n == 0 || n > fields.len() || (all_denote(sources, fields, vals, (n - 1) as nat) && denotes(
        sources[n - 1],
        fields[n - 1],
        vals[n - 1],
    ))
}

/// `src` supplies the list `items`, in whichever representation.
pub open spec fn denotes_list(src: SourceModel, elem: TyModel, items: Seq<ValModel>) -> bool {
    match src {
        SourceModel::Val(ValModel::List(vals)) => vals == items,
        SourceModel::ListFlat(vb) => vb.elem == elem && vb.bytes == list_encode(elem, items),
        SourceModel::ListElems(sources) => {
            &&& sources.len() == items.len()
            &&& forall|k: int|
                0 <= k < items.len() ==> denotes(#[trigger] sources[k], elem, items[k])
        },
        SourceModel::Lazy(elements) => elements == source::encode_all(elem, items),
        SourceModel::Arena(slice) => slice.stride == elem.size() && slice.bytes == list_encode(
            elem,
            items,
        ),
        _ => false,
    }
}

/// A single value has one image, however the parts of it are supplied: dynamically, as flat
/// bytes, or field by field with any mixture of the two.
pub proof fn law_value_image_depends_on_the_value(src: SourceModel, ty: TyModel, v: ValModel)
    requires
        value::fits(ty, v),
        denotes(src, ty, v),
    ensures
        source::producible(src, ty),
        source::value_image(src, ty) == value::encode(ty, v),
    decreases ty, 0nat,
{
    value::lemma_encode_size(ty, v);
    match (src, ty, v) {
        (
            SourceModel::Record(sources),
            TyModel::Record(fields),
            ValModel::Record(vals),
        ) => {
            lemma_field_images_depend_on_values(sources, fields, vals, fields.len());
        },
        _ => {},
    }
}

proof fn lemma_field_images_depend_on_values(
    sources: Seq<SourceModel>,
    fields: Seq<TyModel>,
    vals: Seq<ValModel>,
    n: nat,
)
    requires
        n <= fields.len(),
        value::all_fit(fields, vals, n),
        all_denote(sources, fields, vals, n),
    ensures
        source::all_producible(sources, fields, n),
        source::fields_image(sources, fields, n) == value::encode_fields(fields, vals, n),
    decreases fields, n,
{
    if n > 0 {
        lemma_field_images_depend_on_values(sources, fields, vals, (n - 1) as nat);
        law_value_image_depends_on_the_value(sources[n - 1], fields[n - 1], vals[n - 1]);
    }
}

/// Every range of a list has one image, however the list is supplied.
pub proof fn law_range_image_depends_on_the_list(
    src: SourceModel,
    elem: TyModel,
    items: Seq<ValModel>,
    start: nat,
    count: nat,
)
    requires
        elem.size() > 0,
        all_items_fit(elem, items),
        items.len() <= usize::MAX,
        denotes_list(src, elem, items),
        start + count <= items.len(),
    ensures
        src.is_list(),
        src.list_len() == items.len(),
        src.has_range(elem, start, count),
        src.range_image(elem, start, count) == source::join(
            source::encode_all(elem, items),
            start,
            count,
        ),
        src.range_image(elem, start, count).len() == count * elem.size(),
{
    let images = source::encode_all(elem, items);
    let size = elem.size();
    lemma_encode_all_len(elem, items);
    lemma_join_len(images, size, start, count);
    match src {
        SourceModel::Val(_) => {
            assert forall|k: int| start <= k < start + count implies value::encodable(
                elem,
                #[trigger] items[k],
            ) by {
                value::lemma_encode_size(elem, items[k]);
            }
        },
        SourceModel::ListElems(sources) => {
            assert forall|k: int| 0 <= k < items.len() implies source::producible(
                #[trigger] sources[k],
                elem,
            ) && source::value_images(sources, elem)[k] == images[k] by {
                law_value_image_depends_on_the_value(sources[k], elem, items[k]);
            }
            assert(source::value_images(sources, elem) =~= images);
        },
        SourceModel::ListFlat(_) | SourceModel::Arena(_) => {
            let bytes = list_encode(elem, items);
            vstd::arithmetic::div_mod::lemma_div_by_multiple(items.len() as int, size as int);
            lemma_strided_is_join(images, size, start, count);
            assert((start + count) * size <= items.len() * size) by (nonlinear_arith)
                requires
                    start + count <= items.len(),
            ;
        },
        _ => {},
    }
}

/// In a contiguous run of images, ranges are found by their stride.
proof fn lemma_strided_is_join(images: Seq<Seq<u8>>, size: nat, start: nat, count: nat)
    requires
        start + count <= images.len(),
        forall|k: int| 0 <= k < images.len() ==> (#[trigger] images[k]).len() == size,
    ensures
        arena::strided(source::join(images, 0, images.len()), size, start, count)
            == source::join(images, start, count),
{
    let rest = (images.len() - start - count) as nat;
    lemma_join_splits(images, 0, start + count, rest);
    lemma_join_splits(images, 0, start, count);
    lemma_join_len(images, size, 0, start);
    lemma_join_len(images, size, 0, start + count);
    lemma_join_len(images, size, start, count);
    arena::lemma_strided_bounds(size, start, count);
    let before = source::join(images, 0, start);
    let range = source::join(images, start, count);
    let after = source::join(images, start + count, rest);
    assert((before + range + after).subrange(
        before.len() as int,
        (before + range).len() as int,
    ) =~= range);
}

/// Two sources of the same list cannot be told apart by any range that is pulled from them.
pub proof fn law_sources_of_a_list_agree(
    a: SourceModel,
    b: SourceModel,
    elem: TyModel,
    items: Seq<ValModel>,
    start: nat,
    count: nat,
)
    requires
        elem.size() > 0,
        all_items_fit(elem, items),
        items.len() <= usize::MAX,
        denotes_list(a, elem, items),
        denotes_list(b, elem, items),
        start + count <= items.len(),
    ensures
        a.list_len() == b.list_len(),
        a.range_image(elem, start, count) == b.range_image(elem, start, count),
        a.list_image(elem) == b.list_image(elem),
{
    law_range_image_depends_on_the_list(a, elem, items, start, count);
    law_range_image_depends_on_the_list(b, elem, items, start, count);
    law_range_image_depends_on_the_list(a, elem, items, 0, items.len());
    law_range_image_depends_on_the_list(b, elem, items, 0, items.len());
}

// ---------------------------------------------------------------------------------------
// Eager and lazy.
// ---------------------------------------------------------------------------------------

/// The number of elements that the first `n` pulls ask for.
pub open spec fn reach(pulls: Seq<(usize, usize)>, n: nat) -> nat
    decreases n,
{
    if n == 0 || n > pulls.len() {
        0
    } else {
        reach(pulls, (n - 1) as nat) + pulls[n - 1].1 as nat
    }
}

/// Each pull starts where the one before it ended.
pub open spec fn consecutive(pulls: Seq<(usize, usize)>) -> bool {
    forall|i: int| 0 <= i < pulls.len() ==> (#[trigger] pulls[i]).0 == reach(pulls, i as nat)
}

/// Two neighbouring ranges of a source, one after the other, are the range of both.
pub proof fn law_ranges_add_up(src: SourceModel, elem: TyModel, start: nat, a: nat, b: nat)
    requires
        src.has_range(elem, start, a + b),
    ensures
        src.has_range(elem, start, a),
        src.has_range(elem, start + a, b),
        src.range_image(elem, start, a + b) == src.range_image(elem, start, a) + src.range_image(
            elem,
            start + a,
            b,
        ),
{
    match src {
        SourceModel::Val(ValModel::List(items)) => {
            lemma_join_splits(source::encode_all(elem, items), start, a, b);
        },
        SourceModel::ListElems(items) => {
            lemma_join_splits(source::value_images(items, elem), start, a, b);
        },
        SourceModel::Lazy(elements) => {
            lemma_join_splits(elements, start, a, b);
        },
        SourceModel::ListFlat(vb) => {
            lemma_strided_splits(vb.bytes, elem.size(), start, a, b);
        },
        SourceModel::Arena(slice) => {
            lemma_strided_splits(slice.bytes, slice.stride, start, a, b);
        },
        _ => {},
    }
}

proof fn lemma_strided_splits(bytes: Seq<u8>, stride: nat, start: nat, a: nat, b: nat)
    requires
        arena::strided_within(bytes, stride, start, a + b),
    ensures
        arena::strided_within(bytes, stride, start, a),
        arena::strided_within(bytes, stride, start + a, b),
        arena::strided(bytes, stride, start, a + b) == arena::strided(bytes, stride, start, a)
            + arena::strided(bytes, stride, start + a, b),
{
    arena::lemma_strided_bounds(stride, start, a);
    arena::lemma_strided_bounds(stride, start + a, b);
    assert(start + (a + b) == start + a + b);
    assert(arena::strided(bytes, stride, start, a + b) =~= arena::strided(bytes, stride, start, a)
        + arena::strided(bytes, stride, start + a, b));
}

/// Pulling a list piece by piece, from the front, gives the bytes of its whole front.
pub proof fn law_consecutive_pulls_are_one_range(
    src: SourceModel,
    elem: TyModel,
    pulls: Seq<(usize, usize)>,
    n: nat,
)
    requires
        n <= pulls.len(),
        consecutive(pulls),
        src.has_range(elem, 0, reach(pulls, n)),
    ensures
        source::pulled(src, elem, pulls, n) == src.range_image(elem, 0, reach(pulls, n)),
    decreases n,
{
    if n == 0 {
        lemma_no_range(src, elem);
    } else {
        let before = reach(pulls, (n - 1) as nat);
        law_ranges_add_up(src, elem, 0, before, pulls[n - 1].1 as nat);
        law_consecutive_pulls_are_one_range(src, elem, pulls, (n - 1) as nat);
    }
}

proof fn lemma_no_range(src: SourceModel, elem: TyModel)
    ensures
        src.range_image(elem, 0, 0) == Seq::<u8>::empty(),
{
    assert(0 * elem.size() == 0);
    match src {
        SourceModel::ListFlat(vb) => {
            assert(arena::strided(vb.bytes, elem.size(), 0, 0) =~= seq![]);
        },
        SourceModel::Arena(slice) => {
            assert(0 * slice.stride == 0);
            assert(arena::strided(slice.bytes, slice.stride, 0, 0) =~= seq![]);
        },
        _ => {},
    }
}

/// Only the first pulls matter to what they yield.
proof fn lemma_pulled_front(
    src: SourceModel,
    elem: TyModel,
    pulls: Seq<(usize, usize)>,
    more: Seq<(usize, usize)>,
    n: nat,
)
    requires
        n <= pulls.len(),
    ensures
        source::pulled(src, elem, pulls + more, n) == source::pulled(src, elem, pulls, n),
    decreases n,
{
    if n > 0 {
        lemma_pulled_front(src, elem, pulls, more, (n - 1) as nat);
        assert((pulls + more)[n - 1] == pulls[n - 1]);
    }
}

/// Every pull yields its range, whatever was pulled before it and in whatever order: no pulls
/// yield nothing, one pull yields the bytes of its range, and a schedule followed by another
/// yields the bytes of the one, then those of the other.
pub proof fn law_pulls_add_up(
    src: SourceModel,
    elem: TyModel,
    pulls: Seq<(usize, usize)>,
    more: Seq<(usize, usize)>,
    start: usize,
    count: usize,
)
    ensures
        source::pulled(src, elem, seq![], 0) == Seq::<u8>::empty(),
        source::pulled(src, elem, seq![(start, count)], 1) == src.range_image(
            elem,
            start as nat,
            count as nat,
        ),
        source::pulled(src, elem, pulls + more, pulls.len() + more.len()) == source::pulled(
            src,
            elem,
            pulls,
            pulls.len(),
        ) + source::pulled(src, elem, more, more.len()),
        source::pulled(src, elem, pulls + more, pulls.len() + more.len()).len() == source::pulled(
            src,
            elem,
            pulls,
            pulls.len(),
        ).len() + source::pulled(src, elem, more, more.len()).len(),
    decreases more.len(),
{
    let one = seq![(start, count)];
    assert(source::pulled(src, elem, one, 0) =~= seq![]);
    assert(source::pulled(src, elem, one, 1) =~= src.range_image(elem, start as nat, count as nat));
    let all = pulls + more;
    if more.len() == 0 {
        assert(all =~= pulls);
        assert(source::pulled(src, elem, more, 0) =~= seq![]);
        assert(source::pulled(src, elem, all, all.len()) =~= source::pulled(
            src,
            elem,
            pulls,
            pulls.len(),
        ) + source::pulled(src, elem, more, more.len()));
    } else {
        let fewer = more.drop_last();
        let last = seq![more.last()];
        law_pulls_add_up(src, elem, pulls, fewer, start, count);
        assert(pulls + fewer + last =~= all);
        assert(fewer + last =~= more);
        lemma_pulled_front(src, elem, pulls + fewer, last, (pulls + fewer).len());
        lemma_pulled_front(src, elem, fewer, last, fewer.len());
        assert(all[all.len() - 1] == more.last());
        assert(source::pulled(src, elem, all, all.len()) =~= source::pulled(
            src,
            elem,
            pulls,
            pulls.len(),
        ) + source::pulled(src, elem, more, more.len()));
    }
}

/// Every pull arrives whole, behind those before it: the bytes of pull number `k` stand where the
/// first `k` pulls end.
pub proof fn law_every_pull_arrives(
    src: SourceModel,
    elem: TyModel,
    pulls: Seq<(usize, usize)>,
    k: int,
)
    requires
        0 <= k < pulls.len(),
    ensures
        ({
            let all = source::pulled(src, elem, pulls, pulls.len());
            let before = source::pulled(src, elem, pulls.take(k), k as nat);
            let own = src.range_image(elem, pulls[k].0 as nat, pulls[k].1 as nat);
            &&& before.len() + own.len() <= all.len()
            &&& all.take(before.len() as int) == before
            &&& all.subrange(before.len() as int, (before.len() + own.len()) as int) == own
        }),
{
    let (front, one, back) = (pulls.take(k), seq![pulls[k]], pulls.skip(k + 1));
    let (start, count) = pulls[k];
    law_pulls_add_up(src, elem, front, one + back, start, count);
    law_pulls_add_up(src, elem, one, back, start, count);
    assert(front + (one + back) =~= pulls);
    let all = source::pulled(src, elem, pulls, pulls.len());
    let before = source::pulled(src, elem, front, k as nat);
    let own = src.range_image(elem, start as nat, count as nat);
    assert(all.take(before.len() as int) =~= before);
    assert(all.subrange(before.len() as int, (before.len() + own.len()) as int) =~= own);
}

/// A range is as long as its elements are many: of a list whose elements are all of the size of
/// their type, `count` elements are `count` times that size.
pub proof fn law_ranges_have_their_length(src: SourceModel, elem: TyModel, start: nat, count: nat)
    requires
        src.has_range(elem, start, count),
        forall|k: nat|
            start <= k < start + count ==> (#[trigger] src.range_image(elem, k, 1)).len()
                == elem.size(),
    ensures
        src.range_image(elem, start, count).len() == count * elem.size(),
    decreases count,
{
    if count == 0 {
        law_ranges_add_up(src, elem, start, 0, 0);
        let nothing = src.range_image(elem, start, 0);
        assert(nothing.len() == nothing.len() + nothing.len());
        assert(0 * elem.size() == 0);
    } else {
        let fewer = (count - 1) as nat;
        law_ranges_add_up(src, elem, start, fewer, 1);
        law_ranges_have_their_length(src, elem, start, fewer);
        assert(src.range_image(elem, start + fewer, 1).len() == elem.size());
        assert(count * elem.size() == fewer * elem.size() + elem.size()) by (nonlinear_arith)
            requires
                count == fewer + 1,
        ;
    }
}

/// The same source, driven eagerly or lazily, yields the same bytes: a guest that pulls all of
/// a list in a schedule of its own sees what an eager runtime would have materialised.
pub proof fn law_eager_is_lazy(src: SourceModel, elem: TyModel, pulls: Seq<(usize, usize)>)
    requires
        consecutive(pulls),
        reach(pulls, pulls.len()) == src.list_len(),
        src.has_range(elem, 0, src.list_len()),
    ensures
        source::pulled(src, elem, pulls, pulls.len()) == src.list_image(elem),
{
    law_consecutive_pulls_are_one_range(src, elem, pulls, pulls.len());
}

// ---------------------------------------------------------------------------------------
// Calls.
// ---------------------------------------------------------------------------------------

/// What an argument stands for.
pub enum Meaning {
    Value(ValModel),
    Chunks(Seq<Seq<u8>>),
}

/// `src` passes what `meaning` says to a parameter of type `ty`, in whichever representation.
pub open spec fn means(src: SourceModel, ty: TyModel, meaning: Meaning) -> bool {
    match (meaning, ty) {
        (Meaning::Chunks(chunks), _) => src == SourceModel::Stream(chunks),
        (Meaning::Value(ValModel::List(items)), TyModel::List(elem)) => {
            &&& elem.size() > 0
            &&& items.len() <= usize::MAX
            &&& all_items_fit(*elem, items)
            &&& denotes_list(src, *elem, items)
        },
        (Meaning::Value(v), _) => value::fits(ty, v) && denotes(src, ty, v),
    }
}

/// The guest cannot tell in which representation an argument was provided: memory, core values
/// and streams come out the same, and the one can be passed just when the other can.
pub proof fn law_guest_cannot_tell_an_argument(
    before: call::Passed,
    ty: TyModel,
    a: SourceModel,
    b: SourceModel,
    meaning: Meaning,
)
    requires
        means(a, ty, meaning),
        means(b, ty, meaning),
    ensures
        before.takes(ty, a) <==> before.takes(ty, b),
        before.arg(ty, a) == before.arg(ty, b),
{
    match (meaning, ty) {
        (Meaning::Chunks(_), _) => {},
        (Meaning::Value(ValModel::List(items)), TyModel::List(elem)) => {
            law_range_image_depends_on_the_list(a, *elem, items, 0, items.len());
            law_range_image_depends_on_the_list(b, *elem, items, 0, items.len());
        },
        (Meaning::Value(v), _) => {
            law_value_image_depends_on_the_value(a, ty, v);
            law_value_image_depends_on_the_value(b, ty, v);
        },
    }
}

/// Nor can it tell the representations of all arguments of a call.
pub proof fn law_guest_cannot_tell_the_arguments(
    before: call::Passed,
    tys: Seq<TyModel>,
    a: Seq<SourceModel>,
    b: Seq<SourceModel>,
    meanings: Seq<Meaning>,
    n: nat,
)
    requires
        n <= a.len(),
        a.len() == b.len(),
        forall|k: int| 0 <= k < n ==> means(#[trigger] a[k], tys[k], meanings[k]),
        forall|k: int| 0 <= k < n ==> means(#[trigger] b[k], tys[k], meanings[k]),
    ensures
        before.takes_args(tys, a, n) <==> before.takes_args(tys, b, n),
        before.args(tys, a, n) == before.args(tys, b, n),
    decreases n,
{
    if n > 0 {
        let m = (n - 1) as nat;
        law_guest_cannot_tell_the_arguments(before, tys, a, b, meanings, m);
        assert(means(a[m as int], tys[m as int], meanings[m as int]));
        assert(means(b[m as int], tys[m as int], meanings[m as int]));
        law_guest_cannot_tell_an_argument(
            before.args(tys, a, m),
            tys[m as int],
            a[m as int],
            b[m as int],
            meanings[m as int],
        );
    }
}

/// A source that stands for a value, or for a list of them, supplies what it should: no call
/// refuses its contents.
pub proof fn law_meaningful_sources_are_sound(src: SourceModel, ty: TyModel, meaning: Meaning)
    requires
        means(src, ty, meaning),
    ensures
        call::sound(src, ty),
{
    match (meaning, ty) {
        (Meaning::Chunks(_), _) => {},
        (Meaning::Value(ValModel::List(items)), TyModel::List(elem)) => {
            law_range_image_depends_on_the_list(src, *elem, items, 0, items.len());
            lemma_encode_all_len(*elem, items);
            let image = src.list_image(*elem);
            assert(image.subrange(0, image.len() as int) =~= image);
            assert forall|k: int| 0 <= k < items.len() implies #[trigger] validity::valid_at(
                *elem,
                image,
                k * elem.size(),
            ) by {
                lemma_item_stands(image, *elem, items, 0, k as nat);
                law_images_are_valid(*elem, items[k], image, k * elem.size());
            }
        },
        (Meaning::Value(v), _) => {
            law_value_image_depends_on_the_value(src, ty, v);
            value::lemma_encode_size(ty, v);
            let image = value::encode(ty, v);
            assert(image.subrange(0, image.len() as int) =~= image);
            law_images_are_valid(ty, v, image, 0);
        },
    }
}

/// Nothing but valid images reaches a guest: where a call is not refused, every argument that is
/// no stream supplied the valid images of as many elements as it has, or the valid image of one
/// value. The first that did not would have been refused.
pub proof fn law_only_valid_images_are_handed_over(
    a: call::BoundCall<'_>,
    store: StoreModel,
    k: nat,
)
    requires
        a.refusal(store) is None,
        k < a.args().len(),
    ensures
        call::sound(a.args()[k as int], a.prepared().params()[k as int]),
        a.matches(k),
{
    call::lemma_all_accepted(
        a.prepared().specs(),
        a.prepared().params(),
        a.args(),
        a.args().len(),
    );
    assert(a.args()[k as int] == a.args()[k as int]);
}

/// Bad contents are refused as such: where all arguments have the representation that was
/// prepared for, a call is refused just when some argument supplies what it should not.
pub proof fn law_bad_contents_are_refused(a: call::BoundCall<'_>, store: StoreModel)
    requires
        a.complete(),
        forall|k: nat| k < a.args().len() ==> #[trigger] a.matches(k),
    ensures
        a.refusal(store) is None <==> forall|k: int| #![trigger a.args()[k]]
            0 <= k < a.args().len() ==> call::sound(a.args()[k], a.prepared().params()[k]),
        a.refusal(store) matches Some((e, _)) ==> e is Validity,
{
    call::lemma_all_accepted(
        a.prepared().specs(),
        a.prepared().params(),
        a.args(),
        a.args().len(),
    );
    if forall|k: int| #![trigger a.args()[k]]
        0 <= k < a.args().len() ==> call::sound(a.args()[k], a.prepared().params()[k]) {
        assert forall|k: int| #![trigger a.args()[k]] 0 <= k < a.args().len() implies shape::admits(
            a.prepared().specs()[k],
            a.args()[k],
        ) && call::sound(a.args()[k], a.prepared().params()[k]) by {
            assert(a.matches(k as nat));
        }
    }
    if a.accepted() < a.args().len() {
        assert(a.matches(a.accepted()));
    }
}

/// Two calls of one function whose arguments stand for the same values run alike, whatever
/// shape either of them was prepared with: the guest is handed the same memory, the same
/// streams and the same core values, so that what it may return is the same too.
pub proof fn law_results_do_not_depend_on_representations(
    a: call::BoundCall<'_>,
    b: call::BoundCall<'_>,
    store: StoreModel,
    meanings: Seq<Meaning>,
)
    requires
        a.prepared().func() == b.prepared().func(),
        a.complete(),
        b.complete(),
        a.args().len() == b.args().len(),
        forall|k: nat| k < a.args().len() ==> #[trigger] a.matches(k),
        forall|k: nat| k < b.args().len() ==> #[trigger] b.matches(k),
        forall|k: int|
            0 <= k < a.args().len() ==> means(
                #[trigger] a.args()[k],
                a.prepared().params()[k],
                meanings[k],
            ),
        forall|k: int|
            0 <= k < a.args().len() ==> means(
                #[trigger] b.args()[k],
                a.prepared().params()[k],
                meanings[k],
            ),
    ensures
        a.runs(store) <==> b.runs(store),
        a.handed(store) == b.handed(store),
        forall|after: StoreModel, results: LiftedModel|
            a.may_give(store, after, results) <==> b.may_give(store, after, results),
{
    assert(a.accepted() == a.args().len() && b.accepted() == b.args().len()) by {
        call::lemma_all_accepted(
            a.prepared().specs(),
            a.prepared().params(),
            a.args(),
            a.args().len(),
        );
        call::lemma_all_accepted(
            b.prepared().specs(),
            b.prepared().params(),
            b.args(),
            b.args().len(),
        );
        assert forall|k: int| 0 <= k < a.args().len() implies shape::admits(
            a.prepared().specs()[k],
            #[trigger] a.args()[k],
        ) && call::sound(a.args()[k], a.prepared().params()[k]) by {
            assert(a.matches(k as nat));
            law_meaningful_sources_are_sound(
                a.args()[k],
                a.prepared().params()[k],
                meanings[k],
            );
        }
        assert forall|k: int| 0 <= k < b.args().len() implies shape::admits(
            b.prepared().specs()[k],
            #[trigger] b.args()[k],
        ) && call::sound(b.args()[k], b.prepared().params()[k]) by {
            assert(b.matches(k as nat));
            law_meaningful_sources_are_sound(
                b.args()[k],
                b.prepared().params()[k],
                meanings[k],
            );
        }
    }
    law_guest_cannot_tell_the_arguments(
        call::Passed::nothing(store),
        a.prepared().params(),
        a.args(),
        b.args(),
        meanings,
        a.args().len(),
    );
}

/// A call starts afresh: what the calls before it had allocated makes no difference to what it
/// is handed, and the store may have been left anywhere.
pub proof fn law_calls_start_afresh(a: call::BoundCall<'_>, before: StoreModel, next: nat)
    ensures
        a.handed(StoreModel { next, ..before }) == a.handed(before),
        a.runs(StoreModel { next, ..before }) == a.runs(before),
        a.refusal(StoreModel { next, ..before }) is None == a.refusal(before) is None,
{
}

/// The fast paths are taken only where the type is provably inline, and the dynamic path is
/// always there: a value or a stream may be chosen for any type, flat bytes for inline types
/// only, and flat, host-computed or arena lists for lists of inline elements only.
pub proof fn law_fast_paths_are_for_inline_types(ty: TyModel, index: usize)
    ensures
        shape::shape_error(SpecModel::Val, ty, index) is None,
        shape::shape_error(SpecModel::Stream, ty, index) is None,
        shape::shape_error(SpecModel::Flat, ty, index) is None <==> ty.inline(),
        shape::shape_error(SpecModel::ListFlat, ty, index) is None <==> (ty matches TyModel::List(
            elem,
        ) && elem.inline()),
        shape::shape_error(SpecModel::Lazy, ty, index) is None <==> (ty matches TyModel::List(elem)
            && elem.inline()),
        shape::shape_error(SpecModel::Arena, ty, index) is None <==> (ty matches TyModel::List(
            elem,
        ) && elem.inline()),
{
}

/// A record is checked field by field, and a list by its elements: a record spec is accepted just
/// for a record of as many fields, each of which its own spec is accepted for; a spec by elements
/// just for a list whose elements its own spec is accepted for.
pub proof fn law_every_field_is_checked(
    specs: Seq<SpecModel>,
    of_elem: SpecModel,
    ty: TyModel,
    index: usize,
)
    ensures
        shape::shape_error(SpecModel::Record(specs), ty, index) is None <==> (ty matches
            TyModel::Record(fields) && fields.len() == specs.len() && forall|k: int|
            0 <= k < specs.len() ==> shape::shape_error(#[trigger] specs[k], fields[k], index)
                is None),
        shape::shape_error(SpecModel::ListElems(Box::new(of_elem)), ty, index) is None <==> (ty
            matches TyModel::List(elem) && shape::shape_error(of_elem, *elem, index) is None),
{
    if let TyModel::Record(fields) = ty {
        if fields.len() == specs.len() {
            lemma_fields_error(specs, fields, index, specs.len());
        }
    }
}

/// The first fields are in order just when each of them is; else the first that is not speaks for
/// them all.
proof fn lemma_fields_error(
    specs: Seq<SpecModel>,
    fields: Seq<TyModel>,
    index: usize,
    n: nat,
)
    requires
        n <= specs.len(),
    ensures
        shape::fields_error(specs, fields, index, n) is None <==> forall|k: int|
            0 <= k < n ==> shape::shape_error(#[trigger] specs[k], fields[k], index) is None,
        forall|k: int|
            0 <= k < n && shape::shape_error(#[trigger] specs[k], fields[k], index) is Some && (
            forall|j: int|
                0 <= j < k ==> shape::shape_error(#[trigger] specs[j], fields[j], index) is None)
                ==> shape::fields_error(specs, fields, index, n) == shape::shape_error(
                specs[k],
                fields[k],
                index,
            ),
    decreases n,
{
    if n > 0 {
        let m = (n - 1) as nat;
        lemma_fields_error(specs, fields, index, m);
        if shape::fields_error(specs, fields, index, m) is None {
            assert forall|k: int| 0 <= k < m implies shape::shape_error(
                #[trigger] specs[k],
                fields[k],
                index,
            ) is None by {}
        }
    }
}

/// Which error a spec is refused with. A record spec names a type that is no record, then a number
/// of fields that is not the type's, then what is wrong with the first field that is refused. A
/// spec by elements names a type that is no list, then what is wrong with the elements. Bytes are
/// refused for what is not inline, and lists of bytes for what is no list before that.
pub proof fn law_the_first_error_is_named(
    specs: Seq<SpecModel>,
    of_elem: SpecModel,
    ty: TyModel,
    index: usize,
    k: int,
)
    ensures
        !(ty is Record) ==> shape::shape_error(SpecModel::Record(specs), ty, index) == Some(
            Error::SpecMismatch { index },
        ),
        ty matches TyModel::Record(fields) ==> (fields.len() != specs.len()
            ==> shape::shape_error(SpecModel::Record(specs), ty, index) == Some(
            Error::RecordArity { index },
        )),
        ty matches TyModel::Record(fields) ==> (fields.len() == specs.len() && 0 <= k < specs.len()
            && shape::shape_error(specs[k], fields[k], index) is Some && (forall|j: int|
            0 <= j < k ==> shape::shape_error(#[trigger] specs[j], fields[j], index) is None)
            ==> shape::shape_error(SpecModel::Record(specs), ty, index) == shape::shape_error(
            specs[k],
            fields[k],
            index,
        )),
        !(ty is List) ==> shape::shape_error(SpecModel::ListElems(Box::new(of_elem)), ty, index)
            == Some(Error::SpecMismatch { index }),
        ty matches TyModel::List(elem) ==> shape::shape_error(
            SpecModel::ListElems(Box::new(of_elem)),
            ty,
            index,
        ) == shape::shape_error(of_elem, *elem, index),
        !ty.inline() ==> shape::shape_error(SpecModel::Flat, ty, index) == Some(
            Error::NotInline { index },
        ),
        forall|bytes: SpecModel| #[trigger]
            is_list_of_bytes(bytes) ==> (!(ty is List) ==> shape::shape_error(bytes, ty, index)
                == Some(Error::SpecMismatch { index })) && (ty matches TyModel::List(elem) ==> (
            !elem.inline() ==> shape::shape_error(bytes, ty, index) == Some(
                Error::NotInline { index },
            ))),
{
    if let TyModel::Record(fields) = ty {
        if fields.len() == specs.len() {
            lemma_fields_error(specs, fields, index, specs.len());
        }
    }
}

/// A list whose elements are supplied as bytes: flat, host-computed or out of an arena.
pub open spec fn is_list_of_bytes(spec_of_list: SpecModel) -> bool {
    spec_of_list is ListFlat || spec_of_list is Lazy || spec_of_list is Arena
}

/// The spec and the type of a part: `path` leads into fields of records by their number, and into
/// the elements of lists by zero.
pub open spec fn part_at(whole: SpecModel, ty: TyModel, path: Seq<nat>) -> Option<
    (SpecModel, TyModel),
>
    decreases path.len(),
{
    if path.len() == 0 {
        Some((whole, ty))
    } else {
        match (whole, ty) {
            (SpecModel::Record(specs), TyModel::Record(fields)) => if path[0] < specs.len()
                && path[0] < fields.len() {
                part_at(specs[path[0] as int], fields[path[0] as int], path.skip(1))
            } else {
                None
            },
            (SpecModel::ListElems(of_elem), TyModel::List(elem)) => if path[0] == 0 {
                part_at(*of_elem, *elem, path.skip(1))
            } else {
                None
            },
            _ => None,
        }
    }
}

/// Nothing hides in the depth of a spec: every part of an accepted spec is accepted for its part
/// of the type. So bytes, at any depth, are prepared for inline types only.
pub proof fn law_fast_paths_are_checked_at_any_depth(
    whole: SpecModel,
    ty: TyModel,
    index: usize,
    path: Seq<nat>,
)
    requires
        shape::shape_error(whole, ty, index) is None,
    ensures
        part_at(whole, ty, path) matches Some((part, part_ty)) ==> {
            &&& shape::shape_error(part, part_ty, index) is None
            &&& part is Flat ==> part_ty.inline()
            &&& is_list_of_bytes(part) ==> (part_ty matches TyModel::List(elem) && elem.inline())
            &&& part is Record ==> part_ty is Record
            &&& part is ListElems ==> part_ty is List
        },
    decreases path.len(),
{
    if path.len() == 0 {
        law_fast_paths_are_for_inline_types(ty, index);
    } else {
        match (whole, ty) {
            (SpecModel::Record(specs), TyModel::Record(fields)) => {
                if path[0] < specs.len() && path[0] < fields.len() {
                    let k = path[0] as int;
                    law_every_field_is_checked(specs, SpecModel::Val, ty, index);
                    assert(shape::shape_error(specs[k], fields[k], index) is None);
                    law_fast_paths_are_checked_at_any_depth(
                        specs[k],
                        fields[k],
                        index,
                        path.skip(1),
                    );
                }
            },
            (SpecModel::ListElems(of_elem), TyModel::List(elem)) => {
                if path[0] == 0 {
                    law_every_field_is_checked(seq![], *of_elem, ty, index);
                    law_fast_paths_are_checked_at_any_depth(
                        *of_elem,
                        *elem,
                        index,
                        path.skip(1),
                    );
                }
            },
            _ => {},
        }
    }
}

// ---------------------------------------------------------------------------------------
// Memory.
// ---------------------------------------------------------------------------------------

/// An allocation is aligned, lies inside memory and behind everything allocated before, and
/// filling it leaves every other byte alone; the next allocation lies behind it.
pub proof fn law_allocations_are_disjoint(
    s: StoreModel,
    bytes: Seq<u8>,
    align: nat,
    next_align: nat,
)
    requires
        align > 0,
        next_align > 0,
        s.room(bytes.len(), align),
    ensures
        s.slot(align) % align == 0,
        s.next <= s.slot(align) < s.next + align,
        s.with(bytes, align).next == s.slot(align) + bytes.len(),
        s.reset().next == 0 && s.reset().mem == s.mem,
        stands_at(s.with(bytes, align).mem, s.slot(align) as int, bytes),
        s.with(bytes, align).mem.len() == s.mem.len(),
        forall|i: int|
            0 <= i < s.mem.len() && !(s.slot(align) <= i < s.slot(align) + bytes.len())
                ==> #[trigger] s.with(bytes, align).mem[i] == s.mem[i],
        s.slot(align) + bytes.len() <= s.with(bytes, align).slot(next_align),
{
    layout::lemma_round_up(s.next, align);
    layout::lemma_round_up(s.with(bytes, align).next, next_align);
    assert(s.with(bytes, align).mem.subrange(
        s.slot(align) as int,
        s.slot(align) + bytes.len() as int,
    ) =~= bytes);
}

// ---------------------------------------------------------------------------------------
// Validity.
// ---------------------------------------------------------------------------------------

/// For a type whose bit patterns are all valid, validation looks at lengths only.
pub proof fn law_total_types_need_no_sweep(ty: TyModel, bytes: Seq<u8>)
    requires
        ty.total(),
    ensures
        validity::valid_run(ty, bytes) <==> validity::whole(ty, bytes),
{
    validity::lemma_total_valid(ty, bytes, 0);
    assert forall|k: int| 0 <= k < bytes.len() / ty.size() implies #[trigger] validity::valid_at(
        ty,
        bytes,
        k * ty.size(),
    ) by {
        validity::lemma_total_valid(ty, bytes, k * ty.size());
    }
}

/// Validity looks only at the bytes of the value itself.
proof fn lemma_valid_same(ty: TyModel, a: Seq<u8>, i: int, b: Seq<u8>, j: int)
    requires
        0 <= i,
        0 <= j,
        i + ty.size() <= a.len(),
        j + ty.size() <= b.len(),
        forall|k: int| 0 <= k < ty.size() ==> a[#[trigger] (i + k)] == b[j + k],
    ensures
        validity::valid_at(ty, a, i) == validity::valid_at(ty, b, j),
    decreases ty, 0nat,
{
    match ty {
        TyModel::Enum(_) => {
            value::lemma_word_same(a, i, b, j);
        },
        TyModel::Record(fields) => {
            layout::lemma_fields_words(fields, fields.len());
            lemma_valid_fields_same(fields, a, i, b, j, fields.len());
        },
        _ => {},
    }
}

proof fn lemma_valid_fields_same(
    fields: Seq<TyModel>,
    a: Seq<u8>,
    i: int,
    b: Seq<u8>,
    j: int,
    n: nat,
)
    requires
        n <= fields.len(),
        0 <= i,
        0 <= j,
        i + layout::fields_end(fields, n) <= a.len(),
        j + layout::fields_end(fields, n) <= b.len(),
        forall|k: int|
            0 <= k < layout::fields_end(fields, n) ==> a[#[trigger] (i + k)] == b[j + k],
    ensures
        validity::fields_valid_at(fields, a, i, n) == validity::fields_valid_at(fields, b, j, n),
    decreases fields, n,
{
    if n > 0 {
        let m = (n - 1) as nat;
        let o = layout::field_offset(fields, m) as int;
        layout::lemma_fields_words(fields, n);
        lemma_valid_fields_same(fields, a, i, b, j, m);
        assert forall|k: int| 0 <= k < fields[n - 1].size() implies a[#[trigger] (i + o + k)]
            == b[j + o + k] by {
            assert(a[i + (o + k)] == b[j + (o + k)]);
        }
        lemma_valid_same(fields[n - 1], a, i + o, b, j + o);
    }
}

/// What was validated once stays valid: every range of whole elements of a valid run is a
/// valid run, so that an arena can replay slices with nothing checked again.
pub proof fn law_slices_of_a_valid_run_are_valid(
    elem: TyModel,
    bytes: Seq<u8>,
    start: nat,
    count: nat,
)
    requires
        validity::valid_run(elem, bytes),
        arena::strided_within(bytes, elem.size(), start, count),
    ensures
        validity::valid_run(elem, arena::strided(bytes, elem.size(), start, count)),
{
    let size = elem.size();
    let slice = arena::strided(bytes, size, start, count);
    let total = (bytes.len() / size) as int;
    arena::lemma_strided_bounds(size, start, count);
    assert(slice.len() == count * size);
    vstd::arithmetic::div_mod::lemma_mod_multiples_basic(count as int, size as int);
    vstd::arithmetic::div_mod::lemma_div_by_multiple(count as int, size as int);
    vstd::arithmetic::div_mod::lemma_fundamental_div_mod(bytes.len() as int, size as int);
    assert forall|k: int| 0 <= k < slice.len() / size implies #[trigger] validity::valid_at(
        elem,
        slice,
        k * size,
    ) by {
        let at = (start + k) * size;
        assert(at == start * size + k * size) by (nonlinear_arith)
            requires
                at == (start + k) * size,
        ;
        assert(k * size + size <= count * size) by (nonlinear_arith)
            requires
                k + 1 <= count,
        ;
        assert(k * size >= 0) by (nonlinear_arith)
            requires
                k >= 0,
                size >= 0,
        ;
        assert(start + k < total) by (nonlinear_arith)
            requires
                (start + count) * size <= size * total,
                k < count,
                size > 0,
        ;
        assert(validity::valid_at(elem, bytes, (start + k) * size));
        lemma_valid_same(elem, slice, k * size, bytes, at);
    }
}

// ---------------------------------------------------------------------------------------
// Streams.
// ---------------------------------------------------------------------------------------

/// The chunks of a stream are its data: one after the other they make it up, none is empty,
/// and each but the last has the full size.
pub proof fn law_chunks_make_up_the_data(data: Seq<u8>, size: nat)
    requires
        size > 0,
    ensures
        ({
            let chunks = stream::chunked(data, size);
            &&& source::join(chunks, 0, chunks.len()) == data
            &&& forall|i: int|
                0 <= i < chunks.len() ==> 0 < (#[trigger] chunks[i]).len() <= size
            &&& forall|i: int| 0 <= i < chunks.len() - 1 ==> (#[trigger] chunks[i]).len() == size
        }),
    decreases data.len(),
{
    let chunks = stream::chunked(data, size);
    if data.len() == 0 {
        assert(source::join(chunks, 0, 0) =~= data);
    } else if data.len() <= size {
        assert(source::join(chunks, 0, 0) + chunks[0] =~= data);
    } else {
        let first = data.take(size as int);
        let rest = stream::chunked(data.skip(size as int), size);
        law_chunks_make_up_the_data(data.skip(size as int), size);
        lemma_join_splits(chunks, 0, 1, rest.len());
        lemma_join_shifts(chunks, rest, rest.len());
        assert(source::join(chunks, 0, 0) + chunks[0] =~= first);
        assert(first + data.skip(size as int) =~= data);
        assert forall|i: int| 0 <= i < chunks.len() implies 0 < (#[trigger] chunks[i]).len()
            <= size by {
            if i > 0 {
                assert(chunks[i] == rest[i - 1]);
            }
        }
        assert forall|i: int| 0 <= i < chunks.len() - 1 implies (#[trigger] chunks[i]).len()
            == size by {
            if i > 0 {
                assert(chunks[i] == rest[i - 1]);
            }
        }
    }
}

proof fn lemma_join_shifts(parts: Seq<Seq<u8>>, rest: Seq<Seq<u8>>, n: nat)
    requires
        parts.len() == rest.len() + 1,
        n <= rest.len(),
        forall|k: int| 0 <= k < rest.len() ==> parts[k + 1] == #[trigger] rest[k],
    ensures
        source::join(parts, 1, n) == source::join(rest, 0, n),
    decreases n,
{
    if n > 0 {
        lemma_join_shifts(parts, rest, (n - 1) as nat);
        assert(parts[n - 1 + 1] == rest[n - 1]);
    }
}

// ---------------------------------------------------------------------------------------
// A guest that reads what it is handed.
// ---------------------------------------------------------------------------------------

/// The sum of the first `n` of some words, modulo two to the power of 32.
pub open spec fn wrapping_sum(xs: Seq<u32>, n: nat) -> u32
    decreases n,
{
    if n == 0 || n > xs.len() {
        0
    } else {
        ((wrapping_sum(xs, (n - 1) as nat) + xs[n - 1]) % 0x1_0000_0000) as u32
    }
}

/// The dynamic values of some words.
pub open spec fn word_values(xs: Seq<u32>) -> Seq<ValModel> {
    Seq::new(xs.len(), |k: int| ValModel::U32(xs[k]))
}

/// A guest that is handed a list of words sums the words that the host meant, from whichever
/// representation they were lowered.
pub proof fn law_guest_sums_what_the_host_meant(handed: Handed, xs: Seq<u32>)
    requires
        stands_at(
            handed.store.mem,
            guest::int_in(handed.core, 0),
            list_encode(TyModel::U32, word_values(xs)),
        ),
        guest::int_in(handed.core, 1) == xs.len(),
    ensures
        SumWords::sum(handed) == wrapping_sum(xs, xs.len()),
{
    lemma_sum_upto(handed.store.mem, guest::int_in(handed.core, 0), xs, xs.len());
}

/// The words of the image of some words are those words.
pub proof fn lemma_sum_upto(mem: Seq<u8>, ptr: int, xs: Seq<u32>, n: nat)
    requires
        n <= xs.len(),
        stands_at(mem, ptr, list_encode(TyModel::U32, word_values(xs))),
    ensures
        guests::sum_of_words(mem, ptr, n) == wrapping_sum(xs, n),
    decreases n,
{
    if n > 0 {
        lemma_sum_upto(mem, ptr, xs, (n - 1) as nat);
        lemma_item_stands(mem, TyModel::U32, word_values(xs), ptr, (n - 1) as nat);
        lemma_word_stands(mem, ptr + (n - 1) * 4, xs[n - 1]);
    }
}

/// A valid run is the images of its elements, one after the other.
proof fn lemma_run_is_join(elem: TyModel, bytes: Seq<u8>, items: Seq<ValModel>, n: nat)
    requires
        elem.inline(),
        elem.size() > 0,
        n <= items.len(),
        all_items_fit(elem, items),
        forall|k: int|
            0 <= k < items.len() ==> stands_at(
                bytes,
                k * elem.size(),
                value::encode(elem, #[trigger] items[k]),
            ),
    ensures
        0 <= n * elem.size() <= bytes.len(),
        source::join(source::encode_all(elem, items), 0, n) == bytes.take(
            (n * elem.size()) as int,
        ),
    decreases n,
{
    if n == 0 {
        assert(0 * elem.size() == 0) by (nonlinear_arith);
        assert(bytes.take(0) =~= seq![]);
    } else {
        let m = (n - 1) as nat;
        let size = elem.size();
        lemma_run_is_join(elem, bytes, items, m);
        let image = value::encode(elem, items[m as int]);
        value::lemma_encode_size(elem, items[m as int]);
        assert(stands_at(bytes, m * size as int, image));
        assert(m * size + size == n * size) by (nonlinear_arith)
            requires
                n == m + 1,
        ;
        assert(source::encode_all(elem, items)[m as int] == image);
        assert(bytes.take((n * size) as int) =~= bytes.take((m * size) as int) + image);
    }
}

/// The bytes that a list is received as can be passed on: they stand for the very list that is
/// received dynamically, so that a value goes from one guest to another without being rebuilt.
#[verifier::rlimit(30)]
pub proof fn law_received_bytes_are_a_source(received: LiftedModel, i: nat, elem: TyModel)
    requires
        i < received.tys.len(),
        received.tys[i as int] == TyModel::List(Box::new(elem)),
        received.has_view(i),
        received.ptr(i) % 4 == 0,
        validity::valid_run(elem, received.bytes(i)),
    ensures
        received.has_val(i),
        received.val(i) is List,
        all_items_fit(elem, received.val(i)->List_0),
        denotes_list(
            SourceModel::ListFlat(Validated { bytes: received.bytes(i), elem }),
            elem,
            received.val(i)->List_0,
        ),
{
    let mem = received.mem;
    let bytes = received.bytes(i);
    let ptr = received.ptr(i) as nat;
    let count = received.count(i) as nat;
    let size = elem.size();
    let items = received.val(i)->List_0;
    layout::lemma_words(elem);
    assert(bytes.len() == count * size);
    vstd::arithmetic::div_mod::lemma_div_by_multiple(count as int, size as int);
    assert forall|k: int| 0 <= k < count implies {
        &&& value::fits(elem, #[trigger] items[k])
        &&& stands_at(bytes, k * size, value::encode(elem, items[k]))
        &&& (ptr + k * size) % 4 == 0
        &&& 0 <= k * size
        &&& ptr + k * size + size <= mem.len()
    } by {
        let at = (k * size) as nat;
        assert(0 <= k * size && k * size + size <= count * size) by (nonlinear_arith)
            requires
                0 <= k,
                k + 1 <= count,
        ;
        lemma_multiple_of_four(0, k as nat, size);
        lemma_multiple_of_four(ptr as int, k as nat, size);
        assert(validity::valid_at(elem, bytes, k * size));
        law_valid_bytes_are_an_image(elem, bytes, at);
        let v = lift::lifted(bytes, elem, at);
        let image = value::encode(elem, v);
        value::lemma_encode_size(elem, v);
        let from = k * size;
        assert(mem.subrange(ptr + from, ptr + from + image.len()) =~= bytes.subrange(
            from,
            from + image.len(),
        ));
        law_lifting_reads_the_image(mem, elem, v, ptr + at);
        assert(items[k] == v);
    }
    assert forall|k: nat| k < received.count(i) implies #[trigger] lift::readable(
        elem,
        (received.ptr(i) + k * size) as nat,
        mem.len(),
    ) by {
        assert(value::fits(elem, items[k as int]));
        layout::lemma_round_up((ptr + k * size) as nat, 4);
    }
    lemma_run_is_join(elem, bytes, items, count);
    assert(bytes.take(bytes.len() as int) =~= bytes);
}

// ---------------------------------------------------------------------------------------
// Elements, words and preparation.
// ---------------------------------------------------------------------------------------

/// Each element comes from its own place: a range of one element is the image of that element, in
/// whichever representation the list is provided.
pub proof fn law_a_range_of_one_is_its_element(src: SourceModel, elem: TyModel, k: nat)
    requires
        src.has_range(elem, k, 1),
    ensures
        match src {
            SourceModel::Val(ValModel::List(items)) => k < items.len() && src.range_image(
                elem,
                k,
                1,
            ) == value::encode(elem, items[k as int]),
            SourceModel::ListElems(items) => k < items.len() && src.range_image(elem, k, 1)
                == source::value_image(items[k as int], elem),
            SourceModel::Lazy(elements) => k < elements.len() && src.range_image(elem, k, 1)
                == elements[k as int],
            SourceModel::ListFlat(vb) => stands_at(
                vb.bytes,
                (k * elem.size()) as int,
                src.range_image(elem, k, 1),
            ) && src.range_image(elem, k, 1).len() == elem.size(),
            SourceModel::Arena(slice) => stands_at(
                slice.bytes,
                (k * slice.stride) as int,
                src.range_image(elem, k, 1),
            ) && src.range_image(elem, k, 1).len() == slice.stride,
            _ => false,
        },
{
    let one = src.range_image(elem, k, 1);
    match src {
        SourceModel::Val(ValModel::List(items)) => {
            lemma_join_one(source::encode_all(elem, items), k);
        },
        SourceModel::ListElems(items) => {
            lemma_join_one(source::value_images(items, elem), k);
        },
        SourceModel::Lazy(elements) => {
            lemma_join_one(elements, k);
        },
        SourceModel::ListFlat(vb) => {
            arena::lemma_strided_bounds(elem.size(), k, 1);
            assert(1 * elem.size() == elem.size());
            assert(vb.bytes.subrange(
                (k * elem.size()) as int,
                (k * elem.size() + elem.size()) as int,
            ) =~= one);
        },
        SourceModel::Arena(slice) => {
            arena::lemma_strided_bounds(slice.stride, k, 1);
            assert(1 * slice.stride == slice.stride);
            assert(slice.bytes.subrange(
                (k * slice.stride) as int,
                (k * slice.stride + slice.stride) as int,
            ) =~= one);
        },
        _ => {},
    }
}

proof fn lemma_join_one(parts: Seq<Seq<u8>>, k: nat)
    ensures
        source::join(parts, k, 1) == parts[k as int],
{
    assert(source::join(parts, k, 0) =~= seq![]);
    assert(source::join(parts, k, 1) =~= parts[k + 1 - 1]);
}

/// Words are summed modulo two to the power of 32: none sum to zero, one is its own sum, and the
/// sum of some words and those behind them is that of both sums.
pub proof fn law_words_are_summed_modulo(mem: Seq<u8>, ptr: int, a: nat, b: nat)
    ensures
        guests::sum_of_words(mem, ptr, 0) == 0,
        guests::sum_of_words(mem, ptr, 1) == value::word_at(mem, ptr),
        guests::sum_of_words(mem, ptr, a + b) as int == (guests::sum_of_words(mem, ptr, a)
            + guests::sum_of_words(mem, ptr + 4 * a, b)) % 0x1_0000_0000,
    decreases b,
{
    assert(guests::sum_of_words(mem, ptr, 0) == 0);
    assert(guests::sum_of_words(mem, ptr, 1) == value::word_at(mem, ptr));
    if b > 0 {
        let c = (b - 1) as nat;
        law_words_are_summed_modulo(mem, ptr, a, c);
        let y = value::word_at(mem, ptr + 4 * a + 4 * (b - 1));
        let p = guests::sum_of_words(mem, ptr, a) as int;
        let q = guests::sum_of_words(mem, ptr + 4 * a, c) as int;
        assert(ptr + 4 * ((a + b) - 1) == ptr + 4 * a + 4 * (b - 1));
        assert(((a + b) - 1) as nat == a + c);
        assert(guests::sum_of_words(mem, ptr, a + b) as int == (guests::sum_of_words(
            mem,
            ptr,
            a + c,
        ) + y) % 0x1_0000_0000);
        assert(guests::sum_of_words(mem, ptr + 4 * a, b) as int == (q + y) % 0x1_0000_0000);
        lemma_sums_modulo(p, q, y as int);
    }
}

/// The same of words that are given one by one.
pub proof fn law_given_words_are_summed_modulo(xs: Seq<u32>, ys: Seq<u32>, x: u32)
    ensures
        wrapping_sum(seq![], 0) == 0,
        wrapping_sum(seq![x], 1) == x,
        wrapping_sum(xs + ys, xs.len() + ys.len()) as int == (wrapping_sum(xs, xs.len())
            + wrapping_sum(ys, ys.len())) % 0x1_0000_0000,
    decreases ys.len(),
{
    let none = Seq::<u32>::empty();
    lemma_one_word_more(none, x);
    assert(none.push(x) =~= seq![x]);
    if ys.len() == 0 {
        assert(xs + ys =~= xs);
    } else {
        let fewer = ys.drop_last();
        let y = ys.last();
        law_given_words_are_summed_modulo(xs, fewer, x);
        lemma_one_word_more(xs + fewer, y);
        lemma_one_word_more(fewer, y);
        assert((xs + fewer).push(y) =~= xs + ys);
        assert(fewer.push(y) =~= ys);
        let p = wrapping_sum(xs, xs.len()) as int;
        let q = wrapping_sum(fewer, fewer.len()) as int;
        lemma_sums_modulo(p, q, y as int);
    }
}

/// It does not matter where sums are cut to a word.
proof fn lemma_sums_modulo(p: int, q: int, y: int)
    ensures
        ((p + q) % 0x1_0000_0000 + y) % 0x1_0000_0000 == (p + (q + y) % 0x1_0000_0000)
            % 0x1_0000_0000,
{
    vstd::arithmetic::div_mod::lemma_add_mod_noop_right(y, p + q, 0x1_0000_0000);
    vstd::arithmetic::div_mod::lemma_add_mod_noop_right(p, q + y, 0x1_0000_0000);
}

/// One word more is added.
proof fn lemma_one_word_more(xs: Seq<u32>, y: u32)
    ensures
        wrapping_sum(xs.push(y), xs.len() + 1) as int == (wrapping_sum(xs, xs.len()) + y)
            % 0x1_0000_0000,
{
    lemma_wrapping_front(xs, y, xs.len());
    assert(xs.push(y)[xs.len() as int] == y);
}

proof fn lemma_wrapping_front(xs: Seq<u32>, y: u32, n: nat)
    requires
        n <= xs.len(),
    ensures
        wrapping_sum(xs.push(y), n) == wrapping_sum(xs, n),
    decreases n,
{
    if n > 0 {
        lemma_wrapping_front(xs, y, (n - 1) as nat);
        assert(xs.push(y)[n - 1] == xs[n - 1]);
    }
}

/// A call is prepared just when there is a spec for every parameter, and each is accepted for its
/// own. Otherwise the numbers are named where they differ; else the first spec that is refused
/// speaks, under its own position.
pub proof fn law_every_argument_is_prepared_for(specs: Seq<SpecModel>, tys: Seq<TyModel>, k: int)
    ensures
        call::prepare_error(specs, tys) is None <==> specs.len() == tys.len() && forall|j: int|
            0 <= j < specs.len() ==> shape::shape_error(#[trigger] specs[j], tys[j], j as usize)
                is None,
        specs.len() != tys.len() ==> call::prepare_error(specs, tys) == Some(
            Error::Arity { expected: tys.len() as usize, got: specs.len() as usize },
        ),
        specs.len() == tys.len() && 0 <= k < specs.len() && shape::shape_error(
            specs[k],
            tys[k],
            k as usize,
        ) is Some && (forall|j: int|
            0 <= j < k ==> shape::shape_error(#[trigger] specs[j], tys[j], j as usize) is None)
            ==> call::prepare_error(specs, tys) == shape::shape_error(specs[k], tys[k], k as usize),
{
    lemma_first_error(specs, tys, specs.len());
}

proof fn lemma_first_error(specs: Seq<SpecModel>, tys: Seq<TyModel>, n: nat)
    requires
        n <= specs.len(),
    ensures
        call::first_error(specs, tys, n) is None <==> forall|j: int|
            0 <= j < n ==> shape::shape_error(#[trigger] specs[j], tys[j], j as usize) is None,
        forall|k: int|
            0 <= k < n && shape::shape_error(#[trigger] specs[k], tys[k], k as usize) is Some && (
            forall|j: int|
                0 <= j < k ==> shape::shape_error(#[trigger] specs[j], tys[j], j as usize) is None)
                ==> call::first_error(specs, tys, n) == shape::shape_error(
                specs[k],
                tys[k],
                k as usize,
            ),
    decreases n,
{
    if n > 0 {
        let m = (n - 1) as nat;
        lemma_first_error(specs, tys, m);
        assert(m as usize == (m as int) as usize);
    }
}

/// Why a call is refused. The number of arguments comes first, and then nothing was done to guest
/// memory. After that the first argument that is not as it should be speaks: it names its position
/// where it has another representation than was prepared for, and is invalid otherwise.
pub proof fn law_the_first_bad_argument_is_named(
    a: call::BoundCall<'_>,
    store: StoreModel,
    k: nat,
)
    ensures
        a.args().len() != a.prepared().specs().len() ==> a.refusal(store) == Some(
            (
                Error::Arity {
                    expected: a.prepared().specs().len() as usize,
                    got: a.args().len() as usize,
                },
                store,
            ),
        ),
        a.args().len() == a.prepared().specs().len() ==> (a.refusal(store) is None
            <==> forall|j: int| #![trigger a.args()[j]]
            0 <= j < a.args().len() ==> shape::admits(a.prepared().specs()[j], a.args()[j])
                && call::sound(a.args()[j], a.prepared().params()[j])),
        a.args().len() == a.prepared().specs().len() && k < a.args().len() && (forall|j: int|
            #![trigger a.args()[j]]
            0 <= j < k ==> shape::admits(a.prepared().specs()[j], a.args()[j]) && call::sound(
                a.args()[j],
                a.prepared().params()[j],
            )) ==> {
            &&& !shape::admits(a.prepared().specs()[k as int], a.args()[k as int]) ==> (
            a.refusal(store) matches Some((e, _)) && e == (Error::SpecMismatch {
                index: k as usize,
            }))
            &&& shape::admits(a.prepared().specs()[k as int], a.args()[k as int])
                && !call::sound(a.args()[k as int], a.prepared().params()[k as int]) ==> (
            a.refusal(store) matches Some((e, _)) && e == Error::Validity)
        },
{
    let specs = a.prepared().specs();
    let tys = a.prepared().params();
    let args = a.args();
    call::lemma_all_accepted(specs, tys, args, args.len());
    if a.complete() && k < args.len() && (forall|j: int| #![trigger args[j]]
        0 <= j < k ==> shape::admits(specs[j], args[j]) && call::sound(args[j], tys[j])) {
        call::lemma_all_accepted(specs, tys, args, k);
        if !shape::admits(specs[k as int], args[k as int]) || !call::sound(
            args[k as int],
            tys[k as int],
        ) {
            call::lemma_accepting_stops(specs, tys, args, k, args.len());
        }
    }
}

/// Which representation a spec admits: the one it names, and the dynamic fallback wherever that
/// can be had. A source that comes as bytes is admitted under one spec only, and a dynamic value
/// under every spec but those of records and streams.
pub proof fn law_one_spec_admits_a_source(a: SpecModel, b: SpecModel, src: SourceModel, v: ValModel)
    ensures
        shape::admits(a, SourceModel::Val(v)) <==> !(a is Record) && !(a is Stream),
        !(src is Val) && shape::admits(a, src) && shape::admits(b, src) ==> (a is Flat <==> b is Flat)
            && (a is Record <==> b is Record) && (a is ListFlat <==> b is ListFlat) && (a
            is ListElems <==> b is ListElems) && (a is Lazy <==> b is Lazy) && (a is Arena <==> b
            is Arena) && (a is Stream <==> b is Stream),
        !(src is Val) ==> !shape::admits(SpecModel::Val, src),
        shape::admits(SpecModel::Flat, src) <==> src is Flat || src is Val,
        a is Record ==> (shape::admits(a, src) <==> src is Record),
        shape::admits(SpecModel::ListFlat, src) <==> src is ListFlat || src is Val,
        a is ListElems ==> (shape::admits(a, src) <==> src is ListElems || src is Val),
        shape::admits(SpecModel::Lazy, src) <==> src is Lazy || src is Val,
        shape::admits(SpecModel::Arena, src) <==> src is Arena || src is Val,
        shape::admits(SpecModel::Stream, src) <==> src is Stream,
{
}

/// Only images of values reach a guest: what a sound source supplies for a single value is the
/// image of some value of the type, and what it supplies for a list is as many images of values,
/// one after the other and nothing else, as it has elements.
pub proof fn law_sound_sources_supply_values(src: SourceModel, ty: TyModel, k: nat)
    requires
        call::sound(src, ty),
        !(src is Stream),
    ensures
        match ty {
            TyModel::List(elem) => {
                let image = src.list_image(*elem);
                &&& image.len() == src.list_len() * elem.size()
                &&& k < src.list_len() ==> {
                    let v = lift::lifted(image, *elem, k * elem.size());
                    value::fits(*elem, v) && stands_at(
                        image,
                        (k * elem.size()) as int,
                        value::encode(*elem, v),
                    )
                }
            },
            _ => {
                let image = source::value_image(src, ty);
                let v = lift::lifted(image, ty, 0);
                value::fits(ty, v) && image == value::encode(ty, v)
            },
        },
{
    match ty {
        TyModel::List(elem) => {
            let image = src.list_image(*elem);
            if k < src.list_len() {
                let at = k * elem.size();
                layout::lemma_words(*elem);
                assert(validity::valid_at(*elem, image, k as int * elem.size()));
                validity::lemma_valid_is_inline(*elem, image, at as int);
                assert(at + elem.size() <= src.list_len() * elem.size()) by (nonlinear_arith)
                    requires
                        at == k * elem.size(),
                        k + 1 <= src.list_len(),
                ;
                assert(at % 4 == 0) by {
                    let q = elem.size() / 4;
                    assert(at == 4 * (k * q)) by (nonlinear_arith)
                        requires
                            at == k * elem.size(),
                            elem.size() == 4 * q,
                    ;
                }
                law_valid_bytes_are_an_image(*elem, image, at);
            }
        },
        _ => {
            let image = source::value_image(src, ty);
            law_valid_bytes_are_an_image(ty, image, 0);
            value::lemma_encode_size(ty, lift::lifted(image, ty, 0));
            assert(image.subrange(0, image.len() as int) =~= image);
        },
    }
}

} // verus!
