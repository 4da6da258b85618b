//! Dynamic values, core values, and the canonical byte image of a value.

use crate::layout;
use crate::layout::TyModel;
use vstd::prelude::*;

verus! {

/// An `f32` as its IEEE-754 bit pattern, which is all that a transfer ever looks at.
#[derive(Clone, Copy, Debug, PartialEq, Eq, Structural)]
pub struct F32Bits {
    pub bits: u32,
}

/// The four little-endian bytes of a word.
pub open spec fn le_bytes(x: u32) -> Seq<u8> {
    seq![
        (x % 256) as u8,
        ((x / 256) % 256) as u8,
        ((x / 65536) % 256) as u8,
        (x / 16777216) as u8,
    ]
}

/// The word whose little-endian bytes stand at `at`.
pub open spec fn word_at(bytes: Seq<u8>, at: int) -> u32 {
    (bytes[at] + 256 * bytes[at + 1] + 65536 * bytes[at + 2] + 16777216 * bytes[at + 3]) as u32
}

/// Reading the four bytes of a word gives the word back.
pub broadcast proof fn lemma_word_of_bytes(x: u32)
    ensures
        (#[trigger] le_bytes(x)).len() == 4,
        word_at(le_bytes(x), 0) == x,
{
    assert(x == (x % 256) + 256 * ((x / 256) % 256) + 65536 * ((x / 65536) % 256) + 16777216 * (x
        / 16777216)) by (bit_vector);
    assert(x / 16777216 < 256) by (bit_vector);
    let bytes = le_bytes(x);
    assert(bytes[0] == x % 256);
    assert(bytes[1] == (x / 256) % 256);
    assert(bytes[2] == (x / 65536) % 256);
    assert(bytes[3] == x / 16777216);
}

proof fn lemma_digits(x: int, a: int, b: int, c: int, d: int)
    requires
        0 <= a < 256,
        0 <= b < 256,
        0 <= c < 256,
        0 <= d < 256,
        x == a + 256 * b + 65536 * c + 16777216 * d,
    ensures
        x % 256 == a,
        (x / 256) % 256 == b,
        (x / 65536) % 256 == c,
        x / 16777216 == d,
{
    let y = b + 256 * c + 65536 * d;
    let z = c + 256 * d;
    assert(x == a + 256 * y);
    assert(x / 256 == y);
    assert(y == b + 256 * z);
    assert(x == (a + 256 * b) + 65536 * z);
    assert(x / 65536 == z);
    assert(x == (a + 256 * b + 65536 * c) + 16777216 * d);
}

/// Writing the word read at a place gives the bytes of that place back.
pub proof fn lemma_bytes_of_word(bytes: Seq<u8>, at: int)
    requires
        0 <= at,
        at + 4 <= bytes.len(),
    ensures
        le_bytes(word_at(bytes, at)) == bytes.subrange(at, at + 4),
{
    let (a, b, c, d) = (bytes[at], bytes[at + 1], bytes[at + 2], bytes[at + 3]);
    lemma_digits(word_at(bytes, at) as int, a as int, b as int, c as int, d as int);
    assert(le_bytes(word_at(bytes, at)) =~= bytes.subrange(at, at + 4));
}

/// A word reads the same wherever its four bytes are the same.
pub proof fn lemma_word_same(a: Seq<u8>, i: int, b: Seq<u8>, j: int)
    requires
        forall|k: int| 0 <= k < 4 ==> a[#[trigger] (i + k)] == b[j + k],
    ensures
        word_at(a, i) == word_at(b, j),
{
    assert(a[i + 0] == b[j + 0]);
    assert(a[i + 1] == b[j + 1]);
    assert(a[i + 2] == b[j + 2]);
    assert(a[i + 3] == b[j + 3]);
}

/// Append the little-endian bytes of `x`.
pub fn push_word(out: &mut Vec<u8>, x: u32)
    ensures
        final(out)@ == old(out)@ + le_bytes(x),
{
    out.push((x % 256) as u8);
    out.push(((x / 256) % 256) as u8);
    out.push(((x / 65536) % 256) as u8);
    out.push((x / 16777216) as u8);
    assert(out@ =~= old(out)@ + le_bytes(x));
}

/// Read the little-endian word at `at`.
pub fn read_word(bytes: &[u8], at: usize) -> (x: u32)
    requires
        at + 4 <= bytes@.len(),
    ensures
        x == word_at(bytes@, at as int),
{
    bytes[at] as u32 + 256 * (bytes[at + 1] as u32) + 65536 * (bytes[at + 2] as u32) + 16777216 * (
    bytes[at + 3] as u32)
}

/// A dynamically typed value: the general source, walked element by element.
#[derive(Debug)]
pub enum Val {
    F32(F32Bits),
    U32(u32),
    Enum(u32),
    Record(Vec<Val>),
    List(Vec<Val>),
}

/// The mathematical value of a [`Val`].
pub enum ValModel {
    F32(F32Bits),
    U32(u32),
    Enum(u32),
    Record(Seq<ValModel>),
    List(Seq<ValModel>),
}

impl Val {
    pub open spec fn model(self) -> ValModel
        decreases self, 0nat,
    {
        match self {
            Val::F32(x) => ValModel::F32(x),
            Val::U32(x) => ValModel::U32(x),
            Val::Enum(d) => ValModel::Enum(d),
            Val::Record(vals) => ValModel::Record(models_upto(vals@, vals@.len())),
            Val::List(items) => ValModel::List(models_upto(items@, items@.len())),
        }
    }
}

impl View for Val {
    type V = ValModel;

    open spec fn view(&self) -> ValModel {
        self.model()
    }
}

/// The models of the first `n` of a run of values.
pub open spec fn models_upto(vals: Seq<Val>, n: nat) -> Seq<ValModel>
    decreases vals, n,
{
    if n == 0 || n > vals.len() {
        seq![]
    } else {
        models_upto(vals, (n - 1) as nat).push(vals[n - 1].model())
    }
}

/// The models of a run of values.
pub open spec fn models(vals: Seq<Val>) -> Seq<ValModel> {
    models_upto(vals, vals.len())
}

proof fn lemma_models_upto(vals: Seq<Val>, n: nat)
    requires
        n <= vals.len(),
    ensures
        models_upto(vals, n).len() == n,
        forall|i: int| 0 <= i < n ==> #[trigger] models_upto(vals, n)[i] == vals[i]@,
    decreases n,
{
    if n > 0 {
        lemma_models_upto(vals, (n - 1) as nat);
    }
}

/// The models of a run of values, one for one.
pub broadcast proof fn lemma_models(vals: Seq<Val>)
    ensures
        (#[trigger] models(vals)).len() == vals.len(),
        forall|i: int| 0 <= i < vals.len() ==> #[trigger] models(vals)[i] == vals[i]@,
{
    lemma_models_upto(vals, vals.len());
}

impl Clone for Val {
    fn clone(&self) -> (r: Val)
        ensures
            r@ == self@,
        decreases self,
    {
        match self {
            Val::F32(x) => Val::F32(*x),
            Val::U32(x) => Val::U32(*x),
            Val::Enum(d) => Val::Enum(*d),
            Val::Record(vals) => {
                let mut copies: Vec<Val> = Vec::new();
                let mut i: usize = 0;
                while i < vals.len()
                    invariant
                        i <= vals@.len(),
                        copies@.len() == i,
                        *self matches Val::Record(v) && v == *vals,
                        forall|k: int| 0 <= k < i ==> copies@[k]@ == vals@[k]@,
                    decreases vals@.len() - i,
                {
                    assert(decreases_to!(self => vals@[i as int]));
                    copies.push(vals[i].clone());
                    i += 1;
                }
                proof {
                    lemma_models(vals@);
                    lemma_models(copies@);
                    assert(models(copies@) =~= models(vals@));
                }
                Val::Record(copies)
            },
            Val::List(items) => {
                let mut copies: Vec<Val> = Vec::new();
                let mut i: usize = 0;
                while i < items.len()
                    invariant
                        i <= items@.len(),
                        copies@.len() == i,
                        *self matches Val::List(v) && v == *items,
                        forall|k: int| 0 <= k < i ==> copies@[k]@ == items@[k]@,
                    decreases items@.len() - i,
                {
                    assert(decreases_to!(self => items@[i as int]));
                    copies.push(items[i].clone());
                    i += 1;
                }
                proof {
                    lemma_models(items@);
                    lemma_models(copies@);
                    assert(models(copies@) =~= models(items@));
                }
                Val::List(copies)
            },
        }
    }
}

/// A flattened core value; a list flattens to an `I32` pointer and an `I32` length.
#[derive(Clone, Copy, Debug, PartialEq, Eq, Structural)]
pub enum CoreVal {
    I32(i32),
    F32(F32Bits),
}

impl CoreVal {
    /// The integer in an `I32`.
    pub fn as_i32(self) -> (r: i32)
        requires
            self is I32,
        ensures
            self == CoreVal::I32(r),
    {
        match self {
            CoreVal::I32(x) => x,
            CoreVal::F32(_) => vstd::pervasive::unreached(),
        }
    }
}

// ---------------------------------------------------------------------------------------
// Canonical images.
// ---------------------------------------------------------------------------------------

/// How many pairs a zip of two runs yields.
pub open spec fn pairs(a: nat, b: nat) -> nat {
    if a < b {
        a
    } else {
        b
    }
}

/// `image` followed by as many zeros as bring it to a multiple of `align`.
pub open spec fn padded(image: Seq<u8>, align: nat) -> Seq<u8> {
    image + Seq::new((layout::round_up(image.len(), align) - image.len()) as nat, |i: int| 0u8)
}

/// `v` can be written down as a `ty`: it has the shape of the type, and its discriminants are
/// in range. A record may bring fewer or more values than the type has fields; the surplus of
/// either is left aside.
pub open spec fn encodable(ty: TyModel, v: ValModel) -> bool
    decreases ty, 0nat,
{
    match (ty, v) {
        (TyModel::F32, ValModel::F32(_)) => true,
        (TyModel::U32, ValModel::U32(_)) => true,
        (TyModel::Enum(cases), ValModel::Enum(d)) => d < cases,
        (TyModel::Record(fields), ValModel::Record(vals)) => all_encodable(
            fields,
            vals,
            pairs(fields.len(), vals.len()),
        ),
        _ => false,
    }
}

/// The first `n` values can be written down as the first `n` fields.
pub open spec fn all_encodable(fields: Seq<TyModel>, vals: Seq<ValModel>, n: nat) -> bool
    decreases fields, n,
{
    n == 0 || n > fields.len() || (all_encodable(fields, vals, (n - 1) as nat) && encodable(
        fields[n - 1],
        vals[n - 1],
    ))
}

/// `v` is a value of type `ty`, with a value for every field of every record.
pub open spec fn fits(ty: TyModel, v: ValModel) -> bool
    decreases ty, 0nat,
{
    match (ty, v) {
        (TyModel::Record(fields), ValModel::Record(vals)) => fields.len() == vals.len()
            && all_fit(fields, vals, fields.len()),
        _ => encodable(ty, v),
    }
}

/// The first `n` values are values of the first `n` fields.
pub open spec fn all_fit(fields: Seq<TyModel>, vals: Seq<ValModel>, n: nat) -> bool
    decreases fields, n,
{
    n == 0 || n > fields.len() || (all_fit(fields, vals, (n - 1) as nat) && fits(
        fields[n - 1],
        vals[n - 1],
    ))
}

/// The canonical byte image of an inline value.
pub open spec fn encode(ty: TyModel, v: ValModel) -> Seq<u8>
    decreases ty, 0nat,
{
    match (ty, v) {
        (TyModel::F32, ValModel::F32(x)) => le_bytes(x.bits),
        (TyModel::U32, ValModel::U32(x)) => le_bytes(x),
        (TyModel::Enum(_), ValModel::Enum(d)) => le_bytes(d),
        (TyModel::Record(fields), ValModel::Record(vals)) => padded(
            encode_fields(fields, vals, pairs(fields.len(), vals.len())),
            layout::fields_align(fields, fields.len()),
        ),
        _ => seq![],
    }
}

/// The image of the first `n` fields of a record, each at its own alignment.
pub open spec fn encode_fields(fields: Seq<TyModel>, vals: Seq<ValModel>, n: nat) -> Seq<u8>
    decreases fields, n,
{
    if n == 0 || n > fields.len() {
        seq![]
    } else {
        padded(encode_fields(fields, vals, (n - 1) as nat), fields[n - 1].align()) + encode(
            fields[n - 1],
            vals[n - 1],
        )
    }
}

/// Padding a whole number of words to a word boundary adds nothing.
pub proof fn lemma_padded_words(image: Seq<u8>, t: TyModel)
    requires
        image.len() % 4 == 0,
    ensures
        padded(image, t.align()) == image,
        padded(image, 1) == image,
        padded(image, 4) == image,
{
    layout::lemma_words(t);
    layout::lemma_round_up(image.len(), 4);
    layout::lemma_round_up(image.len(), 1);
    assert(padded(image, 4) =~= image);
    assert(padded(image, 1) =~= image);
}

/// An image is a whole number of words.
pub proof fn lemma_encode_words(ty: TyModel, v: ValModel)
    ensures
        encode(ty, v).len() % 4 == 0,
        (ty, v) matches (TyModel::Record(fields), ValModel::Record(vals)) ==> encode(ty, v)
            == encode_fields(fields, vals, pairs(fields.len(), vals.len())),
    decreases ty, 0nat,
{
    match (ty, v) {
        (TyModel::Record(fields), ValModel::Record(vals)) => {
            let n = pairs(fields.len(), vals.len());
            lemma_encode_fields_words(fields, vals, n);
            lemma_padded_words(encode_fields(fields, vals, n), ty);
        },
        _ => {},
    }
}

/// So are the fields of a record, which follow one another without padding.
#[verifier::rlimit(30)]
pub proof fn lemma_encode_fields_words(fields: Seq<TyModel>, vals: Seq<ValModel>, n: nat)
    requires
        n <= fields.len(),
    ensures
        encode_fields(fields, vals, n).len() % 4 == 0,
        n > 0 ==> encode_fields(fields, vals, n) == encode_fields(fields, vals, (n - 1) as nat)
            + encode(fields[n - 1], vals[n - 1]),
    decreases fields, n,
{
    if n > 0 {
        let before = encode_fields(fields, vals, (n - 1) as nat);
        let field = encode(fields[n - 1], vals[n - 1]);
        lemma_encode_fields_words(fields, vals, (n - 1) as nat);
        lemma_encode_words(fields[n - 1], vals[n - 1]);
        assert(padded(before, fields[n - 1].align()) == before) by {
            lemma_padded_words(before, fields[n - 1]);
        }
        assert(encode_fields(fields, vals, n) == before + field);
        assert((before + field).len() == before.len() + field.len());
        assert((before.len() + field.len()) % 4 == 0);
    }
}

/// The image of a fitting value takes exactly the room of its type.
pub proof fn lemma_encode_size(ty: TyModel, v: ValModel)
    requires
        fits(ty, v),
    ensures
        encodable(ty, v),
        encode(ty, v).len() == ty.size(),
    decreases ty, 0nat,
{
    match (ty, v) {
        (TyModel::Record(fields), ValModel::Record(vals)) => {
            lemma_encode_fields_size(fields, vals, fields.len());
            layout::lemma_fields_words(fields, fields.len());
            lemma_encode_words(ty, v);
        },
        _ => {},
    }
}

/// The image of the first `n` fields ends where those fields end.
pub proof fn lemma_encode_fields_size(fields: Seq<TyModel>, vals: Seq<ValModel>, n: nat)
    requires
        n <= fields.len(),
        all_fit(fields, vals, n),
    ensures
        all_encodable(fields, vals, n),
        encode_fields(fields, vals, n).len() == layout::fields_end(fields, n),
    decreases fields, n,
{
    if n > 0 {
        lemma_encode_fields_size(fields, vals, (n - 1) as nat);
        lemma_encode_size(fields[n - 1], vals[n - 1]);
        lemma_encode_fields_words(fields, vals, n);
        layout::lemma_fields_words(fields, n);
    }
}

/// Each of the values that can be written down can be.
pub proof fn lemma_all_encodable(fields: Seq<TyModel>, vals: Seq<ValModel>, n: nat, i: nat)
    requires
        i < n <= fields.len(),
        all_encodable(fields, vals, n),
    ensures
        encodable(fields[i as int], vals[i as int]),
    decreases n,
{
    if i < n - 1 {
        lemma_all_encodable(fields, vals, (n - 1) as nat, i);
    }
}

// ---------------------------------------------------------------------------------------
// What holds of images.
// ---------------------------------------------------------------------------------------

/// A word is stored with its least byte first: its bytes, each weighed by 256 to its place, add up
/// to it, and reading them gives it back wherever they stand.
pub proof fn law_words_are_little_endian(x: u32, before: Seq<u8>, after: Seq<u8>)
    ensures
        le_bytes(x).len() == 4,
        x == le_bytes(x)[0] + 0x100 * le_bytes(x)[1] + 0x1_0000 * le_bytes(x)[2] + 0x100_0000
            * le_bytes(x)[3],
        word_at(before + le_bytes(x) + after, before.len() as int) == x,
{
    lemma_word_of_bytes(x);
    let bytes = le_bytes(x);
    let all = before + bytes + after;
    let at = before.len() as int;
    assert(all[at] == bytes[0] && all[at + 1] == bytes[1] && all[at + 2] == bytes[2] && all[at + 3]
        == bytes[3]);
}

/// A number and a discriminant are stored as their word, and only as what they are: the image of
/// one holds its bits, and a discriminant must be below the number of cases.
pub proof fn law_scalars_are_stored_as_words(ty: TyModel, v: ValModel, x: u32, cases: u32)
    requires
        !(v is Record),
    ensures
        encode(TyModel::F32, ValModel::F32(F32Bits { bits: x })) == le_bytes(x),
        encode(TyModel::U32, ValModel::U32(x)) == le_bytes(x),
        encode(TyModel::Enum(cases), ValModel::Enum(x)) == le_bytes(x),
        encodable(TyModel::Enum(cases), ValModel::Enum(x)) <==> x < cases,
        encodable(ty, v) <==> (ty is F32 && v is F32) || (ty is U32 && v is U32) || (ty matches
            TyModel::Enum(n) && v matches ValModel::Enum(d) && d < n),
        fits(ty, v) <==> encodable(ty, v),
{
}

/// A record is stored field by field: another field puts its image behind those before it, and
/// can be stored, or fits, just when it and they can.
pub proof fn law_records_are_stored_by_field(
    fields: Seq<TyModel>,
    vals: Seq<ValModel>,
    t: TyModel,
    v: ValModel,
)
    requires
        fields.len() == vals.len(),
    ensures
        encode(TyModel::Record(seq![]), ValModel::Record(seq![])) == Seq::<u8>::empty(),
        encode(TyModel::Record(fields.push(t)), ValModel::Record(vals.push(v))) == encode(
            TyModel::Record(fields),
            ValModel::Record(vals),
        ) + encode(t, v),
        encodable(TyModel::Record(fields.push(t)), ValModel::Record(vals.push(v))) <==> encodable(
            TyModel::Record(fields),
            ValModel::Record(vals),
        ) && encodable(t, v),
        fits(TyModel::Record(fields.push(t)), ValModel::Record(vals.push(v))) <==> fits(
            TyModel::Record(fields),
            ValModel::Record(vals),
        ) && fits(t, v),
{
    let n = fields.len();
    let (more, others) = (fields.push(t), vals.push(v));
    lemma_same_front(fields, vals, more, others, n);
    lemma_encode_words(TyModel::Record(fields), ValModel::Record(vals));
    lemma_encode_words(TyModel::Record(more), ValModel::Record(others));
    lemma_encode_words(TyModel::Record(seq![]), ValModel::Record(seq![]));
    lemma_encode_fields_words(more, others, n + 1);
}

/// What a record has too much of is left aside: values without a field, and fields without a
/// value, change nothing of the image, nor of what can be stored. Neither fits.
pub proof fn law_surplus_is_left_aside(
    fields: Seq<TyModel>,
    vals: Seq<ValModel>,
    t: TyModel,
    v: ValModel,
)
    ensures
        fields.len() <= vals.len() ==> encode(
            TyModel::Record(fields),
            ValModel::Record(vals.push(v)),
        ) == encode(TyModel::Record(fields), ValModel::Record(vals)) && encodable(
            TyModel::Record(fields),
            ValModel::Record(vals.push(v)),
        ) == encodable(TyModel::Record(fields), ValModel::Record(vals)),
        vals.len() <= fields.len() ==> encode(
            TyModel::Record(fields.push(t)),
            ValModel::Record(vals),
        ) == encode(TyModel::Record(fields), ValModel::Record(vals)) && encodable(
            TyModel::Record(fields.push(t)),
            ValModel::Record(vals),
        ) == encodable(TyModel::Record(fields), ValModel::Record(vals)),
        fields.len() != vals.len() ==> !fits(TyModel::Record(fields), ValModel::Record(vals)),
{
    let n = pairs(fields.len(), vals.len());
    let (more, others) = (fields.push(t), vals.push(v));
    lemma_same_front(fields, vals, more, others, n);
    lemma_same_front(fields, vals, fields, others, n);
    lemma_same_front(fields, vals, more, vals, n);
    lemma_encode_words(TyModel::Record(fields), ValModel::Record(vals));
    lemma_encode_words(TyModel::Record(fields), ValModel::Record(others));
    lemma_encode_words(TyModel::Record(more), ValModel::Record(vals));
}

/// What the first fields are stored as depends on them only.
proof fn lemma_same_front(
    a: Seq<TyModel>,
    x: Seq<ValModel>,
    b: Seq<TyModel>,
    y: Seq<ValModel>,
    n: nat,
)
    requires
        n <= a.len() && n <= x.len(),
        n <= b.len() && n <= y.len(),
        forall|i: int| 0 <= i < n ==> a[i] == b[i],
        forall|i: int| 0 <= i < n ==> x[i] == y[i],
    ensures
        encode_fields(a, x, n) == encode_fields(b, y, n),
        all_encodable(a, x, n) == all_encodable(b, y, n),
        all_fit(a, x, n) == all_fit(b, y, n),
    decreases n,
{
    if n > 0 {
        lemma_same_front(a, x, b, y, (n - 1) as nat);
        assert(a[n - 1] == b[n - 1] && x[n - 1] == y[n - 1]);
    }
}

} // verus!
