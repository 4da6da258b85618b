//! Proof-carrying canonical bytes: runs of inline element images whose contents were checked.

use crate::layout;
use crate::layout::{Ty, TyModel};
use crate::value;
use crate::value::read_word;
use vstd::prelude::*;

verus! {

/// The bytes at `at` are the image of some value of the inline type `ty`.
pub open spec fn valid_at(ty: TyModel, bytes: Seq<u8>, at: int) -> bool
    decreases ty, 0nat,
{
    match ty {
        TyModel::F32 | TyModel::U32 => true,
        TyModel::Enum(cases) => value::word_at(bytes, at) < cases,
        TyModel::Record(fields) => fields_valid_at(fields, bytes, at, fields.len()),
        _ => false,
    }
}

/// The first `n` fields of the record at `at` are valid.
pub open spec fn fields_valid_at(fields: Seq<TyModel>, bytes: Seq<u8>, at: int, n: nat) -> bool
    decreases fields, n,
{
    n == 0 || n > fields.len() || (fields_valid_at(fields, bytes, at, (n - 1) as nat) && valid_at(
        fields[n - 1],
        bytes,
        at + layout::field_offset(fields, (n - 1) as nat),
    ))
}

/// `bytes` is a whole number of elements of a type that takes room.
pub open spec fn whole(ty: TyModel, bytes: Seq<u8>) -> bool {
    ty.size() > 0 && bytes.len() % ty.size() == 0
}

/// `bytes` is a run of valid images of the inline type `ty`, one after the other.
pub open spec fn valid_run(ty: TyModel, bytes: Seq<u8>) -> bool {
    &&& ty.inline()
    &&& whole(ty, bytes)
    &&& forall|k: int|
        0 <= k < bytes.len() / ty.size() ==> #[trigger] valid_at(ty, bytes, k * ty.size())
}

/// `bytes` is `n` valid images of type `ty`, one after the other.
pub open spec fn valid_items(ty: TyModel, bytes: Seq<u8>, n: nat) -> bool {
    &&& bytes.len() == n * ty.size()
    &&& forall|k: int| 0 <= k < n ==> #[trigger] valid_at(ty, bytes, k * ty.size())
}

/// Only inline types have images.
pub proof fn lemma_valid_is_inline(ty: TyModel, bytes: Seq<u8>, at: int)
    requires
        valid_at(ty, bytes, at),
    ensures
        ty.inline(),
    decreases ty, 0nat,
{
    if let TyModel::Record(fields) = ty {
        lemma_valid_fields_are_inline(fields, bytes, at, fields.len());
    }
}

proof fn lemma_valid_fields_are_inline(fields: Seq<TyModel>, bytes: Seq<u8>, at: int, n: nat)
    requires
        n <= fields.len(),
        fields_valid_at(fields, bytes, at, n),
    ensures
        layout::all_inline(fields, n),
    decreases fields, n,
{
    if n > 0 {
        lemma_valid_fields_are_inline(fields, bytes, at, (n - 1) as nat);
        lemma_valid_is_inline(
            fields[n - 1],
            bytes,
            at + layout::field_offset(fields, (n - 1) as nat),
        );
    }
}

/// Of an inline type that takes room, `n` valid images are a valid run of `n`.
pub proof fn lemma_items_are_a_run(ty: TyModel, bytes: Seq<u8>, n: nat)
    requires
        ty.inline(),
        ty.size() > 0,
    ensures
        valid_items(ty, bytes, n) <==> valid_run(ty, bytes) && bytes.len() / ty.size() == n,
{
    let size = ty.size();
    vstd::arithmetic::div_mod::lemma_fundamental_div_mod(bytes.len() as int, size as int);
    assert(size * (bytes.len() / size) == (bytes.len() / size) * size) by (nonlinear_arith);
    if bytes.len() == n * size {
        vstd::arithmetic::div_mod::lemma_div_by_multiple(n as int, size as int);
        vstd::arithmetic::div_mod::lemma_mod_multiples_basic(n as int, size as int);
    }
}

/// Why bytes cannot stand for a run of elements.
#[derive(Clone, Copy, Debug, PartialEq, Eq, Structural)]
pub enum ValidityError {
    /// The element type has out-of-line storage or carries ownership.
    NotInline,
    /// The length is not a whole number of elements.
    Length,
    /// The first element whose bytes are not the image of a value.
    BitPattern { element: usize },
}

impl ValidityError {
    /// This is what is wrong with `bytes` as a run of `ty`.
    pub open spec fn explains(self, ty: TyModel, bytes: Seq<u8>) -> bool {
        match self {
            ValidityError::NotInline => !ty.inline(),
            ValidityError::Length => ty.inline() && !whole(ty, bytes),
            ValidityError::BitPattern { element } => {
                &&& ty.inline()
                &&& whole(ty, bytes)
                &&& element < bytes.len() / ty.size()
                &&& !valid_at(ty, bytes, element * ty.size())
                &&& forall|k: int|
                    0 <= k < element ==> #[trigger] valid_at(ty, bytes, k * ty.size())
            },
        }
    }
}

/// Any bytes are valid images of a total type.
pub proof fn lemma_total_valid(ty: TyModel, bytes: Seq<u8>, at: int)
    requires
        ty.total(),
    ensures
        ty.inline(),
        valid_at(ty, bytes, at),
    decreases ty, 0nat,
{
    if let TyModel::Record(fields) = ty {
        lemma_fields_total_valid(fields, bytes, at, fields.len());
    }
}

proof fn lemma_fields_total_valid(fields: Seq<TyModel>, bytes: Seq<u8>, at: int, n: nat)
    requires
        n <= fields.len(),
        layout::all_total(fields, n),
    ensures
        layout::all_inline(fields, n),
        fields_valid_at(fields, bytes, at, n),
    decreases fields, n,
{
    if n > 0 {
        lemma_fields_total_valid(fields, bytes, at, (n - 1) as nat);
        lemma_total_valid(
            fields[n - 1],
            bytes,
            at + layout::field_offset(fields, (n - 1) as nat),
        );
    }
}

/// Is the image of `ty` at `at` the image of a value?
pub fn is_valid_image(ty: &Ty, bytes: &[u8], at: usize) -> (r: bool)
    requires
        ty@.inline(),
        ty.sized(),
        at + ty@.size() <= bytes@.len(),
    ensures
        r == valid_at(ty@, bytes@, at as int),
    decreases ty,
{
    match ty {
        Ty::F32 | Ty::U32 => true,
        Ty::Enum(cases) => read_word(bytes, at) < *cases,
        Ty::Record(fields) => {
            let ghost model = layout::models(fields@);
            proof {
                layout::lemma_models(fields@);
            }
            let mut ok = true;
            let mut off: usize = at;
            let mut i: usize = 0;
            while i < fields.len()
                invariant
                    i <= fields@.len(),
                    *ty matches Ty::Record(f) && f == *fields,
                    ty@ == TyModel::Record(model),
                    model == layout::models(fields@),
                    model.len() == fields@.len(),
                    ty@.inline(),
                    ty.sized(),
                    at + ty@.size() <= bytes@.len(),
                    off == at + layout::fields_end(model, i as nat),
                    ok == fields_valid_at(model, bytes@, at as int, i as nat),
                decreases fields@.len() - i,
            {
                assert(decreases_to!(ty => fields@[i as int]));
                proof {
                    layout::lemma_models(fields@);
                    layout::lemma_field_within(model, i as nat);
                    layout::lemma_all_inline(model, model.len());
                    assert(model[i as int].inline());
                    assert(bytes.len() == bytes@.len());
                }
                ok = ok && is_valid_image(&fields[i], bytes, off);
                off = off + fields[i].size();
                i += 1;
            }
            ok
        },
        Ty::List(_) | Ty::String | Ty::Handle => false,
    }
}

proof fn lemma_element_within(len: nat, size: nat, k: nat)
    requires
        size > 0,
        len % size == 0,
        k < len / size,
    ensures
        k * size + size <= len,
        (k + 1) * size == k * size + size,
{
    vstd::arithmetic::div_mod::lemma_fundamental_div_mod(len as int, size as int);
    assert((k + 1) * size == k * size + size) by (nonlinear_arith);
    assert((k + 1) * size <= size * (len / size)) by (nonlinear_arith)
        requires
            k + 1 <= len / size,
    ;
}

/// What, if anything, keeps `bytes` from being a run of `elem` images: the one check behind
/// every validated container. The contents are only looked at where the type does not accept
/// every bit pattern.
fn find_error(bytes: &[u8], elem: &Ty) -> (r: Option<ValidityError>)
    requires
        elem.sized(),
    ensures
        r is None <==> valid_run(elem@, bytes@),
        r matches Some(e) ==> e.explains(elem@, bytes@),
{
    if !elem.is_inline() {
        return Some(ValidityError::NotInline);
    }
    let size = elem.size();
    if size == 0 || bytes.len() % size != 0 {
        return Some(ValidityError::Length);
    }
    if elem.are_all_bit_patterns_valid() {
        assert forall|k: int| 0 <= k < bytes@.len() / elem@.size() implies #[trigger] valid_at(
            elem@,
            bytes@,
            k * elem@.size(),
        ) by {
            lemma_total_valid(elem@, bytes@, k * elem@.size());
        }
        return None;
    }
    let count = bytes.len() / size;
    let mut off: usize = 0;
    let mut k: usize = 0;
    while k < count
        invariant
            k <= count,
            count == bytes@.len() / elem@.size(),
            size == elem@.size(),
            elem.sized(),
            elem@.inline(),
            whole(elem@, bytes@),
            off == k * elem@.size(),
            forall|j: int| 0 <= j < k ==> #[trigger] valid_at(elem@, bytes@, j * elem@.size()),
        decreases count - k,
    {
        proof {
            lemma_element_within(bytes@.len(), elem@.size(), k as nat);
            assert(bytes.len() == bytes@.len());
        }
        if !is_valid_image(elem, bytes, off) {
            return Some(ValidityError::BitPattern { element: k });
        }
        off = off + size;
        k += 1;
    }
    None
}

/// The mathematical value of a validated container: its bytes, and the element type they were
/// checked against.
#[verifier::ext_equal]
pub struct Validated {
    pub bytes: Seq<u8>,
    pub elem: TyModel,
}

impl Validated {
    /// Number of elements.
    pub open spec fn count(self) -> nat {
        self.bytes.len() / self.elem.size()
    }
}

/// Borrowed canonical bytes that are known to be a run of `elem` images.
pub struct ValidatedCabiBytes<'a> {
    bytes: &'a [u8],
    elem: &'a Ty,
}

impl<'a> View for ValidatedCabiBytes<'a> {
    type V = Validated;

    closed spec fn view(&self) -> Validated {
        Validated { bytes: self.bytes@, elem: self.elem@ }
    }
}

impl<'a> ValidatedCabiBytes<'a> {
    #[verifier::type_invariant]
    spec fn inv(self) -> bool {
        self.elem.sized() && valid_run(self.elem@, self.bytes@)
    }

    /// Take `bytes` as a run of `elem` images, or say why they are not one.
    pub fn checked(bytes: &'a [u8], elem: &'a Ty) -> (r: Result<
        ValidatedCabiBytes<'a>,
        ValidityError,
    >)
        requires
            elem.sized(),
        ensures
            r is Ok <==> valid_run(elem@, bytes@),
            r matches Ok(vb) ==> vb@ == (Validated { bytes: bytes@, elem: elem@ }),
            r matches Err(e) ==> e.explains(elem@, bytes@),
    {
        match find_error(bytes, elem) {
            None => Ok(ValidatedCabiBytes { bytes, elem }),
            Some(e) => Err(e),
        }
    }

    /// The bytes, still known to be valid.
    pub fn bytes(&self) -> (r: &'a [u8])
        ensures
            r@ == self@.bytes,
            valid_run(self@.elem, r@),
    {
        proof {
            use_type_invariant(self);
        }
        self.bytes
    }

    /// The element type that the bytes were checked against.
    pub fn elem(&self) -> (r: &'a Ty)
        ensures
            r@ == self@.elem,
            r.sized(),
    {
        proof {
            use_type_invariant(self);
        }
        self.elem
    }

    /// Number of elements.
    pub fn len(&self) -> (r: usize)
        ensures
            r == self@.count(),
    {
        proof {
            use_type_invariant(self);
        }
        self.bytes.len() / self.elem.size()
    }

    /// Whether there are no elements.
    pub fn is_empty(&self) -> (r: bool)
        ensures
            r == (self@.count() == 0),
    {
        self.len() == 0
    }
}

/// Owned canonical bytes that are known to be a run of `elem` images.
pub struct ValidatedCabiBytesBuf {
    bytes: Vec<u8>,
    elem: Ty,
}

impl View for ValidatedCabiBytesBuf {
    type V = Validated;

    closed spec fn view(&self) -> Validated {
        Validated { bytes: self.bytes@, elem: self.elem@ }
    }
}

impl ValidatedCabiBytesBuf {
    #[verifier::type_invariant]
    spec fn inv(self) -> bool {
        self.elem.sized() && valid_run(self.elem@, self.bytes@)
    }

    /// Take `bytes` as a run of `elem` images, or say why they are not one.
    pub fn checked(bytes: Vec<u8>, elem: Ty) -> (r: Result<ValidatedCabiBytesBuf, ValidityError>)
        requires
            elem.sized(),
        ensures
            r is Ok <==> valid_run(elem@, bytes@),
            r matches Ok(vb) ==> vb@ == (Validated { bytes: bytes@, elem: elem@ }),
            r matches Err(e) ==> e.explains(elem@, bytes@),
    {
        match find_error(bytes.as_slice(), &elem) {
            None => Ok(ValidatedCabiBytesBuf { bytes, elem }),
            Some(e) => Err(e),
        }
    }

    /// Borrow the run, with nothing checked again.
    pub fn as_ref(&self) -> (r: ValidatedCabiBytes<'_>)
        ensures
            r@ == self@,
    {
        proof {
            use_type_invariant(self);
        }
        ValidatedCabiBytes { bytes: self.bytes.as_slice(), elem: &self.elem }
    }
}

// ---------------------------------------------------------------------------------------
// What holds of valid bytes.
// ---------------------------------------------------------------------------------------

/// Any word is a number; a word is a discriminant just when it is below the number of cases; and
/// nothing that has storage or an owner elsewhere is valid.
pub proof fn law_words_are_valid_by_type(ty: TyModel, bytes: Seq<u8>, at: int)
    requires
        !(ty is Record),
    ensures
        valid_at(ty, bytes, at) <==> ty is F32 || ty is U32 || (ty matches TyModel::Enum(cases)
            && bytes[at] + 0x100 * bytes[at + 1] + 0x1_0000 * bytes[at + 2] + 0x100_0000 * bytes[at
            + 3] < cases),
{
}

/// A record is valid just when all its fields are, each where those before it end.
pub proof fn law_records_are_valid_by_field(
    fields: Seq<TyModel>,
    t: TyModel,
    bytes: Seq<u8>,
    at: int,
)
    ensures
        valid_at(TyModel::Record(seq![]), bytes, at),
        valid_at(TyModel::Record(fields.push(t)), bytes, at) <==> valid_at(
            TyModel::Record(fields),
            bytes,
            at,
        ) && valid_at(t, bytes, at + TyModel::Record(fields).size()),
{
    let more = fields.push(t);
    layout::law_records_are_laid_out_by_field(fields, t);
    lemma_valid_front(fields, more, bytes, at, fields.len());
}

proof fn lemma_valid_front(
    a: Seq<TyModel>,
    b: Seq<TyModel>,
    bytes: Seq<u8>,
    at: int,
    n: nat,
)
    requires
        n <= a.len(),
        n <= b.len(),
        forall|i: int| 0 <= i < n ==> a[i] == b[i],
    ensures
        fields_valid_at(a, bytes, at, n) == fields_valid_at(b, bytes, at, n),
    decreases n,
{
    if n > 0 {
        let m = (n - 1) as nat;
        lemma_valid_front(a, b, bytes, at, m);
        layout::law_fields_follow_one_another(a, m);
        layout::law_fields_follow_one_another(b, m);
        assert(a.take(m as int) =~= b.take(m as int));
        assert(a[m as int] == b[m as int]);
    }
}

/// What is wrong with bytes has one name: they are a valid run just when nothing explains why they
/// are not, and then one error only does, the first in order.
pub proof fn law_one_error_explains(ty: TyModel, bytes: Seq<u8>, a: ValidityError, b: ValidityError)
    ensures
        a.explains(ty, bytes) ==> !valid_run(ty, bytes),
        a.explains(ty, bytes) && b.explains(ty, bytes) ==> a == b,
        ValidityError::NotInline.explains(ty, bytes) <==> !ty.inline(),
        ValidityError::Length.explains(ty, bytes) <==> ty.inline() && (ty.size() == 0
            || bytes.len() % ty.size() != 0),
{
    if a.explains(ty, bytes) && b.explains(ty, bytes) {
        match (a, b) {
            (
                ValidityError::BitPattern { element: i },
                ValidityError::BitPattern { element: j },
            ) => {
                if i < j {
                    assert(valid_at(ty, bytes, i as int * ty.size()));
                }
                if j < i {
                    assert(valid_at(ty, bytes, j as int * ty.size()));
                }
            },
            _ => {},
        }
    }
    match a {
        ValidityError::BitPattern { element } => {
            if a.explains(ty, bytes) && valid_run(ty, bytes) {
                assert(valid_at(ty, bytes, element as int * ty.size()));
            }
        },
        _ => {},
    }
}

/// The elements of a valid run make up all of its bytes.
pub proof fn law_runs_are_counted(run: Validated)
    requires
        valid_run(run.elem, run.bytes),
    ensures
        run.count() * run.elem.size() == run.bytes.len(),
{
    let size = run.elem.size() as int;
    vstd::arithmetic::div_mod::lemma_fundamental_div_mod(run.bytes.len() as int, size);
    assert(size * run.count() == run.count() * size) by (nonlinear_arith);
}

} // verus!
