//! Interface types and their canonical in-memory layout.

use vstd::prelude::*;

verus! {

/// The powers of two: the only alignments the canonical ABI ever asks for.
pub open spec fn power_of_two(n: nat) -> bool
    decreases n,
{
    if n == 0 {
        false
    } else if n == 1 {
        true
    } else {
        n % 2 == 0 && power_of_two(n / 2)
    }
}

/// The least multiple of `align` that is not below `offset`.
pub open spec fn round_up(offset: nat, align: nat) -> nat {
    if align == 0 {
        offset
    } else {
        (((offset + align - 1) / (align as int)) * align) as nat
    }
}

proof fn lemma_exponent(a: nat) -> (n: nat)
    requires
        power_of_two(a),
    ensures
        vstd::arithmetic::power2::pow2(n) == a,
    decreases a,
{
    if a == 1 {
        vstd::arithmetic::power2::lemma2_to64();
        0
    } else {
        let n = lemma_exponent(a / 2);
        vstd::arithmetic::power2::lemma_pow2_unfold(n + 1);
        n + 1
    }
}

proof fn lemma_exponent_bound(n: nat, a: u64)
    requires
        vstd::arithmetic::power2::pow2(n) == a,
    ensures
        n < 64,
{
    if n >= 64 {
        vstd::arithmetic::power2::lemma2_to64();
        if n > 64 {
            vstd::arithmetic::power2::lemma_pow2_strictly_increases(64, n);
        }
    }
}

/// Clearing the low bits of `offset + align - 1` rounds `offset` up.
pub proof fn lemma_mask_rounds(offset: usize, align: usize)
    requires
        power_of_two(align as nat),
        offset + align - 1 <= usize::MAX,
    ensures
        ((offset + align - 1) as usize & !((align - 1) as usize)) == round_up(
            offset as nat,
            align as nat,
        ),
{
    let x = (offset + align - 1) as usize;
    let m = (align - 1) as usize;
    let n = lemma_exponent(align as nat);
    lemma_exponent_bound(n, align as u64);
    vstd::bits::lemma_u64_pow2_no_overflow(n);
    vstd::bits::lemma_u64_low_bits_mask_is_mod(x as u64, n);
    assert(vstd::bits::low_bits_mask(n) == m);
    assert((x as u64) & (m as u64) == (x % align) as u64);
    assert(x & !m == x - (x & m)) by (bit_vector);
    assert((x & m) as u64 == (x as u64) & (m as u64)) by (bit_vector);
    vstd::arithmetic::div_mod::lemma_fundamental_div_mod(x as int, align as int);
    assert((x as int / align as int) * (align as int) == (align as int) * (x as int / align as int))
        by (nonlinear_arith);
}

/// Rounding up reaches the next multiple of the alignment, and no further.
pub proof fn lemma_round_up(offset: nat, align: nat)
    requires
        align > 0,
    ensures
        offset <= round_up(offset, align) < offset + align,
        round_up(offset, align) % align == 0,
        offset % align == 0 ==> round_up(offset, align) == offset,
{
    let x = offset + align - 1;
    let a = align as int;
    vstd::arithmetic::div_mod::lemma_fundamental_div_mod(x, a);
    assert((x / a) * a == a * (x / a)) by (nonlinear_arith);
    vstd::arithmetic::div_mod::lemma_mod_multiples_basic(x / a, a);
    if offset % align == 0 {
        vstd::arithmetic::div_mod::lemma_fundamental_div_mod(offset as int, a);
        let q = offset as int / a;
        assert(x == q * a + (a - 1)) by (nonlinear_arith)
            requires
                offset as int == a * q,
                x == offset + a - 1,
        ;
        vstd::arithmetic::div_mod::lemma_fundamental_div_mod_converse(x, a, q, a - 1);
        assert(q * a == a * q) by (nonlinear_arith);
    }
}

/// Round `offset` up to `align` by masking off the low bits.
///
/// For a power of two this is the least multiple of `align` not below `offset`; for any other
/// alignment it is whatever the mask leaves.
pub fn align_up(offset: usize, align: usize) -> (r: usize)
    requires
        align > 0,
        offset + align - 1 <= usize::MAX,
    ensures
        r == ((offset + align - 1) as usize & !((align - 1) as usize)),
        power_of_two(align as nat) ==> r == round_up(offset as nat, align as nat),
{
    proof {
        if power_of_two(align as nat) {
            lemma_mask_rounds(offset, align);
        }
    }
    (offset + (align - 1)) & !(align - 1)
}

/// A component-model interface type.
///
/// `String` and `Handle` are deliberately not inline: the first has out-of-line storage, the
/// second carries ownership. `Enum(cases)` is inline, yet not every bit pattern of its four
/// bytes is a value: only discriminants below `cases` are.
#[derive(Debug)]
pub enum Ty {
    F32,
    U32,
    Enum(u32),
    Record(Vec<Ty>),
    List(Box<Ty>),
    String,
    Handle,
}

/// The mathematical value of a [`Ty`].
pub enum TyModel {
    F32,
    U32,
    Enum(u32),
    Record(Seq<TyModel>),
    List(Box<TyModel>),
    String,
    Handle,
}

impl Ty {
    pub open spec fn model(self) -> TyModel
        decreases self, 0nat,
    {
        match self {
            Ty::F32 => TyModel::F32,
            Ty::U32 => TyModel::U32,
            Ty::Enum(cases) => TyModel::Enum(cases),
            Ty::Record(fields) => TyModel::Record(models_upto(fields@, fields@.len())),
            Ty::List(elem) => TyModel::List(Box::new((*elem).model())),
            Ty::String => TyModel::String,
            Ty::Handle => TyModel::Handle,
        }
    }
}

impl View for Ty {
    type V = TyModel;

    open spec fn view(&self) -> TyModel {
        self.model()
    }
}

/// The models of the first `n` of a run of types.
pub open spec fn models_upto(tys: Seq<Ty>, n: nat) -> Seq<TyModel>
    decreases tys, n,
{
    if n == 0 || n > tys.len() {
        seq![]
    } else {
        models_upto(tys, (n - 1) as nat).push(tys[n - 1].model())
    }
}

/// The models of a run of types.
pub open spec fn models(tys: Seq<Ty>) -> Seq<TyModel> {
    models_upto(tys, tys.len())
}

proof fn lemma_models_upto(tys: Seq<Ty>, n: nat)
    requires
        n <= tys.len(),
    ensures
        models_upto(tys, n).len() == n,
        forall|i: int| 0 <= i < n ==> #[trigger] models_upto(tys, n)[i] == tys[i]@,
    decreases n,
{
    if n > 0 {
        lemma_models_upto(tys, (n - 1) as nat);
    }
}

/// The models of a run of types, one for one.
pub broadcast proof fn lemma_models(tys: Seq<Ty>)
    ensures
        (#[trigger] models(tys)).len() == tys.len(),
        forall|i: int| 0 <= i < tys.len() ==> #[trigger] models(tys)[i] == tys[i]@,
{
    lemma_models_upto(tys, tys.len());
}

impl TyModel {
    /// Alignment of a value of this type in memory.
    pub open spec fn align(self) -> nat
        decreases self, 0nat,
    {
        match self {
            TyModel::Record(fields) => fields_align(fields, fields.len()),
            _ => 4,
        }
    }

    /// Bytes a value of this type takes in memory; a list or a string is a (pointer, length)
    /// pair of words.
    pub open spec fn size(self) -> nat
        decreases self, 0nat,
    {
        match self {
            TyModel::Record(fields) => round_up(
                fields_end(fields, fields.len()),
                fields_align(fields, fields.len()),
            ),
            TyModel::List(_) | TyModel::String => 8,
            _ => 4,
        }
    }

    /// A fixed-size byte image with no out-of-line storage and no ownership.
    pub open spec fn inline(self) -> bool
        decreases self, 0nat,
    {
        match self {
            TyModel::F32 | TyModel::U32 | TyModel::Enum(_) => true,
            TyModel::Record(fields) => all_inline(fields, fields.len()),
            _ => false,
        }
    }

    /// Every bit pattern of the right size is a value of this type.
    pub open spec fn total(self) -> bool
        decreases self, 0nat,
    {
        match self {
            TyModel::F32 | TyModel::U32 => true,
            TyModel::Record(fields) => all_total(fields, fields.len()),
            _ => false,
        }
    }

    /// The element type of a list; any other type stands for itself.
    pub open spec fn elem(self) -> TyModel {
        match self {
            TyModel::List(elem) => *elem,
            _ => self,
        }
    }

    /// Core slots a value of this type takes when it is passed flattened: a list or a string is a
    /// pointer and a length, and a record is passed field by field.
    pub open spec fn slots(self) -> nat
        decreases self, 0nat,
    {
        match self {
            TyModel::List(_) | TyModel::String => 2,
            TyModel::Record(fields) => slots_upto(fields, fields.len()),
            _ => 1,
        }
    }
}

/// Core slots taken by the first `n` types.
pub open spec fn slots_upto(tys: Seq<TyModel>, n: nat) -> nat
    decreases tys, n,
{
    if n == 0 || n > tys.len() {
        0
    } else {
        slots_upto(tys, (n - 1) as nat) + tys[n - 1].slots()
    }
}

/// More types take no fewer slots.
pub proof fn lemma_slots_monotone(tys: Seq<TyModel>, m: nat, n: nat)
    requires
        m <= n <= tys.len(),
    ensures
        slots_upto(tys, m) <= slots_upto(tys, n),
    decreases n,
{
    if m < n {
        lemma_slots_monotone(tys, m, (n - 1) as nat);
    }
}

/// The first `n` fields are inline.
pub open spec fn all_inline(fields: Seq<TyModel>, n: nat) -> bool
    decreases fields, n,
{
    n == 0 || n > fields.len() || (all_inline(fields, (n - 1) as nat) && fields[n - 1].inline())
}

/// The first `n` fields are total.
pub open spec fn all_total(fields: Seq<TyModel>, n: nat) -> bool
    decreases fields, n,
{
    n == 0 || n > fields.len() || (all_total(fields, (n - 1) as nat) && fields[n - 1].total())
}

/// The strictest alignment among the first `n` fields, and at least one.
pub open spec fn fields_align(fields: Seq<TyModel>, n: nat) -> nat
    decreases fields, n,
{
    if n == 0 || n > fields.len() {
        1
    } else {
        let before = fields_align(fields, (n - 1) as nat);
        let own = fields[n - 1].align();
        if own > before {
            own
        } else {
            before
        }
    }
}

/// Offset of field `i` in a record: past the fields before it, at its own alignment.
pub open spec fn field_offset(fields: Seq<TyModel>, i: nat) -> nat {
    round_up(fields_end(fields, i), fields[i as int].align())
}

/// Offset just past the first `n` fields of a record.
pub open spec fn fields_end(fields: Seq<TyModel>, n: nat) -> nat
    decreases fields, n,
{
    if n == 0 || n > fields.len() {
        0
    } else {
        round_up(fields_end(fields, (n - 1) as nat), fields[n - 1].align()) + fields[n - 1].size()
    }
}

/// The word rule: a type that takes room is aligned to four bytes, one that takes none to one;
/// and every size is a whole number of words.
pub proof fn lemma_words(t: TyModel)
    ensures
        (t.align() == 4 && t.size() > 0) || (t.align() == 1 && t.size() == 0),
        t.size() % 4 == 0,
    decreases t, 0nat,
{
    if let TyModel::Record(fields) = t {
        lemma_fields_words(fields, fields.len());
        lemma_round_up(fields_end(fields, fields.len()), 4);
        lemma_round_up(fields_end(fields, fields.len()), 1);
    }
}

/// The word rule for the first `n` fields of a record: no padding is ever needed between them.
pub proof fn lemma_fields_words(fields: Seq<TyModel>, n: nat)
    requires
        n <= fields.len(),
    ensures
        (fields_align(fields, n) == 4 && fields_end(fields, n) > 0) || (fields_align(fields, n)
            == 1 && fields_end(fields, n) == 0),
        fields_end(fields, n) % 4 == 0,
        n > 0 ==> fields_end(fields, n) == fields_end(fields, (n - 1) as nat) + fields[n
            - 1].size(),
        n > 0 ==> field_offset(fields, (n - 1) as nat) == fields_end(fields, (n - 1) as nat),
        round_up(fields_end(fields, n), fields_align(fields, n)) == fields_end(fields, n),
    decreases fields, n,
{
    if n > 0 {
        let before = (n - 1) as nat;
        lemma_fields_words(fields, before);
        lemma_words(fields[n - 1]);
        lemma_round_up(fields_end(fields, before), 4);
        lemma_round_up(fields_end(fields, before), 1);
    }
    lemma_round_up(fields_end(fields, n), 4);
    lemma_round_up(fields_end(fields, n), 1);
}

/// Later fields end no earlier.
pub proof fn lemma_fields_end_monotone(fields: Seq<TyModel>, m: nat, n: nat)
    requires
        m <= n <= fields.len(),
    ensures
        fields_end(fields, m) <= fields_end(fields, n),
    decreases n,
{
    if m < n {
        lemma_fields_end_monotone(fields, m, (n - 1) as nat);
        lemma_fields_words(fields, n);
    }
}

/// A field lies inside its record.
pub proof fn lemma_field_within(fields: Seq<TyModel>, i: nat)
    requires
        i < fields.len(),
    ensures
        field_offset(fields, i) == fields_end(fields, i),
        field_offset(fields, i) % 4 == 0,
        fields_end(fields, i) + fields[i as int].size() == fields_end(fields, i + 1),
        fields_end(fields, i + 1) <= fields_end(fields, fields.len()),
        TyModel::Record(fields).size() == fields_end(fields, fields.len()),
{
    lemma_fields_words(fields, i + 1);
    lemma_fields_words(fields, i);
    lemma_fields_words(fields, fields.len());
    lemma_fields_end_monotone(fields, i + 1, fields.len());
}

/// The first `n` fields are inline just when each of them is.
pub proof fn lemma_all_inline(fields: Seq<TyModel>, n: nat)
    requires
        n <= fields.len(),
    ensures
        all_inline(fields, n) <==> forall|i: int| 0 <= i < n ==> (#[trigger] fields[i]).inline(),
    decreases n,
{
    if n > 0 {
        lemma_all_inline(fields, (n - 1) as nat);
    }
}

/// The first `n` fields are total just when each of them is.
pub proof fn lemma_all_total(fields: Seq<TyModel>, n: nat)
    requires
        n <= fields.len(),
    ensures
        all_total(fields, n) <==> forall|i: int| 0 <= i < n ==> (#[trigger] fields[i]).total(),
    decreases n,
{
    if n > 0 {
        lemma_all_total(fields, (n - 1) as nat);
    }
}

impl Clone for Ty {
    fn clone(&self) -> (r: Ty)
        ensures
            r@ == self@,
        decreases self,
    {
        match self {
            Ty::F32 => Ty::F32,
            Ty::U32 => Ty::U32,
            Ty::Enum(cases) => Ty::Enum(*cases),
            Ty::Record(fields) => {
                let mut copies: Vec<Ty> = Vec::new();
                let mut i: usize = 0;
                while i < fields.len()
                    invariant
                        i <= fields@.len(),
                        copies@.len() == i,
                        *self matches Ty::Record(f) && f == *fields,
                        forall|k: int| 0 <= k < i ==> copies@[k]@ == fields@[k]@,
                    decreases fields@.len() - i,
                {
                    assert(decreases_to!(self => fields@[i as int]));
                    copies.push(fields[i].clone());
                    i += 1;
                }
                proof {
                    lemma_models(fields@);
                    lemma_models(copies@);
                    assert(models(copies@) =~= models(fields@));
                }
                Ty::Record(copies)
            },
            Ty::List(elem) => Ty::List(Box::new((**elem).clone())),
            Ty::String => Ty::String,
            Ty::Handle => Ty::Handle,
        }
    }
}

impl Ty {
    /// The size of this type fits the machine's word.
    pub open spec fn sized(&self) -> bool {
        self@.size() <= usize::MAX
    }

    /// Canonical byte size of this type when stored in memory.
    pub fn size(&self) -> (r: usize)
        requires
            self.sized(),
        ensures
            r == self@.size(),
        decreases self,
    {
        match self {
            Ty::F32 | Ty::U32 | Ty::Enum(_) | Ty::Handle => 4,
            Ty::Record(fields) => {
                let ghost model = models(fields@);
                proof {
                    lemma_models(fields@);
                }
                let mut off: usize = 0;
                let mut align: usize = 1;
                let mut i: usize = 0;
                while i < fields.len()
                    invariant
                        i <= fields@.len(),
                        *self matches Ty::Record(f) && f == *fields,
                        self@ == TyModel::Record(model),
                        model == models(fields@),
                        model.len() == fields@.len(),
                        self.sized(),
                        off == fields_end(model, i as nat),
                        align == fields_align(model, i as nat),
                    decreases fields@.len() - i,
                {
                    assert(decreases_to!(self => fields@[i as int]));
                    proof {
                        lemma_models(fields@);
                    }
                    proof {
                        lemma_field_within(model, i as nat);
                        lemma_words(model[i as int]);
                        lemma_small_powers();
                    }
                    let a = fields[i].align();
                    off = align_up(off, a) + fields[i].size();
                    if a > align {
                        align = a;
                    }
                    i += 1;
                }
                proof {
                    lemma_fields_words(model, model.len());
                    lemma_small_powers();
                }
                align_up(off, align)
            },
            Ty::List(_) | Ty::String => 8,
        }
    }

    /// Canonical alignment of this type: the strictest among a record's fields, four otherwise.
    pub fn align(&self) -> (r: usize)
        ensures
            r == self@.align(),
        decreases self,
    {
        match self {
            Ty::Record(fields) => {
                let ghost model = models(fields@);
                proof {
                    lemma_models(fields@);
                }
                let mut align: usize = 1;
                let mut i: usize = 0;
                while i < fields.len()
                    invariant
                        i <= fields@.len(),
                        *self matches Ty::Record(f) && f == *fields,
                        model == models(fields@),
                        model.len() == fields@.len(),
                        align == fields_align(model, i as nat),
                    decreases fields@.len() - i,
                {
                    assert(decreases_to!(self => fields@[i as int]));
                    proof {
                        lemma_models(fields@);
                    }
                    let a = fields[i].align();
                    if a > align {
                        align = a;
                    }
                    i += 1;
                }
                align
            },
            _ => 4,
        }
    }

    /// Is a value of this type a fixed-size, memcpy-transferable byte image, with no
    /// out-of-line storage and no ownership? Every bulk path asks this first.
    pub fn is_inline(&self) -> (r: bool)
        ensures
            r == self@.inline(),
        decreases self,
    {
        match self {
            Ty::F32 | Ty::U32 | Ty::Enum(_) => true,
            Ty::Record(fields) => {
                let ghost model = models(fields@);
                proof {
                    lemma_models(fields@);
                }
                let mut i: usize = 0;
                while i < fields.len()
                    invariant
                        i <= fields@.len(),
                        *self matches Ty::Record(f) && f == *fields,
                        self@ == TyModel::Record(model),
                        model == models(fields@),
                        model.len() == fields@.len(),
                        all_inline(model, i as nat),
                    decreases fields@.len() - i,
                {
                    assert(decreases_to!(self => fields@[i as int]));
                    proof {
                        lemma_models(fields@);
                    }
                    if !fields[i].is_inline() {
                        proof {
                            lemma_all_inline(model, model.len());
                            assert(!model[i as int].inline());
                        }
                        return false;
                    }
                    i += 1;
                }
                true
            },
            Ty::List(_) | Ty::String | Ty::Handle => false,
        }
    }

    /// Does every bit pattern of the right size denote a value of this type? Where it does,
    /// validating bytes as this type needs no look at their contents.
    pub fn are_all_bit_patterns_valid(&self) -> (r: bool)
        ensures
            r == self@.total(),
        decreases self,
    {
        match self {
            Ty::F32 | Ty::U32 => true,
            Ty::Record(fields) => {
                let ghost model = models(fields@);
                proof {
                    lemma_models(fields@);
                }
                let mut i: usize = 0;
                while i < fields.len()
                    invariant
                        i <= fields@.len(),
                        *self matches Ty::Record(f) && f == *fields,
                        self@ == TyModel::Record(model),
                        model == models(fields@),
                        model.len() == fields@.len(),
                        all_total(model, i as nat),
                    decreases fields@.len() - i,
                {
                    assert(decreases_to!(self => fields@[i as int]));
                    proof {
                        lemma_models(fields@);
                    }
                    if !fields[i].are_all_bit_patterns_valid() {
                        proof {
                            lemma_all_total(model, model.len());
                            assert(!model[i as int].total());
                        }
                        return false;
                    }
                    i += 1;
                }
                true
            },
            Ty::Enum(_) | Ty::List(_) | Ty::String | Ty::Handle => false,
        }
    }

    /// Core slots that a value of this type takes when it is passed flattened.
    pub fn slots(&self) -> (r: usize)
        requires
            self@.slots() <= usize::MAX,
        ensures
            r == self@.slots(),
        decreases self,
    {
        match self {
            Ty::List(_) | Ty::String => 2,
            Ty::Record(fields) => {
                let ghost model = models(fields@);
                proof {
                    lemma_models(fields@);
                }
                let mut n: usize = 0;
                let mut i: usize = 0;
                while i < fields.len()
                    invariant
                        i <= fields@.len(),
                        *self matches Ty::Record(f) && f == *fields,
                        model == models(fields@),
                        model.len() == fields@.len(),
                        slots_upto(model, model.len()) <= usize::MAX,
                        n == slots_upto(model, i as nat),
                    decreases fields@.len() - i,
                {
                    assert(decreases_to!(self => fields@[i as int]));
                    proof {
                        lemma_models(fields@);
                        lemma_slots_monotone(model, (i + 1) as nat, model.len());
                    }
                    n = n + fields[i].slots();
                    i += 1;
                }
                n
            },
            _ => 1,
        }
    }

    /// Is this the same type as `other`?
    pub fn same_as(&self, other: &Ty) -> (r: bool)
        ensures
            r == (self@ == other@),
        decreases self,
    {
        match (self, other) {
            (Ty::F32, Ty::F32) => true,
            (Ty::U32, Ty::U32) => true,
            (Ty::Enum(a), Ty::Enum(b)) => *a == *b,
            (Ty::Record(a), Ty::Record(b)) => {
                let ghost here = models(a@);
                let ghost there = models(b@);
                proof {
                    lemma_models(a@);
                    lemma_models(b@);
                }
                if a.len() != b.len() {
                    return false;
                }
                let mut i: usize = 0;
                while i < a.len()
                    invariant
                        i <= a@.len(),
                        a@.len() == b@.len(),
                        *self matches Ty::Record(f) && f == *a,
                        self@ == TyModel::Record(here),
                        other@ == TyModel::Record(there),
                        here == models(a@),
                        there == models(b@),
                        here.len() == a@.len(),
                        there.len() == b@.len(),
                        forall|k: int| 0 <= k < i ==> here[k] == there[k],
                    decreases a@.len() - i,
                {
                    assert(decreases_to!(self => a@[i as int]));
                    proof {
                        lemma_models(a@);
                        lemma_models(b@);
                    }
                    if !a[i].same_as(&b[i]) {
                        assert(here[i as int] != there[i as int]);
                        return false;
                    }
                    i += 1;
                }
                assert(here =~= there);
                true
            },
            (Ty::List(a), Ty::List(b)) => (**a).same_as(&**b),
            (Ty::String, Ty::String) => true,
            (Ty::Handle, Ty::Handle) => true,
            _ => false,
        }
    }

    /// Byte size of one element of a `list<T>`, or of a scalar taken as its own image.
    pub fn elem_size(&self) -> (r: usize)
        requires
            self@.elem().size() <= usize::MAX,
        ensures
            r == self@.elem().size(),
    {
        match self {
            Ty::List(elem) => elem.size(),
            _ => self.size(),
        }
    }

    /// Alignment of one element of a `list<T>`, or of a scalar taken as its own image.
    pub fn elem_align(&self) -> (r: usize)
        ensures
            r == self@.elem().align(),
    {
        match self {
            Ty::List(elem) => elem.align(),
            _ => self.align(),
        }
    }

    /// Can this type take part in a bulk transfer? A list can when its element is inline, any
    /// other type when it is inline itself.
    pub fn is_bulk_transferable(&self) -> (r: bool)
        ensures
            r == self@.elem().inline(),
    {
        match self {
            Ty::List(elem) => elem.is_inline(),
            other => other.is_inline(),
        }
    }
}

/// One and four, the alignments that occur, are powers of two.
pub proof fn lemma_small_powers()
    ensures
        power_of_two(1),
        power_of_two(4),
{
    reveal_with_fuel(power_of_two, 3);
}

// ---------------------------------------------------------------------------------------
// What holds of layouts.
// ---------------------------------------------------------------------------------------

/// Rounding up reaches the least multiple of the alignment that is not below: it is a multiple,
/// is not below, and no other such is smaller.
pub proof fn law_rounding_reaches_the_next_multiple(offset: nat, align: nat, other: nat)
    requires
        align > 0,
    ensures
        round_up(offset, align) % align == 0,
        offset <= round_up(offset, align),
        other % align == 0 && offset <= other ==> round_up(offset, align) <= other,
{
    lemma_round_up(offset, align);
    if other % align == 0 && offset <= other {
        lemma_round_up(other, align);
        let a = align as int;
        vstd::arithmetic::div_mod::lemma_div_is_ordered(offset + align - 1, other + align - 1, a);
        let p = (offset + align - 1) / a;
        let q = (other + align - 1) / a;
        assert(p * a <= q * a) by (nonlinear_arith)
            requires
                p <= q,
                a > 0,
        ;
    }
}

/// What is no record takes a word, and one core slot; a list or a string takes two of each. Only
/// numbers and discriminants are inline, and only of numbers is every bit pattern a value.
pub proof fn law_words_are_the_unit(ty: TyModel)
    requires
        !(ty is Record),
    ensures
        ty.align() == 4,
        ty.size() == 4 * ty.slots(),
        ty.slots() == (if ty is List || ty is String {
            2nat
        } else {
            1
        }),
        ty.inline() <==> ty is F32 || ty is U32 || ty is Enum,
        ty.total() <==> ty is F32 || ty is U32,
{
}

/// A record is laid out field by field. Without fields it takes no room. Another field lies right
/// behind the others and adds its size and its slots; the record is aligned as strictly as the
/// strictest of its fields, and is inline, or total, just when all of them are.
pub proof fn law_records_are_laid_out_by_field(fields: Seq<TyModel>, t: TyModel)
    ensures
        ({
            let none = TyModel::Record(seq![]);
            let before = TyModel::Record(fields);
            let after = TyModel::Record(fields.push(t));
            &&& none.size() == 0 && none.align() == 1 && none.slots() == 0
            &&& none.inline() && none.total()
            &&& field_offset(fields.push(t), fields.len()) == before.size()
            &&& after.size() == before.size() + t.size()
            &&& after.slots() == before.slots() + t.slots()
            &&& after.align() >= before.align() && after.align() >= t.align()
            &&& after.align() == before.align() || after.align() == t.align()
            &&& after.inline() <==> before.inline() && t.inline()
            &&& after.total() <==> before.total() && t.total()
        }),
{
    let more = fields.push(t);
    let n = fields.len();
    lemma_same_front(fields, more, n);
    lemma_fields_words(more, n + 1);
    lemma_fields_words(fields, n);
    lemma_round_up(0, 1);
    assert(TyModel::Record(fields).size() == fields_end(fields, n));
    assert(TyModel::Record(more).size() == fields_end(more, n + 1));
}

/// The layout of the first fields depends on them only.
proof fn lemma_same_front(a: Seq<TyModel>, b: Seq<TyModel>, n: nat)
    requires
        n <= a.len(),
        n <= b.len(),
        forall|i: int| 0 <= i < n ==> a[i] == b[i],
    ensures
        fields_end(a, n) == fields_end(b, n),
        fields_align(a, n) == fields_align(b, n),
        slots_upto(a, n) == slots_upto(b, n),
        all_inline(a, n) == all_inline(b, n),
        all_total(a, n) == all_total(b, n),
    decreases n,
{
    if n > 0 {
        lemma_same_front(a, b, (n - 1) as nat);
        assert(a[n - 1] == b[n - 1]);
    }
}

/// Every field lies where the fields before it end, whatever follows it, and inside its record.
pub proof fn law_fields_follow_one_another(fields: Seq<TyModel>, i: nat)
    requires
        i < fields.len(),
    ensures
        field_offset(fields, i) == TyModel::Record(fields.take(i as int)).size(),
        field_offset(fields, i) % fields[i as int].align() == 0,
        field_offset(fields, i) + fields[i as int].size() <= TyModel::Record(fields).size(),
        i + 1 < fields.len() ==> field_offset(fields, i + 1) == field_offset(fields, i)
            + fields[i as int].size(),
{
    let front = fields.take(i as int);
    lemma_field_within(fields, i);
    lemma_words(fields[i as int]);
    lemma_same_front(fields, front, i);
    lemma_fields_words(front, i);
    if i + 1 < fields.len() {
        lemma_field_within(fields, i + 1);
    }
}

/// The powers of two are one and the doubles of powers of two, and nothing else is.
pub proof fn law_powers_of_two_are_doubled(n: nat)
    ensures
        power_of_two(1),
        !power_of_two(0),
        n > 0 ==> (power_of_two(2 * n) <==> power_of_two(n)),
        n > 0 ==> !power_of_two(2 * n + 1),
{
    assert(power_of_two(1));
    assert((2 * n) / 2 == n && (2 * n) % 2 == 0);
    assert((2 * n + 1) % 2 == 1);
}

/// In a bulk transfer a list stands for its elements, and any other type for itself.
pub proof fn law_lists_stand_for_their_elements(ty: TyModel, elem: TyModel)
    ensures
        TyModel::List(Box::new(elem)).elem() == elem,
        !(ty is List) ==> ty.elem() == ty,
{
}

} // verus!
