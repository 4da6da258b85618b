//! The recursive tree of value sources that a host provides its arguments through.

use crate::arena;
use crate::arena::{push_strided, ArenaSlice, Strided};
use crate::layout;
use crate::layout::{Ty, TyModel};
use crate::stream::Feed;
use crate::validity::{Validated, ValidatedCabiBytes};
use crate::value;
use crate::value::{push_word, Val, ValModel};
use vstd::prelude::*;

verus! {

/// Parts `[start, start + count)` of a run, one after the other.
pub open spec fn join(parts: Seq<Seq<u8>>, start: nat, count: nat) -> Seq<u8>
    decreases count,
{
    if count == 0 {
        seq![]
    } else {
        join(parts, start, (count - 1) as nat) + parts[start + count - 1]
    }
}

/// A log of ranges, where one is kept, with more of them behind it.
pub open spec fn logged(log: Option<Seq<(nat, nat)>>, more: Seq<(nat, nat)>) -> Option<
    Seq<(nat, nat)>,
> {
    match log {
        Some(ranges) => Some(ranges + more),
        None => None,
    }
}

/// A host-computed list: the general form of a lazy source.
///
/// Its elements are available by range and in any order, so it serves a runtime that drains it
/// once as well as a guest that pulls windows of it. Whether images are cached, computed
/// afresh or prepared up front is the implementation's business.
pub trait LowerOnDemand {
    /// The canonical images of the elements. A source that says nothing else has none.
    open spec fn elements(&self) -> Seq<Seq<u8>> {
        Seq::empty()
    }

    /// The ranges `(start, count)` that were asked for so far, in order, where the source keeps
    /// a log of them. A source that says nothing else keeps none.
    open spec fn asked(&self) -> Option<Seq<(nat, nat)>> {
        None
    }

    /// Number of elements this source yields.
    fn len(&self) -> (r: usize)
        ensures
            r == self.elements().len(),
    ;

    /// Whether this source yields no elements.
    fn is_empty(&self) -> (r: bool)
        ensures
            r == (self.elements().len() == 0),
    {
        self.len() == 0
    }

    /// Append the canonical images of elements `[start, start + count)` to `out`.
    fn produce_range(&mut self, start: usize, count: usize, out: &mut Vec<u8>)
        requires
            start + count <= old(self).elements().len(),
        ensures
            final(self).elements() == old(self).elements(),
            final(self).asked() == logged(
                old(self).asked(),
                seq![(start as nat, count as nat)],
            ),
            final(out)@ == old(out)@ + join(old(self).elements(), start as nat, count as nat),
    ;
}

impl<L: LowerOnDemand> LowerOnDemand for &mut L {
    open spec fn elements(&self) -> Seq<Seq<u8>> {
        (**self).elements()
    }

    open spec fn asked(&self) -> Option<Seq<(nat, nat)>> {
        (**self).asked()
    }

    fn len(&self) -> (r: usize) {
        (**self).len()
    }

    fn produce_range(&mut self, start: usize, count: usize, out: &mut Vec<u8>) {
        (**self).produce_range(start, count, out)
    }
}

/// A host-computed list, ready to be bound as an argument.
pub struct Column<'a> {
    pub source: Box<dyn LowerOnDemand + 'a>,
}

/// A node of the source tree: each node picks for itself how it supplies its bytes.
pub enum ValSource<'a> {
    /// Dynamic and owned: the fallback that is always there.
    Val(Val),
    /// A single inline value as validated canonical bytes.
    Flat(ValidatedCabiBytes<'a>),
    /// An inline record, each field from a source of its own.
    Record(Vec<ValSource<'a>>),
    /// A `list<T>`.
    List(ListSource<'a>),
    /// A `stream<T>`.
    Stream(Feed<'a>),
    /// A host-computed list, pulled on demand.
    Lazy(Column<'a>),
    /// A slice of a pre-validated arena.
    Arena(ArenaSlice<'a>),
}

/// How the elements of a `list<T>` are supplied.
pub enum ListSource<'a> {
    /// One contiguous validated image.
    Flat(ValidatedCabiBytes<'a>),
    /// A source per element.
    Elems(Vec<ValSource<'a>>),
}

/// The mathematical value of a [`ValSource`].
pub enum SourceModel {
    Val(ValModel),
    Flat(Validated),
    Record(Seq<SourceModel>),
    ListFlat(Validated),
    ListElems(Seq<SourceModel>),
    Stream(Seq<Seq<u8>>),
    Lazy(Seq<Seq<u8>>),
    Arena(Strided),
}

impl<'a> ValSource<'a> {
    pub open spec fn model(self) -> SourceModel
        decreases self, 0nat,
    {
        match self {
            ValSource::Val(v) => SourceModel::Val(v@),
            ValSource::Flat(vb) => SourceModel::Flat(vb@),
            ValSource::Record(fields) => SourceModel::Record(
                models_upto(fields@, fields@.len()),
            ),
            ValSource::List(ListSource::Flat(vb)) => SourceModel::ListFlat(vb@),
            ValSource::List(ListSource::Elems(items)) => SourceModel::ListElems(
                models_upto(items@, items@.len()),
            ),
            ValSource::Stream(feed) => SourceModel::Stream(feed.producer.remaining()),
            ValSource::Lazy(column) => SourceModel::Lazy(column.source.elements()),
            ValSource::Arena(slice) => SourceModel::Arena(slice@),
        }
    }
}

impl<'a> ValSource<'a> {
    /// The ranges that a host-computed list was asked for so far, in order, where it keeps a log
    /// of them.
    pub open spec fn asked(self) -> Option<Seq<(nat, nat)>> {
        match self {
            ValSource::Lazy(column) => column.source.asked(),
            _ => None,
        }
    }
}

impl<'a> View for ValSource<'a> {
    type V = SourceModel;

    open spec fn view(&self) -> SourceModel {
        self.model()
    }
}

/// The models of the first `n` of a run of sources.
pub open spec fn models_upto<'a>(sources: Seq<ValSource<'a>>, n: nat) -> Seq<SourceModel>
    decreases sources, n,
{
    if n == 0 || n > sources.len() {
        seq![]
    } else {
        models_upto(sources, (n - 1) as nat).push(sources[n - 1].model())
    }
}

/// The models of a run of sources.
pub open spec fn models<'a>(sources: Seq<ValSource<'a>>) -> Seq<SourceModel> {
    models_upto(sources, sources.len())
}

proof fn lemma_models_upto<'a>(sources: Seq<ValSource<'a>>, n: nat)
    requires
        n <= sources.len(),
    ensures
        models_upto(sources, n).len() == n,
        forall|i: int| 0 <= i < n ==> #[trigger] models_upto(sources, n)[i] == sources[i]@,
    decreases n,
{
    if n > 0 {
        lemma_models_upto(sources, (n - 1) as nat);
    }
}

/// The models of a run of sources, one for one.
pub broadcast proof fn lemma_models<'a>(sources: Seq<ValSource<'a>>)
    ensures
        (#[trigger] models(sources)).len() == sources.len(),
        forall|i: int| 0 <= i < sources.len() ==> #[trigger] models(sources)[i] == sources[i]@,
{
    lemma_models_upto(sources, sources.len());
}

// ---------------------------------------------------------------------------------------
// What a source denotes.
// ---------------------------------------------------------------------------------------

/// `src` can supply a single inline value of type `ty`.
pub open spec fn producible(src: SourceModel, ty: TyModel) -> bool
    decreases ty, 0nat,
{
    match (src, ty) {
        (SourceModel::Val(v), _) => value::encodable(ty, v),
        (SourceModel::Flat(_), _) => true,
        (SourceModel::Record(sources), TyModel::Record(fields)) => all_producible(
            sources,
            fields,
            value::pairs(fields.len(), sources.len()),
        ),
        _ => false,
    }
}

/// The first `n` sources can supply the first `n` fields.
pub open spec fn all_producible(
    sources: Seq<SourceModel>,
    fields: Seq<TyModel>,
    n: nat,
) -> bool
    decreases fields, n,
{
    n == 0 || n > fields.len() || (all_producible(sources, fields, (n - 1) as nat) && producible(
        sources[n - 1],
        fields[n - 1],
    ))
}

/// The image that `src` supplies for a single inline value of type `ty`.
pub open spec fn value_image(src: SourceModel, ty: TyModel) -> Seq<u8>
    decreases ty, 0nat,
{
    match (src, ty) {
        (SourceModel::Val(v), _) => value::encode(ty, v),
        (SourceModel::Flat(vb), _) => vb.bytes,
        (SourceModel::Record(sources), TyModel::Record(fields)) => value::padded(
            fields_image(sources, fields, value::pairs(fields.len(), sources.len())),
            layout::fields_align(fields, fields.len()),
        ),
        _ => seq![],
    }
}

/// The image that the first `n` sources supply for the first `n` fields of a record, each at
/// its own alignment.
pub open spec fn fields_image(
    sources: Seq<SourceModel>,
    fields: Seq<TyModel>,
    n: nat,
) -> Seq<u8>
    decreases fields, n,
{
    if n == 0 || n > fields.len() {
        seq![]
    } else {
        value::padded(fields_image(sources, fields, (n - 1) as nat), fields[n - 1].align())
            + value_image(sources[n - 1], fields[n - 1])
    }
}

/// The images of dynamic list elements.
pub open spec fn encode_all(elem: TyModel, items: Seq<ValModel>) -> Seq<Seq<u8>> {
    Seq::new(items.len(), |k: int| value::encode(elem, items[k]))
}

/// The images that per-element sources supply.
pub open spec fn value_images(items: Seq<SourceModel>, elem: TyModel) -> Seq<Seq<u8>> {
    Seq::new(items.len(), |k: int| value_image(items[k], elem))
}

impl SourceModel {
    /// Can this source back a list?
    pub open spec fn is_list(self) -> bool {
        match self {
            SourceModel::Val(v) => v is List,
            SourceModel::ListFlat(_) | SourceModel::ListElems(_) | SourceModel::Lazy(_) => true,
            SourceModel::Arena(slice) => slice.stride > 0,
            _ => false,
        }
    }

    /// Number of elements this source yields when it backs a list.
    pub open spec fn list_len(self) -> nat {
        match self {
            SourceModel::Val(ValModel::List(items)) => items.len(),
            SourceModel::ListFlat(vb) => vb.count(),
            SourceModel::ListElems(items) => items.len(),
            SourceModel::Lazy(elements) => elements.len(),
            SourceModel::Arena(slice) => slice.bytes.len() / slice.stride,
            _ => 0,
        }
    }

    /// This source can supply elements `[start, start + count)` of a `list<elem>`.
    pub open spec fn has_range(self, elem: TyModel, start: nat, count: nat) -> bool {
        match self {
            SourceModel::Val(ValModel::List(items)) => {
                &&& start + count <= items.len()
                &&& forall|k: int|
                    start <= k < start + count ==> value::encodable(elem, #[trigger] items[k])
            },
            SourceModel::ListFlat(vb) => arena::strided_within(
                vb.bytes,
                elem.size(),
                start,
                count,
            ),
            SourceModel::ListElems(items) => {
                &&& start + count <= items.len()
                &&& forall|k: int|
                    start <= k < start + count ==> producible(#[trigger] items[k], elem)
            },
            SourceModel::Lazy(elements) => start + count <= elements.len(),
            SourceModel::Arena(slice) => arena::strided_within(
                slice.bytes,
                slice.stride,
                start,
                count,
            ),
            _ => false,
        }
    }

    /// The canonical images of elements `[start, start + count)` of a `list<elem>`, one after
    /// the other. This is all that a runtime, eager or lazy, ever sees of a list source.
    pub open spec fn range_image(self, elem: TyModel, start: nat, count: nat) -> Seq<u8> {
        match self {
            SourceModel::Val(ValModel::List(items)) => join(
                encode_all(elem, items),
                start,
                count,
            ),
            SourceModel::ListFlat(vb) => arena::strided(vb.bytes, elem.size(), start, count),
            SourceModel::ListElems(items) => join(value_images(items, elem), start, count),
            SourceModel::Lazy(elements) => join(elements, start, count),
            SourceModel::Arena(slice) => arena::strided(slice.bytes, slice.stride, start, count),
            _ => seq![],
        }
    }

    /// The whole list, as it is materialised up front.
    pub open spec fn list_image(self, elem: TyModel) -> Seq<u8> {
        self.range_image(elem, 0, self.list_len())
    }

    /// The kind of the node, for messages.
    pub open spec fn kind(self) -> Seq<char> {
        match self {
            SourceModel::Val(_) => "Val"@,
            SourceModel::Flat(_) => "Flat"@,
            SourceModel::Record(_) => "Record"@,
            SourceModel::ListFlat(_) | SourceModel::ListElems(_) => "List"@,
            SourceModel::Stream(_) => "Stream"@,
            SourceModel::Lazy(_) => "Lazy"@,
            SourceModel::Arena(_) => "Arena"@,
        }
    }
}

/// The ranges of a schedule of pulls.
pub open spec fn ranges(pulls: Seq<(usize, usize)>) -> Seq<(nat, nat)> {
    Seq::new(pulls.len(), |i: int| (pulls[i].0 as nat, pulls[i].1 as nat))
}

/// The bytes of a schedule of pulls, one pull after the other.
pub open spec fn pulled(
    src: SourceModel,
    elem: TyModel,
    pulls: Seq<(usize, usize)>,
    n: nat,
) -> Seq<u8>
    decreases n,
{
    if n == 0 || n > pulls.len() {
        seq![]
    } else {
        pulled(src, elem, pulls, (n - 1) as nat) + src.range_image(
            elem,
            pulls[n - 1].0 as nat,
            pulls[n - 1].1 as nat,
        )
    }
}

// ---------------------------------------------------------------------------------------
// Producing images.
// ---------------------------------------------------------------------------------------

/// Pad with zeros what was appended since `base` to a multiple of `align`.
fn pad_since(out: &mut Vec<u8>, base: usize, align: usize)
    requires
        base <= old(out)@.len(),
        align > 0,
    ensures
        final(out)@ == old(out)@.take(base as int) + value::padded(
            old(out)@.skip(base as int),
            align as nat,
        ),
{
    let len = out.len() - base;
    let over = len % align;
    proof {
        layout::lemma_round_up(len as nat, align as nat);
        lemma_padding(len as nat, align as nat);
    }
    let ghost image = out@.skip(base as int);
    let missing: usize = if over == 0 {
        0
    } else {
        align - over
    };
    let mut k: usize = 0;
    while k < missing
        invariant
            k <= missing,
            base <= old(out)@.len(),
            image == old(out)@.skip(base as int),
            out@ == old(out)@ + Seq::new(k as nat, |i: int| 0u8),
        decreases missing - k,
    {
        out.push(0);
        k += 1;
        assert(out@ =~= old(out)@ + Seq::new(k as nat, |i: int| 0u8));
    }
    assert(out@ =~= old(out)@.take(base as int) + value::padded(image, align as nat));
}

proof fn lemma_padding(len: nat, align: nat)
    requires
        align > 0,
    ensures
        layout::round_up(len, align) - len == if len % align == 0 {
            0
        } else {
            align - len % align
        },
{
    layout::lemma_round_up(len, align);
    if len % align != 0 {
        let a = align as int;
        let r = len as int % a;
        let up = len + (a - r);
        vstd::arithmetic::div_mod::lemma_fundamental_div_mod(len as int, a);
        let q = len as int / a;
        assert(up == (q + 1) * a) by (nonlinear_arith)
            requires
                len as int == a * q + r,
                up == len + (a - r),
        ;
        assert(len + align - 1 == (q + 1) * a + (r - 1)) by (nonlinear_arith)
            requires
                up == (q + 1) * a,
                up == len + (a - r),
                a == align,
        ;
        vstd::arithmetic::div_mod::lemma_fundamental_div_mod_converse(
            len + align - 1,
            a,
            q + 1,
            r - 1,
        );
    }
}

/// Can `val` be written down as a `ty`?
pub fn can_encode(ty: &Ty, val: &Val) -> (r: bool)
    ensures
        r == value::encodable(ty@, val@),
    decreases ty,
{
    match (ty, val) {
        (Ty::F32, Val::F32(_)) => true,
        (Ty::U32, Val::U32(_)) => true,
        (Ty::Enum(cases), Val::Enum(d)) => *d < *cases,
        (Ty::Record(fields), Val::Record(vals)) => {
            let ghost fs = layout::models(fields@);
            let ghost vs = value::models(vals@);
            let n = if fields.len() < vals.len() {
                fields.len()
            } else {
                vals.len()
            };
            proof {
                layout::lemma_models(fields@);
                value::lemma_models(vals@);
            }
            let mut i: usize = 0;
            while i < n
                invariant
                    i <= n,
                    n <= fields@.len(),
                    n <= vals@.len(),
                    n == value::pairs(fs.len(), vs.len()),
                    *ty matches Ty::Record(f) && f == *fields,
                    ty@ == TyModel::Record(fs),
                    val@ == ValModel::Record(vs),
                    fs == layout::models(fields@),
                    fs.len() == fields@.len(),
                    vs == value::models(vals@),
                    vs.len() == vals@.len(),
                    value::all_encodable(fs, vs, i as nat),
                decreases n - i,
            {
                assert(decreases_to!(ty => fields@[i as int]));
                proof {
                    layout::lemma_models(fields@);
                    value::lemma_models(vals@);
                }
                if !can_encode(&fields[i], &vals[i]) {
                    proof {
                        if value::all_encodable(fs, vs, n as nat) {
                            value::lemma_all_encodable(fs, vs, n as nat, i as nat);
                        }
                    }
                    return false;
                }
                i += 1;
            }
            true
        },
        _ => false,
    }
}

/// Append the canonical image of a dynamic inline value.
pub fn encode_inline_val(ty: &Ty, val: &Val, out: &mut Vec<u8>)
    requires
        value::encodable(ty@, val@),
    ensures
        final(out)@ == old(out)@ + value::encode(ty@, val@),
    decreases ty,
{
    match (ty, val) {
        (Ty::F32, Val::F32(x)) => push_word(out, x.bits),
        (Ty::U32, Val::U32(x)) => push_word(out, *x),
        (Ty::Enum(_), Val::Enum(d)) => push_word(out, *d),
        (Ty::Record(fields), Val::Record(vals)) => {
            let ghost fs = layout::models(fields@);
            let ghost vs = value::models(vals@);
            let n = if fields.len() < vals.len() {
                fields.len()
            } else {
                vals.len()
            };
            proof {
                layout::lemma_models(fields@);
                value::lemma_models(vals@);
            }
            let base = out.len();
            let mut i: usize = 0;
            while i < n
                invariant
                    i <= n,
                    n <= fields@.len(),
                    n <= vals@.len(),
                    *ty matches Ty::Record(f) && f == *fields,
                    fs == layout::models(fields@),
                    fs.len() == fields@.len(),
                    vs == value::models(vals@),
                    vs.len() == vals@.len(),
                    value::all_encodable(fs, vs, n as nat),
                    base == old(out)@.len(),
                    out@ == old(out)@ + value::encode_fields(fs, vs, i as nat),
                decreases n - i,
            {
                assert(decreases_to!(ty => fields@[i as int]));
                proof {
                    layout::lemma_models(fields@);
                    value::lemma_models(vals@);
                    value::lemma_all_encodable(fs, vs, n as nat, i as nat);
                    layout::lemma_words(fs[i as int]);
                }
                let ghost before = out@;
                pad_since(out, base, fields[i].align());
                assert(before.take(base as int) =~= old(out)@);
                assert(before.skip(base as int) =~= value::encode_fields(fs, vs, i as nat));
                encode_inline_val(&fields[i], &vals[i], out);
                i += 1;
                assert(out@ =~= old(out)@ + value::encode_fields(fs, vs, i as nat));
            }
            proof {
                layout::lemma_words(ty@);
                assert(out@.take(base as int) =~= old(out)@);
                assert(out@.skip(base as int) =~= value::encode_fields(fs, vs, n as nat));
            }
            pad_since(out, base, ty.align());
        },
        _ => vstd::pervasive::unreached(),
    }
}

proof fn lemma_all_producible(
    sources: Seq<SourceModel>,
    fields: Seq<TyModel>,
    n: nat,
    i: nat,
)
    requires
        i < n <= fields.len(),
        all_producible(sources, fields, n),
    ensures
        producible(sources[i as int], fields[i as int]),
    decreases n,
{
    if i < n - 1 {
        lemma_all_producible(sources, fields, (n - 1) as nat, i);
    }
}

impl<'a> ValSource<'a> {
    /// Can this source supply a single inline value of type `ty`?
    pub fn can_produce(&self, ty: &Ty) -> (r: bool)
        ensures
            r == producible(self@, ty@),
        decreases ty,
    {
        match (self, ty) {
            (ValSource::Val(v), _) => can_encode(ty, v),
            (ValSource::Flat(_), _) => true,
            (ValSource::Record(sources), Ty::Record(fields)) => {
                let ghost ss = models(sources@);
                let ghost fs = layout::models(fields@);
                let n = if fields.len() < sources.len() {
                    fields.len()
                } else {
                    sources.len()
                };
                proof {
                    lemma_models(sources@);
                    layout::lemma_models(fields@);
                }
                let mut i: usize = 0;
                while i < n
                    invariant
                        i <= n,
                        n <= fields@.len(),
                        n <= sources@.len(),
                        n == value::pairs(fs.len(), ss.len()),
                        *ty matches Ty::Record(f) && f == *fields,
                        ty@ == TyModel::Record(fs),
                        self@ == SourceModel::Record(ss),
                        fs == layout::models(fields@),
                        fs.len() == fields@.len(),
                        ss == models(sources@),
                        ss.len() == sources@.len(),
                        all_producible(ss, fs, i as nat),
                    decreases n - i,
                {
                    assert(decreases_to!(ty => fields@[i as int]));
                    proof {
                        lemma_models(sources@);
                        layout::lemma_models(fields@);
                    }
                    if !sources[i].can_produce(&fields[i]) {
                        proof {
                            if all_producible(ss, fs, n as nat) {
                                lemma_all_producible(ss, fs, n as nat, i as nat);
                            }
                        }
                        return false;
                    }
                    i += 1;
                }
                true
            },
            _ => false,
        }
    }

    /// Can this source supply a whole `list<elem>`?
    pub fn can_back(&self, elem: &Ty) -> (r: bool)
        requires
            0 < elem@.size() <= usize::MAX,
        ensures
            r == (self@.is_list() && self@.has_range(elem@, 0, self@.list_len())),
    {
        match self {
            ValSource::Val(Val::List(items)) => {
                let ghost vs = value::models(items@);
                proof {
                    value::lemma_models(items@);
                }
                let mut i: usize = 0;
                while i < items.len()
                    invariant
                        i <= items@.len(),
                        vs == value::models(items@),
                        vs.len() == items@.len(),
                        self@ == SourceModel::Val(ValModel::List(vs)),
                        forall|k: int|
                            0 <= k < i ==> value::encodable(elem@, #[trigger] vs[k]),
                    decreases items@.len() - i,
                {
                    proof {
                        value::lemma_models(items@);
                    }
                    if !can_encode(elem, &items[i]) {
                        assert(!value::encodable(elem@, vs[i as int]));
                        return false;
                    }
                    i += 1;
                }
                true
            },
            ValSource::List(ListSource::Flat(vb)) => {
                let count = vb.len();
                let bytes = vb.bytes();
                let fit = bytes.len() / elem.size();
                proof {
                    lemma_counts(bytes@.len(), elem@.size(), count as nat);
                }
                count <= fit
            },
            ValSource::List(ListSource::Elems(items)) => {
                let ghost ss = models(items@);
                proof {
                    lemma_models(items@);
                }
                let mut i: usize = 0;
                while i < items.len()
                    invariant
                        i <= items@.len(),
                        ss == models(items@),
                        ss.len() == items@.len(),
                        self@ == SourceModel::ListElems(ss),
                        forall|k: int| 0 <= k < i ==> producible(#[trigger] ss[k], elem@),
                    decreases items@.len() - i,
                {
                    proof {
                        lemma_models(items@);
                    }
                    if !items[i].can_produce(elem) {
                        assert(!producible(ss[i as int], elem@));
                        return false;
                    }
                    i += 1;
                }
                true
            },
            ValSource::Lazy(_) => true,
            ValSource::Arena(slice) => {
                let countable = slice.is_countable();
                if countable {
                    let n = slice.len();
                    proof {
                        lemma_counts(slice@.bytes.len(), slice@.stride, n as nat);
                    }
                }
                countable
            },
            _ => false,
        }
    }
}

/// As many elements fit as go into the length.
proof fn lemma_counts(len: nat, size: nat, count: nat)
    requires
        size > 0,
    ensures
        count <= len / size <==> count * size <= len,
{
    let q = len / size;
    vstd::arithmetic::div_mod::lemma_fundamental_div_mod(len as int, size as int);
    vstd::arithmetic::div_mod::lemma_mod_bound(len as int, size as int);
    if count <= q {
        assert(count * size <= size * q) by (nonlinear_arith)
            requires
                count <= q,
        ;
    } else {
        assert(count * size >= size * q + size) by (nonlinear_arith)
            requires
                count >= q + 1,
        ;
    }
}

impl<'a> ValSource<'a> {
    /// Number of elements this source yields when it backs a list.
    pub fn list_len(&self) -> (r: usize)
        requires
            self@.is_list(),
        ensures
            r == self@.list_len(),
    {
        match self {
            ValSource::Val(Val::List(items)) => {
                proof {
                    value::lemma_models(items@);
                }
                items.len()
            },
            ValSource::List(ListSource::Flat(vb)) => vb.len(),
            ValSource::List(ListSource::Elems(items)) => {
                proof {
                    lemma_models(items@);
                }
                items.len()
            },
            ValSource::Lazy(column) => column.source.len(),
            ValSource::Arena(slice) => slice.len(),
            _ => vstd::pervasive::unreached(),
        }
    }

    /// The range producer: append the canonical images of list elements
    /// `[start, start + count)`. Eager and lazy drivers share this one operation.
    pub fn produce_list_range(
        &mut self,
        elem_ty: &Ty,
        start: usize,
        count: usize,
        out: &mut Vec<u8>,
    )
        requires
            elem_ty.sized(),
            old(self)@.has_range(elem_ty@, start as nat, count as nat),
        ensures
            final(self)@ == old(self)@,
            final(self).asked() == logged(
                old(self).asked(),
                seq![(start as nat, count as nat)],
            ),
            final(out)@ == old(out)@ + old(self)@.range_image(
                elem_ty@,
                start as nat,
                count as nat,
            ),
    {
        match self {
            ValSource::Val(Val::List(items)) => {
                let ghost images = encode_all(elem_ty@, value::models(items@));
                proof {
                    value::lemma_models(items@);
                    assert(items.len() == items@.len());
                }
                let mut k: usize = 0;
                while k < count
                    invariant
                        k <= count,
                        start + count <= items@.len(),
                        items@.len() <= usize::MAX,
                        images == encode_all(elem_ty@, value::models(items@)),
                        forall|j: int|
                            start <= j < start + count ==> value::encodable(
                                elem_ty@,
                                #[trigger] value::models(items@)[j],
                            ),
                        out@ == old(out)@ + join(images, start as nat, k as nat),
                    decreases count - k,
                {
                    proof {
                        value::lemma_models(items@);
                        assert(value::models(items@)[start + k] == items@[start + k]@);
                    }
                    encode_inline_val(elem_ty, &items[start + k], out);
                    k += 1;
                    assert(out@ =~= old(out)@ + join(images, start as nat, k as nat));
                }
            },
            ValSource::List(ListSource::Flat(vb)) => push_strided(
                vb.bytes(),
                elem_ty.size(),
                start,
                count,
                out,
            ),
            ValSource::List(ListSource::Elems(items)) => {
                let ghost images = value_images(models(items@), elem_ty@);
                proof {
                    lemma_models(items@);
                    assert(items.len() == items@.len());
                }
                let mut k: usize = 0;
                while k < count
                    invariant
                        k <= count,
                        start + count <= items@.len(),
                        items@.len() <= usize::MAX,
                        images == value_images(models(items@), elem_ty@),
                        forall|j: int|
                            start <= j < start + count ==> producible(
                                #[trigger] models(items@)[j],
                                elem_ty@,
                            ),
                        out@ == old(out)@ + join(images, start as nat, k as nat),
                    decreases count - k,
                {
                    proof {
                        lemma_models(items@);
                        assert(models(items@)[start + k] == items@[start + k]@);
                    }
                    items[start + k].produce_value_image(elem_ty, out);
                    k += 1;
                    assert(out@ =~= old(out)@ + join(images, start as nat, k as nat));
                }
            },
            ValSource::Lazy(column) => column.source.produce_range(start, count, out),
            ValSource::Arena(slice) => slice.produce_range(start, count, out),
            _ => vstd::pervasive::unreached(),
        }
    }

    /// Append the canonical image of a single inline value.
    pub fn produce_value_image(&self, ty: &Ty, out: &mut Vec<u8>)
        requires
            producible(self@, ty@),
        ensures
            final(out)@ == old(out)@ + value_image(self@, ty@),
        decreases ty,
    {
        match (self, ty) {
            (ValSource::Val(v), _) => encode_inline_val(ty, v, out),
            (ValSource::Flat(vb), _) => {
                let bytes = vb.bytes();
                out.extend_from_slice(bytes);
                assert(out@ =~= old(out)@ + bytes@);
            },
            (ValSource::Record(sources), Ty::Record(fields)) => {
                let ghost fs = layout::models(fields@);
                let ghost ss = models(sources@);
                let n = if fields.len() < sources.len() {
                    fields.len()
                } else {
                    sources.len()
                };
                proof {
                    layout::lemma_models(fields@);
                    lemma_models(sources@);
                }
                let base = out.len();
                let mut i: usize = 0;
                while i < n
                    invariant
                        i <= n,
                        n <= fields@.len(),
                        n <= sources@.len(),
                        *ty matches Ty::Record(f) && f == *fields,
                        fs == layout::models(fields@),
                        fs.len() == fields@.len(),
                        ss == models(sources@),
                        ss.len() == sources@.len(),
                        all_producible(ss, fs, n as nat),
                        base == old(out)@.len(),
                        out@ == old(out)@ + fields_image(ss, fs, i as nat),
                    decreases n - i,
                {
                    assert(decreases_to!(ty => fields@[i as int]));
                    proof {
                        layout::lemma_models(fields@);
                        lemma_models(sources@);
                        lemma_all_producible(ss, fs, n as nat, i as nat);
                        layout::lemma_words(fs[i as int]);
                    }
                    let ghost before = out@;
                    pad_since(out, base, fields[i].align());
                    assert(before.take(base as int) =~= old(out)@);
                    assert(before.skip(base as int) =~= fields_image(ss, fs, i as nat));
                    sources[i].produce_value_image(&fields[i], out);
                    i += 1;
                    assert(out@ =~= old(out)@ + fields_image(ss, fs, i as nat));
                }
                proof {
                    layout::lemma_words(ty@);
                    assert(out@.take(base as int) =~= old(out)@);
                    assert(out@.skip(base as int) =~= fields_image(ss, fs, n as nat));
                }
                pad_since(out, base, ty.align());
            },
            _ => vstd::pervasive::unreached(),
        }
    }

    /// The kind of this node, for messages.
    pub fn kind(&self) -> (r: &'static str)
        ensures
            r@ == self@.kind(),
    {
        match self {
            ValSource::Val(_) => "Val",
            ValSource::Flat(_) => "Flat",
            ValSource::Record(_) => "Record",
            ValSource::List(_) => "List",
            ValSource::Stream(_) => "Stream",
            ValSource::Lazy(_) => "Lazy",
            ValSource::Arena(_) => "Arena",
        }
    }
}

/// Eager drive: produce the whole list at once, as a runtime does that copies it into guest
/// memory before the call.
pub fn drive_eager(src: &mut ValSource<'_>, elem_ty: &Ty) -> (r: Vec<u8>)
    requires
        elem_ty.sized(),
        old(src)@.is_list(),
        old(src)@.has_range(elem_ty@, 0, old(src)@.list_len()),
    ensures
        final(src)@ == old(src)@,
        final(src).asked() == logged(old(src).asked(), seq![(0nat, old(src)@.list_len())]),
        r@ == old(src)@.list_image(elem_ty@),
{
    let n = src.list_len();
    let mut out: Vec<u8> = Vec::new();
    src.produce_list_range(elem_ty, 0, n, &mut out);
    out
}

/// Lazy drive: a guest pulls element ranges in an order of its own. Only the ranges that it
/// pulls are ever produced.
pub fn drive_lazy(src: &mut ValSource<'_>, elem_ty: &Ty, pulls: &[(usize, usize)]) -> (r: Vec<u8>)
    requires
        elem_ty.sized(),
        forall|i: int|
            0 <= i < pulls@.len() ==> old(src)@.has_range(
                elem_ty@,
                (#[trigger] pulls@[i]).0 as nat,
                pulls@[i].1 as nat,
            ),
    ensures
        final(src)@ == old(src)@,
        final(src).asked() == logged(old(src).asked(), ranges(pulls@)),
        r@ == pulled(old(src)@, elem_ty@, pulls@, pulls@.len()),
{
    let mut out: Vec<u8> = Vec::new();
    let mut i: usize = 0;
    proof {
        if let Some(log) = old(src).asked() {
            assert(log + ranges(pulls@).take(0) =~= log);
        }
    }
    while i < pulls.len()
        invariant
            i <= pulls@.len(),
            elem_ty.sized(),
            src@ == old(src)@,
            src.asked() == logged(old(src).asked(), ranges(pulls@).take(i as int)),
            forall|k: int|
                0 <= k < pulls@.len() ==> src@.has_range(
                    elem_ty@,
                    (#[trigger] pulls@[k]).0 as nat,
                    pulls@[k].1 as nat,
                ),
            out@ == pulled(src@, elem_ty@, pulls@, i as nat),
        decreases pulls@.len() - i,
    {
        let (start, count) = pulls[i];
        src.produce_list_range(elem_ty, start, count, &mut out);
        i += 1;
        proof {
            let now = seq![(start as nat, count as nat)];
            assert(ranges(pulls@).take(i as int) =~= ranges(pulls@).take(i - 1) + now);
            if let Some(log) = old(src).asked() {
                assert(log + ranges(pulls@).take(i as int) =~= (log + ranges(pulls@).take(i - 1))
                    + now);
            }
        }
    }
    assert(ranges(pulls@).take(i as int) =~= ranges(pulls@));
    out
}

/// A record is supplied field by field: another source can supply another field, and adds its
/// image behind those before it, where these fill whole words.
pub proof fn law_records_are_supplied_by_field(
    sources: Seq<SourceModel>,
    fields: Seq<TyModel>,
    s: SourceModel,
    t: TyModel,
)
    requires
        sources.len() == fields.len(),
    ensures
        producible(SourceModel::Record(seq![]), TyModel::Record(seq![])),
        producible(SourceModel::Record(sources.push(s)), TyModel::Record(fields.push(t)))
            <==> producible(SourceModel::Record(sources), TyModel::Record(fields)) && producible(
            s,
            t,
        ),
        fields_image(sources, fields, fields.len()).len() % 4 == 0 && value_image(s, t).len() % 4
            == 0 ==> value_image(
            SourceModel::Record(sources.push(s)),
            TyModel::Record(fields.push(t)),
        ) == value_image(SourceModel::Record(sources), TyModel::Record(fields)) + value_image(s, t),
{
    let n = fields.len();
    let (more, others) = (fields.push(t), sources.push(s));
    lemma_supplied_front(sources, fields, others, more, n);
    let before = fields_image(sources, fields, n);
    if before.len() % 4 == 0 && value_image(s, t).len() % 4 == 0 {
        value::lemma_padded_words(before, t);
        value::lemma_padded_words(before, TyModel::Record(fields));
        value::lemma_padded_words(before + value_image(s, t), TyModel::Record(more));
    }
}

proof fn lemma_supplied_front(
    a: Seq<SourceModel>,
    x: Seq<TyModel>,
    b: Seq<SourceModel>,
    y: Seq<TyModel>,
    n: nat,
)
    requires
        n <= a.len() && n <= x.len(),
        n <= b.len() && n <= y.len(),
        forall|i: int| 0 <= i < n ==> a[i] == b[i],
        forall|i: int| 0 <= i < n ==> x[i] == y[i],
    ensures
        fields_image(a, x, n) == fields_image(b, y, n),
        all_producible(a, x, n) == all_producible(b, y, n),
    decreases n,
{
    if n > 0 {
        lemma_supplied_front(a, x, b, y, (n - 1) as nat);
        assert(a[n - 1] == b[n - 1] && x[n - 1] == y[n - 1]);
    }
}

/// A log keeps every range, in order: what is logged after something else stands behind it, and
/// where no log is kept none comes to be.
pub proof fn law_every_range_is_logged(
    log: Seq<(nat, nat)>,
    a: Seq<(usize, usize)>,
    b: Seq<(usize, usize)>,
    i: int,
)
    ensures
        logged(None, ranges(a)) is None,
        logged(Some(log), ranges(a)) == Some(log + ranges(a)),
        logged(logged(Some(log), ranges(a)), ranges(b)) == logged(Some(log), ranges(a + b)),
        ranges(a).len() == a.len(),
        0 <= i < a.len() ==> ranges(a)[i] == (a[i].0 as nat, a[i].1 as nat),
{
    assert(ranges(a + b) =~= ranges(a) + ranges(b));
    assert(log + ranges(a) + ranges(b) =~= log + ranges(a + b));
}

/// The name of a node tells what kind of node it is.
pub proof fn law_kinds_tell_nodes_apart(a: SourceModel, b: SourceModel)
    ensures
        a.kind() == b.kind() <==> ({
            ||| a is Val && b is Val
            ||| a is Flat && b is Flat
            ||| a is Record && b is Record
            ||| (a is ListFlat || a is ListElems) && (b is ListFlat || b is ListElems)
            ||| a is Stream && b is Stream
            ||| a is Lazy && b is Lazy
            ||| a is Arena && b is Arena
        }),
{
    reveal_strlit("Val");
    reveal_strlit("Flat");
    reveal_strlit("Record");
    reveal_strlit("List");
    reveal_strlit("Stream");
    reveal_strlit("Lazy");
    reveal_strlit("Arena");
    assert("Flat"@[1] == 'l' && "List"@[1] == 'i' && "Lazy"@[1] == 'a');
    assert("Record"@[0] == 'R' && "Stream"@[0] == 'S');
    assert("Flat"@ != "List"@ && "Flat"@ != "Lazy"@ && "List"@ != "Lazy"@ && "Record"@
        != "Stream"@);
    assert("Val"@.len() == 3 && "Arena"@.len() == 5 && "Record"@.len() == 6 && "Stream"@.len()
        == 6);
    assert("Flat"@.len() == 4 && "List"@.len() == 4 && "Lazy"@.len() == 4);
}

} // verus!
