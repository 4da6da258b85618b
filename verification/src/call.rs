//! Making a call: a shape that is checked once, arguments that are bound per call, and the
//! eager driver that lowers them and runs the guest.

use crate::arena;
use crate::arena::ArenaSlice;
use crate::guest;
use crate::guest::{Caller, Func, Handed};
use crate::layout;
use crate::layout::{Ty, TyModel};
use crate::lift::{Lifted, LiftedModel, OwnedResults};
use crate::lower::{flatten_image, lower_flat, Lowered};
use crate::shape;
use crate::shape::{Error, SpecModel, ValSpec};
use crate::source;
use crate::source::{Column, ListSource, SourceModel, ValSource};
use crate::store::{Store, StoreModel};
use crate::stream::Feed;
use crate::validity;
use crate::validity::{is_valid_image, ValidatedCabiBytes};
use crate::value::{CoreVal, Val};
use std::rc::Rc;
use vstd::prelude::*;
use vstd::slice::slice_to_vec;

verus! {

/// What is wrong with the first `n` specs, if anything: the first error speaks for all.
pub open spec fn first_error(specs: Seq<SpecModel>, tys: Seq<TyModel>, n: nat) -> Option<Error>
    decreases n,
{
    if n == 0 || n > specs.len() {
        None
    } else {
        match first_error(specs, tys, (n - 1) as nat) {
            Some(e) => Some(e),
            None => shape::shape_error(specs[n - 1], tys[n - 1], (n - 1) as usize),
        }
    }
}

/// Why a call with these specs cannot be prepared for parameters of these types, if so.
pub open spec fn prepare_error(specs: Seq<SpecModel>, tys: Seq<TyModel>) -> Option<Error> {
    if specs.len() != tys.len() {
        Some(Error::Arity { expected: tys.len() as usize, got: specs.len() as usize })
    } else {
        first_error(specs, tys, specs.len())
    }
}

proof fn lemma_first_error_stays(specs: Seq<SpecModel>, tys: Seq<TyModel>, m: nat, n: nat)
    requires
        m <= n <= specs.len(),
        first_error(specs, tys, m) is Some,
    ensures
        first_error(specs, tys, n) == first_error(specs, tys, m),
    decreases n,
{
    if m < n {
        lemma_first_error_stays(specs, tys, m, (n - 1) as nat);
    }
}

/// A validated, reusable call shape. It borrows no argument.
pub struct PreparedCall {
    func: Rc<Func>,
    specs: Vec<ValSpec>,
}

impl PreparedCall {
    /// The function that this call is prepared for.
    pub closed spec fn func(&self) -> Func {
        *self.func
    }

    /// The representation chosen for each argument.
    pub closed spec fn specs(&self) -> Seq<SpecModel> {
        shape::models(self.specs@)
    }

    /// The types of the parameters.
    pub open spec fn params(&self) -> Seq<TyModel> {
        layout::models(self.func().params@)
    }

    #[verifier::type_invariant]
    spec fn inv(self) -> bool {
        self.specs@.len() == self.func.params@.len()
    }

    /// Check one spec per argument against the parameters of `func`, once.
    pub fn new(func: &Rc<Func>, specs: &[ValSpec]) -> (r: Result<PreparedCall, Error>)
        ensures
            match r {
                Ok(prepared) => {
                    &&& prepare_error(shape::models(specs@), layout::models(func.params@)) is None
                    &&& prepared.func() == **func
                    &&& prepared.specs() == shape::models(specs@)
                },
                Err(e) => prepare_error(shape::models(specs@), layout::models(func.params@))
                    == Some(e),
            },
    {
        let ghost ss = shape::models(specs@);
        let ghost tys = layout::models(func.params@);
        proof {
            shape::lemma_models(specs@);
            layout::lemma_models(func.params@);
            assert(specs.len() == specs@.len());
            assert(func.params.len() == func.params@.len());
        }
        if specs.len() != func.params.len() {
            return Err(Error::Arity { expected: func.params.len(), got: specs.len() });
        }
        let mut copies: Vec<ValSpec> = Vec::new();
        let mut index: usize = 0;
        while index < specs.len()
            invariant
                index <= specs@.len(),
                specs@.len() == func.params@.len(),
                ss == shape::models(specs@),
                tys == layout::models(func.params@),
                ss.len() == specs@.len(),
                tys.len() == specs@.len(),
                first_error(ss, tys, index as nat) is None,
                copies@.len() == index,
                forall|k: int| 0 <= k < index ==> copies@[k]@ == specs@[k]@,
            decreases specs@.len() - index,
        {
            proof {
                shape::lemma_models(specs@);
                layout::lemma_models(func.params@);
                assert(ss[index as int] == specs@[index as int]@);
                assert(tys[index as int] == func.params@[index as int]@);
            }
            match specs[index].validate(&func.params[index], index) {
                Ok(()) => {},
                Err(e) => {
                    proof {
                        lemma_first_error_stays(ss, tys, (index + 1) as nat, ss.len());
                    }
                    return Err(e);
                },
            }
            copies.push(specs[index].clone());
            index += 1;
        }
        proof {
            shape::lemma_models(copies@);
            shape::lemma_models(specs@);
            assert(shape::models(copies@) =~= shape::models(specs@));
        }
        Ok(PreparedCall { func: Rc::clone(func), specs: copies })
    }

    /// Start binding arguments to this shape.
    pub fn bind(&self) -> (r: BoundCall<'_>)
        ensures
            r.prepared() == *self,
            r.args() == Seq::<SourceModel>::empty(),
    {
        BoundCall { prepared: self, slots: Vec::with_capacity(self.specs.len()) }
    }
}

impl Func {
    /// Check one spec per argument against the parameters of `func`, once.
    pub fn prepare(func: &Rc<Func>, specs: &[ValSpec]) -> (r: Result<PreparedCall, Error>)
        ensures
            match r {
                Ok(prepared) => {
                    &&& prepare_error(shape::models(specs@), layout::models(func.params@)) is None
                    &&& prepared.func() == **func
                    &&& prepared.specs() == shape::models(specs@)
                },
                Err(e) => prepare_error(shape::models(specs@), layout::models(func.params@))
                    == Some(e),
            },
    {
        PreparedCall::new(func, specs)
    }
}

/// The binding of one call. It borrows its arguments until the call is made, which consumes it.
pub struct BoundCall<'a> {
    prepared: &'a PreparedCall,
    slots: Vec<ValSource<'a>>,
}

impl<'a> BoundCall<'a> {
    /// The shape that arguments are bound to.
    pub closed spec fn prepared(&self) -> PreparedCall {
        *self.prepared
    }

    /// The arguments bound so far.
    pub closed spec fn args(&self) -> Seq<SourceModel> {
        source::models(self.slots@)
    }

    /// Bind the next argument.
    pub fn arg(self, src: ValSource<'a>) -> (r: BoundCall<'a>)
        ensures
            r.prepared() == self.prepared(),
            r.args() == self.args().push(src@),
    {
        let mut slots = self.slots;
        let ghost before = slots@;
        slots.push(src);
        proof {
            source::lemma_models(before);
            source::lemma_models(slots@);
            assert(source::models(slots@) =~= source::models(before).push(src@));
        }
        BoundCall { prepared: self.prepared, slots }
    }

    /// Bind a dynamic value.
    pub fn arg_val(self, v: Val) -> (r: BoundCall<'a>)
        ensures
            r.prepared() == self.prepared(),
            r.args() == self.args().push(SourceModel::Val(v@)),
    {
        self.arg(ValSource::Val(v))
    }

    /// Bind a single inline value as validated bytes.
    pub fn arg_flat(self, vb: ValidatedCabiBytes<'a>) -> (r: BoundCall<'a>)
        ensures
            r.prepared() == self.prepared(),
            r.args() == self.args().push(SourceModel::Flat(vb@)),
    {
        self.arg(ValSource::Flat(vb))
    }

    /// Bind a list as validated bytes.
    pub fn arg_list_flat(self, vb: ValidatedCabiBytes<'a>) -> (r: BoundCall<'a>)
        ensures
            r.prepared() == self.prepared(),
            r.args() == self.args().push(SourceModel::ListFlat(vb@)),
    {
        self.arg(ValSource::List(ListSource::Flat(vb)))
    }

    /// Bind a host-computed list.
    pub fn arg_lazy(self, column: Column<'a>) -> (r: BoundCall<'a>)
        ensures
            r.prepared() == self.prepared(),
            r.args() == self.args().push(SourceModel::Lazy(column.source.elements())),
    {
        self.arg(ValSource::Lazy(column))
    }

    /// Bind a slice of an arena.
    pub fn arg_arena(self, slice: ArenaSlice<'a>) -> (r: BoundCall<'a>)
        ensures
            r.prepared() == self.prepared(),
            r.args() == self.args().push(SourceModel::Arena(slice@)),
    {
        self.arg(ValSource::Arena(slice))
    }
}

// ---------------------------------------------------------------------------------------
// The eager driver.
// ---------------------------------------------------------------------------------------

/// How far the arguments of a call have been lowered.
pub struct Passed {
    /// Guest memory, and the core arguments.
    pub lowered: Lowered,
    /// The chunks of each stream that the guest has a handle to.
    pub streams: Seq<Seq<Seq<u8>>>,
}

impl Passed {
    /// Nothing is lowered yet: the memory of the call before is free again.
    pub open spec fn nothing(store: StoreModel) -> Passed {
        Passed { lowered: Lowered { store: store.reset(), core: seq![] }, streams: seq![] }
    }

    /// One more argument is passed. A stream is passed as a handle; a list is produced whole
    /// and copied into memory; any other value is produced and flattened into core values.
    pub open spec fn arg(self, ty: TyModel, src: SourceModel) -> Passed {
        match (src, ty) {
            (SourceModel::Stream(chunks), _) => Passed {
                lowered: Lowered {
                    store: self.lowered.store,
                    core: self.lowered.core.push(CoreVal::I32(self.streams.len() as i32)),
                },
                streams: self.streams.push(chunks),
            },
            (_, TyModel::List(elem)) => Passed {
                lowered: self.lowered.image(ty, src.list_image(*elem)),
                streams: self.streams,
            },
            _ => Passed {
                lowered: self.lowered.image(ty, source::value_image(src, ty)),
                streams: self.streams,
            },
        }
    }

    /// One more argument can be passed: its source can produce it, and there is room for it.
    pub open spec fn takes(self, ty: TyModel, src: SourceModel) -> bool {
        match (src, ty) {
            (SourceModel::Stream(_), _) => true,
            (_, TyModel::List(elem)) => {
                &&& src.is_list()
                &&& src.has_range(*elem, 0, src.list_len())
                &&& self.lowered.takes_image(ty, src.list_image(*elem))
            },
            _ => {
                &&& source::producible(src, ty)
                &&& self.lowered.takes_image(ty, source::value_image(src, ty))
            },
        }
    }

    /// The first `n` arguments are passed, one after the other.
    pub open spec fn args(self, tys: Seq<TyModel>, sources: Seq<SourceModel>, n: nat) -> Passed
        decreases n,
    {
        if n == 0 || n > sources.len() {
            self
        } else {
            self.args(tys, sources, (n - 1) as nat).arg(tys[n - 1], sources[n - 1])
        }
    }

    /// The first `n` arguments can be passed, one after the other.
    pub open spec fn takes_args(
        self,
        tys: Seq<TyModel>,
        sources: Seq<SourceModel>,
        n: nat,
    ) -> bool
        decreases n,
    {
        n == 0 || n > sources.len() || (self.takes_args(tys, sources, (n - 1) as nat) && self.args(
            tys,
            sources,
            (n - 1) as nat,
        ).takes(tys[n - 1], sources[n - 1]))
    }
}

/// What is to be supplied for a parameter of type `ty` can be measured: its size, or that of its
/// elements, is a machine number. A stream is not measured.
pub open spec fn measured(src: SourceModel, ty: TyModel) -> bool {
    match (src, ty) {
        (SourceModel::Stream(_), _) => true,
        (_, TyModel::List(elem)) => elem.size() <= usize::MAX,
        _ => ty.size() <= usize::MAX,
    }
}

/// What `src` supplies for a parameter of type `ty` is what it should be. For a list that is the
/// valid images of as many elements as the source says it has, and nothing of a flat list left
/// over; for any other type it is the valid image of one value. Values and sources of another
/// kind than the type asks for supply nothing. A stream is delivered later.
pub open spec fn sound(src: SourceModel, ty: TyModel) -> bool {
    match (src, ty) {
        (SourceModel::Stream(_), _) => true,
        (_, TyModel::List(elem)) => {
            &&& elem.size() > 0
            &&& src.is_list()
            &&& src.has_range(*elem, 0, src.list_len())
            &&& src matches SourceModel::ListFlat(vb) ==> vb.bytes.len() == src.list_len()
                * elem.size()
            &&& validity::valid_items(*elem, src.list_image(*elem), src.list_len())
        },
        _ => {
            &&& source::producible(src, ty)
            &&& ty.inline()
            &&& source::value_image(src, ty).len() == ty.size()
            &&& validity::valid_at(ty, source::value_image(src, ty), 0)
        },
    }
}

/// How many arguments, from the first on, have the representation that was prepared for and
/// supply what they should.
pub open spec fn accepted(
    specs: Seq<SpecModel>,
    tys: Seq<TyModel>,
    sources: Seq<SourceModel>,
    n: nat,
) -> nat
    decreases n,
{
    if n == 0 {
        0
    } else {
        let before = accepted(specs, tys, sources, (n - 1) as nat);
        if before == n - 1 && shape::admits(specs[n - 1], sources[n - 1]) && sound(
            sources[n - 1],
            tys[n - 1],
        ) {
            n
        } else {
            before
        }
    }
}

/// The first argument that is not accepted ends the count.
pub proof fn lemma_accepting_stops(
    specs: Seq<SpecModel>,
    tys: Seq<TyModel>,
    sources: Seq<SourceModel>,
    m: nat,
    n: nat,
)
    requires
        m < n,
        accepted(specs, tys, sources, m) == m,
        !shape::admits(specs[m as int], sources[m as int]) || !sound(
            sources[m as int],
            tys[m as int],
        ),
    ensures
        accepted(specs, tys, sources, n) == m,
    decreases n,
{
    if m + 1 < n {
        lemma_accepting_stops(specs, tys, sources, m, (n - 1) as nat);
    }
}

proof fn lemma_accepted_prefix(
    specs: Seq<SpecModel>,
    tys: Seq<TyModel>,
    sources: Seq<SourceModel>,
    m: nat,
    n: nat,
)
    requires
        m <= n,
    ensures
        accepted(specs, tys, sources, n) <= n,
        m <= accepted(specs, tys, sources, n) <==> accepted(specs, tys, sources, m) == m,
        accepted(specs, tys, sources, m) < m ==> accepted(specs, tys, sources, n) == accepted(
            specs,
            tys,
            sources,
            m,
        ),
    decreases n,
{
    if m < n {
        lemma_accepted_prefix(specs, tys, sources, m, (n - 1) as nat);
    } else if n > 0 {
        lemma_accepted_prefix(specs, tys, sources, (m - 1) as nat, (n - 1) as nat);
    }
}

/// All arguments are accepted just when each has the representation prepared for and supplies
/// what it should.
pub proof fn lemma_all_accepted(
    specs: Seq<SpecModel>,
    tys: Seq<TyModel>,
    sources: Seq<SourceModel>,
    n: nat,
)
    ensures
        accepted(specs, tys, sources, n) <= n,
        accepted(specs, tys, sources, n) == n <==> forall|k: int| #![trigger sources[k]]
            0 <= k < n ==> shape::admits(specs[k], sources[k]) && sound(sources[k], tys[k]),
    decreases n,
{
    if n > 0 {
        lemma_all_accepted(specs, tys, sources, (n - 1) as nat);
        if accepted(specs, tys, sources, n) == n {
            assert(shape::admits(specs[n - 1], sources[n - 1]) && sound(
                sources[n - 1],
                tys[n - 1],
            ));
        }
    }
}

impl<'a> BoundCall<'a> {
    /// As many arguments are bound as the function has parameters.
    pub open spec fn complete(&self) -> bool {
        self.args().len() == self.prepared().specs().len()
    }

    /// How many arguments, from the first on, have the representation that was prepared for and
    /// supply what they should.
    pub open spec fn accepted(&self) -> nat {
        accepted(
            self.prepared().specs(),
            self.prepared().params(),
            self.args(),
            self.args().len(),
        )
    }

    /// Argument `k` has the representation that was prepared for.
    pub open spec fn matches(&self, k: nat) -> bool {
        shape::admits(self.prepared().specs()[k as int], self.args()[k as int])
    }

    /// The arguments that are lowered before the call is made or refused.
    pub open spec fn passed(&self, store: StoreModel) -> Passed {
        Passed::nothing(store).args(self.prepared().params(), self.args(), self.accepted())
    }

    /// All that the guest gets to see of this call.
    pub open spec fn handed(&self, store: StoreModel) -> Handed {
        Handed {
            store: self.passed(store).lowered.store,
            streams: self.passed(store).streams,
            imports: self.prepared().func().imports@,
            core: self.passed(store).lowered.core,
        }
    }

    /// Making this call traps neither in lowering an argument nor in the guest.
    pub open spec fn runs(&self, store: StoreModel) -> bool {
        self.complete() ==> {
            &&& Passed::nothing(store).takes_args(
                self.prepared().params(),
                self.args(),
                self.accepted(),
            )
            &&& self.accepted() < self.args().len() && self.matches(self.accepted())
                ==> measured(
                self.args()[self.accepted() as int],
                self.prepared().params()[self.accepted() as int],
            )
            &&& self.accepted() == self.args().len()
                ==> self.prepared().func().body.code.accepts(self.handed(store))
        }
    }

    /// Why this call is refused, if it is, and what is then left of guest memory.
    pub open spec fn refusal(&self, store: StoreModel) -> Option<(Error, StoreModel)> {
        if !self.complete() {
            Some(
                (
                    Error::Arity {
                        expected: self.prepared().specs().len() as usize,
                        got: self.args().len() as usize,
                    },
                    store,
                ),
            )
        } else if self.accepted() < self.args().len() {
            Some(
                (
                    if self.matches(self.accepted()) {
                        Error::Validity
                    } else {
                        Error::SpecMismatch { index: self.accepted() as usize }
                    },
                    self.passed(store).lowered.store,
                ),
            )
        } else {
            None
        }
    }
}

/// Is `image` what a source of `n` elements should supply for a list of `elem`? A source that
/// was checked as a run of that type is taken at its word.
fn is_sound_list(src: &ValSource<'_>, elem: &Ty, n: usize, image: &[u8]) -> (r: bool)
    requires
        0 < elem@.size() <= usize::MAX,
        src@ !is Stream,
        src@.is_list(),
        src@.has_range(elem@, 0, src@.list_len()),
        n == src@.list_len(),
        image@ == src@.list_image(elem@),
    ensures
        r == sound(src@, TyModel::List(Box::new(elem@))),
{
    let vouched = match src {
        ValSource::List(ListSource::Flat(vb)) => {
            let checked = vb.bytes();
            proof {
                if vb@.elem == elem@ {
                    lemma_whole_run(checked@, elem@.size());
                }
            }
            if checked.len() != image.len() {
                proof {
                    arena::lemma_strided_bounds(elem@.size(), 0, n as nat);
                    assert(0 * elem@.size() == 0) by (nonlinear_arith);
                }
                return false;
            }
            vb.elem().same_as(elem)
        },
        ValSource::Arena(slice) => {
            let known = slice.vouches_for(elem);
            proof {
                if known {
                    lemma_whole_run(slice@.bytes, elem@.size());
                }
            }
            known
        },
        _ => false,
    };
    proof {
        if elem@.inline() {
            validity::lemma_items_are_a_run(elem@, image@, n as nat);
        }
    }
    if vouched {
        return true;
    }
    if n == 0 {
        assert(0 * elem@.size() == 0) by (nonlinear_arith);
        return image.len() == 0;
    }
    proof {
        if validity::valid_items(elem@, image@, n as nat) {
            assert(validity::valid_at(elem@, image@, 0int * elem@.size()));
            validity::lemma_valid_is_inline(elem@, image@, 0int * elem@.size());
        }
    }
    match ValidatedCabiBytes::checked(image, elem) {
        Ok(vb) => vb.len() == n,
        Err(_) => false,
    }
}

/// All elements of a run, taken out of it, are the run.
proof fn lemma_whole_run(bytes: Seq<u8>, size: nat)
    requires
        size > 0,
        bytes.len() % size == 0,
    ensures
        bytes.len() == bytes.len() / size * size,
        arena::strided(bytes, size, 0, bytes.len() / size) == bytes,
{
    let n = bytes.len() / size;
    vstd::arithmetic::div_mod::lemma_fundamental_div_mod(bytes.len() as int, size as int);
    assert(size * n == n * size) by (nonlinear_arith);
    assert(0 * size == 0) by (nonlinear_arith);
    assert(bytes.subrange(0, bytes.len() as int) =~= bytes);
}

/// Is `image` the image of one value of type `ty`?
fn is_sound_value(ty: &Ty, image: &[u8]) -> (r: bool)
    requires
        ty.sized(),
    ensures
        r == (ty@.inline() && image@.len() == ty@.size() && validity::valid_at(ty@, image@, 0)),
{
    proof {
        if ty@.total() {
            validity::lemma_total_valid(ty@, image@, 0);
        }
    }
    ty.is_inline() && image.len() == ty.size() && (ty.are_all_bit_patterns_valid()
        || is_valid_image(ty, image, 0))
}

/// Lower one argument that has the representation prepared for, unless what it supplies is not
/// what it should be: then nothing of it is lowered.
fn pass_arg<'a>(
    store: &mut Store,
    ty: &Ty,
    src: ValSource<'a>,
    core: &mut Vec<CoreVal>,
    streams: &mut Vec<Feed<'a>>,
) -> (r: Result<(), Error>)
    requires
        measured(src@, ty@),
        sound(src@, ty@) ==> (Passed {
            lowered: Lowered { store: old(store)@, core: old(core)@ },
            streams: guest::chunks(old(streams)@),
        }).takes(ty@, src@),
    ensures
        r == if sound(src@, ty@) {
            Ok::<(), Error>(())
        } else {
            Err(Error::Validity)
        },
        (Passed {
            lowered: Lowered { store: final(store)@, core: final(core)@ },
            streams: guest::chunks(final(streams)@),
        }) == if sound(src@, ty@) {
            (Passed {
                lowered: Lowered { store: old(store)@, core: old(core)@ },
                streams: guest::chunks(old(streams)@),
            }).arg(ty@, src@)
        } else {
            Passed {
                lowered: Lowered { store: old(store)@, core: old(core)@ },
                streams: guest::chunks(old(streams)@),
            }
        },
{
    let mut src = src;
    match src {
        ValSource::Stream(feed) => {
            core.push(CoreVal::I32(#[verifier::truncate] (streams.len() as i32)));
            streams.push(feed);
            assert(guest::chunks(streams@) =~= guest::chunks(old(streams)@).push(
                feed.producer.remaining(),
            ));
            return Ok(());
        },
        _ => {},
    }
    let mut buf: Vec<u8> = Vec::new();
    match ty {
        Ty::List(elem) => {
            if elem.size() == 0 || !src.can_back(elem) {
                return Err(Error::Validity);
            }
            let n = src.list_len();
            src.produce_list_range(elem, 0, n, &mut buf);
            if !is_sound_list(&src, elem, n, buf.as_slice()) {
                return Err(Error::Validity);
            }
            let (ptr, len) = lower_flat(store, ty, buf.as_slice());
            core.push(CoreVal::I32(#[verifier::truncate] (ptr as i32)));
            core.push(CoreVal::I32(#[verifier::truncate] (len as i32)));
            assert(core@ =~= old(core)@ + seq![
                CoreVal::I32(ptr as i32),
                CoreVal::I32(len as i32),
            ]);
        },
        _ => {
            if !src.can_produce(ty) {
                return Err(Error::Validity);
            }
            src.produce_value_image(ty, &mut buf);
            if !is_sound_value(ty, buf.as_slice()) {
                return Err(Error::Validity);
            }
            proof {
                layout::lemma_round_up(0, 4);
                layout::lemma_round_up(0, 1);
                layout::lemma_words(ty@);
            }
            flatten_image(ty, buf.as_slice(), 0, core);
        },
    }
    Ok(())
}

impl<'a> BoundCall<'a> {
    /// The results that `after` and `core` hold once the guest has returned them.
    pub open spec fn results(&self, after: StoreModel, core: Seq<CoreVal>) -> LiftedModel {
        LiftedModel {
            mem: after.mem,
            tys: layout::models(self.prepared().func().results@),
            core,
        }
    }

    /// Called on `before`, the guest may leave its memory as `after` and give `results`.
    pub open spec fn may_give(
        &self,
        before: StoreModel,
        after: StoreModel,
        results: LiftedModel,
    ) -> bool {
        &&& self.prepared().func().body.code.may_return(self.handed(before), after, results.core)
        &&& results == self.results(after, results.core)
    }

    /// The core values of the results can be counted.
    pub open spec fn results_fit(&self) -> bool {
        let tys = layout::models(self.prepared().func().results@);
        layout::slots_upto(tys, tys.len()) <= usize::MAX
    }

    /// Run the guest and own the results. A call with too few or too many arguments, with a
    /// representation that was not prepared for, or with contents that are not valid for their
    /// parameter, is refused before the guest runs.
    pub fn invoke(self, store: &mut Store) -> (r: Result<OwnedResults, Error>)
        requires
            self.runs(old(store)@),
            self.results_fit(),
        ensures
            match r {
                Ok(owned) => {
                    &&& self.refusal(old(store)@) is None
                    &&& self.prepared().func().body.code.may_return(
                        self.handed(old(store)@),
                        final(store)@,
                        owned.model().core,
                    )
                    &&& owned.model() == if self.prepared().func().results@.len() == 0 {
                        LiftedModel { mem: seq![], tys: seq![], core: owned.model().core }
                    } else {
                        self.results(final(store)@, owned.model().core)
                    }
                },
                Err(e) => self.refusal(old(store)@) == Some((e, final(store)@)),
            },
    {
        proof {
            layout::lemma_models(self.prepared.func.results@);
        }
        let tys = self.prepared.func.results.clone();
        proof {
            layout::lemma_models(tys@);
            assert forall|k: int| 0 <= k < tys@.len() implies tys@[k]@
                == self.prepared.func.results@[k]@ by {
                assert(cloned(self.prepared.func.results@[k], tys@[k]));
            }
            assert(layout::models(tys@) =~= layout::models(self.prepared.func.results@));
        }
        let core = match self.lower_and_run(store) {
            Ok(core) => core,
            Err(e) => {
                return Err(e);
            },
        };
        let mem: Vec<u8> = if tys.len() == 0 {
            Vec::new()
        } else {
            slice_to_vec(store.bytes())
        };
        Ok(OwnedResults::new(mem, tys, core))
    }

    /// Run the guest and read the results in place: `f` sees them, and nothing that it borrows
    /// from them can leave it.
    pub fn invoke_scoped<R, F: FnOnce(&Lifted<'_>) -> R>(self, store: &mut Store, f: F) -> (r:
        Result<R, Error>)
        requires
            self.runs(old(store)@),
            self.results_fit(),
            forall|results: Lifted<'_>, after: StoreModel|
                #[trigger] self.may_give(old(store)@, after, results.model()) ==> f.requires(
                    (&results,),
                ),
        ensures
            r is Ok <==> self.refusal(old(store)@) is None,
            r matches Ok(x) ==> exists|results: Lifted<'_>|
                self.may_give(old(store)@, final(store)@, results.model()) && #[trigger] f.ensures(
                    (&results,),
                    x,
                ),
            r matches Err(e) ==> self.refusal(old(store)@) == Some((e, final(store)@)),
    {
        proof {
            layout::lemma_models(self.prepared.func.results@);
        }
        let prepared = self.prepared;
        let core = match self.lower_and_run(store) {
            Ok(core) => core,
            Err(e) => {
                return Err(e);
            },
        };
        let results = Lifted::new(
            store.bytes(),
            prepared.func.results.as_slice(),
            core.as_slice(),
        );
        assert(self.may_give(old(store)@, store@, results.model()));
        let r: Result<R, Error> = Ok(f(&results));
        assert(f.ensures((&results,), r->Ok_0));
        r
    }

    /// Check representations and contents, lower every argument into guest memory, and run the guest.
    #[verifier::rlimit(30)]
    fn lower_and_run(self, store: &mut Store) -> (r: Result<Vec<CoreVal>, Error>)
        requires
            self.runs(old(store)@),
        ensures
            match r {
                Ok(core) => {
                    &&& self.refusal(old(store)@) is None
                    &&& self.prepared().func().body.code.may_return(
                        self.handed(old(store)@),
                        final(store)@,
                        core@,
                    )
                },
                Err(e) => self.refusal(old(store)@) == Some((e, final(store)@)),
            },
    {
        let prepared = self.prepared;
        let slots = self.slots;
        let ghost sources = source::models(slots@);
        let ghost specs = shape::models(prepared.specs@);
        let ghost tys = layout::models(prepared.func.params@);
        proof {
            use_type_invariant(prepared);
            source::lemma_models(slots@);
            shape::lemma_models(prepared.specs@);
            layout::lemma_models(prepared.func.params@);
            assert(slots.len() == slots@.len());
            assert(prepared.specs.len() == prepared.specs@.len());
        }
        if slots.len() != prepared.specs.len() {
            return Err(Error::Arity { expected: prepared.specs.len(), got: slots.len() });
        }
        let ghost start = Passed::nothing(store@);
        store.reset();
        let mut core: Vec<CoreVal> = Vec::new();
        let mut streams: Vec<Feed<'a>> = Vec::new();
        let mut index: usize = 0;
        assert(guest::chunks(streams@) =~= start.streams);
        for src in it: slots.into_iter()
            invariant
                it.seq() == slots@,
                index == it.index(),
                slots@.len() <= usize::MAX,
                sources == source::models(slots@),
                specs == shape::models(prepared.specs@),
                tys == layout::models(prepared.func.params@),
                slots@.len() == prepared.specs@.len(),
                slots@.len() == prepared.func.params@.len(),
                accepted(specs, tys, sources, index as nat) == index,
                start.takes_args(tys, sources, self.accepted()),
                self.accepted() == accepted(specs, tys, sources, sources.len()),
                self.accepted() < sources.len() && shape::admits(
                    specs[self.accepted() as int],
                    sources[self.accepted() as int],
                ) ==> measured(
                    sources[self.accepted() as int],
                    tys[self.accepted() as int],
                ),
                start.args(tys, sources, index as nat) == (Passed {
                    lowered: Lowered { store: store@, core: core@ },
                    streams: guest::chunks(streams@),
                }),
                self.prepared().specs() == specs,
                self.prepared().params() == tys,
                self.args() == sources,
                self.complete(),
                start == Passed::nothing(old(store)@),
        {
            proof {
                source::lemma_models(slots@);
                shape::lemma_models(prepared.specs@);
                layout::lemma_models(prepared.func.params@);
                assert(sources[index as int] == slots@[index as int]@);
                assert(specs[index as int] == prepared.specs@[index as int]@);
                assert(tys[index as int] == prepared.func.params@[index as int]@);
            }
            if !prepared.specs[index].matches(&src) {
                proof {
                    lemma_accepting_stops(specs, tys, sources, index as nat, sources.len());
                }
                return Err(Error::SpecMismatch { index });
            }
            proof {
                lemma_accepted_prefix(specs, tys, sources, (index + 1) as nat, sources.len());
                if sound(sources[index as int], tys[index as int]) {
                    lemma_takes_prefix(
                        start,
                        tys,
                        sources,
                        (index + 1) as nat,
                        self.accepted(),
                    );
                    lemma_taken_is_measured(
                        start.args(tys, sources, index as nat),
                        tys[index as int],
                        sources[index as int],
                    );
                } else {
                    lemma_accepting_stops(specs, tys, sources, index as nat, sources.len());
                }
            }
            match pass_arg(store, &prepared.func.params[index], src, &mut core, &mut streams) {
                Ok(()) => {},
                Err(e) => {
                    return Err(e);
                },
            }
            index += 1;
        }
        proof {
            source::lemma_models(slots@);
        }
        let caller = Caller::new(store, prepared.func.imports.as_slice(), streams);
        Ok(prepared.func.body.code.call(caller, core.as_slice()))
    }
}

/// An argument that can be passed can be measured.
proof fn lemma_taken_is_measured(before: Passed, ty: TyModel, src: SourceModel)
    requires
        before.takes(ty, src),
    ensures
        measured(src, ty),
{
}

/// If some arguments can be passed, so can the first of them.
proof fn lemma_takes_prefix(
    start: Passed,
    tys: Seq<TyModel>,
    sources: Seq<SourceModel>,
    m: nat,
    n: nat,
)
    requires
        m <= n <= sources.len(),
        start.takes_args(tys, sources, n),
    ensures
        start.takes_args(tys, sources, m),
    decreases n,
{
    if m < n {
        lemma_takes_prefix(start, tys, sources, m, (n - 1) as nat);
    }
}

} // verus!
