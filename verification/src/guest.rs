//! Guest functions, the context they run in, and the host functions they call back into.

use crate::layout;
use crate::layout::{Ty, TyModel};
use crate::lift::{Lifted, LiftedModel};
use crate::lower;
use crate::lower::{lower_source, Lowered, Source};
use crate::store::{Store, StoreModel};
use crate::stream::Feed;
use crate::value::CoreVal;
use std::rc::Rc;
use vstd::prelude::*;

verus! {

/// The core values that a host has set for each result, or has not.
pub open spec fn outs_model(outs: Seq<Option<Vec<CoreVal>>>) -> Seq<Option<Seq<CoreVal>>> {
    Seq::new(
        outs.len(),
        |i: int|
            match outs[i] {
                Some(core) => Some(core@),
                None => None,
            },
    )
}

/// The core values of the first `n` results, one result after the other.
pub open spec fn outs_core(outs: Seq<Option<Seq<CoreVal>>>, n: nat) -> Seq<CoreVal>
    decreases n,
{
    if n == 0 || n > outs.len() {
        seq![]
    } else {
        outs_core(outs, (n - 1) as nat) + match outs[n - 1] {
            Some(core) => core,
            None => seq![],
        }
    }
}

/// What a guest hands to a host function: its memory, the types of the function, and the core
/// arguments.
pub struct ImportModel {
    pub store: StoreModel,
    pub params: Seq<TyModel>,
    pub results: Seq<TyModel>,
    pub args: Seq<CoreVal>,
}

/// The host's side of one call from the guest.
///
/// It borrows guest memory for as long as the handler runs, so a view that it gives out cannot
/// outlive the call; and reading arguments borrows it shared while setting results borrows it
/// mutably, so no view spans a write.
pub struct ImportCall<'s> {
    pub store: &'s mut Store,
    pub param_tys: &'s [Ty],
    pub result_tys: &'s [Ty],
    pub args: &'s [CoreVal],
    pub outs: &'s mut Vec<Option<Vec<CoreVal>>>,
}

/// A host function that a guest can call.
pub trait ImportHandler {
    /// This handler is made for `call`: it does not trap on it. One that says nothing else is
    /// made for every call.
    open spec fn accepts(&self, call: ImportModel) -> bool {
        true
    }

    /// Called with `call`, this handler may leave the guest's memory as `after` and the results
    /// as `outs`. One that says nothing else may leave them in any way.
    open spec fn may_handle(
        &self,
        call: ImportModel,
        after: StoreModel,
        outs: Seq<Option<Seq<CoreVal>>>,
    ) -> bool {
        true
    }

    /// Receive the arguments of one call, and set its results.
    fn handle(&self, call: ImportCall<'_>)
        requires
            old(call.outs)@.len() == call.result_tys@.len(),
            forall|k: int|
                0 <= k < old(call.outs)@.len() ==> #[trigger] old(call.outs)@[k] is None,
            layout::slots_upto(layout::models(call.param_tys@), call.param_tys@.len())
                <= usize::MAX,
            self.accepts(
                (ImportModel {
                    store: old(call.store)@,
                    params: layout::models(call.param_tys@),
                    results: layout::models(call.result_tys@),
                    args: call.args@,
                }),
            ),
        ensures
            self.may_handle(
                (ImportModel {
                    store: old(call.store)@,
                    params: layout::models(call.param_tys@),
                    results: layout::models(call.result_tys@),
                    args: call.args@,
                }),
                final(call.store)@,
                outs_model(final(call.outs)@),
            ),
            final(call.outs)@.len() == old(call.outs)@.len(),
    ;
}

impl<'s> ImportCall<'s> {
    /// The guest's arguments, to be received as views, copies or dynamic values.
    pub fn args(&self) -> (r: Lifted<'_>)
        requires
            layout::slots_upto(layout::models(self.param_tys@), self.param_tys@.len())
                <= usize::MAX,
        ensures
            r.model() == (LiftedModel {
                mem: old(self.store)@.mem,
                tys: layout::models(self.param_tys@),
                core: self.args@,
            }),
    {
        Lifted::new(self.store.bytes(), self.param_tys, self.args)
    }

    /// Provide result `index`; it is lowered into guest memory at once.
    pub fn set(&mut self, index: usize, src: Source<'_>)
        requires
            index < old(self).result_tys@.len(),
            index < old(self).outs@.len(),
            (Lowered { store: old(self).store@, core: seq![] }).takes(
                old(self).result_tys@[index as int]@,
                src@,
            ),
        ensures
            ({
                let lowered = (Lowered { store: old(self).store@, core: seq![] }).provided(
                    old(self).result_tys@[index as int]@,
                    src@,
                );
                &&& final(self).store@ == lowered.store
                &&& outs_model(final(self).outs@) == outs_model(old(self).outs@).update(
                    index as int,
                    Some(lowered.core),
                )
            }),
            final(self).param_tys == old(self).param_tys,
            final(self).result_tys == old(self).result_tys,
            final(self).args == old(self).args,
            *final(final(self).store) == *final(old(self).store),
            *final(final(self).outs) == *final(old(self).outs),
    {
        let core = lower_source(&mut *self.store, &self.result_tys[index], src);
        let ghost core_model = core@;
        self.outs[index] = Some(core);
        assert(outs_model(self.outs@) =~= outs_model(old(self).outs@).update(
            index as int,
            Some(core_model),
        ));
    }
}

/// A host handler left a result unset: the first one it left.
#[derive(Clone, Copy, Debug, PartialEq, Eq, Structural)]
pub struct ResultNotSet {
    pub index: usize,
}

/// Assemble the core results in slot order.
fn finish(outs: &Vec<Option<Vec<CoreVal>>>) -> (r: Result<Vec<CoreVal>, ResultNotSet>)
    ensures
        assembled(outs_model(outs@), r),
{
    let ghost model = outs_model(outs@);
    let mut core: Vec<CoreVal> = Vec::new();
    let mut i: usize = 0;
    while i < outs.len()
        invariant
            i <= outs@.len(),
            model == outs_model(outs@),
            forall|k: int| 0 <= k < i ==> #[trigger] model[k] is Some,
            core@ == outs_core(model, i as nat),
        decreases outs@.len() - i,
    {
        assert(model[i as int] is Some <==> outs@[i as int] is Some);
        match &outs[i] {
            Some(part) => {
                core.extend_from_slice(part.as_slice());
                assert(core@ =~= outs_core(model, (i + 1) as nat));
            },
            None => {
                return Err(ResultNotSet { index: i });
            },
        }
        i += 1;
    }
    Ok(core)
}

/// `r` is what the guest gets back when its host function has set `outs`: every result in
/// order, or the first that is missing.
pub open spec fn assembled(
    outs: Seq<Option<Seq<CoreVal>>>,
    r: Result<Vec<CoreVal>, ResultNotSet>,
) -> bool {
    match r {
        Ok(core) => {
            &&& forall|k: int| 0 <= k < outs.len() ==> #[trigger] outs[k] is Some
            &&& core@ == outs_core(outs, outs.len())
        },
        Err(e) => {
            &&& e.index < outs.len()
            &&& outs[e.index as int] is None
            &&& forall|k: int| 0 <= k < e.index ==> #[trigger] outs[k] is Some
        },
    }
}

/// The code of a host function.
pub struct Handler {
    pub code: Box<dyn ImportHandler>,
}

/// A host function with its type.
pub struct HostImport {
    pub params: Vec<Ty>,
    pub results: Vec<Ty>,
    pub handler: Handler,
}

impl HostImport {
    pub fn new(params: Vec<Ty>, results: Vec<Ty>, handler: Handler) -> (r:
        HostImport)
        ensures
            r == (HostImport { params, results, handler }),
    {
        HostImport { params, results, handler }
    }
}

/// The chunks still to come on each stream.
pub open spec fn chunks<'p>(streams: Seq<Feed<'p>>) -> Seq<Seq<Seq<u8>>> {
    Seq::new(streams.len(), |i: int| streams[i].producer.remaining())
}

/// All that a guest sees when it is called: its memory, its streams, the functions it can call
/// back into, and the core arguments.
pub struct Handed {
    pub store: StoreModel,
    pub streams: Seq<Seq<Seq<u8>>>,
    pub imports: Seq<HostImport>,
    pub core: Seq<CoreVal>,
}

/// The integer in a core slot; less than zero where there is none.
pub open spec fn int_in(core: Seq<CoreVal>, slot: int) -> int {
    match core[slot] {
        CoreVal::I32(x) => x as int,
        CoreVal::F32(_) => -1,
    }
}

/// What a guest function does.
pub trait GuestBody {
    /// This function is made for `handed`: it does not trap on it. One that says nothing else
    /// is made for everything.
    open spec fn accepts(&self, handed: Handed) -> bool {
        true
    }

    /// Called with `handed`, this function may leave its memory as `after` and return
    /// `results`. One that says nothing else may do anything to them.
    open spec fn may_return(
        &self,
        handed: Handed,
        after: StoreModel,
        results: Seq<CoreVal>,
    ) -> bool {
        true
    }

    /// Run the function on the core arguments.
    fn call(&self, caller: Caller<'_, '_>, core: &[CoreVal]) -> (r: Vec<CoreVal>)
        requires
            self.accepts(
                (Handed {
                    store: old(caller.store)@,
                    streams: chunks(caller.streams@),
                    imports: caller.imports@,
                    core: core@,
                }),
            ),
        ensures
            self.may_return(
                (Handed {
                    store: old(caller.store)@,
                    streams: chunks(caller.streams@),
                    imports: caller.imports@,
                    core: core@,
                }),
                final(caller.store)@,
                r@,
            ),
    ;
}

/// The context of a running guest: its memory, its imports and its incoming streams.
pub struct Caller<'s, 'p> {
    pub store: &'s mut Store,
    pub imports: &'s [HostImport],
    pub streams: Vec<Feed<'p>>,
}

impl<'s, 'p> Caller<'s, 'p> {
    pub fn new(
        store: &'s mut Store,
        imports: &'s [HostImport],
        streams: Vec<Feed<'p>>,
    ) -> (r: Caller<'s, 'p>)
        ensures
            *r.store == *old(store),
            *final(r.store) == *final(store),
            r.imports == imports,
            r.streams == streams,
    {
        Caller { store, imports, streams }
    }

    /// The guest's memory.
    pub fn store(&mut self) -> (r: &mut Store)
        ensures
            *r == *old(self).store,
            *final(self).store == *final(r),
            *final(final(self).store) == *final(old(self).store),
            final(self).imports == old(self).imports,
            final(self).streams == old(self).streams,
    {
        &mut *self.store
    }

    /// Call host function `index`. Its arguments are lifted from the guest's memory where the
    /// host asks for them, its results are lowered back into that memory, and their core values
    /// are returned.
    pub fn call_import(&mut self, index: usize, core_args: &[CoreVal]) -> (r: Result<
        Vec<CoreVal>,
        ResultNotSet,
    >)
        requires
            index < old(self).imports@.len(),
            ({
                let params = layout::models(old(self).imports@[index as int].params@);
                layout::slots_upto(params, params.len()) <= usize::MAX
            }),
            old(self).imports@[index as int].handler.code.accepts(
                (ImportModel {
                    store: old(self).store@,
                    params: layout::models(old(self).imports@[index as int].params@),
                    results: layout::models(old(self).imports@[index as int].results@),
                    args: core_args@,
                }),
            ),
        ensures
            exists|outs: Seq<Option<Seq<CoreVal>>>|
                {
                    &&& #[trigger] old(self).imports@[index as int].handler.code.may_handle(
                        (ImportModel {
                            store: old(self).store@,
                            params: layout::models(old(self).imports@[index as int].params@),
                            results: layout::models(old(self).imports@[index as int].results@),
                            args: core_args@,
                        }),
                        final(self).store@,
                        outs,
                    )
                    &&& outs.len() == old(self).imports@[index as int].results@.len()
                    &&& assembled(outs, r)
                },
            *final(final(self).store) == *final(old(self).store),
            final(self).imports == old(self).imports,
            final(self).streams == old(self).streams,
    {
        let imports = self.imports;
        let import = &imports[index];
        let mut outs: Vec<Option<Vec<CoreVal>>> = Vec::new();
        let mut i: usize = 0;
        while i < import.results.len()
            invariant
                i <= import.results@.len(),
                outs@.len() == i,
                forall|k: int| 0 <= k < i ==> #[trigger] outs@[k] is None,
            decreases import.results@.len() - i,
        {
            outs.push(None);
            i += 1;
        }
        proof {
            layout::lemma_models(import.params@);
        }
        import.handler.code.handle(
            ImportCall {
                store: &mut *self.store,
                param_tys: import.params.as_slice(),
                result_tys: import.results.as_slice(),
                args: core_args,
                outs: &mut outs,
            },
        );
        assert(import.handler.code.may_handle(
            ImportModel {
                store: old(self).store@,
                params: layout::models(import.params@),
                results: layout::models(import.results@),
                args: core_args@,
            },
            self.store@,
            outs_model(outs@),
        ));
        finish(&outs)
    }

    /// Pull the next chunk of stream `stream` into a fresh allocation: its address and its
    /// length in bytes, or `None` at the end of the stream.
    pub fn pull(&mut self, stream: usize) -> (r: Option<(usize, usize)>)
        requires
            stream < old(self).streams@.len(),
            ({
                let left = old(self).streams@[stream as int].producer.remaining();
                left.len() > 0 ==> old(self).store@.room(left[0].len(), 4)
            }),
        ensures
            ({
                let left = old(self).streams@[stream as int].producer.remaining();
                match r {
                    None => {
                        &&& left.len() == 0
                        &&& final(self).store@ == old(self).store@
                        &&& chunks(final(self).streams@) == chunks(old(self).streams@)
                    },
                    Some((ptr, len)) => {
                        &&& left.len() > 0
                        &&& ptr == old(self).store@.slot(4)
                        &&& len == left[0].len()
                        &&& final(self).store@ == old(self).store@.with(left[0], 4)
                        &&& chunks(final(self).streams@) == chunks(old(self).streams@).update(
                            stream as int,
                            left.skip(1),
                        )
                    },
                }
            }),
            *final(final(self).store) == *final(old(self).store),
            final(self).imports == old(self).imports,
    {
        match self.streams[stream].producer.next_chunk() {
            None => {
                assert(chunks(self.streams@) =~= chunks(old(self).streams@));
                None
            },
            Some(chunk) => {
                let len = chunk.len();
                proof {
                    lower::lemma_slot_mask(old(self).store@, 4);
                    assert(len == chunk@.len());
                }
                let ptr = self.store.realloc(len, 4);
                self.store.write(ptr, chunk);
                assert(chunks(self.streams@) =~= chunks(old(self).streams@).update(
                    stream as int,
                    old(self).streams@[stream as int].producer.remaining().skip(1),
                ));
                Some((ptr, len))
            },
        }
    }
}

/// The code of a guest function.
pub struct Body {
    pub code: Box<dyn GuestBody>,
}

/// A guest function with its type and the host functions it imports.
pub struct Func {
    pub params: Vec<Ty>,
    pub results: Vec<Ty>,
    pub imports: Vec<HostImport>,
    pub body: Body,
}

impl Func {
    pub fn new(params: Vec<Ty>, results: Vec<Ty>, body: Body) -> (r: Rc<Func>)
        ensures
            r.params == params,
            r.results == results,
            r.imports@ == Seq::<HostImport>::empty(),
            r.body == body,
    {
        Func::with_imports(params, results, Vec::new(), body)
    }

    pub fn with_imports(
        params: Vec<Ty>,
        results: Vec<Ty>,
        imports: Vec<HostImport>,
        body: Body,
    ) -> (r: Rc<Func>)
        ensures
            r.params == params,
            r.results == results,
            r.imports == imports,
            r.body == body,
    {
        Rc::new(Func { params, results, imports, body })
    }
}

/// Results come back in order: another result that is set adds its core values behind those of the
/// results before it. What comes back is determined by what was set.
pub proof fn law_results_come_back_in_order(
    outs: Seq<Option<Seq<CoreVal>>>,
    core: Seq<CoreVal>,
    a: Result<Vec<CoreVal>, ResultNotSet>,
    b: Result<Vec<CoreVal>, ResultNotSet>,
)
    ensures
        outs_core(seq![], 0) == Seq::<CoreVal>::empty(),
        outs_core(outs.push(Some(core)), outs.len() + 1) == outs_core(outs, outs.len()) + core,
        assembled(outs, a) ==> (a is Ok <==> forall|k: int|
            0 <= k < outs.len() ==> #[trigger] outs[k] is Some),
        assembled(outs, a) && assembled(outs, b) ==> (a is Ok <==> b is Ok) && (a is Ok
            ==> a->Ok_0@ == b->Ok_0@) && (a is Err ==> a->Err_0 == b->Err_0),
{
    lemma_outs_front(outs, Some(core), outs.len());
    if assembled(outs, a) && assembled(outs, b) && a is Err && b is Err {
        let (i, j) = (a->Err_0.index as int, b->Err_0.index as int);
        if i < j {
            assert(outs[i] is Some);
        }
        if j < i {
            assert(outs[j] is Some);
        }
    }
}

proof fn lemma_outs_front(outs: Seq<Option<Seq<CoreVal>>>, more: Option<Seq<CoreVal>>, n: nat)
    requires
        n <= outs.len(),
    ensures
        outs_core(outs.push(more), n) == outs_core(outs, n),
    decreases n,
{
    if n > 0 {
        lemma_outs_front(outs, more, (n - 1) as nat);
    }
}

} // verus!
