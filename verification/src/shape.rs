//! The representation chosen for each argument: checked once, reused for every call.

use crate::layout;
use crate::layout::{Ty, TyModel};
use crate::source::{ListSource, SourceModel, ValSource};
use crate::validity::ValidityError;
use vstd::prelude::*;

verus! {

/// Why a call could not be prepared or made.
#[derive(Clone, Copy, Debug, PartialEq, Eq, Structural)]
pub enum Error {
    /// The number of arguments is not the number of parameters.
    Arity { expected: usize, got: usize },
    /// A source, or a spec, does not have the shape that its position asks for.
    SpecMismatch { index: usize },
    /// A flat, lazy or arena spec for a type with out-of-line storage or ownership.
    NotInline { index: usize },
    /// A record spec with another number of fields than its type.
    RecordArity { index: usize },
    /// Bytes that were offered failed canonical validation.
    Validity,
}

impl From<ValidityError> for Error {
    fn from(e: ValidityError) -> (r: Error) {
        Error::Validity
    }
}

impl vstd::std_specs::convert::FromSpecImpl<ValidityError> for Error {
    open spec fn obeys_from_spec() -> bool {
        true
    }

    open spec fn from_spec(e: ValidityError) -> Error {
        Error::Validity
    }
}

/// The representation of one argument, without any data.
#[derive(Debug)]
pub enum ValSpec {
    Val,
    /// A single inline value as flat bytes.
    Flat,
    /// An inline record, field by field.
    Record(Vec<ValSpec>),
    /// A `list<inline T>` as flat bytes.
    ListFlat,
    /// A `list<T>` element by element, all elements alike.
    ListElems(Box<ValSpec>),
    /// Host-computed.
    Lazy,
    /// From a pre-validated arena.
    Arena,
    /// A `stream<T>`.
    Stream,
}

/// The mathematical value of a [`ValSpec`].
pub enum SpecModel {
    Val,
    Flat,
    Record(Seq<SpecModel>),
    ListFlat,
    ListElems(Box<SpecModel>),
    Lazy,
    Arena,
    Stream,
}

impl ValSpec {
    pub open spec fn model(self) -> SpecModel
        decreases self, 0nat,
    {
        match self {
            ValSpec::Val => SpecModel::Val,
            ValSpec::Flat => SpecModel::Flat,
            ValSpec::Record(specs) => SpecModel::Record(models_upto(specs@, specs@.len())),
            ValSpec::ListFlat => SpecModel::ListFlat,
            ValSpec::ListElems(spec_of_elem) => SpecModel::ListElems(
                Box::new((*spec_of_elem).model()),
            ),
            ValSpec::Lazy => SpecModel::Lazy,
            ValSpec::Arena => SpecModel::Arena,
            ValSpec::Stream => SpecModel::Stream,
        }
    }
}

impl View for ValSpec {
    type V = SpecModel;

    open spec fn view(&self) -> SpecModel {
        self.model()
    }
}

/// The models of the first `n` of a run of specs.
pub open spec fn models_upto(specs: Seq<ValSpec>, n: nat) -> Seq<SpecModel>
    decreases specs, n,
{
    if n == 0 || n > specs.len() {
        seq![]
    } else {
        models_upto(specs, (n - 1) as nat).push(specs[n - 1].model())
    }
}

/// The models of a run of specs.
pub open spec fn models(specs: Seq<ValSpec>) -> Seq<SpecModel> {
    models_upto(specs, specs.len())
}

proof fn lemma_models_upto(specs: Seq<ValSpec>, n: nat)
    requires
        n <= specs.len(),
    ensures
        models_upto(specs, n).len() == n,
        forall|i: int| 0 <= i < n ==> #[trigger] models_upto(specs, n)[i] == specs[i]@,
    decreases n,
{
    if n > 0 {
        lemma_models_upto(specs, (n - 1) as nat);
    }
}

/// The models of a run of specs, one for one.
pub broadcast proof fn lemma_models(specs: Seq<ValSpec>)
    ensures
        (#[trigger] models(specs)).len() == specs.len(),
        forall|i: int| 0 <= i < specs.len() ==> #[trigger] models(specs)[i] == specs[i]@,
{
    lemma_models_upto(specs, specs.len());
}

impl Clone for ValSpec {
    fn clone(&self) -> (r: ValSpec)
        ensures
            r@ == self@,
        decreases self,
    {
        match self {
            ValSpec::Val => ValSpec::Val,
            ValSpec::Flat => ValSpec::Flat,
            ValSpec::Record(specs) => {
                let mut copies: Vec<ValSpec> = Vec::new();
                let mut i: usize = 0;
                while i < specs.len()
                    invariant
                        i <= specs@.len(),
                        copies@.len() == i,
                        *self matches ValSpec::Record(s) && s == *specs,
                        forall|k: int| 0 <= k < i ==> copies@[k]@ == specs@[k]@,
                    decreases specs@.len() - i,
                {
                    assert(decreases_to!(self => specs@[i as int]));
                    copies.push(specs[i].clone());
                    i += 1;
                }
                proof {
                    lemma_models(specs@);
                    lemma_models(copies@);
                    assert(models(copies@) =~= models(specs@));
                }
                ValSpec::Record(copies)
            },
            ValSpec::ListFlat => ValSpec::ListFlat,
            ValSpec::ListElems(of_elem) => ValSpec::ListElems(Box::new((**of_elem).clone())),
            ValSpec::Lazy => ValSpec::Lazy,
            ValSpec::Arena => ValSpec::Arena,
            ValSpec::Stream => ValSpec::Stream,
        }
    }
}

/// What is wrong with representing a `ty` as `shape`, if anything: `index` is the argument
/// that the error names, and the first field in error speaks for a record.
pub open spec fn shape_error(shape: SpecModel, ty: TyModel, index: usize) -> Option<Error>
    decreases shape, 0nat,
{
    match shape {
        SpecModel::Val | SpecModel::Stream => None,
        SpecModel::Flat => if ty.inline() {
            None
        } else {
            Some(Error::NotInline { index })
        },
        SpecModel::Record(specs) => match ty {
            TyModel::Record(fields) => if fields.len() == specs.len() {
                fields_error(specs, fields, index, specs.len())
            } else {
                Some(Error::RecordArity { index })
            },
            _ => Some(Error::SpecMismatch { index }),
        },
        SpecModel::ListFlat | SpecModel::Lazy | SpecModel::Arena => match ty {
            TyModel::List(elem) => if elem.inline() {
                None
            } else {
                Some(Error::NotInline { index })
            },
            _ => Some(Error::SpecMismatch { index }),
        },
        SpecModel::ListElems(of_elem) => match ty {
            TyModel::List(elem) => shape_error(*of_elem, *elem, index),
            _ => Some(Error::SpecMismatch { index }),
        },
    }
}

/// The first error among the first `n` fields of a record.
pub open spec fn fields_error(
    specs: Seq<SpecModel>,
    fields: Seq<TyModel>,
    index: usize,
    n: nat,
) -> Option<Error>
    decreases specs, n,
{
    if n == 0 || n > specs.len() {
        None
    } else {
        match fields_error(specs, fields, index, (n - 1) as nat) {
            Some(e) => Some(e),
            None => shape_error(specs[n - 1], fields[n - 1], index),
        }
    }
}

/// The shape of a source is one that `shape` admits: the representation it names, or the dynamic
/// fallback, which is allowed for a list however it was to be supplied, and for a single value
/// that was to come as bytes.
pub open spec fn admits(shape: SpecModel, src: SourceModel) -> bool {
    match (shape, src) {
        (SpecModel::Val, SourceModel::Val(_)) => true,
        (SpecModel::Flat, SourceModel::Flat(_)) => true,
        (SpecModel::Record(_), SourceModel::Record(_)) => true,
        (SpecModel::ListFlat, SourceModel::ListFlat(_)) => true,
        (SpecModel::ListElems(_), SourceModel::ListElems(_)) => true,
        (SpecModel::Lazy, SourceModel::Lazy(_)) => true,
        (SpecModel::Arena, SourceModel::Arena(_)) => true,
        (SpecModel::Stream, SourceModel::Stream(_)) => true,
        (SpecModel::Flat, SourceModel::Val(_)) => true,
        (SpecModel::ListFlat, SourceModel::Val(_)) => true,
        (SpecModel::ListElems(_), SourceModel::Val(_)) => true,
        (SpecModel::Lazy, SourceModel::Val(_)) => true,
        (SpecModel::Arena, SourceModel::Val(_)) => true,
        _ => false,
    }
}

proof fn lemma_fields_error_stays(
    specs: Seq<SpecModel>,
    fields: Seq<TyModel>,
    index: usize,
    m: nat,
    n: nat,
)
    requires
        m <= n <= specs.len(),
        fields_error(specs, fields, index, m) is Some,
    ensures
        fields_error(specs, fields, index, n) == fields_error(specs, fields, index, m),
    decreases n,
{
    if m < n {
        lemma_fields_error_stays(specs, fields, index, m, (n - 1) as nat);
    }
}

impl ValSpec {
    /// Is this representation legal for `ty`? The structural check that is paid once.
    pub fn validate(&self, ty: &Ty, index: usize) -> (r: Result<(), Error>)
        ensures
            match r {
                Ok(()) => shape_error(self@, ty@, index) is None,
                Err(e) => shape_error(self@, ty@, index) == Some(e),
            },
        decreases self,
    {
        match self {
            ValSpec::Val | ValSpec::Stream => Ok(()),
            ValSpec::Flat => if ty.is_inline() {
                Ok(())
            } else {
                Err(Error::NotInline { index })
            },
            ValSpec::Record(specs) => match ty {
                Ty::Record(fields) => {
                    let ghost ss = models(specs@);
                    let ghost fs = layout::models(fields@);
                    proof {
                        lemma_models(specs@);
                        layout::lemma_models(fields@);
                    }
                    if fields.len() != specs.len() {
                        return Err(Error::RecordArity { index });
                    }
                    let mut i: usize = 0;
                    while i < specs.len()
                        invariant
                            i <= specs@.len(),
                            *self matches ValSpec::Record(s) && s == *specs,
                            specs@.len() == fields@.len(),
                            ss == models(specs@),
                            ss.len() == specs@.len(),
                            fs == layout::models(fields@),
                            fs.len() == fields@.len(),
                            self@ == SpecModel::Record(ss),
                            ty@ == TyModel::Record(fs),
                            fields_error(ss, fs, index, i as nat) is None,
                        decreases specs@.len() - i,
                    {
                        assert(decreases_to!(self => specs@[i as int]));
                        proof {
                            lemma_models(specs@);
                            layout::lemma_models(fields@);
                        }
                        match specs[i].validate(&fields[i], index) {
                            Ok(()) => {},
                            Err(e) => {
                                proof {
                                    lemma_fields_error_stays(ss, fs, index, (i + 1) as nat, ss.len());
                                }
                                return Err(e);
                            },
                        }
                        i += 1;
                    }
                    Ok(())
                },
                _ => Err(Error::SpecMismatch { index }),
            },
            ValSpec::ListFlat | ValSpec::Lazy | ValSpec::Arena => match ty {
                Ty::List(elem) => if elem.is_inline() {
                    Ok(())
                } else {
                    Err(Error::NotInline { index })
                },
                _ => Err(Error::SpecMismatch { index }),
            },
            ValSpec::ListElems(of_elem) => match ty {
                Ty::List(elem) => of_elem.validate(elem, index),
                _ => Err(Error::SpecMismatch { index }),
            },
        }
    }

    /// Does a bound source have this shape?
    pub fn matches(&self, src: &ValSource<'_>) -> (r: bool)
        ensures
            r == admits(self@, src@),
    {
        match (self, src) {
            (ValSpec::Val, ValSource::Val(_)) => true,
            (ValSpec::Flat, ValSource::Flat(_)) => true,
            (ValSpec::Record(_), ValSource::Record(_)) => true,
            (ValSpec::ListFlat, ValSource::List(ListSource::Flat(_))) => true,
            (ValSpec::ListElems(_), ValSource::List(ListSource::Elems(_))) => true,
            (ValSpec::Lazy, ValSource::Lazy(_)) => true,
            (ValSpec::Arena, ValSource::Arena(_)) => true,
            (ValSpec::Stream, ValSource::Stream(_)) => true,
            (ValSpec::Flat, ValSource::Val(_)) => true,
            (ValSpec::ListFlat, ValSource::Val(_)) => true,
            (ValSpec::ListElems(_), ValSource::Val(_)) => true,
            (ValSpec::Lazy, ValSource::Val(_)) => true,
            (ValSpec::Arena, ValSource::Val(_)) => true,
            _ => false,
        }
    }
}

} // verus!
