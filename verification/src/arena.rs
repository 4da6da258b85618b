//! A pre-validated, host-native store of inline element images.

use crate::laws;
use crate::layout::{Ty, TyModel};
use crate::validity;
use crate::validity::{ValidatedCabiBytesBuf, ValidityError};
use vstd::prelude::*;
use vstd::slice::slice_subrange;

verus! {

/// The bytes of elements `[start, start + count)` in a contiguous run of elements `stride`
/// bytes apart: element `k` stands at `k * stride`.
pub open spec fn strided(bytes: Seq<u8>, stride: nat, start: nat, count: nat) -> Seq<u8> {
    bytes.subrange((start * stride) as int, ((start + count) * stride) as int)
}

/// Elements `[start, start + count)` lie inside the run.
pub open spec fn strided_within(bytes: Seq<u8>, stride: nat, start: nat, count: nat) -> bool {
    start + count <= usize::MAX && (start + count) * stride <= bytes.len()
}

/// The bounds of a strided range are in order.
pub proof fn lemma_strided_bounds(stride: nat, start: nat, count: nat)
    ensures
        start * stride <= (start + count) * stride,
        (start + count) * stride == start * stride + count * stride,
{
    assert((start + count) * stride == start * stride + count * stride) by (nonlinear_arith);
    assert(count * stride >= 0) by (nonlinear_arith);
}

/// Copy out the bytes of elements `[start, start + count)`.
pub fn push_strided(bytes: &[u8], stride: usize, start: usize, count: usize, out: &mut Vec<u8>)
    requires
        strided_within(bytes@, stride as nat, start as nat, count as nat),
    ensures
        final(out)@ == old(out)@ + strided(bytes@, stride as nat, start as nat, count as nat),
{
    proof {
        lemma_strided_bounds(stride as nat, start as nat, count as nat);
        assert(bytes.len() == bytes@.len());
    }
    let part = slice_subrange(bytes, start * stride, (start + count) * stride);
    out.extend_from_slice(part);
    assert(out@ =~= old(out)@ + part@);
}

/// A store of element images whose validation is paid once, when it is filled. Slices of it
/// are replayed into later calls with nothing checked again.
pub struct Arena {
    store: ValidatedCabiBytesBuf,
    elem: Ty,
    vouched: bool,
}

/// The mathematical value of an [`Arena`]: its bytes, the type of its elements, and the type
/// that the bytes were checked against.
#[verifier::ext_equal]
pub struct ArenaModel {
    pub bytes: Seq<u8>,
    pub elem: TyModel,
    pub checked: TyModel,
}

impl ArenaModel {
    /// Number of elements.
    pub open spec fn count(self) -> nat {
        self.bytes.len() / self.elem.size()
    }

    /// Elements `[start, start + count)`.
    pub open spec fn slice(self, start: nat, count: nat) -> Strided {
        Strided {
            bytes: strided(self.bytes, self.elem.size(), start, count),
            stride: self.elem.size(),
            vouched: if self.checked == self.elem {
                Some(self.elem)
            } else {
                None
            },
        }
    }
}

impl View for Arena {
    type V = ArenaModel;

    closed spec fn view(&self) -> ArenaModel {
        ArenaModel { bytes: self.store@.bytes, elem: self.elem@, checked: self.store@.elem }
    }
}

/// A borrowed slice of an [`Arena`], usable as a value source.
pub struct ArenaSlice<'a> {
    bytes: &'a [u8],
    stride: usize,
    vouched: Option<&'a Ty>,
}

/// The mathematical value of an [`ArenaSlice`]. Where the arena's bytes were checked against its
/// own element type, the slice is known to be a run of that type.
#[verifier::ext_equal]
pub struct Strided {
    pub bytes: Seq<u8>,
    pub stride: nat,
    pub vouched: Option<TyModel>,
}

impl<'a> View for ArenaSlice<'a> {
    type V = Strided;

    closed spec fn view(&self) -> Strided {
        Strided {
            bytes: self.bytes@,
            stride: self.stride as nat,
            vouched: match self.vouched {
                Some(ty) => Some(ty@),
                None => None,
            },
        }
    }
}

impl Arena {
    #[verifier::type_invariant]
    spec fn inv(self) -> bool {
        self.vouched == (self.store@.elem == self.elem@)
    }

    /// An arena of `elem` elements, seeded from a buffer that was validated before.
    pub fn new(seed: ValidatedCabiBytesBuf, elem: Ty) -> (r: Arena)
        ensures
            r@ == (ArenaModel { bytes: seed@.bytes, elem: elem@, checked: seed@.elem }),
    {
        let vouched = seed.as_ref().elem().same_as(&elem);
        Arena { store: seed, elem, vouched }
    }

    /// Absorb a run of raw bytes as `elem` images, validating them once, here.
    pub fn absorb(bytes: Vec<u8>, elem: Ty) -> (r: Result<Arena, ValidityError>)
        requires
            elem.sized(),
        ensures
            r is Ok <==> validity::valid_run(elem@, bytes@),
            r matches Ok(arena) ==> arena@ == (ArenaModel {
                bytes: bytes@,
                elem: elem@,
                checked: elem@,
            }),
            r matches Err(e) ==> e.explains(elem@, bytes@),
    {
        match ValidatedCabiBytesBuf::checked(bytes, elem.clone()) {
            Ok(store) => Ok(Arena { store, elem, vouched: true }),
            Err(e) => Err(e),
        }
    }

    fn all_bytes(&self) -> (r: &[u8])
        ensures
            r@ == self@.bytes,
            validity::valid_run(self@.checked, r@),
    {
        self.store.as_ref().bytes()
    }

    /// Number of elements held.
    pub fn elem_count(&self) -> (r: usize)
        requires
            0 < self@.elem.size() <= usize::MAX,
        ensures
            r == self@.count(),
    {
        self.all_bytes().len() / self.elem.size()
    }

    /// Elements `[start, start + count)` as a replayable slice.
    pub fn slice(&self, start: usize, count: usize) -> (r: ArenaSlice<'_>)
        requires
            self@.elem.size() <= usize::MAX,
            strided_within(self@.bytes, self@.elem.size(), start as nat, count as nat),
        ensures
            r@ == self@.slice(start as nat, count as nat),
    {
        let stride = self.elem.size();
        let bytes = self.all_bytes();
        proof {
            use_type_invariant(self);
            lemma_strided_bounds(stride as nat, start as nat, count as nat);
            assert(bytes.len() == bytes@.len());
            if self.vouched {
                laws::law_slices_of_a_valid_run_are_valid(
                    self@.elem,
                    self@.bytes,
                    start as nat,
                    count as nat,
                );
            }
        }
        ArenaSlice {
            bytes: slice_subrange(bytes, start * stride, (start + count) * stride),
            stride,
            vouched: if self.vouched {
                Some(&self.elem)
            } else {
                None
            },
        }
    }
}

impl<'a> ArenaSlice<'a> {
    #[verifier::type_invariant]
    spec fn inv(self) -> bool {
        self.vouched matches Some(ty) ==> {
            &&& self.stride == ty@.size()
            &&& validity::valid_run(ty@, self.bytes@)
        }
    }

    /// Number of elements in the slice.
    pub fn len(&self) -> (r: usize)
        requires
            self@.stride > 0,
        ensures
            r == self@.bytes.len() / self@.stride,
    {
        self.bytes.len() / self.stride
    }

    /// Do its elements take room, so that they can be counted?
    pub fn is_countable(&self) -> (r: bool)
        ensures
            r == (self@.stride > 0),
    {
        self.stride > 0
    }

    /// Was the slice checked as a run of `elem`, so that nothing is left to check?
    pub fn vouches_for(&self, elem: &Ty) -> (r: bool)
        ensures
            r == (self@.vouched == Some(elem@)),
            r ==> self@.stride == elem@.size() && validity::valid_run(elem@, self@.bytes),
    {
        proof {
            use_type_invariant(self);
        }
        match self.vouched {
            Some(ty) => ty.same_as(elem),
            None => false,
        }
    }

    /// Append the images of elements `[start, start + count)` of the slice.
    pub fn produce_range(&self, start: usize, count: usize, out: &mut Vec<u8>)
        requires
            strided_within(self@.bytes, self@.stride, start as nat, count as nat),
        ensures
            final(out)@ == old(out)@ + strided(
                self@.bytes,
                self@.stride,
                start as nat,
                count as nat,
            ),
    {
        push_strided(self.bytes, self.stride, start, count, out)
    }
}

/// A slice holds the elements that it was asked for, byte by byte, and a slice of a slice is the
/// slice of both.
pub proof fn law_slices_hold_their_elements(
    bytes: Seq<u8>,
    stride: nat,
    start: nat,
    count: nat,
    from: nat,
    some: nat,
)
    requires
        strided_within(bytes, stride, start, count),
        from + some <= count,
    ensures
        strided(bytes, stride, start, count).len() == count * stride,
        forall|i: int|
            0 <= i < count * stride ==> #[trigger] strided(bytes, stride, start, count)[i]
                == bytes[start * stride + i],
        strided(strided(bytes, stride, start, count), stride, from, some) == strided(
            bytes,
            stride,
            start + from,
            some,
        ),
{
    lemma_strided_bounds(stride, start, count);
    lemma_strided_bounds(stride, start, from);
    lemma_strided_bounds(stride, from, some);
    lemma_strided_bounds(stride, start + from, some);
    lemma_strided_bounds(stride, from + some, (count - from - some) as nat);
    assert(strided(strided(bytes, stride, start, count), stride, from, some) =~= strided(
        bytes,
        stride,
        start + from,
        some,
    ));
}

/// An arena holds as many elements as fit into its bytes, and a slice of it is taken at its word
/// just when the bytes were checked against the type of the elements.
pub proof fn law_slices_are_taken_at_their_word(arena: ArenaModel, start: nat, count: nat)
    requires
        arena.elem.size() > 0,
    ensures
        arena.count() * arena.elem.size() <= arena.bytes.len(),
        arena.bytes.len() < (arena.count() + 1) * arena.elem.size(),
        arena.slice(start, count).stride == arena.elem.size(),
        arena.slice(start, count).vouched is Some <==> arena.checked == arena.elem,
        arena.slice(start, count).vouched matches Some(ty) ==> ty == arena.elem,
{
    let size = arena.elem.size() as int;
    let n = arena.count() as int;
    vstd::arithmetic::div_mod::lemma_fundamental_div_mod(arena.bytes.len() as int, size);
    vstd::arithmetic::div_mod::lemma_mod_bound(arena.bytes.len() as int, size);
    assert(n * size == size * n) by (nonlinear_arith);
    assert((n + 1) * size == n * size + size) by (nonlinear_arith);
}

} // verus!
