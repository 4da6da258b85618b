//! A guest's linear memory and its bump allocator.

use crate::layout;
use crate::layout::align_up;
use crate::value;
use crate::value::{push_word, read_word, F32Bits};
use vstd::prelude::*;

verus! {

/// The guest instance's linear memory, with a bump allocator in the place of `cabi_realloc`.
pub struct Store {
    pub mem: Vec<u8>,
    next: usize,
}

/// The mathematical value of a [`Store`]: its memory, and where the next allocation starts
/// looking for room.
#[verifier::ext_equal]
pub struct StoreModel {
    pub mem: Seq<u8>,
    pub next: nat,
}

/// `mem` with `bytes` written at `at`.
pub open spec fn overwrite(mem: Seq<u8>, at: int, bytes: Seq<u8>) -> Seq<u8> {
    Seq::new(
        mem.len(),
        |i: int|
            if at <= i < at + bytes.len() {
                bytes[i - at]
            } else {
                mem[i]
            },
    )
}

impl View for Store {
    type V = StoreModel;

    closed spec fn view(&self) -> StoreModel {
        StoreModel { mem: self.mem@, next: self.next as nat }
    }
}

/// A memory is never longer than its addresses reach.
pub proof fn lemma_mem_fits(s: Store)
    ensures
        s@.mem.len() <= usize::MAX,
{
    assert(s.mem.len() == s.mem@.len());
}

impl StoreModel {
    /// Where an allocation aligned to `align` would start.
    pub open spec fn slot(self, align: nat) -> nat {
        layout::round_up(self.next, align)
    }

    /// There is room for `size` bytes aligned to `align`.
    pub open spec fn room(self, size: nat, align: nat) -> bool {
        &&& self.next + align - 1 <= usize::MAX
        &&& self.slot(align) + size <= self.mem.len()
    }

    /// This store with `bytes` allocated, and copied into the allocation.
    pub open spec fn with(self, bytes: Seq<u8>, align: nat) -> StoreModel {
        StoreModel {
            mem: overwrite(self.mem, self.slot(align) as int, bytes),
            next: self.slot(align) + bytes.len(),
        }
    }

    /// This store with nothing allocated.
    pub open spec fn reset(self) -> StoreModel {
        StoreModel { mem: self.mem, next: 0 }
    }
}

impl Store {
    /// A zeroed memory of `size` bytes with nothing allocated.
    pub fn new(size: usize) -> (r: Store)
        ensures
            r@.mem == Seq::new(size as nat, |i: int| 0u8),
            r@.next == 0,
    {
        let r = Store { mem: vec![0u8; size], next: 0 };
        assert(r.mem@ =~= Seq::new(size as nat, |i: int| 0u8));
        r
    }

    /// The whole memory.
    pub fn bytes(&self) -> (r: &[u8])
        ensures
            r@ == self@.mem,
    {
        self.mem.as_slice()
    }

    /// Bump-allocate `size` bytes aligned to `align`, and return where they start.
    pub fn realloc(&mut self, size: usize, align: usize) -> (ptr: usize)
        requires
            align > 0,
            old(self)@.next + align - 1 <= usize::MAX,
            ((old(self)@.next + align - 1) as usize & !((align - 1) as usize)) + size <= old(
                self,
            )@.mem.len(),
        ensures
            ptr == ((old(self)@.next + align - 1) as usize & !((align - 1) as usize)),
            layout::power_of_two(align as nat) ==> ptr == old(self)@.slot(align as nat),
            final(self)@.mem == old(self)@.mem,
            final(self)@.next == ptr + size,
    {
        assert(self.mem.len() == self.mem@.len());
        let ptr = align_up(self.next, align);
        let end = ptr + size;
        self.next = end;
        ptr
    }

    /// Forget every allocation: each top-level call lowers its arguments into fresh memory.
    pub fn reset(&mut self)
        ensures
            final(self)@ == old(self)@.reset(),
    {
        self.next = 0;
    }

    /// Write `bytes` at `ptr`.
    pub fn write(&mut self, ptr: usize, bytes: &[u8])
        requires
            ptr + bytes@.len() <= old(self)@.mem.len(),
        ensures
            final(self)@.mem == overwrite(old(self)@.mem, ptr as int, bytes@),
            final(self)@.next == old(self)@.next,
    {
        assert(self.mem.len() == self.mem@.len());
        let mut i: usize = 0;
        while i < bytes.len()
            invariant
                i <= bytes@.len(),
                ptr + bytes@.len() <= usize::MAX,
                ptr + bytes@.len() <= old(self).mem@.len(),
                self.next == old(self).next,
                self.mem@ == overwrite(old(self).mem@, ptr as int, bytes@.take(i as int)),
            decreases bytes@.len() - i,
        {
            self.mem[ptr + i] = bytes[i];
            i += 1;
            assert(self.mem@ =~= overwrite(old(self).mem@, ptr as int, bytes@.take(i as int)));
        }
        assert(bytes@.take(bytes@.len() as int) =~= bytes@);
    }

    /// Read the word at `ptr`.
    pub fn read_u32(&self, ptr: usize) -> (r: u32)
        requires
            ptr + 4 <= self@.mem.len(),
        ensures
            r == value::word_at(self@.mem, ptr as int),
    {
        read_word(self.mem.as_slice(), ptr)
    }

    /// Write a word at `ptr`.
    pub fn write_u32(&mut self, ptr: usize, v: u32)
        requires
            ptr + 4 <= old(self)@.mem.len(),
        ensures
            final(self)@.mem == overwrite(old(self)@.mem, ptr as int, value::le_bytes(v)),
            final(self)@.next == old(self)@.next,
    {
        let mut image: Vec<u8> = Vec::new();
        push_word(&mut image, v);
        assert(image@ =~= value::le_bytes(v));
        self.write(ptr, image.as_slice());
    }

    /// Read the `f32` at `ptr`, as its bit pattern.
    pub fn read_f32(&self, ptr: usize) -> (r: F32Bits)
        requires
            ptr + 4 <= self@.mem.len(),
        ensures
            r.bits == value::word_at(self@.mem, ptr as int),
    {
        F32Bits { bits: self.read_u32(ptr) }
    }

    /// Write an `f32`, given as its bit pattern, at `ptr`.
    pub fn write_f32(&mut self, ptr: usize, v: F32Bits)
        requires
            ptr + 4 <= old(self)@.mem.len(),
        ensures
            final(self)@.mem == overwrite(old(self)@.mem, ptr as int, value::le_bytes(v.bits)),
            final(self)@.next == old(self)@.next,
    {
        self.write_u32(ptr, v.bits);
    }
}

/// What is written is there, and nothing else has changed: memory keeps its length, holds the
/// bytes where they were written, and is as it was everywhere else.
pub proof fn law_writes_change_only_their_place(mem: Seq<u8>, at: int, bytes: Seq<u8>, i: int)
    requires
        0 <= at,
        at + bytes.len() <= mem.len(),
    ensures
        overwrite(mem, at, bytes).len() == mem.len(),
        overwrite(mem, at, bytes).subrange(at, at + bytes.len()) == bytes,
        0 <= i < at || at + bytes.len() <= i < mem.len() ==> overwrite(mem, at, bytes)[i] == mem[i],
{
    assert(overwrite(mem, at, bytes).subrange(at, at + bytes.len()) =~= bytes);
}

} // verus!
