//! Small guest functions to make calls with.

use crate::guest;
use crate::guest::{Caller, GuestBody, Handed};
use crate::lower;
use crate::store;
use crate::store::StoreModel;
use crate::value;
use crate::value::CoreVal;
use vstd::prelude::*;

verus! {

/// A guest that does nothing and returns nothing.
pub struct NoOp;

impl GuestBody for NoOp {
    open spec fn accepts(&self, handed: Handed) -> bool {
        true
    }

    open spec fn may_return(
        &self,
        handed: Handed,
        after: StoreModel,
        results: Seq<CoreVal>,
    ) -> bool {
        after == handed.store && results.len() == 0
    }

    fn call(&self, caller: Caller<'_, '_>, core: &[CoreVal]) -> (r: Vec<CoreVal>) {
        Vec::new()
    }
}

/// The sum of `n` words of `mem` from `ptr` on, modulo two to the power of 32.
pub open spec fn sum_of_words(mem: Seq<u8>, ptr: int, n: nat) -> u32
    decreases n,
{
    if n == 0 {
        0
    } else {
        ((sum_of_words(mem, ptr, (n - 1) as nat) + value::word_at(mem, ptr + 4 * (n - 1)))
            % 0x1_0000_0000) as u32
    }
}

/// A guest that takes a list of words and returns a list with one word: their wrapping sum.
pub struct SumWords;

impl SumWords {
    /// The sum of the words.
    pub open spec fn sum(handed: Handed) -> u32 {
        sum_of_words(
            handed.store.mem,
            guest::int_in(handed.core, 0),
            guest::int_in(handed.core, 1) as nat,
        )
    }
}

impl GuestBody for SumWords {
    open spec fn accepts(&self, handed: Handed) -> bool {
        &&& handed.core.len() >= 2
        &&& guest::int_in(handed.core, 0) >= 0
        &&& guest::int_in(handed.core, 1) >= 0
        &&& guest::int_in(handed.core, 0) + 4 * guest::int_in(handed.core, 1)
            <= handed.store.mem.len()
        &&& handed.store.room(4, 4)
    }

    open spec fn may_return(
        &self,
        handed: Handed,
        after: StoreModel,
        results: Seq<CoreVal>,
    ) -> bool {
        &&& after == handed.store.with(value::le_bytes(Self::sum(handed)), 4)
        &&& results == seq![CoreVal::I32(handed.store.slot(4) as i32), CoreVal::I32(1)]
    }

    fn call(&self, caller: Caller<'_, '_>, core: &[CoreVal]) -> (r: Vec<CoreVal>) {
        let mut caller = caller;
        let ptr = core[0].as_i32() as usize;
        let count = core[1].as_i32() as usize;
        let s = caller.store();
        let ghost before = s@;
        proof {
            store::lemma_mem_fits(*s);
        }
        let mut sum: u32 = 0;
        let mut i: usize = 0;
        while i < count
            invariant
                i <= count,
                s@ == before,
                ptr + 4 * count <= before.mem.len(),
                before.mem.len() <= usize::MAX,
                sum == sum_of_words(before.mem, ptr as int, i as nat),
            decreases count - i,
        {
            sum = sum.wrapping_add(s.read_u32(ptr + i * 4));
            i += 1;
        }
        proof {
            lower::lemma_slot_mask(before, 4);
        }
        let out = s.realloc(4, 4);
        s.write_u32(out, sum);
        let mut results: Vec<CoreVal> = Vec::new();
        results.push(CoreVal::I32(#[verifier::truncate] (out as i32)));
        results.push(CoreVal::I32(1));
        assert(results@ =~= seq![CoreVal::I32(out as i32), CoreVal::I32(1)]);
        results
    }
}

} // verus!
