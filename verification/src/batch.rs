//! Passing a list through a guest in batches of a fixed size.

use crate::text;
use crate::text::push_decimal;
use vstd::prelude::*;
use vstd::string::*;

verus! {

/// The ranges `(start, end)` of batches of `size` elements that cover `[from, len)`; the last
/// may be shorter.
pub open spec fn batches_from(from: nat, len: nat, size: nat) -> Seq<(usize, usize)>
    decreases len - from,
{
    if from >= len || size == 0 {
        seq![]
    } else if len - from <= size {
        seq![(from as usize, len as usize)]
    } else {
        seq![(from as usize, (from + size) as usize)] + batches_from(from + size, len, size)
    }
}

/// Cut `len` elements into batches of `size`.
pub fn batches(len: usize, size: usize) -> (r: Vec<(usize, usize)>)
    requires
        size > 0,
    ensures
        r@ == batches_from(0, len as nat, size as nat),
{
    let mut r: Vec<(usize, usize)> = Vec::new();
    let mut from: usize = 0;
    assert(r@ + batches_from(0, len as nat, size as nat) =~= batches_from(
        0,
        len as nat,
        size as nat,
    ));
    while from < len
        invariant
            size > 0,
            from <= len,
            r@ + batches_from(from as nat, len as nat, size as nat) == batches_from(
                0,
                len as nat,
                size as nat,
            ),
        decreases len - from,
    {
        let ghost before = r@;
        let end = if len - from <= size {
            len
        } else {
            from + size
        };
        r.push((from, end));
        assert(r@ + batches_from(end as nat, len as nat, size as nat) =~= before + batches_from(
            from as nat,
            len as nat,
            size as nat,
        ));
        from = end;
    }
    assert(r@ =~= r@ + batches_from(from as nat, len as nat, size as nat));
    r
}

/// How many calls it takes to pass `len` elements through in batches of `size`.
pub fn calls_per_step(len: usize, size: usize) -> (r: usize)
    requires
        size > 0,
    ensures
        r == (len + size - 1) / size as int,
        r == batches_from(0, len as nat, size as nat).len(),
{
    let whole = len / size;
    proof {
        lemma_round_up_division(len as int, size as int);
        law_batches_partition_the_list(0, len as nat, size as nat);
        assert(len / size <= len) by (nonlinear_arith)
            requires
                size > 0,
        ;
        assert(len % size != 0 ==> len / size < len) by (nonlinear_arith)
            requires
                size > 0,
        ;
    }
    if len % size == 0 {
        whole
    } else {
        whole + 1
    }
}

proof fn lemma_round_up_division(len: int, size: int)
    requires
        len >= 0,
        size > 0,
    ensures
        (len + size - 1) / size == len / size + if len % size == 0 {
            0int
        } else {
            1int
        },
{
    vstd::arithmetic::div_mod::lemma_fundamental_div_mod(len, size);
    let (q, r) = (len / size, len % size);
    if r == 0 {
        assert(len == q * size) by (nonlinear_arith)
            requires
                len == size * q + r,
                r == 0,
        ;
        vstd::arithmetic::div_mod::lemma_fundamental_div_mod_converse(
            len + size - 1,
            size,
            q,
            size - 1,
        );
    } else {
        assert(len + size - 1 == (q + 1) * size + (r - 1)) by (nonlinear_arith)
            requires
                len == size * q + r,
        ;
        vstd::arithmetic::div_mod::lemma_fundamental_div_mod_converse(
            len + size - 1,
            size,
            q + 1,
            r - 1,
        );
    }
}

/// Batches follow one another without gap or overlap and cover the whole list; each but the
/// last is full, none is empty, and there are as many as there are calls per step.
pub proof fn law_batches_partition_the_list(from: nat, len: nat, size: nat)
    requires
        size > 0,
        from <= len <= usize::MAX,
    ensures
        ({
            let b = batches_from(from, len, size);
            &&& b.len() == (len - from + size - 1) / size as int
            &&& from < len ==> b[0].0 == from && b.last().1 == len
            &&& forall|i: int| 0 <= i < b.len() ==> 0 < (#[trigger] b[i]).1 - b[i].0 <= size
            &&& forall|i: int|
                0 <= i < b.len() - 1 ==> (#[trigger] b[i]).1 == b[i + 1].0 && b[i].1 - b[i].0
                    == size
        }),
    decreases len - from,
{
    let b = batches_from(from, len, size);
    let left = len - from;
    lemma_round_up_division(left, size as int);
    if from >= len {
        vstd::arithmetic::div_mod::lemma_small_mod(0, size);
        vstd::arithmetic::div_mod::lemma_basic_div(0, size as int);
    } else if left <= size {
        vstd::arithmetic::div_mod::lemma_fundamental_div_mod_converse(
            left + size - 1,
            size as int,
            1,
            left - 1,
        );
    } else {
        let rest = batches_from(from + size, len, size);
        law_batches_partition_the_list(from + size, len, size);
        assert((left - size + size - 1) / size as int + 1 == (left + size - 1) / size as int) by {
            vstd::arithmetic::div_mod::lemma_div_plus_one(left - 1, size as int);
        }
        assert(b.len() == rest.len() + 1);
        assert forall|i: int| 0 <= i < b.len() implies 0 < (#[trigger] b[i]).1 - b[i].0
            <= size by {
            if i > 0 {
                assert(b[i] == rest[i - 1]);
            }
        }
        assert forall|i: int| 0 <= i < b.len() - 1 implies (#[trigger] b[i]).1 == b[i + 1].0
            && b[i].1 - b[i].0 == size by {
            assert(b[i + 1] == rest[i]);
            if i > 0 {
                assert(b[i] == rest[i - 1]);
            }
        }
        assert(b.last() == rest.last());
    }
}

/// Every batch lies inside the list.
pub proof fn lemma_batches_within(from: nat, len: nat, size: nat)
    requires
        size > 0,
        from <= len <= usize::MAX,
    ensures
        forall|i: int|
            0 <= i < batches_from(from, len, size).len() ==> {
                &&& from <= (#[trigger] batches_from(from, len, size)[i]).0
                &&& batches_from(from, len, size)[i].0 <= batches_from(from, len, size)[i].1
                &&& batches_from(from, len, size)[i].1 <= len
            },
    decreases len - from,
{
    let b = batches_from(from, len, size);
    if from < len && len - from > size {
        let rest = batches_from(from + size, len, size);
        lemma_batches_within(from + size, len, size);
        assert forall|i: int| 0 <= i < b.len() implies from <= (#[trigger] b[i]).0 && b[i].0
            <= b[i].1 && b[i].1 <= len by {
            if i > 0 {
                assert(b[i] == rest[i - 1]);
            }
        }
    }
}

/// The name of the results for a batch size.
pub fn batched_name(size: usize) -> (r: String)
    ensures
        r@ == "batched-wasm-"@ + text::decimal(size as nat),
{
    let mut out = "batched-wasm-".to_owned();
    push_decimal(&mut out, size as u128);
    out
}

/// Batch number `j` starts `j` batches into the list, and holds as many elements as a batch does,
/// or as are left.
pub proof fn law_batches_stand_at_multiples(len: nat, size: nat, j: nat)
    requires
        size > 0,
        len <= usize::MAX,
        j < (len + size - 1) / size as int,
    ensures
        ({
            let b = batches_from(0, len, size);
            &&& b.len() == (len + size - 1) / size as int
            &&& b[j as int].0 == j * size
            &&& b[j as int].1 == (if (j + 1) * size <= len {
                (j + 1) * size
            } else {
                len
            })
        }),
{
    let b = batches_from(0, len, size);
    law_batches_partition_the_list(0, len, size);
    if len == 0 {
        vstd::arithmetic::div_mod::lemma_basic_div(size - 1, size as int);
    }
    lemma_batch_starts(len, size, j);
    lemma_batches_within(0, len, size);
    assert((j + 1) * size == j * size + size) by (nonlinear_arith);
    if j + 1 < b.len() {
        assert(b[j as int].1 - b[j as int].0 == size);
    } else {
        assert(b.last() == b[j as int]);
        assert(0 < b[j as int].1 - b[j as int].0 <= size);
    }
}

proof fn lemma_batch_starts(len: nat, size: nat, j: nat)
    requires
        size > 0,
        0 < len <= usize::MAX,
        j < batches_from(0, len, size).len(),
    ensures
        batches_from(0, len, size)[j as int].0 == j * size,
    decreases j,
{
    let b = batches_from(0, len, size);
    law_batches_partition_the_list(0, len, size);
    if j == 0 {
        assert(0 * size == 0) by (nonlinear_arith);
    } else {
        let k = (j - 1) as nat;
        lemma_batch_starts(len, size, k);
        assert(b[k as int].1 == b[k + 1int].0 && b[k as int].1 - b[k as int].0 == size);
        assert(j * size == k * size + size) by (nonlinear_arith)
            requires
                j == k + 1,
        ;
    }
}

} // verus!
