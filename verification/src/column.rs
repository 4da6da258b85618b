//! Columns that are gathered out of an archetype on demand.

use crate::archetype::{Columns, Field, FieldReader};
use crate::source;
use crate::source::LowerOnDemand;
use crate::value::push_word;
use vstd::prelude::*;

verus! {

/// One column of an archetype, gathered on demand. It caches nothing: every pull reads the rows
/// again, and is counted. All it has of the archetype is the reader of its field.
pub struct ArchetypeColumn<'a> {
    reader: FieldReader<'a>,
    produced: usize,
    log: Ghost<Seq<(nat, nat)>>,
}

/// The number of elements in a run of ranges.
pub open spec fn total(ranges: Seq<(nat, nat)>) -> nat
    decreases ranges.len(),
{
    if ranges.len() == 0 {
        0
    } else {
        total(ranges.drop_last()) + ranges.last().1
    }
}

impl<'a> ArchetypeColumn<'a> {
    /// The columns of the archetype that this one is gathered from.
    pub closed spec fn arch(&self) -> Columns {
        self.reader.columns()
    }

    /// The field that the column is made of.
    pub closed spec fn field(&self) -> Field {
        self.reader.field()
    }

    /// The ranges that were asked for so far, in order.
    pub closed spec fn pulls(&self) -> Seq<(nat, nat)> {
        self.log@
    }

    #[verifier::type_invariant]
    spec fn inv(self) -> bool {
        self.produced == if total(self.log@) <= usize::MAX {
            total(self.log@)
        } else {
            usize::MAX as nat
        }
    }

    /// The column that `reader` reads, nothing of it asked for yet.
    pub fn new(reader: FieldReader<'a>) -> (r: ArchetypeColumn<'a>)
        ensures
            r.arch() == reader.columns(),
            r.field() == reader.field(),
            r.pulls() == Seq::<(nat, nat)>::empty(),
    {
        ArchetypeColumn { reader, produced: 0, log: Ghost(Seq::empty()) }
    }

    /// How many elements were asked for so far; the count stops at the largest `usize`.
    pub fn produced(&self) -> (r: usize)
        ensures
            r == if total(self.pulls()) <= usize::MAX {
                total(self.pulls())
            } else {
                usize::MAX as nat
            },
    {
        proof {
            use_type_invariant(self);
        }
        self.produced
    }

    /// Was `field` ever read? Only the column's own field is, and only once something was
    /// asked for.
    pub fn touched(&self, field: Field) -> (r: bool)
        ensures
            r == (field == self.field() && total(self.pulls()) > 0),
    {
        proof {
            use_type_invariant(self);
        }
        self.reader.reads(field) && self.produced > 0
    }
}

impl<'a> LowerOnDemand for ArchetypeColumn<'a> {
    open spec fn elements(&self) -> Seq<Seq<u8>> {
        self.arch().column(self.field())
    }

    open spec fn asked(&self) -> Option<Seq<(nat, nat)>> {
        Some(self.pulls())
    }

    fn len(&self) -> (r: usize) {
        self.reader.count()
    }

    fn produce_range(&mut self, start: usize, count: usize, out: &mut Vec<u8>)
        ensures
            final(self).arch() == old(self).arch(),
            final(self).field() == old(self).field(),
    {
        proof {
            use_type_invariant(&*self);
        }
        let reader = self.reader;
        let mut k: usize = 0;
        let n = reader.count();
        while k < count
            invariant
                k <= count,
                start + count <= n,
                n == reader.column().len(),
                out@ == old(out)@ + source::join(reader.column(), start as nat, k as nat),
            decreases count - k,
        {
            let (x, y) = reader.read_vec2(start + k);
            push_word(out, x.bits);
            push_word(out, y.bits);
            k += 1;
            assert(out@ =~= old(out)@ + source::join(reader.column(), start as nat, k as nat));
        }
        let ghost now = self.log@.push((start as nat, count as nat));
        proof {
            assert(now.drop_last() =~= self.log@);
            assert(now =~= self.log@ + seq![(start as nat, count as nat)]);
        }
        *self = ArchetypeColumn {
            reader,
            produced: self.produced.saturating_add(count),
            log: Ghost(now),
        };
    }
}

/// Every pull counts: nothing asked for is none, a pull counts its elements, and pulls after
/// others count those of the ones and of the others.
pub proof fn law_every_pull_counts(ranges: Seq<(nat, nat)>, more: Seq<(nat, nat)>, start: nat, count: nat)
    ensures
        total(seq![]) == 0,
        total(seq![(start, count)]) == count,
        total(ranges + more) == total(ranges) + total(more),
    decreases more.len(),
{
    let one = seq![(start, count)];
    assert(one.drop_last() =~= seq![]);
    assert(total(one) == total(one.drop_last()) + count);
    let all = ranges + more;
    if more.len() == 0 {
        assert(all =~= ranges);
    } else {
        law_every_pull_counts(ranges, more.drop_last(), start, count);
        assert(all.drop_last() =~= ranges + more.drop_last());
        assert(all.last() == more.last());
    }
}

} // verus!
