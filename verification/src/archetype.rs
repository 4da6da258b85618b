//! Entities stored row by row, and the keys that are the only way to their fields.

use crate::source;
use crate::value;
use crate::value::{read_word, F32Bits};
use vstd::prelude::*;

verus! {

/// The three fields of an entity, each of them a `vec2`.
#[derive(Clone, Copy, Debug, PartialEq, Eq, Structural)]
pub enum Field {
    Position,
    Velocity,
    Acceleration,
}

impl Field {
    /// Where the field stands in its row.
    pub open spec fn at(self) -> nat {
        match self {
            Field::Position => 0,
            Field::Velocity => 8,
            Field::Acceleration => 16,
        }
    }

    /// Where the field stands in its row.
    pub fn offset(self) -> (r: usize)
        ensures
            r == self.at(),
    {
        match self {
            Field::Position => 0,
            Field::Velocity => 8,
            Field::Acceleration => 16,
        }
    }
}

/// Entities stored as rows of 24 bytes: position, velocity, acceleration.
pub struct Archetype {
    bytes: Vec<u8>,
    count: usize,
}

/// The mathematical value of an [`Archetype`]: one column of eight-byte images per field.
#[verifier::ext_equal]
pub struct Columns {
    pub position: Seq<Seq<u8>>,
    pub velocity: Seq<Seq<u8>>,
    pub acceleration: Seq<Seq<u8>>,
}

impl Columns {
    /// The column of `field`.
    pub open spec fn column(self, field: Field) -> Seq<Seq<u8>> {
        match field {
            Field::Position => self.position,
            Field::Velocity => self.velocity,
            Field::Acceleration => self.acceleration,
        }
    }
}

/// `count` images of eight bytes, found `stride` bytes apart from `first` on.
pub open spec fn gathered(bytes: Seq<u8>, count: nat, stride: nat, first: nat) -> Seq<Seq<u8>> {
    Seq::new(count, |i: int| bytes.subrange(i * stride + first, i * stride + first + 8))
}

impl View for Archetype {
    type V = Columns;

    closed spec fn view(&self) -> Columns {
        Columns {
            position: gathered(self.bytes@, self.count as nat, 24, 0),
            velocity: gathered(self.bytes@, self.count as nat, 24, 8),
            acceleration: gathered(self.bytes@, self.count as nat, 24, 16),
        }
    }
}

impl Archetype {
    #[verifier::type_invariant]
    spec fn inv(self) -> bool {
        self.bytes@.len() == self.count * 24
    }

    /// Store `count` entities, their fields given as three runs of `vec2` images.
    pub fn build(count: usize, p: &[u8], v: &[u8], a: &[u8]) -> (r: Archetype)
        requires
            p@.len() == count * 8,
            v@.len() == count * 8,
            a@.len() == count * 8,
        ensures
            r@ == (Columns {
                position: gathered(p@, count as nat, 8, 0),
                velocity: gathered(v@, count as nat, 8, 0),
                acceleration: gathered(a@, count as nat, 8, 0),
            }),
    {
        let mut bytes: Vec<u8> = Vec::new();
        let mut i: usize = 0;
        proof {
            assert(p.len() == p@.len());
        }
        while i < count
            invariant
                i <= count,
                p@.len() == count * 8,
                v@.len() == count * 8,
                a@.len() == count * 8,
                count * 8 <= usize::MAX,
                bytes@.len() == i * 24,
                gathered(bytes@, i as nat, 24, 0) == gathered(p@, i as nat, 8, 0),
                gathered(bytes@, i as nat, 24, 8) == gathered(v@, i as nat, 8, 0),
                gathered(bytes@, i as nat, 24, 16) == gathered(a@, i as nat, 8, 0),
            decreases count - i,
        {
            let ghost before = bytes@;
            let at = i * 8;
            bytes.extend_from_slice(vstd::slice::slice_subrange(p, at, at + 8));
            bytes.extend_from_slice(vstd::slice::slice_subrange(v, at, at + 8));
            bytes.extend_from_slice(vstd::slice::slice_subrange(a, at, at + 8));
            proof {
                let row = p@.subrange(at as int, at + 8) + v@.subrange(at as int, at + 8)
                    + a@.subrange(at as int, at + 8);
                assert(bytes@ =~= before + row);
                assert(row.subrange(0, 8) =~= p@.subrange(at as int, at + 8));
                assert(row.subrange(8, 16) =~= v@.subrange(at as int, at + 8));
                assert(row.subrange(16, 24) =~= a@.subrange(at as int, at + 8));
                lemma_row(before, row, p@, i as nat, 0);
                lemma_row(before, row, v@, i as nat, 8);
                lemma_row(before, row, a@, i as nat, 16);
            }
            i += 1;
        }
        Archetype { bytes, count }
    }

    /// Number of entities. Every column has that many images, of eight bytes each.
    pub fn count(&self) -> (r: usize)
        ensures
            forall|f: Field| r == (#[trigger] self@.column(f)).len(),
            forall|f: Field, i: int| 0 <= i < r ==> (#[trigger] self@.column(f)[i]).len() == 8,
    {
        proof {
            use_type_invariant(self);
        }
        self.count
    }

    /// Open the rows for reading: one key per field, none of them touched. While they are around
    /// there are no others, so a field whose key is untouched was not read.
    pub fn open<'a>(&'a mut self) -> (r: Keys<'a>)
        ensures
            r.of(old(self)@),
            final(self)@ == old(self)@,
            !r.position.used(),
            !r.velocity.used(),
            !r.acceleration.used(),
    {
        let rows: &'a Archetype = self;
        Keys {
            position: FieldKey { rows, field: Field::Position, touched: false },
            velocity: FieldKey { rows, field: Field::Velocity, touched: false },
            acceleration: FieldKey { rows, field: Field::Acceleration, touched: false },
        }
    }
}

/// The key to one field of an archetype. It hands out readers of the field, and keeps a mark of
/// having done so. There is no other way to the bytes of a row, so that no field is read without
/// leaving its mark.
pub struct FieldKey<'a> {
    rows: &'a Archetype,
    field: Field,
    touched: bool,
}

impl<'a> FieldKey<'a> {
    /// The columns of the archetype that this is a key to.
    pub closed spec fn columns(&self) -> Columns {
        self.rows@
    }

    /// The field that it opens.
    pub closed spec fn field(&self) -> Field {
        self.field
    }

    /// It has handed out a reader.
    pub closed spec fn used(&self) -> bool {
        self.touched
    }

    /// Hand out a reader of the field, and mark the field as touched.
    pub fn reader(&mut self) -> (r: FieldReader<'a>)
        ensures
            r.columns() == old(self).columns(),
            r.field() == old(self).field(),
            final(self).columns() == old(self).columns(),
            final(self).field() == old(self).field(),
            final(self).used(),
    {
        self.touched = true;
        FieldReader { rows: self.rows, field: self.field }
    }

    /// Could the field have been read?
    pub fn touched(&self) -> (r: bool)
        ensures
            r == self.used(),
    {
        self.touched
    }

    /// Number of entities. Every column has that many images, of eight bytes each.
    pub fn count(&self) -> (r: usize)
        ensures
            forall|f: Field| r == (#[trigger] self.columns().column(f)).len(),
            forall|f: Field, i: int|
                0 <= i < r ==> (#[trigger] self.columns().column(f)[i]).len() == 8,
    {
        self.rows.count()
    }
}

/// Reads one field of an archetype, and no other.
#[derive(Clone, Copy)]
pub struct FieldReader<'a> {
    rows: &'a Archetype,
    field: Field,
}

impl<'a> FieldReader<'a> {
    /// The columns of the archetype that this is a reader of.
    pub closed spec fn columns(&self) -> Columns {
        self.rows@
    }

    /// The field that it reads.
    pub closed spec fn field(&self) -> Field {
        self.field
    }

    /// The column that it reads.
    pub open spec fn column(&self) -> Seq<Seq<u8>> {
        self.columns().column(self.field())
    }

    /// Read the field of entity `i`.
    pub fn read_vec2(&self, i: usize) -> (r: (F32Bits, F32Bits))
        requires
            i < self.column().len(),
        ensures
            value::le_bytes(r.0.bits) + value::le_bytes(r.1.bits) == self.column()[i as int],
    {
        let rows = self.rows;
        proof {
            use_type_invariant(rows);
            assert(rows.bytes.len() == rows.bytes@.len());
        }
        let off = i * 24 + self.field.offset();
        let x = read_word(rows.bytes.as_slice(), off);
        let y = read_word(rows.bytes.as_slice(), off + 4);
        proof {
            value::lemma_bytes_of_word(rows.bytes@, off as int);
            value::lemma_bytes_of_word(rows.bytes@, off + 4);
            assert(rows@.column(self.field)[i as int] =~= rows.bytes@.subrange(
                off as int,
                off + 4,
            ) + rows.bytes@.subrange(off + 4, off + 8));
        }
        (F32Bits { bits: x }, F32Bits { bits: y })
    }

    /// Is this a reader of `field`?
    pub fn reads(&self, field: Field) -> (r: bool)
        ensures
            r == (self.field() == field),
    {
        self.field == field
    }

    /// Number of entities. The column has that many images, of eight bytes each.
    pub fn count(&self) -> (r: usize)
        ensures
            r == self.column().len(),
            forall|i: int| 0 <= i < r ==> (#[trigger] self.column()[i]).len() == 8,
    {
        self.rows.count()
    }
}

/// The keys to an archetype, one per field.
pub struct Keys<'a> {
    pub position: FieldKey<'a>,
    pub velocity: FieldKey<'a>,
    pub acceleration: FieldKey<'a>,
}

impl<'a> Keys<'a> {
    /// These are the keys to an archetype with these columns.
    pub open spec fn of(&self, columns: Columns) -> bool {
        &&& self.position.columns() == columns
        &&& self.velocity.columns() == columns
        &&& self.acceleration.columns() == columns
        &&& self.position.field() == Field::Position
        &&& self.velocity.field() == Field::Velocity
        &&& self.acceleration.field() == Field::Acceleration
    }

    /// Could `field` have been read?
    pub fn touched(&self, field: Field) -> (r: bool)
        ensures
            r == match field {
                Field::Position => self.position.used(),
                Field::Velocity => self.velocity.used(),
                Field::Acceleration => self.acceleration.used(),
            },
    {
        match field {
            Field::Position => self.position.touched(),
            Field::Velocity => self.velocity.touched(),
            Field::Acceleration => self.acceleration.touched(),
        }
    }
}

/// Appending one row extends each column by one image.
proof fn lemma_row(before: Seq<u8>, row: Seq<u8>, data: Seq<u8>, i: nat, first: nat)
    requires
        before.len() == i * 24,
        row.len() == 24,
        data.len() >= (i + 1) * 8,
        first == 0 || first == 8 || first == 16,
        row.subrange(first as int, first + 8int) == data.subrange(i * 8int, i * 8int + 8),
        gathered(before, i, 24, first) == gathered(data, i, 8, 0),
    ensures
        gathered(before + row, i + 1, 24, first) == gathered(data, i + 1, 8, 0),
{
    let now = gathered(before + row, i + 1, 24, first);
    let want = gathered(data, i + 1, 8, 0);
    assert forall|k: int| 0 <= k < i + 1 implies #[trigger] now[k] == want[k] by {
        if k < i {
            assert(gathered(before, i, 24, first)[k] == gathered(data, i, 8, 0)[k]);
            assert(now[k] =~= gathered(before, i, 24, first)[k]);
        } else {
            assert(now[k] =~= row.subrange(first as int, first + 8int));
        }
    }
    assert(now =~= want);
}

/// A column holds its field of every entity, in order and whole: image `i` is the eight bytes that
/// were given for entity `i`.
pub proof fn law_columns_hold_every_entity(data: Seq<u8>, count: nat)
    requires
        data.len() == count * 8,
    ensures
        gathered(data, count, 8, 0).len() == count,
        forall|i: int, j: int|
            0 <= i < count && 0 <= j < 8 ==> #[trigger] gathered(data, count, 8, 0)[i][j] == data[8
                * i + j],
        forall|i: int| 0 <= i < count ==> (#[trigger] gathered(data, count, 8, 0)[i]).len() == 8,
        source::join(gathered(data, count, 8, 0), 0, count) == data,
{
    lemma_gathered_join(data, count, count);
    assert(data.take(count * 8int) =~= data);
}

proof fn lemma_gathered_join(data: Seq<u8>, count: nat, n: nat)
    requires
        data.len() == count * 8,
        n <= count,
    ensures
        source::join(gathered(data, count, 8, 0), 0, n) == data.take(n * 8int),
    decreases n,
{
    if n == 0 {
        assert(data.take(0) =~= seq![]);
    } else {
        let m = (n - 1) as nat;
        lemma_gathered_join(data, count, m);
        assert(gathered(data, count, 8, 0)[0 + n - 1] =~= data.subrange(m * 8int, m * 8int + 8));
        assert(data.take(n * 8int) =~= data.take(m * 8int) + data.subrange(m * 8int, m * 8int + 8));
    }
}

} // verus!
