//! Arguments that are delivered chunk by chunk while the guest runs.

use vstd::prelude::*;
use vstd::slice::slice_subrange;

verus! {

/// The host side of a `stream<T>` argument.
pub trait Producer {
    /// The chunks still to come. A stream that says nothing else is at its end.
    open spec fn remaining(&self) -> Seq<Seq<u8>> {
        Seq::empty()
    }

    /// The next chunk of pre-encoded inline elements, or `None` at the end of the stream.
    fn next_chunk(&mut self) -> (r: Option<&[u8]>)
        ensures
            match r {
                None => old(self).remaining().len() == 0 && final(self).remaining() == old(
                    self,
                ).remaining(),
                Some(chunk) => {
                    &&& old(self).remaining().len() > 0
                    &&& chunk@ == old(self).remaining()[0]
                    &&& final(self).remaining() == old(self).remaining().skip(1)
                },
            },
    ;
}

impl<P: Producer> Producer for &mut P {
    open spec fn remaining(&self) -> Seq<Seq<u8>> {
        (**self).remaining()
    }

    fn next_chunk(&mut self) -> (r: Option<&[u8]>) {
        (**self).next_chunk()
    }
}

/// A stream, ready to be bound as an argument.
pub struct Feed<'a> {
    pub producer: Box<dyn Producer + 'a>,
}

/// `data` in chunks of `size` bytes, of which the last may be shorter.
pub open spec fn chunked(data: Seq<u8>, size: nat) -> Seq<Seq<u8>>
    decreases data.len(),
{
    if data.len() == 0 || size == 0 {
        seq![]
    } else if data.len() <= size {
        seq![data]
    } else {
        seq![data.take(size as int)] + chunked(data.skip(size as int), size)
    }
}

/// Hands a byte buffer out in chunks of a fixed size.
pub struct ChunkProducer<'d> {
    data: &'d [u8],
    chunk_bytes: usize,
    pos: usize,
}

impl<'d> ChunkProducer<'d> {
    /// The bytes that were not handed out yet.
    pub closed spec fn rest(&self) -> Seq<u8> {
        self.data@.skip(self.pos as int)
    }

    /// The size of a chunk.
    pub closed spec fn size(&self) -> nat {
        self.chunk_bytes as nat
    }

    #[verifier::type_invariant]
    spec fn inv(self) -> bool {
        self.chunk_bytes > 0 && self.pos <= self.data@.len()
    }

    /// Hand out `data` in chunks of `chunk_bytes` bytes.
    pub fn new(data: &'d [u8], chunk_bytes: usize) -> (r: ChunkProducer<'d>)
        requires
            chunk_bytes > 0,
        ensures
            r.rest() == data@,
            r.size() == chunk_bytes,
    {
        assert(data@.skip(0) =~= data@);
        ChunkProducer { data, chunk_bytes, pos: 0 }
    }
}

impl<'d> Producer for ChunkProducer<'d> {
    open spec fn remaining(&self) -> Seq<Seq<u8>> {
        chunked(self.rest(), self.size())
    }

    fn next_chunk(&mut self) -> (r: Option<&[u8]>) {
        proof {
            use_type_invariant(&*self);
        }
        if self.pos >= self.data.len() {
            return None;
        }
        let end = if self.chunk_bytes < self.data.len() - self.pos {
            self.pos + self.chunk_bytes
        } else {
            self.data.len()
        };
        let chunk = slice_subrange(self.data, self.pos, end);
        proof {
            let rest = self.rest();
            let size = self.size();
            assert(self.data@.skip(end as int) =~= rest.skip(end - self.pos));
            assert(chunk@ =~= rest.take(end - self.pos));
            if rest.len() <= size {
                assert(rest.take(end - self.pos) =~= rest);
                assert(rest.skip(end - self.pos) =~= seq![]);
                assert(chunked(rest, size).skip(1) =~= seq![]);
            } else {
                assert(chunked(rest, size).skip(1) =~= chunked(rest.skip(size as int), size));
            }
        }
        self.pos = end;
        Some(chunk)
    }
}

} // verus!
