//! In-memory targets that ZIP records are written to.

use vstd::prelude::*;
use vstd::slice::slice_subrange;

verus! {

/// What a target holds and how much more it takes.
#[verifier::ext_equal]
pub struct SinkState {
    /// Everything accepted so far.
    pub written: Seq<u8>,
    /// The free space, or `None` for a target that grows on demand.
    pub room: Option<nat>,
}

impl SinkState {
    /// How many of `len` offered bytes are accepted.
    pub open spec fn accepts(self, len: nat) -> nat {
        match self.room {
            None => len,
            Some(r) => if len <= r {
                len
            } else {
                r
            },
        }
    }

    /// The state after `data` was offered: the longest prefix that fits is
    /// appended, and the free space shrinks by as much.
    pub open spec fn offer(self, data: Seq<u8>) -> SinkState {
        let n = self.accepts(data.len());
        SinkState {
            written: self.written + data.take(n as int),
            room: match self.room {
                None => None,
                Some(r) => Some((r - n) as nat),
            },
        }
    }
}

/// Offering `a` and then `b` is the same as offering `a + b` at once.
pub proof fn lemma_offer_twice(s: SinkState, a: Seq<u8>, b: Seq<u8>)
    ensures
        s.offer(a).offer(b) == s.offer(a + b),
        s.accepts(a.len()) + s.offer(a).accepts(b.len()) == s.accepts((a + b).len()),
{
    let n1 = s.accepts(a.len());
    let n2 = s.offer(a).accepts(b.len());
    let n = s.accepts((a + b).len());
    assert(n1 + n2 == n);
    assert(s.written + a.take(n1 as int) + b.take(n2 as int) =~= s.written + (a + b).take(
        n as int,
    ));
}

/// A target that has room for all of `data` holds `data` at its end.
pub proof fn lemma_offer_fits(s: SinkState, data: Seq<u8>)
    requires
        s.room matches Some(r) ==> data.len() <= r,
    ensures
        s.offer(data).written == s.written + data,
        s.accepts(data.len()) == data.len(),
{
    assert(data.take(data.len() as int) =~= data);
}

/// A target for bytes. A write never fails: a target that runs out of space
/// accepts a prefix of the data and reports how long that prefix is.
pub trait ByteSink: Sized {
    spec fn state(&self) -> SinkState;

    fn write(&mut self, data: &[u8]) -> (n: usize)
        ensures
            n == old(self).state().accepts(data@.len()),
            final(self).state() == old(self).state().offer(data@),
    ;
}

impl ByteSink for Vec<u8> {
    open spec fn state(&self) -> SinkState {
        SinkState { written: self@, room: None }
    }

    fn write(&mut self, data: &[u8]) -> (n: usize) {
        let ghost before = self@;
        self.extend_from_slice(data);
        assert(self@ =~= before + data@.take(data@.len() as int));
        data.len()
    }
}

/// A buffer of a fixed size that is filled from its start.
#[derive(Debug)]
pub struct SliceBuf {
    filled: Vec<u8>,
    size: usize,
}

impl SliceBuf {
    /// The size the buffer was made with.
    pub closed spec fn spec_size(&self) -> usize {
        self.size
    }

    /// A buffer's free space is no more than its size.
    pub(crate) proof fn lemma_room(&self)
        ensures
            self.state().room matches Some(room) && room <= self.spec_size(),
    {
    }

    /// An empty buffer for `size` bytes.
    pub fn with_size(size: usize) -> (buf: SliceBuf)
        ensures
            buf.spec_size() == size,
            buf.state() == (SinkState { written: Seq::empty(), room: Some(size as nat) }),
    {
        SliceBuf { filled: Vec::new(), size }
    }

    /// The bytes written so far, followed by zeros up to the buffer's size.
    pub fn into_bytes(self) -> (bytes: Vec<u8>)
        ensures
            bytes@ == self.state().written + Seq::new(
                self.state().room->Some_0,
                |i: int| 0u8,
            ),
    {
        let mut bytes = self.filled;
        let ghost start = bytes@;
        while bytes.len() < self.size
            invariant
                bytes@.len() >= start.len(),
                bytes@.len() > start.len() ==> bytes@.len() <= self.size,
                bytes@ == start + Seq::new((bytes@.len() - start.len()) as nat, |i: int| 0u8),
            decreases self.size - bytes.len(),
        {
            bytes.push(0u8);
            assert(bytes@ =~= start + Seq::new((bytes@.len() - start.len()) as nat, |i: int| 0u8));
        }
        bytes
    }
}

impl ByteSink for SliceBuf {
    closed spec fn state(&self) -> SinkState {
        SinkState {
            written: self.filled@,
            room: Some(
                if self.filled@.len() <= self.size {
                    (self.size - self.filled@.len()) as nat
                } else {
                    0
                },
            ),
        }
    }

    fn write(&mut self, data: &[u8]) -> (n: usize) {
        let ghost before = self.filled@;
        let space: usize = if self.filled.len() <= self.size {
            self.size - self.filled.len()
        } else {
            0
        };
        let n: usize = if data.len() <= space {
            data.len()
        } else {
            space
        };
        self.filled.extend_from_slice(slice_subrange(data, 0, n));
        assert(data@.subrange(0, n as int) =~= data@.take(n as int));
        assert(self.filled@ =~= before + data@.take(n as int));
        n
    }
}

/// A vector grows: it takes everything, behind what it holds already.
pub proof fn vectors_take_everything(v: Vec<u8>, data: Seq<u8>)
    ensures
        v.state().written == v@,
        v.state().accepts(data.len()) == data.len(),
        v.state().offer(data).written == v@ + data,
        v.state().offer(data).room is None,
{
    assert(data.take(data.len() as int) =~= data);
}

} // verus!
