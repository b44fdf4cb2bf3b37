//! Reading bytes and little-endian numbers from a stream that comes in chunks.
use bytes::Bytes;
use vstd::prelude::*;

use crate::outside::{bytes_from_vec, contents};

verus! {

/// Why bytes could not be taken from a stream.
#[derive(Debug, PartialEq, Eq, Structural)]
pub enum Shortage {
    /// Too few bytes are here, and the stream has not ended: the next chunk is needed.
    Pending,
    /// Too few bytes are here, and the stream has ended.
    UnexpectedEof,
}

/// What is here of a stream: the bytes that have come and have not been taken, and whether the
/// stream has ended.
#[verifier::ext_equal]
pub struct Source {
    pub bytes: Seq<u8>,
    pub ended: bool,
}

impl Source {
    /// The stream after its first `count` bytes have been taken.
    pub open spec fn advance(self, count: nat) -> Source {
        Source { bytes: self.bytes.skip(count as int), ended: self.ended }
    }

    /// The stream after another chunk has come, or after it has ended.
    pub open spec fn supplied(self, next: Option<Seq<u8>>) -> Source {
        match next {
            Some(chunk) => Source { bytes: self.bytes + chunk, ended: self.ended },
            None => Source { bytes: self.bytes, ended: true },
        }
    }

    /// Why more bytes than are here cannot be taken.
    pub open spec fn shortage(self) -> Shortage {
        if self.ended {
            Shortage::UnexpectedEof
        } else {
            Shortage::Pending
        }
    }
}

/// The bytes of a chunk, where there is one.
pub open spec fn chunk_bytes(next: Option<Bytes>) -> Option<Seq<u8>> {
    match next {
        Some(chunk) => Some(contents(chunk)),
        None => None,
    }
}

/// The number that two bytes stand for, the low one first.
pub open spec fn le_u16(bytes: Seq<u8>, at: int) -> u16 {
    (bytes[at] + bytes[at + 1] * 0x100) as u16
}

/// The number that four bytes stand for, the lowest one first.
pub open spec fn le_u32(bytes: Seq<u8>, at: int) -> u32 {
    (bytes[at] + bytes[at + 1] * 0x100 + bytes[at + 2] * 0x1_0000 + bytes[at + 3]
        * 0x100_0000) as u32
}

/// The number that eight bytes stand for, the lowest one first.
pub open spec fn le_u64(bytes: Seq<u8>, at: int) -> u64 {
    (le_u32(bytes, at) + le_u32(bytes, at + 4) * 0x1_0000_0000) as u64
}

/// Parses a stream of `Bytes`.
/// Can be thought of as an iterator that returns `u8`,
/// with extra capability to return slices and little-endian numbers.
///
/// The chunks of the stream are handed in one by one. How it is cut into chunks makes no
/// difference to what is read from it.
pub struct Parser {
    /// The bytes that are taken next.
    bytes: Bytes,
    /// The bytes behind those.
    tail: Vec<u8>,
    is_eof: bool,
}

impl View for Parser {
    type V = Source;

    closed spec fn view(&self) -> Source {
        Source { bytes: contents(self.bytes) + self.tail@, ended: self.is_eof }
    }
}

impl Parser {
    /// A stream of which nothing has come yet.
    pub fn new() -> (parser: Self)
        ensures
            parser@ == (Source { bytes: Seq::empty(), ended: false }),
    {
        Parser { bytes: Bytes::new(), tail: Vec::new(), is_eof: false }
    }

    /// Whether the next chunk has to come before `atleast` bytes can be taken.
    pub fn request_atleast(&self, atleast: usize) -> (more: bool)
        ensures
            more <==> self@.bytes.len() < atleast && !self@.ended,
    {
        let here: usize = self.bytes.len();
        if here >= atleast {
            false
        } else {
            self.tail.len() < atleast - here && !self.is_eof
        }
    }

    /// Takes in the next chunk of the stream, or that the stream has ended.
    pub fn supply(&mut self, next: Option<Bytes>)
        ensures
            final(self)@ == old(self)@.supplied(chunk_bytes(next)),
    {
        match next {
            Some(chunk) => {
                if self.bytes.len() == 0 && self.tail.len() == 0 {
                    self.bytes = chunk;
                } else {
                    self.tail.extend_from_slice(&chunk);
                }
            },
            None => {
                self.is_eof = true;
            },
        }
        assert(self@ =~= old(self)@.supplied(chunk_bytes(next)));
    }

    /// Joins the bytes that are here into one piece.
    fn join(&mut self)
        ensures
            final(self)@ == old(self)@,
            contents(final(self).bytes) == final(self)@.bytes,
            final(self).tail@.len() == 0,
    {
        if self.tail.len() > 0 {
            let mut joined: Vec<u8> = Vec::new();
            joined.extend_from_slice(&self.bytes);
            joined.append(&mut self.tail);
            self.bytes = bytes_from_vec(joined);
        }
        assert(self@ =~= old(self)@);
    }

    /// Take a list of bytes from the stream.
    pub fn take_bytes(&mut self, length: usize) -> (taken: Result<Bytes, Shortage>)
        ensures
            length <= old(self)@.bytes.len() ==> {
                &&& taken is Ok
                &&& contents(taken->Ok_0) == old(self)@.bytes.take(length as int)
                &&& final(self)@ == old(self)@.advance(length as nat)
            },
            length > old(self)@.bytes.len() ==> {
                &&& taken == Err::<Bytes, _>(old(self)@.shortage())
                &&& final(self)@ == old(self)@
            },
    {
        if self.request_atleast(length) {
            return Err(Shortage::Pending);
        }
        if self.bytes.len() < length {
            self.join();
            if self.bytes.len() < length {
                return Err(Shortage::UnexpectedEof);
            }
        }
        let taken = self.bytes.split_to(length);
        proof {
            let before = old(self)@.bytes;
            assert(contents(taken) =~= before.take(length as int));
            assert(self@ =~= old(self)@.advance(length as nat));
        }
        Ok(taken)
    }

    /// Skip an amount of bytes in the stream.
    pub fn skip_bytes(&mut self, length: usize) -> (skipped: Result<(), Shortage>)
        ensures
            length <= old(self)@.bytes.len() ==> {
                &&& skipped is Ok
                &&& final(self)@ == old(self)@.advance(length as nat)
            },
            length > old(self)@.bytes.len() ==> {
                &&& skipped == Err::<(), _>(old(self)@.shortage())
                &&& final(self)@ == old(self)@
            },
    {
        match self.take_bytes(length) {
            Ok(_) => Ok(()),
            Err(shortage) => Err(shortage),
        }
    }

    /// Take a fixed slice of bytes from the stream.
    pub fn take_fixed_slice<const N: usize>(&mut self) -> (taken: Result<[u8; N], Shortage>)
        ensures
            N <= old(self)@.bytes.len() ==> {
                &&& taken is Ok
                &&& taken->Ok_0@ == old(self)@.bytes.take(N as int)
                &&& final(self)@ == old(self)@.advance(N as nat)
            },
            N > old(self)@.bytes.len() ==> {
                &&& taken == Err::<[u8; N], _>(old(self)@.shortage())
                &&& final(self)@ == old(self)@
            },
    {
        let bytes = self.take_bytes(N)?;
        let bytes: &[u8] = &bytes;
        let mut slice: [u8; N] = [0u8;N];
        let mut i: usize = 0;
        while i < N
            invariant
                0 <= i <= N,
                bytes@.len() == N,
                forall|j: int| 0 <= j < i ==> slice@[j] == bytes@[j],
            decreases N - i,
        {
            slice[i] = bytes[i];
            i = i + 1;
        }
        assert(slice@ =~= bytes@);
        Ok(slice)
    }

    /// Take a little-endian u16 from the stream.
    pub fn take_u16(&mut self) -> (taken: Result<u16, Shortage>)
        ensures
            2 <= old(self)@.bytes.len() ==> {
                &&& taken == Ok::<_, Shortage>(le_u16(old(self)@.bytes, 0))
                &&& final(self)@ == old(self)@.advance(2)
            },
            2 > old(self)@.bytes.len() ==> {
                &&& taken == Err::<u16, _>(old(self)@.shortage())
                &&& final(self)@ == old(self)@
            },
    {
        let slice: [u8; 2] = self.take_fixed_slice()?;
        assert(forall|i: int| 0 <= i < 2 ==> slice@[i] == old(self)@.bytes[i]);
        Ok(slice[0] as u16 + slice[1] as u16 * 0x100)
    }

    /// Take a little-endian u32 from the stream.
    pub fn take_u32(&mut self) -> (taken: Result<u32, Shortage>)
        ensures
            4 <= old(self)@.bytes.len() ==> {
                &&& taken == Ok::<_, Shortage>(le_u32(old(self)@.bytes, 0))
                &&& final(self)@ == old(self)@.advance(4)
            },
            4 > old(self)@.bytes.len() ==> {
                &&& taken == Err::<u32, _>(old(self)@.shortage())
                &&& final(self)@ == old(self)@
            },
    {
        let slice: [u8; 4] = self.take_fixed_slice()?;
        assert(forall|i: int| 0 <= i < 4 ==> slice@[i] == old(self)@.bytes[i]);
        Ok(
            slice[0] as u32 + slice[1] as u32 * 0x100 + slice[2] as u32 * 0x1_0000 + slice[3] as u32
                * 0x100_0000,
        )
    }

    /// Take a little-endian u64 from the stream.
    pub fn take_u64(&mut self) -> (taken: Result<u64, Shortage>)
        ensures
            8 <= old(self)@.bytes.len() ==> {
                &&& taken == Ok::<_, Shortage>(le_u64(old(self)@.bytes, 0))
                &&& final(self)@ == old(self)@.advance(8)
            },
            8 > old(self)@.bytes.len() ==> {
                &&& taken == Err::<u64, _>(old(self)@.shortage())
                &&& final(self)@ == old(self)@
            },
    {
        let slice: [u8; 8] = self.take_fixed_slice()?;
        assert(forall|i: int| 0 <= i < 8 ==> slice@[i] == old(self)@.bytes[i]);
        let low: u32 = slice[0] as u32 + slice[1] as u32 * 0x100 + slice[2] as u32 * 0x1_0000
            + slice[3] as u32 * 0x100_0000;
        let high: u32 = slice[4] as u32 + slice[5] as u32 * 0x100 + slice[6] as u32 * 0x1_0000
            + slice[7] as u32 * 0x100_0000;
        Ok(low as u64 + high as u64 * 0x1_0000_0000)
    }

    /// Get the next byte in the stream or None if it is finished.
    pub fn next(&mut self) -> (next: Result<Option<u8>, Shortage>)
        ensures
            old(self)@.bytes.len() > 0 ==> {
                &&& next == Ok::<_, Shortage>(Some(old(self)@.bytes[0]))
                &&& final(self)@ == old(self)@.advance(1)
            },
            old(self)@.bytes.len() == 0 ==> {
                &&& next == if old(self)@.ended {
                    Ok::<Option<u8>, Shortage>(None)
                } else {
                    Err(Shortage::Pending)
                }
                &&& final(self)@ == old(self)@
            },
    {
        match self.take_bytes(1) {
            Ok(byte) => {
                let byte: &[u8] = &byte;
                Ok(Some(byte[0]))
            },
            Err(Shortage::Pending) => Err(Shortage::Pending),
            Err(Shortage::UnexpectedEof) => Ok(None),
        }
    }

    /// The parser as it is now, to go back to.
    pub(crate) fn snapshot(&mut self) -> (snapshot: Self)
        ensures
            final(self)@ == old(self)@,
            snapshot@ == old(self)@,
    {
        self.join();
        let snapshot = Parser { bytes: self.bytes.clone(), tail: Vec::new(), is_eof: self.is_eof };
        assert(snapshot@ =~= self@);
        snapshot
    }
}

/// The stream that comes in these chunks, one after the other, with nothing taken from it.
pub open spec fn arrived(chunks: Seq<Seq<u8>>) -> Source
    decreases chunks.len(),
{
    if chunks.len() == 0 {
        Source { bytes: seq![], ended: false }
    } else {
        arrived(chunks.drop_last()).supplied(Some(chunks.last()))
    }
}

/// What is here of a stream is its chunks one behind the other, in the order in which they came, and
/// it ends with nothing more.
pub proof fn law_chunks_arrive_in_order(chunks: Seq<Seq<u8>>)
    ensures
        arrived(chunks).bytes == chunks.flatten(),
        !arrived(chunks).ended,
        arrived(chunks).supplied(None).bytes == chunks.flatten(),
        arrived(chunks).supplied(None).ended,
    decreases chunks.len(),
{
    if chunks.len() > 0 {
        law_chunks_arrive_in_order(chunks.drop_last());
        chunks.lemma_flatten_and_flatten_alt_are_equivalent();
        chunks.drop_last().lemma_flatten_and_flatten_alt_are_equivalent();
        assert(chunks.flatten_alt() == chunks.drop_last().flatten_alt() + chunks.last());
    }
}

/// What is taken from a stream and what is left make up what was here, and taking bytes does not end
/// the stream. Where bytes cannot be taken, the next chunk is waited for unless the stream has
/// ended.
pub proof fn law_taken_and_left(source: Source, count: nat)
    requires
        count <= source.bytes.len(),
    ensures
        source.bytes == source.bytes.take(count as int) + source.advance(count).bytes,
        source.advance(count).bytes.len() + count == source.bytes.len(),
        source.advance(count).ended == source.ended,
        source.shortage() is UnexpectedEof <==> source.ended,
        source.shortage() is Pending <==> !source.ended,
{
    assert(source.bytes =~= source.bytes.take(count as int) + source.advance(count).bytes);
}

} // verus!
