//! An even division of a size into ranges.
use vstd::arithmetic::div_mod::lemma_fundamental_div_mod;
use vstd::prelude::*;

verus! {

/// Takes a size and chunk count and divides the size evenly between all the chunks,
/// outputs (from, to) inclusive byte ranges.
pub struct EvenChunkBy {
    chunk_size: u64,
    remainder: u64,
    from: u64,
    chunks: u64,
}

/// Where chunk `index` begins: every chunk before it has `chunk_size` bytes, and each of the first
/// `remainder` chunks has one byte more.
pub open spec fn chunk_start(chunk_size: int, remainder: int, index: int) -> int {
    index * chunk_size + if index < remainder { index } else { remainder }
}

/// The ranges into which `size` bytes are divided between `chunks` chunks.
pub open spec fn even_chunks(size: u64, chunks: u64) -> Seq<(u64, u64)>
    recommends
        0 < chunks <= size,
{
    let chunk_size = size as int / chunks as int;
    let remainder = size as int % chunks as int;
    Seq::new(
        chunks as nat,
        |i: int|
            (
                chunk_start(chunk_size, remainder, i) as u64,
                (chunk_start(chunk_size, remainder, i + 1) - 1) as u64,
            ),
    )
}

impl View for EvenChunkBy {
    type V = Seq<(u64, u64)>;

    /// The ranges that are still to come.
    closed spec fn view(&self) -> Seq<(u64, u64)> {
        Seq::new(
            self.chunks as nat,
            |i: int|
                (
                    (self.from + chunk_start(self.chunk_size as int, self.remainder as int, i)) as u64,
                    (self.from + chunk_start(self.chunk_size as int, self.remainder as int, i + 1)
                        - 1) as u64,
                ),
        )
    }
}

impl EvenChunkBy {
    /// No chunk is empty, and the last one ends below the largest `u64`.
    #[verifier::type_invariant]
    spec fn well_formed(self) -> bool {
        &&& 0 < self.chunk_size
        &&& self.remainder <= self.chunks
        &&& self.from + self.chunks * self.chunk_size + self.remainder <= u64::MAX
    }

    /// The division of `size` bytes between `chunks` chunks.
    pub fn new(size: u64, chunks: u64) -> (chunked: Self)
        requires
            0 < chunks <= size,
        ensures
            chunked@ == even_chunks(size, chunks),
    {
        let chunk_size: u64 = size / chunks;
        let remainder: u64 = size % chunks;
        proof {
            lemma_fundamental_div_mod(size as int, chunks as int);
            assert(0 < chunk_size) by (nonlinear_arith)
                requires
                    0 < chunks <= size,
                    chunk_size == size as int / chunks as int,
            ;
        }
        let chunked = EvenChunkBy { chunk_size, remainder, from: 0, chunks };
        assert(chunked@ =~= even_chunks(size, chunks));
        chunked
    }

    /// The next range, or none when all of them have been given.
    pub fn next(&mut self) -> (range: Option<(u64, u64)>)
        ensures
            old(self)@.len() == 0 ==> range is None && final(self)@ == old(self)@,
            old(self)@.len() > 0 ==> range == Some(old(self)@[0]) && final(self)@ == old(
                self,
            )@.drop_first(),
    {
        proof {
            use_type_invariant(&*self);
        }
        if self.chunks <= 0 {
            return None;
        }
        let extra: u64 = if self.remainder <= 0 {
            0
        } else {
            1
        };
        proof {
            lemma_first_chunk(
                self.chunks as int,
                self.chunk_size as int,
                self.remainder as int,
                extra as int,
            );
        }
        let size: u64 = self.chunk_size + extra;
        let from: u64 = self.from;
        let to: u64 = from + size - 1;
        let rest = EvenChunkBy {
            chunk_size: self.chunk_size,
            remainder: self.remainder - extra,
            from: to + 1,
            chunks: self.chunks - 1,
        };
        proof {
            let ghost before = *self;
            assert forall|i: int| 0 <= i < rest@.len() implies rest@[i] == before@.drop_first()[i] by {
                lemma_later_chunk(
                    before.chunk_size as int,
                    before.remainder as int,
                    extra as int,
                    i,
                );
                lemma_later_chunk(
                    before.chunk_size as int,
                    before.remainder as int,
                    extra as int,
                    i + 1,
                );
            }
            assert(rest@ =~= before@.drop_first());
        }
        *self = rest;
        Some((from, to))
    }
}

/// The first of the remaining chunks fits below the bound of all of them.
proof fn lemma_first_chunk(chunks: int, chunk_size: int, remainder: int, extra: int)
    requires
        0 < chunks,
        0 < chunk_size,
        0 <= remainder <= chunks,
        extra == if remainder == 0 { 0int } else { 1 },
    ensures
        chunk_start(chunk_size, remainder, 0) == 0,
        chunk_start(chunk_size, remainder, 1) == chunk_size + extra,
        chunks * chunk_size == (chunks - 1) * chunk_size + chunk_size,
        (chunks - 1) * chunk_size >= 0,
{
    assert(chunks * chunk_size == (chunks - 1) * chunk_size + chunk_size) by (nonlinear_arith);
    assert((chunks - 1) * chunk_size >= 0) by (nonlinear_arith)
        requires
            0 < chunks,
            0 < chunk_size,
    ;
}

/// Once the first chunk is gone, every other chunk begins where it did.
proof fn lemma_later_chunk(chunk_size: int, remainder: int, extra: int, index: int)
    requires
        0 <= index,
        0 <= remainder,
        extra == if remainder == 0 { 0int } else { 1 },
    ensures
        chunk_start(chunk_size, remainder, index + 1) == chunk_size + extra + chunk_start(
            chunk_size,
            remainder - extra,
            index,
        ),
{
    assert((index + 1) * chunk_size == index * chunk_size + chunk_size) by (nonlinear_arith);
}

/// The chunks divide the size: the first one begins at zero, each begins right behind the one
/// before it, the last one ends with the last byte, and none is empty.
pub proof fn law_chunks_cover(size: u64, chunks: u64)
    requires
        0 < chunks <= size,
    ensures
        even_chunks(size, chunks).len() == chunks,
        even_chunks(size, chunks)[0].0 == 0,
        even_chunks(size, chunks)[chunks - 1].1 == size - 1,
        forall|i: int|
            0 <= i < chunks - 1 ==> (#[trigger] even_chunks(size, chunks)[i]).1 + 1 == even_chunks(
                size,
                chunks,
            )[i + 1].0,
        forall|i: int|
            0 <= i < chunks ==> (#[trigger] even_chunks(size, chunks)[i]).0 <= even_chunks(
                size,
                chunks,
            )[i].1,
{
    let chunk_size = size as int / chunks as int;
    let remainder = size as int % chunks as int;
    let ranges = even_chunks(size, chunks);
    lemma_chunk_bounds(size, chunks, 0);
    lemma_chunk_bounds(size, chunks, chunks - 1);
    lemma_fundamental_div_mod(size as int, chunks as int);
    assert(chunk_start(chunk_size, remainder, chunks as int) == size) by (nonlinear_arith)
        requires
            chunk_start(chunk_size, remainder, chunks as int) == chunks * chunk_size + remainder,
            size == chunks * chunk_size + remainder,
    ;
    assert forall|i: int| 0 <= i < chunks - 1 implies (#[trigger] ranges[i]).1 + 1 == ranges[i
        + 1].0 by {
        lemma_chunk_bounds(size, chunks, i);
        lemma_chunk_bounds(size, chunks, i + 1);
    }
    assert forall|i: int| 0 <= i < chunks implies (#[trigger] ranges[i]).0 <= ranges[i].1 by {
        lemma_chunk_bounds(size, chunks, i);
    }
}

/// The division is even: no chunk is more than one byte longer than another, and the longer ones
/// come first.
pub proof fn law_chunks_even(size: u64, chunks: u64, i: int, j: int)
    requires
        0 < chunks <= size,
        0 <= i <= j < chunks,
    ensures
        ({
            let (a, b) = even_chunks(size, chunks)[i];
            let (c, d) = even_chunks(size, chunks)[j];
            0 <= (b - a) - (d - c) <= 1
        }),
{
    lemma_chunk_bounds(size, chunks, i);
    lemma_chunk_bounds(size, chunks, j);
}

/// Where a chunk begins and ends, and that it is not empty.
proof fn lemma_chunk_bounds(size: u64, chunks: u64, i: int)
    requires
        0 < chunks <= size,
        0 <= i < chunks,
    ensures
        ({
            let chunk_size = size as int / chunks as int;
            let remainder = size as int % chunks as int;
            let start = chunk_start(chunk_size, remainder, i);
            let end = chunk_start(chunk_size, remainder, i + 1);
            &&& 0 < chunk_size
            &&& 0 <= start < end <= size
            &&& even_chunks(size, chunks)[i] == ((start as u64, (end - 1) as u64))
            &&& end - start == chunk_size + if i < remainder { 1int } else { 0 }
        }),
{
    let chunk_size = size as int / chunks as int;
    let remainder = size as int % chunks as int;
    lemma_fundamental_div_mod(size as int, chunks as int);
    assert(0 < chunk_size) by (nonlinear_arith)
        requires
            0 < chunks <= size,
            chunk_size == size as int / chunks as int,
    ;
    assert((i + 1) * chunk_size == i * chunk_size + chunk_size) by (nonlinear_arith);
    assert(0 <= i * chunk_size) by (nonlinear_arith)
        requires
            0 <= i,
            0 < chunk_size,
    ;
    assert((i + 1) * chunk_size <= chunks * chunk_size) by (nonlinear_arith)
        requires
            i + 1 <= chunks,
            0 < chunk_size,
    ;
}

} // verus!
