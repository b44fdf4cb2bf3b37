//! A buffer that keeps the last bytes pushed into it.
use vstd::prelude::*;
use vstd::slice::slice_subrange;

verus! {

/// Fixed size ring buffer, like VecDeque but without heap allocations.
pub struct RingBuffer<const N: usize> {
    buf: [u8; N],
    len: usize,
}

impl<const N: usize> View for RingBuffer<N> {
    type V = Seq<u8>;

    /// The bytes held, the oldest first.
    closed spec fn view(&self) -> Seq<u8> {
        self.buf@.skip(N - self.len)
    }
}

impl<const N: usize> RingBuffer<N> {
    /// No more than `N` bytes are held.
    #[verifier::type_invariant]
    spec fn well_formed(self) -> bool {
        self.len <= N
    }

    /// An empty buffer.
    pub fn new() -> (buffer: Self)
        ensures
            buffer@ == Seq::<u8>::empty(),
    {
        RingBuffer { buf: [0u8;N], len: 0 }
    }

    /// Lets go of all bytes.
    pub fn clear(&mut self)
        ensures
            final(self)@ == Seq::<u8>::empty(),
    {
        self.len = 0;
    }

    /// The bytes held, the oldest first.
    pub fn as_slice(&self) -> (slice: &[u8])
        ensures
            slice@ == self@,
            slice@.len() <= N,
    {
        proof {
            use_type_invariant(self);
        }
        slice_subrange(self.buf.as_slice(), N - self.len, N)
    }

    /// Adds a byte behind the others. A full buffer lets go of its oldest byte for it, and hands
    /// that one back.
    pub fn push(&mut self, value: u8) -> (oldest: Option<u8>)
        requires
            0 < N,
        ensures
            old(self)@.len() <= N,
            old(self)@.len() < N ==> oldest is None,
            old(self)@.len() == N ==> oldest == Some(old(self)@[0]),
            final(self)@ == last_bytes(old(self)@.push(value), N as nat),
    {
        proof {
            use_type_invariant(&*self);
        }
        let ghost before = self.buf@;
        let first: u8 = self.buf[0];
        let mut i: usize = 0;
        while i < N - 1
            invariant
                0 <= i <= N - 1,
                before.len() == N,
                self.len == old(self).len,
                self.len <= N,
                forall|j: int| 0 <= j < i ==> self.buf@[j] == before[j + 1],
                forall|j: int| i <= j < N ==> self.buf@[j] == before[j],
            decreases N - i,
        {
            self.buf[i] = self.buf[i + 1];
            i = i + 1;
        }
        self.buf[N - 1] = value;
        assert(self.buf@ =~= before.drop_first().push(value));
        if self.len < N {
            self.len = self.len + 1;
            assert(self@ =~= last_bytes(old(self)@.push(value), N as nat));
            None
        } else {
            assert(self@ =~= last_bytes(old(self)@.push(value), N as nat));
            Some(first)
        }
    }
}

/// The last `n` bytes of a sequence, or all of it where it is shorter.
pub open spec fn last_bytes(pushed: Seq<u8>, n: nat) -> Seq<u8> {
    if pushed.len() <= n {
        pushed
    } else {
        pushed.skip(pushed.len() - n)
    }
}

/// A buffer of `n` bytes that holds the last bytes of `pushed` holds, after one more push, the last
/// bytes of `pushed` and the byte behind it. So it always holds the last bytes of all that has been
/// pushed since it was empty.
pub proof fn law_holds_last_bytes(pushed: Seq<u8>, value: u8, n: nat)
    requires
        0 < n,
    ensures
        last_bytes(Seq::<u8>::empty(), n) == Seq::<u8>::empty(),
        last_bytes(last_bytes(pushed, n).push(value), n) == last_bytes(pushed.push(value), n),
{
    assert(last_bytes(last_bytes(pushed, n).push(value), n) =~= last_bytes(pushed.push(value), n));
}

/// The last bytes of a sequence are the end of it: they are as many as `n`, or all where there are
/// fewer, and nothing is behind them.
pub proof fn law_last_bytes_are_the_end(pushed: Seq<u8>, n: nat)
    ensures
        last_bytes(pushed, n).len() == if pushed.len() < n {
            pushed.len()
        } else {
            n
        },
        pushed == pushed.take(pushed.len() - last_bytes(pushed, n).len()) + last_bytes(pushed, n),
{
    assert(pushed =~= pushed.take(pushed.len() - last_bytes(pushed, n).len()) + last_bytes(
        pushed,
        n,
    ));
}

} // verus!
