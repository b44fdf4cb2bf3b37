//! The last four bytes looked at, among which a signature is looked for.
use vstd::prelude::*;

verus! {

/// Four bytes before anything has been looked at.
pub open spec fn blank() -> Seq<u8> {
    seq![0u8, 0u8, 0u8, 0u8]
}

/// The last four bytes looked at after one more.
pub open spec fn slide(window: Seq<u8>, byte: u8) -> Seq<u8> {
    window.skip(1).push(byte)
}

/// The last four bytes looked at after `count` bytes.
pub open spec fn window_after(bytes: Seq<u8>, count: int) -> Seq<u8> {
    (blank() + bytes).subrange(count, count + 4)
}

/// The window moves along the bytes. It begins with a zero before four bytes have been looked at,
/// and is made of the last four of them from then on.
pub proof fn lemma_window_moves(bytes: Seq<u8>, count: int)
    requires
        0 <= count < bytes.len(),
    ensures
        window_after(bytes, 0) == blank(),
        slide(window_after(bytes, count), bytes[count]) == window_after(bytes, count + 1),
        count < 3 ==> window_after(bytes, count + 1)[0] == 0,
        count >= 3 ==> ({
            let i = count - 3;
            window_after(bytes, count + 1) == bytes.subrange(i, i + 4)
        }),
{
    assert(window_after(bytes, 0) =~= blank());
    assert(slide(window_after(bytes, count), bytes[count]) =~= window_after(bytes, count + 1));
    if count >= 3 {
        let i = count - 3;
        assert(window_after(bytes, count + 1) =~= bytes.subrange(i, i + 4));
    }
}

} // verus!
