//! Finding the end of central directory record, from which everything else in an archive is found.
use bytes::Bytes;
use vstd::prelude::*;

use crate::error::{Abort, Error, Failure, Step};
use crate::format::{
    is_eocd32, is_eocd64, is_plausible, is_stand_in, law_eocd32_read_back, law_eocd64_read_back,
};
use crate::parser::{chunk_bytes, Parser, Shortage, Source};
use crate::range::{inclusive_range, inclusive_range_header};
use crate::records::{
    eocd32_outcome, eocd64_outcome, is_signature, law_eocd32_decided_once, law_eocd64_decided_once,
    read_eocd32, read_eocd64, MaybeEocd32, Outcome, EOCD32_SIGNATURE, EOCD64_SIGNATURE,
};
use crate::structs::{Eocd, Eocd32, Eocd64};
use crate::window::{blank, lemma_window_moves, slide, window_after};

verus! {

/// How many bytes at the end of an archive are searched. A record that is longer than that is not
/// found.
pub const CHUNK_SIZE: usize = 256;

/// What a search for the record does next.
#[derive(Debug, PartialEq, Eq, Structural)]
pub enum EocdStage {
    /// Look for a signature.
    Scan,
    /// Read the record behind the signature of a classic 32-bit zip.
    Eocd32,
    /// Read the record behind the signature of a Zip64.
    Eocd64,
}

impl EocdStage {
    /// Zero where the next byte is looked at, one where a record is read.
    pub open spec fn rank(self) -> int {
        if self is Scan {
            0
        } else {
            1
        }
    }
}

/// How far the search for the end of central directory record has come.
#[verifier::ext_equal]
pub struct EocdView {
    /// The bytes that have not been looked at.
    pub source: Source,
    /// The size of the archive.
    pub filesize: usize,
    /// Where in the archive the search began.
    pub from: usize,
    /// How many bytes have been looked at, with those that a record was read from left out and
    /// the last byte of a signature counted once its record has been read.
    pub byte_offset: usize,
    /// The last four bytes looked at, with zeros for those before the search.
    pub window: Seq<u8>,
    pub stage: EocdStage,
}

/// What a search for the end of central directory record comes to.
pub type EocdFound = core::result::Result<Option<Eocd>, Failure>;

impl EocdView {
    /// The search before anything has come.
    pub open spec fn begun(filesize: usize) -> EocdView
        recommends
            filesize >= CHUNK_SIZE,
    {
        EocdView {
            source: Source { bytes: Seq::empty(), ended: false },
            filesize,
            from: (filesize - CHUNK_SIZE) as usize,
            byte_offset: 0,
            window: blank(),
            stage: EocdStage::Scan,
        }
    }

    /// The search with one more byte looked at.
    pub open spec fn shifted(self) -> EocdView {
        let window = slide(self.window, self.source.bytes[0]);
        EocdView {
            source: self.source.advance(1),
            window,
            stage: if window == EOCD32_SIGNATURE@ {
                EocdStage::Eocd32
            } else if window == EOCD64_SIGNATURE@ {
                EocdStage::Eocd64
            } else {
                EocdStage::Scan
            },
            ..self
        }
    }

    /// The search behind `count` bytes that were read from a record.
    pub open spec fn advanced(self, count: nat) -> EocdView {
        EocdView { source: self.source.advance(count), ..self }
    }

    /// The search with the last byte looked at counted, looking for a signature.
    pub open spec fn counted(self) -> EocdView {
        EocdView {
            byte_offset: (self.byte_offset + 1) as usize,
            stage: EocdStage::Scan,
            ..self
        }
    }

    /// The search with more of the stream here.
    pub open spec fn extended(self, more: Seq<u8>, ended: bool) -> EocdView {
        EocdView { source: Source { bytes: self.source.bytes + more, ended }, ..self }
    }

    /// Where in the archive the signature just found ends.
    pub open spec fn offset(self) -> int {
        self.from + self.byte_offset
    }

    /// What the search comes to, and what is left of it.
    pub open spec fn next(self) -> (Step<EocdFound>, EocdView)
        decreases self.source.bytes.len(), self.stage.rank(),
    {
        proof {
            law_eocd32_decided_once(
                self.source.bytes,
                seq![],
                self.offset() as usize,
                self.filesize,
            );
            law_eocd64_decided_once(self.source.bytes, seq![], self.offset() as usize);
        }
        let overflow = Step::Done(Err(Failure::Abort(Abort::Overflow)));
        match self.stage {
            EocdStage::Scan => if self.source.bytes.len() > 0 {
                if self.shifted().stage !is Scan {
                    self.shifted().next()
                } else if self.byte_offset == usize::MAX {
                    (overflow, self.shifted())
                } else {
                    self.shifted().counted().next()
                }
            } else if self.source.ended {
                (Step::Done(Ok(None)), self)
            } else {
                (Step::NeedMore, self)
            },
            EocdStage::Eocd32 => if self.offset() > usize::MAX {
                (overflow, self)
            } else {
                match eocd32_outcome(self.source.bytes, self.offset() as usize, self.filesize) {
                    Outcome::Short(at) => if self.source.ended {
                        (
                            Step::Done(Err(Failure::Error(Error::UnexpectedEof))),
                            self.advanced(at),
                        )
                    } else {
                        (Step::NeedMore, self)
                    },
                    Outcome::Read(MaybeEocd32::Eocd32(eocd), len) => (
                        Step::Done(Ok(Some(eocd.widened()))),
                        self.advanced(len),
                    ),
                    Outcome::Read(_, len) => if self.byte_offset == usize::MAX {
                        (overflow, self.advanced(len))
                    } else {
                        self.advanced(len).counted().next()
                    },
                }
            },
            EocdStage::Eocd64 => if self.offset() > usize::MAX {
                (overflow, self)
            } else {
                match eocd64_outcome(self.source.bytes, self.offset() as usize) {
                    Outcome::Short(at) => if self.source.ended {
                        (
                            Step::Done(Err(Failure::Error(Error::UnexpectedEof))),
                            self.advanced(at),
                        )
                    } else {
                        (Step::NeedMore, self)
                    },
                    Outcome::Read(Some(eocd), len) => (
                        Step::Done(Ok(Some(eocd.widened()))),
                        self.advanced(len),
                    ),
                    Outcome::Read(None, len) => if self.byte_offset == usize::MAX {
                        (overflow, self.advanced(len))
                    } else {
                        self.advanced(len).counted().next()
                    },
                }
            },
        }
    }
}

/// A search for the end of central directory record in the last bytes of an archive.
pub struct EocdSearch {
    reader: Parser,
    filesize: usize,
    from: usize,
    byte_offset: usize,
    buf: [u8; 4],
    stage: EocdStage,
}

impl View for EocdSearch {
    type V = EocdView;

    closed spec fn view(&self) -> EocdView {
        EocdView {
            source: self.reader@,
            filesize: self.filesize,
            from: self.from,
            byte_offset: self.byte_offset,
            window: self.buf@,
            stage: self.stage,
        }
    }
}

/// Find the EOCD header.
/// Currently only checks the last 256 bytes of the file,
/// so if the EOCD is larger than 256 bytes it won't be found.
///
/// Gives the search, and the `Range` header value of the request in whose reply to search.
pub fn request_eocd(filesize: usize) -> (request: (EocdSearch, String))
    requires
        filesize >= CHUNK_SIZE,
    ensures
        request.0@ == EocdView::begun(filesize),
        request.1@ == inclusive_range((filesize - CHUNK_SIZE) as nat, (filesize - 1) as nat),
{
    let from: usize = filesize - CHUNK_SIZE;
    let to: usize = filesize - 1;
    let search = EocdSearch {
        reader: Parser::new(),
        filesize,
        from,
        byte_offset: 0,
        buf: [0u8;4],
        stage: EocdStage::Scan,
    };
    assert(search.buf@ =~= blank());
    (search, inclusive_range_header(from as u64, to as u64))
}

impl EocdSearch {
    /// Takes in the next chunk of the reply, or that it has ended.
    pub fn supply(&mut self, next: Option<Bytes>)
        ensures
            final(self)@ == (EocdView {
                source: old(self)@.source.supplied(chunk_bytes(next)),
                ..old(self)@
            }),
    {
        self.reader.supply(next);
    }

    /// Searches as far as the reply has come.
    pub fn next(&mut self) -> (step: Step<EocdFound>)
        ensures
            (step, final(self)@) == old(self)@.next(),
    {
        loop
            invariant
                self@.next() == old(self)@.next(),
            decreases self@.source.bytes.len(), self@.stage.rank(),
        {
            let ghost before = self@;
            proof {
                law_eocd32_decided_once(
                    before.source.bytes,
                    seq![],
                    before.offset() as usize,
                    before.filesize,
                );
                law_eocd64_decided_once(before.source.bytes, seq![], before.offset() as usize);
            }
            if self.stage == EocdStage::Scan {
                match self.reader.next() {
                    Ok(Some(value)) => {
                        self.buf = [self.buf[1], self.buf[2], self.buf[3], value];
                        assert(self.buf@ =~= slide(before.window, value));
                        if is_signature(&self.buf, &EOCD32_SIGNATURE) {
                            self.stage = EocdStage::Eocd32;
                        } else if is_signature(&self.buf, &EOCD64_SIGNATURE) {
                            self.stage = EocdStage::Eocd64;
                        }
                        assert(self@ =~= before.shifted());
                        if self.stage != EocdStage::Scan {
                            continue;
                        }
                    },
                    Ok(None) => {
                        return Step::Done(Ok(None));
                    },
                    Err(_) => {
                        return Step::NeedMore;
                    },
                }
            } else {
                if self.byte_offset > usize::MAX - self.from {
                    return Step::Done(Err(Failure::Abort(Abort::Overflow)));
                }
                let offset: usize = self.from + self.byte_offset;
                if self.stage == EocdStage::Eocd32 {
                    match read_eocd32(&mut self.reader, offset, self.filesize) {
                        Ok(MaybeEocd32::Eocd32(value)) => {
                            return Step::Done(Ok(Some(Eocd::from(value))));
                        },
                        Ok(_) => {},
                        Err(Shortage::Pending) => {
                            return Step::NeedMore;
                        },
                        Err(Shortage::UnexpectedEof) => {
                            return Step::Done(Err(Failure::Error(Error::UnexpectedEof)));
                        },
                    }
                } else {
                    match read_eocd64(&mut self.reader, offset) {
                        Ok(Some(value)) => {
                            return Step::Done(Ok(Some(Eocd::from(value))));
                        },
                        Ok(None) => {},
                        Err(Shortage::Pending) => {
                            return Step::NeedMore;
                        },
                        Err(Shortage::UnexpectedEof) => {
                            return Step::Done(Err(Failure::Error(Error::UnexpectedEof)));
                        },
                    }
                }
            }
            if self.byte_offset == usize::MAX {
                return Step::Done(Err(Failure::Abort(Abort::Overflow)));
            }
            self.byte_offset = self.byte_offset + 1;
            self.stage = EocdStage::Scan;
        }
    }
}

/// How the reply is cut into chunks makes no difference to a search in it. A search that is over on
/// the bytes that have come is over in the same way on more of them, and leaves the rest; a search
/// that needs more goes on from where it stopped as if all of it had been there.
pub proof fn law_eocd_in_chunks(search: EocdView, more: Seq<u8>, ended: bool)
    requires
        !search.source.ended,
    ensures
        match search.next() {
            (Step::NeedMore, after) => search.extended(more, ended).next() == after.extended(
                more,
                ended,
            ).next(),
            (step, after) => search.extended(more, ended).next() == (
                step,
                after.extended(more, ended),
            ),
        },
        !search.next().1.source.ended,
    decreases search.source.bytes.len(), search.stage.rank(),
{
    let bytes = search.source.bytes;
    let offset = search.offset() as usize;
    let whole = search.extended(more, ended);
    match search.stage {
        EocdStage::Scan => {
            if bytes.len() > 0 {
                assert(whole.shifted() =~= search.shifted().extended(more, ended));
                assert(whole.shifted().counted() =~= search.shifted().counted().extended(
                    more,
                    ended,
                ));
                if search.shifted().stage !is Scan {
                    law_eocd_in_chunks(search.shifted(), more, ended);
                } else if search.byte_offset < usize::MAX {
                    law_eocd_in_chunks(search.shifted().counted(), more, ended);
                }
            }
        },
        EocdStage::Eocd32 => {
            if search.offset() <= usize::MAX {
                law_eocd32_decided_once(bytes, more, offset, search.filesize);
                if let Outcome::Read(_, len) = eocd32_outcome(bytes, offset, search.filesize) {
                    lemma_extended_advances(search, more, ended, len);
                    if search.byte_offset < usize::MAX {
                        law_eocd_in_chunks(search.advanced(len).counted(), more, ended);
                    }
                }
            }
        },
        EocdStage::Eocd64 => {
            if search.offset() <= usize::MAX {
                law_eocd64_decided_once(bytes, more, offset);
                if let Outcome::Read(_, len) = eocd64_outcome(bytes, offset) {
                    lemma_extended_advances(search, more, ended, len);
                    if search.byte_offset < usize::MAX {
                        law_eocd_in_chunks(search.advanced(len).counted(), more, ended);
                    }
                }
            }
        },
    }
}

/// Taking bytes that are here and having more come can be done in either order.
proof fn lemma_extended_advances(search: EocdView, more: Seq<u8>, ended: bool, count: nat)
    requires
        count <= search.source.bytes.len(),
    ensures
        search.extended(more, ended).advanced(count) == search.advanced(count).extended(
            more,
            ended,
        ),
        search.extended(more, ended).advanced(count).counted() == search.advanced(
            count,
        ).counted().extended(more, ended),
{
    assert(search.extended(more, ended).advanced(count) =~= search.advanced(count).extended(
        more,
        ended,
    ));
}

/// A search in a reply that has ended needs nothing more.
pub proof fn lemma_eocd_ends(search: EocdView)
    requires
        search.source.ended,
    ensures
        search.next().0 !is NeedMore,
    decreases search.source.bytes.len(), search.stage.rank(),
{
    let bytes = search.source.bytes;
    let offset = search.offset() as usize;
    law_eocd32_decided_once(bytes, seq![], offset, search.filesize);
    law_eocd64_decided_once(bytes, seq![], offset);
    match search.stage {
        EocdStage::Scan => {
            if bytes.len() > 0 {
                if search.shifted().stage !is Scan {
                    lemma_eocd_ends(search.shifted());
                } else if search.byte_offset < usize::MAX {
                    lemma_eocd_ends(search.shifted().counted());
                }
            }
        },
        EocdStage::Eocd32 => {
            if let Outcome::Read(_, len) = eocd32_outcome(bytes, offset, search.filesize) {
                if search.byte_offset < usize::MAX {
                    lemma_eocd_ends(search.advanced(len).counted());
                }
            }
        },
        EocdStage::Eocd64 => {
            if let Outcome::Read(_, len) = eocd64_outcome(bytes, offset) {
                if search.byte_offset < usize::MAX {
                    lemma_eocd_ends(search.advanced(len).counted());
                }
            }
        },
    }
}

/// Whether four bytes are the signature of an end of central directory record.
pub open spec fn is_eocd_signature(bytes: Seq<u8>) -> bool {
    bytes == EOCD32_SIGNATURE@ || bytes == EOCD64_SIGNATURE@
}

/// A search that has looked at `done` bytes and found no signature.
spec fn scanned(filesize: usize, bytes: Seq<u8>, ended: bool, done: int) -> EocdView {
    EocdView {
        source: Source { bytes: bytes.skip(done), ended },
        byte_offset: done as usize,
        window: window_after(bytes, done),
        ..EocdView::begun(filesize)
    }
}

/// A search that stands behind the signature that begins at `at`.
spec fn at_signature(filesize: usize, bytes: Seq<u8>, ended: bool, at: int) -> EocdView {
    let window = bytes.subrange(at, at + 4);
    EocdView {
        source: Source { bytes: bytes.skip(at + 4), ended },
        byte_offset: (at + 3) as usize,
        window,
        stage: if window == EOCD32_SIGNATURE@ {
            EocdStage::Eocd32
        } else {
            EocdStage::Eocd64
        },
        ..EocdView::begun(filesize)
    }
}

/// A search that has looked at `done` bytes and found no signature goes on to the first one, which
/// begins at `at`.
proof fn lemma_scan_to_signature(
    filesize: usize,
    bytes: Seq<u8>,
    ended: bool,
    at: int,
    done: int,
)
    requires
        filesize >= CHUNK_SIZE,
        0 <= at && at + 4 <= bytes.len(),
        0 <= done < at + 4,
        at + 3 <= usize::MAX,
        is_eocd_signature(bytes.subrange(at, at + 4)),
        forall|i: int| 0 <= i < at ==> !is_eocd_signature(#[trigger] bytes.subrange(i, i + 4)),
    ensures
        scanned(filesize, bytes, ended, done).next() == at_signature(
            filesize,
            bytes,
            ended,
            at,
        ).next(),
    decreases at + 4 - done,
{
    lemma_window_moves(bytes, done);
    assert(bytes.skip(done).skip(1) =~= bytes.skip(done + 1));
    if done + 1 < at + 4 {
        assert(EOCD32_SIGNATURE@[0] == 0x50 && EOCD64_SIGNATURE@[0] == 0x50);
        lemma_scan_to_signature(filesize, bytes, ended, at, done + 1);
    }
}

/// A record of a classic 32-bit zip behind the first signature in the reply is found.
pub proof fn law_eocd32_found(
    filesize: usize,
    bytes: Seq<u8>,
    ended: bool,
    at: int,
    eocd: Eocd32,
    len: nat,
)
    requires
        filesize >= CHUNK_SIZE,
        0 <= at && at + 4 <= bytes.len(),
        filesize - CHUNK_SIZE + at + 3 <= usize::MAX,
        bytes.subrange(at, at + 4) == EOCD32_SIGNATURE@,
        forall|i: int| 0 <= i < at ==> !is_eocd_signature(#[trigger] bytes.subrange(i, i + 4)),
        eocd32_outcome(
            bytes.skip(at + 4),
            (filesize - CHUNK_SIZE + at + 3) as usize,
            filesize,
        ) == Outcome::Read(MaybeEocd32::Eocd32(eocd), len),
    ensures
        EocdView::begun(filesize).extended(bytes, ended).next().0 == Step::<EocdFound>::Done(
            Ok(Some(eocd.widened())),
        ),
{
    let begun = EocdView::begun(filesize).extended(bytes, ended);
    assert(bytes.skip(0) =~= bytes);
    assert(begun.source.bytes =~= bytes);
    assert(window_after(bytes, 0) =~= blank());
    lemma_scan_to_signature(filesize, bytes, ended, at, 0);
}

/// A record of a Zip64 behind the first signature in the reply is found.
pub proof fn law_eocd64_found(
    filesize: usize,
    bytes: Seq<u8>,
    ended: bool,
    at: int,
    eocd: Eocd64,
    len: nat,
)
    requires
        filesize >= CHUNK_SIZE,
        0 <= at && at + 4 <= bytes.len(),
        filesize - CHUNK_SIZE + at + 3 <= usize::MAX,
        bytes.subrange(at, at + 4) == EOCD64_SIGNATURE@,
        forall|i: int| 0 <= i < at ==> !is_eocd_signature(#[trigger] bytes.subrange(i, i + 4)),
        eocd64_outcome(bytes.skip(at + 4), (filesize - CHUNK_SIZE + at + 3) as usize)
            == Outcome::Read(Some(eocd), len),
    ensures
        EocdView::begun(filesize).extended(bytes, ended).next().0 == Step::<EocdFound>::Done(
            Ok(Some(eocd.widened())),
        ),
{
    let begun = EocdView::begun(filesize).extended(bytes, ended);
    assert(bytes.skip(0) =~= bytes);
    assert(begun.source.bytes =~= bytes);
    assert(window_after(bytes, 0) =~= blank());
    assert(EOCD64_SIGNATURE@[2] != EOCD32_SIGNATURE@[2]);
    lemma_scan_to_signature(filesize, bytes, ended, at, 0);
}

/// A record that breaks off where the reply ends, behind the first signature in it, is an error.
pub proof fn law_broken_eocd_is_error(filesize: usize, bytes: Seq<u8>, at: int)
    requires
        filesize >= CHUNK_SIZE,
        0 <= at && at + 4 <= bytes.len(),
        filesize - CHUNK_SIZE + at + 3 <= usize::MAX,
        is_eocd_signature(bytes.subrange(at, at + 4)),
        forall|i: int| 0 <= i < at ==> !is_eocd_signature(#[trigger] bytes.subrange(i, i + 4)),
        ({
            let offset = (filesize - CHUNK_SIZE + at + 3) as usize;
            let record = bytes.skip(at + 4);
            if bytes.subrange(at, at + 4) == EOCD32_SIGNATURE@ {
                eocd32_outcome(record, offset, filesize) is Short
            } else {
                eocd64_outcome(record, offset) is Short
            }
        }),
    ensures
        EocdView::begun(filesize).extended(bytes, true).next().0 == Step::<EocdFound>::Done(
            Err(Failure::Error(Error::UnexpectedEof)),
        ),
{
    let begun = EocdView::begun(filesize).extended(bytes, true);
    assert(bytes.skip(0) =~= bytes);
    assert(begun.source.bytes =~= bytes);
    assert(window_after(bytes, 0) =~= blank());
    lemma_scan_to_signature(filesize, bytes, true, at, 0);
}

/// Where there is no signature in the whole reply, no record is found.
pub proof fn law_no_eocd_without_signature(filesize: usize, bytes: Seq<u8>)
    requires
        filesize >= CHUNK_SIZE,
        bytes.len() <= usize::MAX,
        forall|i: int|
            0 <= i <= bytes.len() - 4 ==> !is_eocd_signature(#[trigger] bytes.subrange(i, i + 4)),
    ensures
        EocdView::begun(filesize).extended(bytes, true).next().0 == Step::<EocdFound>::Done(
            Ok(None),
        ),
{
    let begun = EocdView::begun(filesize).extended(bytes, true);
    assert(bytes.skip(0) =~= bytes);
    assert(begun.source.bytes =~= bytes);
    assert(window_after(bytes, 0) =~= blank());
    lemma_scan_to_end(filesize, bytes, 0);
}

/// A search that has looked at `done` bytes and meets no signature in the rest finds nothing.
proof fn lemma_scan_to_end(filesize: usize, bytes: Seq<u8>, done: int)
    requires
        filesize >= CHUNK_SIZE,
        0 <= done <= bytes.len() <= usize::MAX,
        forall|i: int|
            0 <= i <= bytes.len() - 4 ==> !is_eocd_signature(#[trigger] bytes.subrange(i, i + 4)),
    ensures
        scanned(filesize, bytes, true, done).next().0 == Step::<EocdFound>::Done(Ok(None)),
    decreases bytes.len() - done,
{
    if done < bytes.len() {
        lemma_window_moves(bytes, done);
        assert(bytes.skip(done).skip(1) =~= bytes.skip(done + 1));
        assert(EOCD32_SIGNATURE@[0] == 0x50 && EOCD64_SIGNATURE@[0] == 0x50);
        lemma_scan_to_end(filesize, bytes, done + 1);
    }
}

impl EocdView {
    /// Whether the search looks for a signature, with no byte behind it that can begin one with the
    /// bytes that follow.
    pub open spec fn is_fresh(self) -> bool {
        &&& self.stage is Scan
        &&& self.window.len() == 4
        &&& forall|i: int| 1 <= i < 4 ==> #[trigger] self.window[i] != 0x50
    }
}

/// Whether four bytes are what an end of central directory record begins with, of one kind of zip or
/// the other.
pub open spec fn is_record_mark(bytes: Seq<u8>) -> bool {
    bytes == seq![0x50u8, 0x4bu8, 5u8, 6u8] || bytes == seq![0x50u8, 0x4bu8, 6u8, 6u8]
}

/// A search that has looked at `done` more bytes and found no signature.
spec fn passed(search: EocdView, done: int) -> EocdView {
    EocdView {
        source: Source {
            bytes: search.source.bytes.skip(done),
            ended: search.source.ended,
        },
        byte_offset: (search.byte_offset + done) as usize,
        window: (search.window + search.source.bytes).subrange(done, done + 4),
        ..search
    }
}

/// A search that stands behind the signature that begins at `at`.
spec fn behind_signature(search: EocdView, at: int) -> EocdView {
    let window = search.source.bytes.subrange(at, at + 4);
    EocdView {
        source: Source {
            bytes: search.source.bytes.skip(at + 4),
            ended: search.source.ended,
        },
        byte_offset: (search.byte_offset + at + 3) as usize,
        window,
        stage: if window == EOCD32_SIGNATURE@ {
            EocdStage::Eocd32
        } else {
            EocdStage::Eocd64
        },
        ..search
    }
}

/// The signatures are what the records begin with.
proof fn lemma_marks()
    ensures
        EOCD32_SIGNATURE@ == seq![0x50u8, 0x4bu8, 5u8, 6u8],
        EOCD64_SIGNATURE@ == seq![0x50u8, 0x4bu8, 6u8, 6u8],
        EOCD32_SIGNATURE@ != EOCD64_SIGNATURE@,
{
    assert(EOCD32_SIGNATURE@ =~= seq![0x50u8, 0x4bu8, 5u8, 6u8]);
    assert(EOCD64_SIGNATURE@ =~= seq![0x50u8, 0x4bu8, 6u8, 6u8]);
    assert(EOCD32_SIGNATURE@[2] != EOCD64_SIGNATURE@[2]);
}

/// One more byte is looked at. Before the fourth, the window still begins with a byte that no
/// signature begins with.
proof fn lemma_one_passed(search: EocdView, done: int)
    requires
        search.is_fresh(),
        0 <= done < search.source.bytes.len(),
    ensures
        passed(search, done).shifted().window == passed(search, done + 1).window,
        passed(search, done).shifted().source == passed(search, done + 1).source,
        done < 3 ==> passed(search, done + 1).window[0] != 0x50,
        done >= 3 ==> ({
            let i = done - 3;
            passed(search, done + 1).window == search.source.bytes.subrange(i, i + 4)
        }),
{
    let bytes = search.source.bytes;
    assert(passed(search, done).source.bytes[0] == bytes[done]);
    assert(bytes.skip(done).skip(1) =~= bytes.skip(done + 1));
    assert(slide(passed(search, done).window, bytes[done]) =~= passed(search, done + 1).window);
    if done < 3 {
        assert(passed(search, done + 1).window[0] == search.window[done + 1]);
    } else {
        let i = done - 3;
        assert(passed(search, done + 1).window =~= bytes.subrange(i, i + 4));
    }
}

/// A search that has looked at `done` more bytes and found no signature goes on to the first one.
proof fn lemma_passed_to_signature(search: EocdView, at: int, done: int)
    requires
        search.is_fresh(),
        0 <= at && at + 4 <= search.source.bytes.len(),
        0 <= done < at + 4,
        search.byte_offset + at + 3 <= usize::MAX,
        is_record_mark(search.source.bytes.subrange(at, at + 4)),
        forall|i: int|
            0 <= i < at ==> !is_record_mark(#[trigger] search.source.bytes.subrange(i, i + 4)),
    ensures
        passed(search, done).next() == behind_signature(search, at).next(),
    decreases at + 4 - done,
{
    let here = passed(search, done);
    lemma_marks();
    lemma_one_passed(search, done);
    if done + 1 < at + 4 {
        if done >= 3 {
            let i = done - 3;
            assert(!is_record_mark(search.source.bytes.subrange(i, i + 4)));
        }
        assert(here.shifted().stage is Scan);
        assert(here.shifted().counted() == passed(search, done + 1));
        lemma_passed_to_signature(search, at, done + 1);
    } else {
        assert(here.shifted() == behind_signature(search, at));
    }
}

/// A search that looks for a signature goes on to the first one.
proof fn lemma_to_signature(search: EocdView, at: int)
    requires
        search.is_fresh(),
        0 <= at && at + 4 <= search.source.bytes.len(),
        search.byte_offset + at + 3 <= usize::MAX,
        is_record_mark(search.source.bytes.subrange(at, at + 4)),
        forall|i: int|
            0 <= i < at ==> !is_record_mark(#[trigger] search.source.bytes.subrange(i, i + 4)),
    ensures
        search.next() == behind_signature(search, at).next(),
{
    assert(search.source.bytes.skip(0) =~= search.source.bytes);
    assert((search.window + search.source.bytes).subrange(0, 4) =~= search.window);
    assert(passed(search, 0) == search);
    lemma_passed_to_signature(search, at, 0);
}

/// A search begins 256 bytes before the end of the archive, ready to look for a signature.
pub proof fn law_search_begins_fresh(filesize: usize, bytes: Seq<u8>, ended: bool)
    requires
        filesize >= 256,
    ensures
        EocdView::begun(filesize).extended(bytes, ended).is_fresh(),
        EocdView::begun(filesize).extended(bytes, ended).source == (Source { bytes, ended }),
        EocdView::begun(filesize).from == filesize - 256,
        EocdView::begun(filesize).byte_offset == 0,
        EocdView::begun(filesize).filesize == filesize,
{
    assert(EocdView::begun(filesize).extended(bytes, ended).source.bytes =~= bytes);
}

/// A search comes to the record of a classic 32-bit zip that stands behind the first signature,
/// with the values that are written in it and the offset at which its signature ends.
pub proof fn law_eocd32_found_in_bytes(
    search: EocdView,
    at: int,
    record: Seq<u8>,
    rest: Seq<u8>,
    eocd: Eocd32,
    comment_len: u16,
)
    requires
        search.is_fresh(),
        0 <= at && at + 4 <= search.source.bytes.len(),
        search.source.bytes.skip(at) == seq![0x50u8, 0x4bu8, 5u8, 6u8] + record + rest,
        forall|i: int|
            0 <= i < at ==> !is_record_mark(#[trigger] search.source.bytes.subrange(i, i + 4)),
        is_eocd32(record, eocd, comment_len),
        is_plausible(eocd, search.filesize),
        !is_stand_in(eocd),
        eocd.offset == search.from + search.byte_offset + at + 3,
    ensures
        search.next().0 == Step::<EocdFound>::Done(Ok(Some(eocd.widened()))),
{
    let bytes = search.source.bytes;
    let mark = seq![0x50u8, 0x4bu8, 5u8, 6u8];
    lemma_marks();
    assert(bytes.subrange(at, at + 4) =~= bytes.skip(at).take(4));
    assert((mark + record + rest).take(4) =~= mark);
    assert(bytes.skip(at + 4) =~= bytes.skip(at).skip(4));
    assert((mark + record + rest).skip(4) =~= record + rest);
    lemma_to_signature(search, at);
    law_eocd32_read_back(record, rest, eocd, comment_len, search.filesize);
}

/// A search comes to the record of a Zip64 that stands behind the first signature, with the values
/// that are written in it and the offset at which its signature ends.
pub proof fn law_eocd64_found_in_bytes(
    search: EocdView,
    at: int,
    record: Seq<u8>,
    rest: Seq<u8>,
    eocd: Eocd64,
)
    requires
        search.is_fresh(),
        0 <= at && at + 4 <= search.source.bytes.len(),
        search.source.bytes.skip(at) == seq![0x50u8, 0x4bu8, 6u8, 6u8] + record + rest,
        forall|i: int|
            0 <= i < at ==> !is_record_mark(#[trigger] search.source.bytes.subrange(i, i + 4)),
        is_eocd64(record, eocd),
        record[8] <= 63 && record[10] <= 63,
        eocd.offset == search.from + search.byte_offset + at + 3,
    ensures
        search.next().0 == Step::<EocdFound>::Done(Ok(Some(eocd.widened()))),
{
    let bytes = search.source.bytes;
    let mark = seq![0x50u8, 0x4bu8, 6u8, 6u8];
    lemma_marks();
    assert(bytes.subrange(at, at + 4) =~= bytes.skip(at).take(4));
    assert((mark + record + rest).take(4) =~= mark);
    assert(bytes.skip(at + 4) =~= bytes.skip(at).skip(4));
    assert((mark + record + rest).skip(4) =~= record + rest);
    lemma_to_signature(search, at);
    law_eocd64_read_back(record, rest, eocd);
}

/// What looks like a record and is none is passed over: the search goes on right behind the fields
/// that were read of it, ready to look for a signature. Those fields are not counted.
pub proof fn law_false_record_passed_over(search: EocdView, at: int, count: nat)
    requires
        search.is_fresh(),
        0 <= at && at + 4 <= search.source.bytes.len(),
        search.from + search.byte_offset + at + 4 <= usize::MAX,
        is_record_mark(search.source.bytes.subrange(at, at + 4)),
        forall|i: int|
            0 <= i < at ==> !is_record_mark(#[trigger] search.source.bytes.subrange(i, i + 4)),
        ({
            let offset = (search.from + search.byte_offset + at + 3) as usize;
            let record = search.source.bytes.skip(at + 4);
            if search.source.bytes.subrange(at, at + 4) == seq![0x50u8, 0x4bu8, 5u8, 6u8] {
                eocd32_outcome(record, offset, search.filesize) matches Outcome::Read(eocd, len)
                    && eocd !is Eocd32 && len == count
            } else {
                eocd64_outcome(record, offset) == Outcome::Read(None::<Eocd64>, count)
            }
        }),
    ensures
        ({
            let after = EocdView {
                source: search.source.advance(at as nat + 4 + count),
                byte_offset: (search.byte_offset + at + 4) as usize,
                window: search.source.bytes.subrange(at, at + 4),
                ..search
            };
            search.next() == after.next() && after.is_fresh()
        }),
{
    let bytes = search.source.bytes;
    let here = behind_signature(search, at);
    lemma_marks();
    lemma_to_signature(search, at);
    law_eocd32_decided_once(bytes.skip(at + 4), seq![], here.offset() as usize, search.filesize);
    law_eocd64_decided_once(bytes.skip(at + 4), seq![], here.offset() as usize);
    assert(bytes.skip(at + 4).skip(count as int) =~= bytes.skip(at + 4 + count));
    assert(here.next() == here.advanced(count).counted().next());
}

} // verus!
