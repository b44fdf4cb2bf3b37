//! Reading a file out of the archive.
use bytes::buf::Reader;
use bytes::Bytes;
use inflate::DeflateDecoder;
use vstd::prelude::*;

use crate::error::{Abort, Error, Failure, Step};
use crate::format::{
    holds_number, is_deflated_fh, law_fh_breaks_off, law_fh_read_back, law_fh_refused,
};
use crate::outside::{deflate_decoder, undecoded};
use crate::parser::{chunk_bytes, Parser, Shortage, Source};
use crate::range::{from_range, from_range_header};
use crate::records::{
    fh_outcome, has_unsupported_fh, is_signature, law_fh_decided_once, read_fh, MaybeFh, Outcome,
    FH_SIGNATURE,
};
use crate::structs::{Cdfh, CompressionMethod};

verus! {

/// The contents of a file, decompressed as they are read.
pub type FileContents = DeflateDecoder<Reader<Bytes>>;

/// What comes next of a file.
#[derive(Debug, PartialEq, Eq, Structural)]
pub enum FileStage {
    /// The signature of its header.
    Signature,
    /// The header behind the signature.
    Header,
    /// The contents behind the header.
    Contents,
}

impl FileStage {
    /// How many stages are still to come.
    pub open spec fn rank(self) -> int {
        match self {
            FileStage::Signature => 2,
            FileStage::Header => 1,
            FileStage::Contents => 0,
        }
    }
}

/// How far the reading of a file has come.
#[verifier::ext_equal]
pub struct FileView {
    /// The bytes that have not been read.
    pub source: Source,
    /// How many bytes the contents take up in the archive.
    pub compressed_size: usize,
    pub stage: FileStage,
}

/// What the reading of a file comes to: the compressed contents, or why there are none.
pub type FileRead = core::result::Result<Seq<u8>, Failure>;

impl FileView {
    /// A file of which nothing has come yet.
    pub open spec fn begun(compressed_size: usize) -> FileView {
        FileView {
            source: Source { bytes: Seq::empty(), ended: false },
            compressed_size,
            stage: FileStage::Signature,
        }
    }

    /// The file behind `count` bytes that were read.
    pub open spec fn advanced(self, count: nat, stage: FileStage) -> FileView {
        FileView { source: self.source.advance(count), stage, ..self }
    }

    /// The file with more of the stream here.
    pub open spec fn extended(self, more: Seq<u8>, ended: bool) -> FileView {
        FileView { source: Source { bytes: self.source.bytes + more, ended }, ..self }
    }

    /// What comes of a field that breaks off, with `at` bytes before it.
    pub open spec fn broken_off(self, at: nat) -> (Step<FileRead>, FileView) {
        if self.source.ended {
            (
                Step::Done(Err(Failure::Error(Error::UnexpectedEof))),
                self.advanced(at, self.stage),
            )
        } else {
            (Step::NeedMore, self)
        }
    }

    /// What the reading comes to, and what is left behind the file.
    pub open spec fn next(self) -> (Step<FileRead>, FileView)
        decreases self.stage.rank(),
    {
        let bytes = self.source.bytes;
        let malformed = Step::Done(Err(Failure::Error(Error::MalformedFileHeader)));
        match self.stage {
            FileStage::Signature => if bytes.len() < 4 {
                self.broken_off(0)
            } else if bytes.take(4) != FH_SIGNATURE@ {
                (malformed, self.advanced(4, FileStage::Signature))
            } else {
                self.advanced(4, FileStage::Header).next()
            },
            FileStage::Header => match fh_outcome(bytes) {
                Outcome::Short(at) => self.broken_off(at),
                Outcome::Read(MaybeFh::FalsePositive, len) => (
                    malformed,
                    self.advanced(len, FileStage::Header),
                ),
                Outcome::Read(MaybeFh::Unsupported, _) => (
                    Step::Done(Err(Failure::Abort(Abort::UnsupportedCompression))),
                    self,
                ),
                Outcome::Read(MaybeFh::Deflated, len) => self.advanced(
                    len,
                    FileStage::Contents,
                ).next(),
            },
            FileStage::Contents => if bytes.len() < self.compressed_size {
                self.broken_off(0)
            } else {
                (
                    Step::Done(Ok(bytes.take(self.compressed_size as int))),
                    self.advanced(self.compressed_size as nat, FileStage::Contents),
                )
            },
        }
    }
}

/// A file that is being read.
pub struct FileReader {
    parser: Parser,
    compressed_size: usize,
    stage: FileStage,
}

impl View for FileReader {
    type V = FileView;

    closed spec fn view(&self) -> FileView {
        FileView {
            source: self.parser@,
            compressed_size: self.compressed_size,
            stage: self.stage,
        }
    }
}

/// What the reading of a file comes to, with the compressed bytes in place of the decoder that has
/// been given them.
pub open spec fn read_view(step: Step<core::result::Result<FileContents, Failure>>) -> Step<
    FileRead,
> {
    match step {
        Step::NeedMore => Step::NeedMore,
        Step::Done(Ok(decoder)) => Step::Done(Ok(undecoded(decoder))),
        Step::Done(Err(failure)) => Step::Done(Err(failure)),
    }
}

/// Read the file contents at the file header offset in the given CDFH.
///
/// Gives the file, and the `Range` header value of the request in whose reply to read it.
pub fn read_file_at_cdfh(cdfh: &Cdfh) -> (request: (FileReader, String))
    ensures
        request.0@ == FileView::begun(cdfh.compressed_size as usize),
        request.1@ == from_range(cdfh.file_header_offset as nat),
{
    let file = FileReader {
        parser: Parser::new(),
        compressed_size: cdfh.compressed_size as usize,
        stage: FileStage::Signature,
    };
    (file, from_range_header(cdfh.file_header_offset as u64))
}

impl FileReader {
    /// Takes in the next chunk of the reply, or that it has ended.
    pub fn supply(&mut self, next: Option<Bytes>)
        ensures
            final(self)@ == (FileView {
                source: old(self)@.source.supplied(chunk_bytes(next)),
                ..old(self)@
            }),
    {
        self.parser.supply(next);
    }

    /// Reads as far as the reply has come.
    pub fn next(&mut self) -> (step: Step<core::result::Result<FileContents, Failure>>)
        ensures
            (read_view(step), final(self)@) == old(self)@.next(),
    {
        if self.stage == FileStage::Signature {
            match self.parser.take_fixed_slice::<4>() {
                Ok(signature) => {
                    if !is_signature(&signature, &FH_SIGNATURE) {
                        return Step::Done(Err(Failure::Error(Error::MalformedFileHeader)));
                    }
                    self.stage = FileStage::Header;
                },
                Err(shortage) => {
                    assert(self@ =~= old(self)@.advanced(0, FileStage::Signature));
                    return broken_off(shortage);
                },
            }
        }
        assert(self@.next() == old(self)@.next());
        if self.stage == FileStage::Header {
            if has_unsupported_fh(&mut self.parser) {
                return Step::Done(Err(Failure::Abort(Abort::UnsupportedCompression)));
            }
            match read_fh(&mut self.parser) {
                Ok(None) => {
                    return Step::Done(Err(Failure::Error(Error::MalformedFileHeader)));
                },
                Ok(Some(())) => {
                    self.stage = FileStage::Contents;
                },
                Err(shortage) => {
                    return broken_off(shortage);
                },
            }
        }
        assert(self@.next() == old(self)@.next());
        let ghost before = self@;
        match self.parser.take_bytes(self.compressed_size) {
            Ok(bytes) => Step::Done(Ok(deflate_decoder(bytes))),
            Err(shortage) => {
                assert(self@ =~= before.advanced(0, FileStage::Contents));
                broken_off(shortage)
            },
        }
    }
}

/// What comes of bytes that could not be taken.
fn broken_off(shortage: Shortage) -> (step: Step<core::result::Result<FileContents, Failure>>)
    ensures
        shortage is Pending ==> step is NeedMore,
        shortage is UnexpectedEof ==> step == Step::Done(
            Err::<FileContents, _>(Failure::Error(Error::UnexpectedEof)),
        ),
{
    match shortage {
        Shortage::Pending => Step::NeedMore,
        Shortage::UnexpectedEof => Step::Done(Err(Failure::Error(Error::UnexpectedEof))),
    }
}

/// How the reply is cut into chunks makes no difference to the file that is read from it. Reading
/// that is over on the bytes that have come is over in the same way on more of them, and leaves
/// the rest; reading that needs more goes on from where it stopped as if all of it had been there.
pub proof fn law_file_in_chunks(file: FileView, more: Seq<u8>, ended: bool)
    requires
        !file.source.ended,
    ensures
        match file.next() {
            (Step::NeedMore, after) => file.extended(more, ended).next() == after.extended(
                more,
                ended,
            ).next(),
            (step, after) => file.extended(more, ended).next() == (
                step,
                after.extended(more, ended),
            ),
        },
        !file.next().1.source.ended,
    decreases file.stage.rank(),
{
    let bytes = file.source.bytes;
    let whole = file.extended(more, ended);
    match file.stage {
        FileStage::Signature => {
            if bytes.len() >= 4 {
                assert(whole.source.bytes.take(4) =~= bytes.take(4));
                lemma_extended_advances(file, more, ended, 4);
                law_file_in_chunks(file.advanced(4, FileStage::Header), more, ended);
            }
        },
        FileStage::Header => {
            law_fh_decided_once(bytes, more);
            if let Outcome::Read(_, len) = fh_outcome(bytes) {
                lemma_extended_advances(file, more, ended, len);
                law_file_in_chunks(file.advanced(len, FileStage::Contents), more, ended);
            }
        },
        FileStage::Contents => {
            let size = file.compressed_size;
            if bytes.len() >= size {
                assert(whole.source.bytes.take(size as int) =~= bytes.take(size as int));
                lemma_extended_advances(file, more, ended, size as nat);
            }
        },
    }
}

/// Reading bytes that are here and having more come can be done in either order.
proof fn lemma_extended_advances(file: FileView, more: Seq<u8>, ended: bool, count: nat)
    requires
        count <= file.source.bytes.len(),
    ensures
        forall|stage: FileStage| #[trigger]
            file.extended(more, ended).advanced(count, stage) == file.advanced(
                count,
                stage,
            ).extended(more, ended),
{
    assert((file.source.bytes + more).skip(count as int) =~= file.source.bytes.skip(count as int)
        + more);
}

/// A file that is in the reply is read: behind a signature and a header that says that DEFLATE was
/// used come the compressed contents, and what is behind those is not looked at.
pub proof fn law_file_read_in_full(header: Seq<u8>, compressed: Seq<u8>, rest: Seq<u8>, ended: bool)
    requires
        fh_outcome(header) == Outcome::Read(MaybeFh::Deflated, header.len()),
        compressed.len() <= usize::MAX,
    ensures
        FileView::begun(compressed.len() as usize).extended(
            FH_SIGNATURE@ + header + compressed + rest,
            ended,
        ).next().0 == Step::<FileRead>::Done(Ok(compressed)),
{
    let bytes = FH_SIGNATURE@ + header + compressed + rest;
    let file = FileView::begun(compressed.len() as usize).extended(bytes, ended);
    assert(file.source.bytes =~= bytes);
    assert(bytes.take(4) =~= FH_SIGNATURE@);
    assert(bytes.skip(4) =~= header + (compressed + rest));
    law_fh_decided_once(header, compressed + rest);
    assert(bytes.skip(4).skip(header.len() as int) =~= compressed + rest);
    assert((compressed + rest).take(compressed.len() as int) =~= compressed);
    assert(file.advanced(4, FileStage::Header).next() == file.advanced(
        4,
        FileStage::Header,
    ).advanced(header.len(), FileStage::Contents).next());
}

/// Reading in a reply that has ended needs nothing more.
pub proof fn lemma_file_ends(file: FileView)
    requires
        file.source.ended,
    ensures
        file.next().0 !is NeedMore,
    decreases file.stage.rank(),
{
    match file.stage {
        FileStage::Signature => {
            lemma_file_ends(file.advanced(4, FileStage::Header));
        },
        FileStage::Header => {
            if let Outcome::Read(_, len) = fh_outcome(file.source.bytes) {
                lemma_file_ends(file.advanced(len, FileStage::Contents));
            }
        },
        FileStage::Contents => {},
    }
}

/// A file in the reply is read from its bytes: the contents begin right behind the name and the
/// extra field of its header, whatever the other fields of the header hold, and are as many bytes as
/// the central directory says.
pub proof fn law_file_read_from_bytes(
    header: Seq<u8>,
    name_len: u16,
    extra_len: u16,
    compressed: Seq<u8>,
    rest: Seq<u8>,
    ended: bool,
)
    requires
        is_deflated_fh(header, name_len, extra_len),
        compressed.len() <= usize::MAX,
    ensures
        FileView::begun(compressed.len() as usize).extended(
            seq![0x50u8, 0x4bu8, 3u8, 4u8] + header + compressed + rest,
            ended,
        ).next().0 == Step::<FileRead>::Done(Ok(compressed)),
{
    assert(FH_SIGNATURE@ =~= seq![0x50u8, 0x4bu8, 3u8, 4u8]);
    law_fh_read_back(header, seq![], name_len, extra_len);
    assert(header + Seq::<u8>::empty() =~= header);
    law_file_read_in_full(header, compressed, rest, ended);
}

/// A reply that does not begin with the signature of a file header, or in which the header behind it
/// is none, is malformed. A file that was compressed in another way than with DEFLATE is given up.
pub proof fn law_file_refused(size: usize, bytes: Seq<u8>, ended: bool, method: u16)
    ensures
        bytes.len() >= 4 && bytes.take(4) != seq![0x50u8, 0x4bu8, 3u8, 4u8] ==> FileView::begun(
            size,
        ).extended(bytes, ended).next().0 == Step::<FileRead>::Done(
            Err(Failure::Error(Error::MalformedFileHeader)),
        ),
        bytes.len() >= 6 && bytes.take(4) == seq![0x50u8, 0x4bu8, 3u8, 4u8] && bytes[4] > 63
            ==> FileView::begun(size).extended(bytes, ended).next().0 == Step::<FileRead>::Done(
            Err(Failure::Error(Error::MalformedFileHeader)),
        ),
        bytes.len() >= 10 && bytes.take(4) == seq![0x50u8, 0x4bu8, 3u8, 4u8] && bytes[4] <= 63
            && holds_number(bytes, 8, 2, method as nat) ==> {
            &&& CompressionMethod::of_id(method) is None ==> FileView::begun(size).extended(
                bytes,
                ended,
            ).next().0 == Step::<FileRead>::Done(Err(Failure::Error(Error::MalformedFileHeader)))
            &&& CompressionMethod::of_id(method) is Some && method != 8 ==> FileView::begun(
                size,
            ).extended(bytes, ended).next().0 == Step::<FileRead>::Done(
                Err(Failure::Abort(Abort::UnsupportedCompression)),
            )
        },
{
    let file = FileView::begun(size).extended(bytes, ended);
    assert(file.source.bytes =~= bytes);
    assert(FH_SIGNATURE@ =~= seq![0x50u8, 0x4bu8, 3u8, 4u8]);
    let header = bytes.skip(4);
    if bytes.len() >= 6 {
        assert(header[0] == bytes[4]);
        law_fh_refused(header, method);
    }
    if bytes.len() >= 10 {
        assert(header.subrange(4, 6) =~= bytes.subrange(8, 10));
    }
    if bytes.len() >= 4 && bytes.take(4) == FH_SIGNATURE@ {
        assert(file.next() == file.advanced(4, FileStage::Header).next());
        assert(file.advanced(4, FileStage::Header).source.bytes == header);
    }
}

/// A file that the reply does not hold to its end is an error, and nothing comes of it before the
/// reply has ended.
pub proof fn law_file_breaks_off(
    header: Seq<u8>,
    name_len: u16,
    extra_len: u16,
    compressed: Seq<u8>,
    count: int,
)
    requires
        is_deflated_fh(header, name_len, extra_len),
        compressed.len() <= usize::MAX,
        0 <= count < 4 + header.len() + compressed.len(),
    ensures
        ({
            let bytes = (seq![0x50u8, 0x4bu8, 3u8, 4u8] + header + compressed).take(count);
            let file = FileView::begun(compressed.len() as usize);
            &&& file.extended(bytes, true).next().0 == Step::<FileRead>::Done(
                Err(Failure::Error(Error::UnexpectedEof)),
            )
            &&& file.extended(bytes, false).next().0 is NeedMore
        }),
{
    lemma_part_of_file(header, name_len, extra_len, compressed, count, true);
    lemma_part_of_file(header, name_len, extra_len, compressed, count, false);
}

/// A file of which not all is here breaks off.
proof fn lemma_part_of_file(
    header: Seq<u8>,
    name_len: u16,
    extra_len: u16,
    compressed: Seq<u8>,
    count: int,
    ended: bool,
)
    requires
        is_deflated_fh(header, name_len, extra_len),
        compressed.len() <= usize::MAX,
        0 <= count < 4 + header.len() + compressed.len(),
    ensures
        FileView::begun(compressed.len() as usize).extended(
            (seq![0x50u8, 0x4bu8, 3u8, 4u8] + header + compressed).take(count),
            ended,
        ).next().0 == if ended {
            Step::<FileRead>::Done(Err(Failure::Error(Error::UnexpectedEof)))
        } else {
            Step::NeedMore
        },
{
    let mark = seq![0x50u8, 0x4bu8, 3u8, 4u8];
    let bytes = (mark + header + compressed).take(count);
    let file = FileView::begun(compressed.len() as usize).extended(bytes, ended);
    assert(FH_SIGNATURE@ =~= mark);
    assert(file.source.bytes =~= bytes);
    if count >= 4 {
        let inner = file.advanced(4, FileStage::Header);
        assert(bytes.take(4) =~= mark);
        assert(file.next() == inner.next());
        if count < 4 + header.len() {
            let part = header.take(count - 4);
            assert(inner.source.bytes =~= part);
            if part.len() >= 26 {
                assert(part.subrange(22, 24) =~= header.subrange(22, 24));
                assert(part.subrange(24, 26) =~= header.subrange(24, 26));
            }
            law_fh_breaks_off(part, name_len, extra_len);
        } else {
            let part = compressed.take(count - 4 - header.len());
            assert(inner.source.bytes =~= header + part);
            law_fh_read_back(header, part, name_len, extra_len);
            let contents = inner.advanced(header.len(), FileStage::Contents);
            assert(inner.next() == contents.next());
            assert(contents.source.bytes =~= part);
        }
    }
}

/// The view of what the reading of a file comes to is the bytes that the decoder has been given, or
/// the same failure.
pub proof fn law_read_viewed(step: Step<core::result::Result<FileContents, Failure>>)
    ensures
        match step {
            Step::NeedMore => read_view(step) is NeedMore,
            Step::Done(Ok(decoder)) => read_view(step) == Step::<FileRead>::Done(
                Ok(undecoded(decoder)),
            ),
            Step::Done(Err(failure)) => read_view(step) == Step::<FileRead>::Done(Err(failure)),
        },
{
}

} // verus!
