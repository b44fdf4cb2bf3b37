//! Extracting a single file.
use bytes::Bytes;
use reqwest::header::HeaderValue;
use vstd::prelude::*;

use crate::central_directory::{
    find_cdfh, is_entry, is_gap, laid_out, law_directory_read_in_full, law_find_in_chunks,
    law_find_is_first, CdParser, CdView,
};
use crate::content_length::is_length;
use crate::eocd::{
    is_eocd_signature, law_eocd32_found, law_eocd64_found, law_eocd_in_chunks,
    law_no_eocd_without_signature, lemma_eocd_ends, EocdFound, EocdView, CHUNK_SIZE,
};
use crate::error::{Abort, Error, Failure, Result, Step};
use crate::file::{
    law_file_in_chunks, law_file_read_in_full, lemma_file_ends, read_file_at_cdfh, FileContents,
    FileRead, FileReader, FileView,
};
use crate::open::{
    cd_in_range, directory_of, open_action_view, open_awaits, Action, ActionView, Directory,
    DirectoryView, Opening, OpeningView,
};
use crate::outside::undecoded;
use crate::parser::chunk_bytes;
use crate::range::{from_range, inclusive_range};
use crate::records::{
    eocd32_outcome, eocd64_outcome, fh_outcome, MaybeEocd32, MaybeFh, Outcome, EOCD32_SIGNATURE,
    EOCD64_SIGNATURE, FH_SIGNATURE,
};
use crate::structs::{CdfhView, Eocd};

verus! {

/// What the caller has to do next to extract a file, with the compressed bytes in place of the
/// decoder that has been given them.
pub open spec fn action_view(action: Action<FileContents>) -> ActionView<Seq<u8>> {
    match action {
        Action::RequestLength => ActionView::RequestLength,
        Action::Request(range) => ActionView::Request(range@),
        Action::NextChunk => ActionView::NextChunk,
        Action::Return(Ok(decoder)) => ActionView::Return(Ok(undecoded(decoder))),
        Action::Return(Err(failure)) => ActionView::Return(Err(failure)),
    }
}

/// How far the extraction of a file has come.
pub enum ExtractionView {
    /// The archive is being opened.
    Opening(OpeningView),
    /// The file is being looked for in the central directory.
    Cd(CdView),
    /// The file is being read.
    File(FileView),
    /// It is over.
    Finished,
}

impl ExtractionView {
    /// What comes after a step in the opening of the archive.
    pub open spec fn opened(opening: (OpeningView, ActionView<DirectoryView>)) -> (
        ExtractionView,
        ActionView<Seq<u8>>,
    ) {
        let here = ExtractionView::Opening(opening.0);
        match opening.1 {
            ActionView::RequestLength => (here, ActionView::RequestLength),
            ActionView::Request(range) => (here, ActionView::Request(range)),
            ActionView::NextChunk => (here, ActionView::NextChunk),
            ActionView::Return(Ok(directory)) => (
                ExtractionView::Cd(directory.cd),
                ActionView::Request(directory.range),
            ),
            ActionView::Return(Err(failure)) => (
                ExtractionView::Finished,
                ActionView::Return(Err(failure)),
            ),
        }
    }

    /// What comes after the file has been looked for.
    pub open spec fn found(search: (Step<Option<CdfhView>>, CdView)) -> (
        ExtractionView,
        ActionView<Seq<u8>>,
    ) {
        match search {
            (Step::NeedMore, after) => (ExtractionView::Cd(after), ActionView::NextChunk),
            (Step::Done(Some(cdfh)), _) => (
                ExtractionView::File(FileView::begun(cdfh.compressed_size as usize)),
                ActionView::Request(from_range(cdfh.file_header_offset as nat)),
            ),
            (Step::Done(None), _) => (
                ExtractionView::Finished,
                ActionView::Return(Err(Failure::Error(Error::CdFileNotFound))),
            ),
        }
    }

    /// What comes after the file has been read.
    pub open spec fn read(read: (Step<FileRead>, FileView)) -> (
        ExtractionView,
        ActionView<Seq<u8>>,
    ) {
        match read {
            (Step::NeedMore, after) => (ExtractionView::File(after), ActionView::NextChunk),
            (Step::Done(result), _) => (ExtractionView::Finished, ActionView::Return(result)),
        }
    }

    /// Whether the `content-length` header of a reply is awaited.
    pub open spec fn awaits_length(self) -> bool {
        self matches ExtractionView::Opening(OpeningView::Length)
    }

    /// Whether a chunk of a reply is awaited.
    pub open spec fn awaits_chunk(self) -> bool {
        match self {
            ExtractionView::Opening(opening) => opening is Eocd,
            ExtractionView::Cd(_) => true,
            ExtractionView::File(_) => true,
            ExtractionView::Finished => false,
        }
    }

    /// What comes after the next chunk of a reply, or after the reply has ended.
    pub open spec fn step(self, filename: Seq<char>, next: Option<Seq<u8>>) -> (
        ExtractionView,
        ActionView<Seq<u8>>,
    )
        recommends
            self.awaits_chunk(),
    {
        match self {
            ExtractionView::Opening(opening) => ExtractionView::opened(
                OpeningView::searched(
                    EocdView {
                        source: opening->Eocd_0.source.supplied(next),
                        ..opening->Eocd_0
                    },
                ),
            ),
            ExtractionView::Cd(cd) => ExtractionView::found(
                CdView { source: cd.source.supplied(next), ..cd }.find(filename),
            ),
            ExtractionView::File(file) => ExtractionView::read(
                FileView { source: file.source.supplied(next), ..file }.next(),
            ),
            ExtractionView::Finished => (self, ActionView::NextChunk),
        }
    }
}

/// Whether an extraction awaits what the caller has to do next.
pub open spec fn awaits(extraction: ExtractionView, action: Action<FileContents>) -> bool {
    match action {
        Action::RequestLength => extraction.awaits_length(),
        Action::Request(_) => extraction.awaits_chunk(),
        Action::NextChunk => extraction.awaits_chunk(),
        Action::Return(_) => extraction is Finished,
    }
}

enum Stage {
    Opening(Opening),
    Cd(CdParser),
    File(FileReader),
    Finished,
}

/// A file that is being extracted.
pub struct Extraction {
    filename: String,
    stage: Stage,
}

impl View for Extraction {
    type V = ExtractionView;

    closed spec fn view(&self) -> ExtractionView {
        match self.stage {
            Stage::Opening(opening) => ExtractionView::Opening(opening@),
            Stage::Cd(cd) => ExtractionView::Cd(cd@),
            Stage::File(file) => ExtractionView::File(file@),
            Stage::Finished => ExtractionView::Finished,
        }
    }
}

/// Extract a single file from a zip.
/// If you plan to extract multiple files from the same zip use `LazyZipFile` instead.
pub fn extract_file(filesize: Option<usize>, filename: &str) -> (extraction: (
    Extraction,
    Action<FileContents>,
))
    ensures
        extraction.0.filename() == filename@,
        awaits(extraction.0@, extraction.1),
        (extraction.0@, action_view(extraction.1)) == ExtractionView::opened(
            match filesize {
                Some(filesize) => OpeningView::sized(filesize),
                None => (OpeningView::Length, ActionView::RequestLength),
            },
        ),
{
    let (opening, action) = Opening::new(filesize);
    let mut extraction = Extraction {
        filename: filename.to_owned(),
        stage: Stage::Opening(opening),
    };
    let action = extraction.opened(action);
    (extraction, action)
}

impl Extraction {
    /// The name of the file.
    pub closed spec fn filename(self) -> Seq<char> {
        self.filename@
    }

    /// Goes on after a step in the opening of the archive.
    fn opened(&mut self, action: Action<Directory>) -> (next: Action<FileContents>)
        requires
            old(self)@ is Opening,
            open_awaits(old(self)@->Opening_0, action),
        ensures
            awaits(final(self)@, next),
            (final(self)@, action_view(next)) == ExtractionView::opened(
                (old(self)@->Opening_0, open_action_view(action)),
            ),
            final(self).filename() == old(self).filename(),
    {
        match action {
            Action::RequestLength => Action::RequestLength,
            Action::Request(range) => Action::Request(range),
            Action::NextChunk => Action::NextChunk,
            Action::Return(Ok(directory)) => {
                self.stage = Stage::Cd(directory.cd);
                Action::Request(directory.range)
            },
            Action::Return(Err(failure)) => {
                self.stage = Stage::Finished;
                Action::Return(Err(failure))
            },
        }
    }

    /// Takes in the `content-length` header of the reply, if it has one.
    pub fn on_length(&mut self, value: Option<&HeaderValue>) -> (action: Action<FileContents>)
        requires
            old(self)@.awaits_length(),
        ensures
            awaits(final(self)@, action),
            final(self).filename() == old(self).filename(),
            exists|length: Result<usize>| #[trigger]
                is_length(value, length) && match length {
                    Ok(filesize) => (final(self)@, action_view(action)) == ExtractionView::opened(
                        OpeningView::sized(filesize),
                    ),
                    Err(error) => {
                        &&& final(self)@ is Finished
                        &&& action == Action::Return(Err::<FileContents, _>(Failure::Error(error)))
                    },
                },
    {
        match &mut self.stage {
            Stage::Opening(opening) => {
                let action = opening.on_length(value);
                self.opened(action)
            },
            _ => Action::RequestLength,
        }
    }

    /// Takes in the next chunk of the reply to the last GET request, or that it has ended.
    pub fn on_chunk(&mut self, next: Option<Bytes>) -> (action: Action<FileContents>)
        requires
            old(self)@.awaits_chunk(),
        ensures
            awaits(final(self)@, action),
            final(self).filename() == old(self).filename(),
            (final(self)@, action_view(action)) == old(self)@.step(
                old(self).filename(),
                chunk_bytes(next),
            ),
    {
        match &mut self.stage {
            Stage::Opening(opening) => {
                let action = opening.on_chunk(next);
                self.opened(action)
            },
            Stage::Cd(cd) => {
                cd.supply(next);
                match find_cdfh(cd, self.filename.as_str()) {
                    Step::NeedMore => Action::NextChunk,
                    Step::Done(Some(cdfh)) => {
                        let (file, range) = read_file_at_cdfh(&cdfh);
                        self.stage = Stage::File(file);
                        Action::Request(range)
                    },
                    Step::Done(None) => {
                        self.stage = Stage::Finished;
                        Action::Return(Err(Failure::Error(Error::CdFileNotFound)))
                    },
                }
            },
            Stage::File(file) => {
                file.supply(next);
                match file.next() {
                    Step::NeedMore => Action::NextChunk,
                    Step::Done(result) => {
                        self.stage = Stage::Finished;
                        Action::Return(result)
                    },
                }
            },
            Stage::Finished => Action::NextChunk,
        }
    }
}

/// How a server replies: the body of the reply to a GET request with a given `Range` header.
pub type Server = spec_fn(Seq<char>) -> Seq<u8>;

/// What comes of a file that has been read to the end of the reply.
pub open spec fn file_result(file: FileView) -> FileRead {
    match file.next().0 {
        Step::Done(result) => result,
        Step::NeedMore => arbitrary(),
    }
}

/// What comes of a file that has been looked for in the whole of the central directory.
pub open spec fn cd_result(cd: CdView, filename: Seq<char>, server: Server) -> FileRead {
    match cd.find(filename).0 {
        Step::Done(Some(cdfh)) => file_result(
            FileView::begun(cdfh.compressed_size as usize).extended(
                server(from_range(cdfh.file_header_offset as nat)),
                true,
            ),
        ),
        Step::Done(None) => Err(Failure::Error(Error::CdFileNotFound)),
        Step::NeedMore => arbitrary(),
    }
}

/// What comes of a file once the end of central directory record has been looked for in the whole
/// of the reply.
pub open spec fn eocd_result(search: EocdView, filename: Seq<char>, server: Server) -> FileRead {
    match search.next().0 {
        Step::Done(Ok(Some(eocd))) => if cd_in_range(eocd) {
            let directory = directory_of(eocd);
            cd_result(directory.cd.extended(server(directory.range), true), filename, server)
        } else {
            Err(Failure::Abort(Abort::Overflow))
        },
        Step::Done(Ok(None)) => Err(Failure::Error(Error::EocdNotFound)),
        Step::Done(Err(failure)) => Err(failure),
        Step::NeedMore => arbitrary(),
    }
}

/// What comes of a file in an archive of a given size on a server.
pub open spec fn extracted(filesize: usize, filename: Seq<char>, server: Server) -> FileRead {
    match ExtractionView::opened(OpeningView::sized(filesize)) {
        (extraction, ActionView::Request(range)) => extraction.result(
            filename,
            server,
            server(range),
        ),
        (_, ActionView::Return(result)) => result,
        _ => arbitrary(),
    }
}

impl ExtractionView {
    /// What comes of the file where `rest` is still to come of the reply to the last request.
    pub open spec fn result(self, filename: Seq<char>, server: Server, rest: Seq<u8>) -> FileRead {
        match self {
            ExtractionView::Opening(opening) => eocd_result(
                opening->Eocd_0.extended(rest, true),
                filename,
                server,
            ),
            ExtractionView::Cd(cd) => cd_result(cd.extended(rest, true), filename, server),
            ExtractionView::File(file) => file_result(file.extended(rest, true)),
            ExtractionView::Finished => arbitrary(),
        }
    }

    /// Whether the reply to the last request has not come to its end.
    pub open spec fn is_open(self) -> bool {
        match self {
            ExtractionView::Opening(opening) => opening is Eocd && !opening->Eocd_0.source.ended,
            ExtractionView::Cd(cd) => !cd.source.ended,
            ExtractionView::File(file) => !file.source.ended,
            ExtractionView::Finished => false,
        }
    }
}

/// Whether an extraction, with the next chunk of a reply or with its end, goes on to what the whole
/// replies come to.
pub open spec fn goes_on(
    extraction: ExtractionView,
    filename: Seq<char>,
    server: Server,
    next: Option<Seq<u8>>,
    rest: Seq<u8>,
) -> bool {
    let to_come = match next {
        Some(chunk) => chunk + rest,
        None => rest,
    };
    let result = extraction.result(filename, server, to_come);
    match extraction.step(filename, next) {
        (after, ActionView::NextChunk) => {
            &&& next is Some
            &&& after.is_open()
            &&& after.result(filename, server, rest) == result
        },
        (after, ActionView::Request(range)) => {
            &&& after.is_open()
            &&& after.result(filename, server, server(range)) == result
        },
        (after, ActionView::Return(returned)) => {
            &&& after is Finished
            &&& returned == result
        },
        (_, ActionView::RequestLength) => false,
    }
}

/// How the replies of the server are cut into chunks makes no difference to an extraction: with
/// each chunk, and with the end of each reply, it goes on to what the whole replies come to.
pub proof fn law_extraction_in_chunks(
    extraction: ExtractionView,
    filename: Seq<char>,
    server: Server,
    next: Option<Seq<u8>>,
    rest: Seq<u8>,
)
    requires
        extraction.is_open(),
        next is None ==> rest.len() == 0,
    ensures
        goes_on(extraction, filename, server, next, rest),
{
    match extraction {
        ExtractionView::Opening(opening) => {
            lemma_eocd_goes_on(opening->Eocd_0, filename, server, next, rest);
        },
        ExtractionView::Cd(cd) => {
            lemma_cd_goes_on(cd, filename, server, next, rest);
        },
        ExtractionView::File(file) => {
            lemma_file_goes_on(file, filename, server, next, rest);
        },
        ExtractionView::Finished => {},
    }
}

/// The search for the end of central directory record goes on to what the whole replies come to.
proof fn lemma_eocd_goes_on(
    search: EocdView,
    filename: Seq<char>,
    server: Server,
    next: Option<Seq<u8>>,
    rest: Seq<u8>,
)
    requires
        !search.source.ended,
        next is None ==> rest.len() == 0,
    ensures
        goes_on(
            ExtractionView::Opening(OpeningView::Eocd(search)),
            filename,
            server,
            next,
            rest,
        ),
{
    let supplied = EocdView { source: search.source.supplied(next), ..search };
    match next {
        Some(chunk) => {
            assert(search.extended(chunk + rest, true) =~= supplied.extended(rest, true));
            law_eocd_in_chunks(supplied, rest, true);
        },
        None => {
            assert(search.extended(rest, true) =~= supplied);
            lemma_eocd_ends(supplied);
        },
    }
}

/// The search in the central directory goes on to what the whole replies come to.
proof fn lemma_cd_goes_on(
    cd: CdView,
    filename: Seq<char>,
    server: Server,
    next: Option<Seq<u8>>,
    rest: Seq<u8>,
)
    requires
        !cd.source.ended,
        next is None ==> rest.len() == 0,
    ensures
        goes_on(ExtractionView::Cd(cd), filename, server, next, rest),
{
    let supplied = CdView { source: cd.source.supplied(next), ..cd };
    match next {
        Some(chunk) => {
            assert(cd.extended(chunk + rest, true) =~= supplied.extended(rest, true));
            law_find_in_chunks(supplied, rest, true, filename);
        },
        None => {
            assert(cd.extended(rest, true) =~= supplied);
            law_find_is_first(supplied, filename);
        },
    }
}

/// The reading of the file goes on to what the whole replies come to.
proof fn lemma_file_goes_on(
    file: FileView,
    filename: Seq<char>,
    server: Server,
    next: Option<Seq<u8>>,
    rest: Seq<u8>,
)
    requires
        !file.source.ended,
        next is None ==> rest.len() == 0,
    ensures
        goes_on(ExtractionView::File(file), filename, server, next, rest),
{
    let supplied = FileView { source: file.source.supplied(next), ..file };
    match next {
        Some(chunk) => {
            assert(file.extended(chunk + rest, true) =~= supplied.extended(rest, true));
            law_file_in_chunks(supplied, rest, true);
        },
        None => {
            assert(file.extended(rest, true) =~= supplied);
            lemma_file_ends(supplied);
        },
    }
}

/// Whether a server gives out the ranges of an archive that it is asked for.
pub open spec fn serves(server: Server, archive: Seq<u8>) -> bool {
    &&& forall|from: nat, to: nat|
        from <= to < archive.len() ==> #[trigger] server(inclusive_range(from, to))
            == archive.subrange(from as int, to + 1int)
    &&& forall|from: nat|
        from < archive.len() ==> #[trigger] server(from_range(from)) == archive.skip(from as int)
}

/// Whether the record `eocd` stands at `at` in the last bytes of an archive, with no signature
/// before its own.
pub open spec fn eocd_stands_at(archive: Seq<u8>, eocd: Eocd, at: int) -> bool {
    let from = archive.len() - CHUNK_SIZE;
    let last = archive.skip(from);
    let offset = (from + at + 3) as usize;
    let record = last.skip(at + 4);
    &&& 0 <= at && at + 4 <= CHUNK_SIZE
    &&& forall|i: int| 0 <= i < at ==> !is_eocd_signature(#[trigger] last.subrange(i, i + 4))
    &&& if last.subrange(at, at + 4) == EOCD32_SIGNATURE@ {
        eocd32_outcome(record, offset, archive.len() as usize) matches Outcome::Read(
            MaybeEocd32::Eocd32(found),
            _,
        ) && eocd == found.widened()
    } else {
        &&& last.subrange(at, at + 4) == EOCD64_SIGNATURE@
        &&& eocd64_outcome(record, offset) matches Outcome::Read(Some(found), _)
        &&& eocd == found.widened()
    }
}

/// Whether `eocd` is the record that the search in the last bytes of an archive comes to.
pub open spec fn is_record_of(archive: Seq<u8>, eocd: Eocd) -> bool {
    let last = archive.skip(archive.len() - CHUNK_SIZE);
    EocdView::begun(archive.len() as usize).extended(last, true).next().0
        == Step::<EocdFound>::Done(Ok(Some(eocd)))
}

/// The headers in the central directory that a record of an archive points to.
pub open spec fn headers_of(archive: Seq<u8>, eocd: Eocd) -> Seq<CdfhView> {
    let end = eocd.cd_offset + eocd.cd_size;
    CdView::whole(archive.subrange(eocd.cd_offset as int, end + 1), eocd.offset).headers()
}

/// The replies to the first two requests come to the record of the archive, and to a search for the
/// file in its headers.
proof fn lemma_replies(archive: Seq<u8>, server: Server, eocd: Eocd, filename: Seq<char>)
    requires
        serves(server, archive),
        CHUNK_SIZE <= archive.len() <= usize::MAX,
        is_record_of(archive, eocd),
        eocd.cd_offset + eocd.cd_size < archive.len(),
    ensures
        ({
            let directory = directory_of(eocd);
            let cd = directory.cd.extended(server(directory.range), true);
            &&& extracted(archive.len() as usize, filename, server) == cd_result(
                cd,
                filename,
                server,
            )
            &&& cd.headers() == headers_of(archive, eocd)
            &&& cd.source.ended
        }),
{
    let filesize = archive.len() as usize;
    let range = inclusive_range((filesize - CHUNK_SIZE) as nat, (filesize - 1) as nat);
    assert(server(range) =~= archive.skip(archive.len() - CHUNK_SIZE));
    let directory = directory_of(eocd);
    let end = eocd.cd_offset + eocd.cd_size;
    let reply = server(directory.range);
    assert(reply =~= archive.subrange(eocd.cd_offset as int, end + 1));
    assert(directory.cd.extended(reply, true) =~= CdView::whole(reply, eocd.offset));
}

/// A file of an archive is extracted: where the first of the headers with the name in question
/// points to a file that was compressed with DEFLATE, the compressed contents of that file are what
/// the extraction comes to.
pub proof fn law_file_extracted(
    archive: Seq<u8>,
    server: Server,
    eocd: Eocd,
    index: int,
    header: Seq<u8>,
    compressed: Seq<u8>,
    rest: Seq<u8>,
)
    requires
        serves(server, archive),
        CHUNK_SIZE <= archive.len() <= usize::MAX,
        is_record_of(archive, eocd),
        eocd.cd_offset + eocd.cd_size < archive.len(),
        0 <= index < headers_of(archive, eocd).len(),
        forall|i: int|
            0 <= i < index ==> (#[trigger] headers_of(archive, eocd)[i]).filename != headers_of(
                archive,
                eocd,
            )[index].filename,
        headers_of(archive, eocd)[index].file_header_offset < archive.len(),
        archive.skip(headers_of(archive, eocd)[index].file_header_offset as int) == FH_SIGNATURE@
            + header + compressed + rest,
        fh_outcome(header) == Outcome::Read(MaybeFh::Deflated, header.len()),
        compressed.len() == headers_of(archive, eocd)[index].compressed_size,
    ensures
        extracted(archive.len() as usize, headers_of(archive, eocd)[index].filename, server)
            == FileRead::Ok(compressed),
{
    let cdfhs = headers_of(archive, eocd);
    let filename = cdfhs[index].filename;
    lemma_replies(archive, server, eocd, filename);
    let directory = directory_of(eocd);
    let cd = directory.cd.extended(server(directory.range), true);
    law_find_is_first(cd, filename);
    assert(cd.headers()[index].filename == filename);
    let found = cd.find(filename).0->Done_0->Some_0;
    assert(found == cdfhs[index]);
    law_file_read_in_full(header, compressed, rest, true);
}

/// A file that no header of the archive names is not found.
pub proof fn law_missing_file_not_found(
    archive: Seq<u8>,
    server: Server,
    eocd: Eocd,
    filename: Seq<char>,
)
    requires
        serves(server, archive),
        CHUNK_SIZE <= archive.len() <= usize::MAX,
        is_record_of(archive, eocd),
        eocd.cd_offset + eocd.cd_size < archive.len(),
        forall|i: int|
            0 <= i < headers_of(archive, eocd).len() ==> (#[trigger] headers_of(
                archive,
                eocd,
            )[i]).filename != filename,
    ensures
        extracted(archive.len() as usize, filename, server) == FileRead::Err(
            Failure::Error(Error::CdFileNotFound),
        ),
{
    lemma_replies(archive, server, eocd, filename);
    let directory = directory_of(eocd);
    law_find_is_first(directory.cd.extended(server(directory.range), true), filename);
}

/// Nothing is extracted from an archive whose last bytes hold no signature of a record.
pub proof fn law_no_record_not_found(archive: Seq<u8>, server: Server, filename: Seq<char>)
    requires
        serves(server, archive),
        CHUNK_SIZE <= archive.len() <= usize::MAX,
        forall|i: int|
            archive.len() - CHUNK_SIZE <= i <= archive.len() - 4 ==> !is_eocd_signature(
                #[trigger] archive.subrange(i, i + 4),
            ),
    ensures
        extracted(archive.len() as usize, filename, server) == FileRead::Err(
            Failure::Error(Error::EocdNotFound),
        ),
{
    let filesize = archive.len() as usize;
    let last = archive.skip(archive.len() - CHUNK_SIZE);
    let range = inclusive_range((filesize - CHUNK_SIZE) as nat, (filesize - 1) as nat);
    assert(server(range) =~= last);
    lemma_no_record(archive);
    assert(EocdView::begun(filesize).extended(last, true).next().0 == Step::<EocdFound>::Done(
        Ok(None),
    ));
}

/// The search in the last bytes of an archive comes to nothing where they hold no signature.
proof fn lemma_no_record(archive: Seq<u8>)
    requires
        CHUNK_SIZE <= archive.len() <= usize::MAX,
        forall|i: int|
            archive.len() - CHUNK_SIZE <= i <= archive.len() - 4 ==> !is_eocd_signature(
                #[trigger] archive.subrange(i, i + 4),
            ),
    ensures
        EocdView::begun(archive.len() as usize).extended(
            archive.skip(archive.len() - CHUNK_SIZE),
            true,
        ).next().0 == Step::<EocdFound>::Done(Ok(None)),
{
    let from = archive.len() - CHUNK_SIZE;
    let last = archive.skip(from);
    assert forall|i: int| 0 <= i <= last.len() - 4 implies !is_eocd_signature(
        #[trigger] last.subrange(i, i + 4),
    ) by {
        assert(last.subrange(i, i + 4) =~= archive.subrange(from + i, from + i + 4));
    }
    law_no_eocd_without_signature(archive.len() as usize, last);
}

/// Where the record `eocd` stands in the last bytes of an archive, with no signature before its
/// own, it is the record of the archive. Where it points to a central directory that, with the byte
/// behind it, is made of entries and of bytes before, between and behind them that hold no
/// signature, the headers in those entries are the headers of the archive.
pub proof fn law_headers_of_archive(
    archive: Seq<u8>,
    eocd: Eocd,
    at: int,
    gaps: Seq<Seq<u8>>,
    entries: Seq<Seq<u8>>,
    cdfhs: Seq<CdfhView>,
    trailer: Seq<u8>,
)
    requires
        CHUNK_SIZE <= archive.len() <= usize::MAX,
        eocd_stands_at(archive, eocd, at),
        eocd.cd_offset + eocd.cd_size < archive.len(),
        archive.subrange(eocd.cd_offset as int, eocd.cd_offset + eocd.cd_size + 1) == laid_out(
            gaps,
            entries,
        ) + trailer,
        gaps.len() == entries.len(),
        entries.len() == cdfhs.len(),
        forall|i: int| 0 <= i < gaps.len() ==> is_gap(#[trigger] gaps[i]),
        forall|i: int|
            0 <= i < entries.len() ==> is_entry(#[trigger] entries[i], eocd.offset, cdfhs[i]),
        is_gap(trailer),
    ensures
        is_record_of(archive, eocd),
        headers_of(archive, eocd) == cdfhs,
{
    lemma_record_stands(archive, eocd, at);
    law_directory_read_in_full(gaps, entries, cdfhs, trailer, eocd.offset);
}

/// A record with no signature before its own is the one that the search comes to.
proof fn lemma_record_stands(archive: Seq<u8>, eocd: Eocd, at: int)
    requires
        CHUNK_SIZE <= archive.len() <= usize::MAX,
        eocd_stands_at(archive, eocd, at),
    ensures
        is_record_of(archive, eocd),
{
    let filesize = archive.len() as usize;
    let from = archive.len() - CHUNK_SIZE;
    let last = archive.skip(from);
    let offset = (from + at + 3) as usize;
    let record = last.skip(at + 4);
    if last.subrange(at, at + 4) == EOCD32_SIGNATURE@ {
        match eocd32_outcome(record, offset, filesize) {
            Outcome::Read(MaybeEocd32::Eocd32(found), len) => {
                law_eocd32_found(filesize, last, true, at, found, len);
            },
            _ => {},
        }
    } else {
        match eocd64_outcome(record, offset) {
            Outcome::Read(Some(found), len) => {
                law_eocd64_found(filesize, last, true, at, found, len);
            },
            _ => {},
        }
    }
}

impl ExtractionView {
    /// How many requests can still come.
    pub open spec fn requests_left(self) -> int {
        match self {
            ExtractionView::Opening(_) => 2,
            ExtractionView::Cd(_) => 1,
            ExtractionView::File(_) => 0,
            ExtractionView::Finished => 0,
        }
    }
}

/// An extraction comes to an end: each request leaves fewer that can still come, and between them
/// only the next chunk of the reply is asked for.
pub proof fn law_requests_come_to_an_end(
    extraction: ExtractionView,
    filename: Seq<char>,
    next: Option<Seq<u8>>,
)
    requires
        extraction.is_open(),
    ensures
        match extraction.step(filename, next) {
            (after, ActionView::Request(_)) => 0 <= after.requests_left()
                < extraction.requests_left(),
            (after, ActionView::NextChunk) => after.requests_left() == extraction.requests_left(),
            (after, ActionView::Return(_)) => after is Finished,
            (_, ActionView::RequestLength) => false,
        },
{
}

/// The view of what the caller has to do next is the same thing to do, with the bytes that the
/// decoder has been given.
pub proof fn law_action_viewed(action: Action<FileContents>)
    ensures
        match action {
            Action::RequestLength => action_view(action) is RequestLength,
            Action::Request(range) => action_view(action) == ActionView::<Seq<u8>>::Request(
                range@,
            ),
            Action::NextChunk => action_view(action) is NextChunk,
            Action::Return(Ok(decoder)) => action_view(action) == ActionView::<Seq<u8>>::Return(
                Ok(undecoded(decoder)),
            ),
            Action::Return(Err(failure)) => action_view(action) == ActionView::<
                Seq<u8>,
            >::Return(Err(failure)),
        },
{
}

} // verus!
