//! What comes of an archive that lies on a server, stated on its bytes.
use vstd::prelude::*;

use crate::central_directory::{
    is_entry, is_gap, laid_out, law_directory_read_in_full, CdView,
};
use crate::eocd::{
    is_record_mark, law_eocd32_found_in_bytes, law_eocd64_found_in_bytes, law_search_begins_fresh,
    EocdFound, EocdView,
};
use crate::error::Step;
use crate::extract::{
    extracted, file_result, headers_of, is_record_of, law_file_extracted, serves, Server,
};
use crate::file::{law_file_read_from_bytes, FileRead, FileView};
use crate::format::{
    is_cdfh, is_deflated_fh, is_eocd32, is_eocd64, is_plausible, is_stand_in, law_cdfh_read_back,
    law_fh_read_back,
};
use crate::lazy::{at_most_one, law_every_file_found, ZipView};
use crate::open::{law_directory_request, law_first_request, ActionView, OpeningView};
use crate::parser::Source;
use crate::range::{
    asks_for, asks_from, from_range, inclusive_range, law_one_range_asked, law_range_asks,
};
use crate::records::{CDFH_SIGNATURE, FH_SIGNATURE};
use crate::structs::{CdfhView, Eocd, Eocd32, Eocd64};

verus! {

/// What a server replies that has an archive: it reads the numbers in the value of the `Range`
/// header, and gives out the bytes from the one to the other, or to the end.
pub open spec fn reply(archive: Seq<u8>, range: Seq<char>) -> Seq<u8> {
    if exists|from: nat, to: nat| #[trigger] asks_for(range, from, to) {
        let (from, to) = choose|from: nat, to: nat| #[trigger] asks_for(range, from, to);
        let end = if to < archive.len() {
            to + 1int
        } else {
            archive.len() as int
        };
        archive.subrange(from as int, end)
    } else if exists|from: nat| #[trigger] asks_from(range, from) {
        archive.skip((choose|from: nat| #[trigger] asks_from(range, from)) as int)
    } else {
        seq![]
    }
}

/// The server that has an archive.
pub open spec fn server_of(archive: Seq<u8>) -> Server {
    |range: Seq<char>| reply(archive, range)
}

/// A server that reads the numbers in the value of the `Range` header gives out the bytes that the
/// request was made for, in every archive.
pub proof fn law_ranges_are_served(archive: Seq<u8>)
    ensures
        serves(server_of(archive), archive),
{
    let server = server_of(archive);
    assert forall|from: nat, to: nat| from <= to < archive.len() implies #[trigger] server(
        inclusive_range(from, to),
    ) == archive.subrange(from as int, to + 1int) by {
        let range = inclusive_range(from, to);
        law_range_asks(from, to);
        let (f, t) = choose|from: nat, to: nat| #[trigger] asks_for(range, from, to);
        law_one_range_asked(range, from, to, f, t);
    }
    assert forall|from: nat| from < archive.len() implies #[trigger] server(from_range(from))
        == archive.skip(from as int) by {
        let range = from_range(from);
        law_range_asks(from, 0);
        assert forall|f: nat, t: nat| !#[trigger] asks_for(range, f, t) by {
            law_one_range_asked(range, f, t, from, 0);
        }
        let f = choose|from: nat| #[trigger] asks_from(range, from);
        law_one_range_asked(range, from, 0, f, 0);
    }
}

/// The values in an end of central directory record, of one kind of zip or the other.
pub enum EndRecord {
    Zip32(Eocd32),
    Zip64(Eocd64),
}

impl EndRecord {
    /// How many bytes the central directory has.
    pub open spec fn cd_size(self) -> int {
        match self {
            EndRecord::Zip32(eocd) => eocd.cd_size as int,
            EndRecord::Zip64(eocd) => eocd.cd_size as int,
        }
    }

    /// Where the central directory begins.
    pub open spec fn cd_offset(self) -> int {
        match self {
            EndRecord::Zip32(eocd) => eocd.cd_offset as int,
            EndRecord::Zip64(eocd) => eocd.cd_offset as int,
        }
    }

    /// Where the signature of the record ends.
    pub open spec fn offset(self) -> usize {
        match self {
            EndRecord::Zip32(eocd) => eocd.offset,
            EndRecord::Zip64(eocd) => eocd.offset,
        }
    }

    /// The record in the form that both kinds share.
    pub open spec fn eocd(self) -> Eocd {
        match self {
            EndRecord::Zip32(eocd) => eocd.widened(),
            EndRecord::Zip64(eocd) => eocd.widened(),
        }
    }
}

/// Whether the bytes of an archive from `at` on begin with a record that is written with these
/// values.
pub open spec fn is_written_at(
    archive: Seq<u8>,
    at: int,
    record: EndRecord,
    written: Seq<u8>,
    rest: Seq<u8>,
    comment_len: u16,
) -> bool {
    &&& 0 <= at && at + 4 <= archive.len()
    &&& record.offset() == at + 3
    &&& match record {
        EndRecord::Zip32(eocd) => {
            &&& archive.skip(at) == seq![0x50u8, 0x4bu8, 5u8, 6u8] + written + rest
            &&& is_eocd32(written, eocd, comment_len)
            &&& is_plausible(eocd, archive.len() as usize)
            &&& !is_stand_in(eocd)
        },
        EndRecord::Zip64(eocd) => {
            &&& archive.skip(at) == seq![0x50u8, 0x4bu8, 6u8, 6u8] + written + rest
            &&& is_eocd64(written, eocd)
            &&& written[8] <= 63 && written[10] <= 63
        },
    }
}

/// Whether a record is the first that is marked in the last 256 bytes of an archive.
pub open spec fn is_first_mark(archive: Seq<u8>, at: int) -> bool {
    &&& archive.len() - 256 <= at
    &&& forall|i: int|
        archive.len() - 256 <= i < at ==> !is_record_mark(#[trigger] archive.subrange(i, i + 4))
}

/// The record that is written in the last bytes of an archive is found there, and the central
/// directory is asked for from where the record says that it begins to as many bytes behind it as
/// the record says that it has.
pub proof fn law_directory_asked_for(
    archive: Seq<u8>,
    at: int,
    record: EndRecord,
    written: Seq<u8>,
    rest: Seq<u8>,
    comment_len: u16,
)
    requires
        256 <= archive.len() <= usize::MAX,
        is_written_at(archive, at, record, written, rest, comment_len),
        is_first_mark(archive, at),
        record.cd_offset() + record.cd_size() <= u64::MAX,
    ensures
        is_record_of(archive, record.eocd()),
        ({
            let filesize = archive.len() as usize;
            &&& OpeningView::sized(filesize).1 matches ActionView::Request(first)
            &&& reply(archive, first) == archive.skip(archive.len() - 256)
            &&& OpeningView::sized(filesize).0 matches OpeningView::Eocd(search)
            &&& OpeningView::searched(
                search.extended(reply(archive, first), true),
            ).1 matches ActionView::Return(Ok(directory))
            &&& asks_for(
                directory.range,
                record.cd_offset() as nat,
                (record.cd_offset() + record.cd_size()) as nat,
            )
            &&& directory.cd.source == (Source { bytes: seq![], ended: false })
            &&& directory.cd.maximum_allowed_offset == at + 3
            &&& directory.cd.is_idle()
        }),
{
    let filesize = archive.len() as usize;
    let from = archive.len() - 256;
    let last = archive.skip(from);
    let search = EocdView::begun(filesize).extended(last, true);
    law_first_request(filesize);
    law_ranges_are_served(archive);
    let first = OpeningView::sized(filesize).1->Request_0;
    assert(reply(archive, first) =~= last) by {
        let (f, t) = choose|from: nat, to: nat| #[trigger] asks_for(first, from, to);
        law_one_range_asked(first, (filesize - 256) as nat, (filesize - 1) as nat, f, t);
    }
    lemma_record_in_last_bytes(archive, at, record, written, rest, comment_len);
    law_directory_request(search, record.eocd());
}

/// The search in the last bytes of an archive comes to the record that is written there.
proof fn lemma_record_in_last_bytes(
    archive: Seq<u8>,
    at: int,
    record: EndRecord,
    written: Seq<u8>,
    rest: Seq<u8>,
    comment_len: u16,
)
    requires
        256 <= archive.len() <= usize::MAX,
        is_written_at(archive, at, record, written, rest, comment_len),
        is_first_mark(archive, at),
    ensures
        EocdView::begun(archive.len() as usize).extended(
            archive.skip(archive.len() - 256),
            true,
        ).next().0 == Step::<EocdFound>::Done(Ok(Some(record.eocd()))),
{
    let filesize = archive.len() as usize;
    let from = archive.len() - 256;
    let last = archive.skip(from);
    let search = EocdView::begun(filesize).extended(last, true);
    law_search_begins_fresh(filesize, last, true);
    assert forall|i: int| 0 <= i < at - from implies !is_record_mark(
        #[trigger] search.source.bytes.subrange(i, i + 4),
    ) by {
        assert(last.subrange(i, i + 4) =~= archive.subrange(from + i, from + i + 4));
    }
    assert(last.skip(at - from) =~= archive.skip(at));
    match record {
        EndRecord::Zip32(eocd) => {
            law_eocd32_found_in_bytes(search, at - from, written, rest, eocd, comment_len);
        },
        EndRecord::Zip64(eocd) => {
            law_eocd64_found_in_bytes(search, at - from, written, rest, eocd);
        },
    }
}

/// Whether bytes are the signature of a central directory file header and a header that is written
/// with these values, of a file that begins no later than at `maximum_allowed_offset`.
pub open spec fn is_written_entry(
    bytes: Seq<u8>,
    cdfh: CdfhView,
    maximum_allowed_offset: usize,
) -> bool {
    &&& bytes.len() >= 4
    &&& bytes.take(4) == seq![0x50u8, 0x4bu8, 1u8, 2u8]
    &&& is_cdfh(bytes.skip(4), cdfh)
    &&& bytes[4] <= 63 && bytes[6] <= 63
    &&& cdfh.file_header_offset <= maximum_allowed_offset
}

/// A central directory in which headers are written, with bytes before, between and behind them that
/// hold no signature, is read in full: the headers have the values that are written in them.
pub proof fn law_written_directory_read(
    gaps: Seq<Seq<u8>>,
    entries: Seq<Seq<u8>>,
    cdfhs: Seq<CdfhView>,
    trailer: Seq<u8>,
    maximum_allowed_offset: usize,
)
    requires
        gaps.len() == entries.len(),
        entries.len() == cdfhs.len(),
        forall|i: int| 0 <= i < gaps.len() ==> is_gap(#[trigger] gaps[i]),
        forall|i: int|
            0 <= i < entries.len() ==> is_written_entry(
                #[trigger] entries[i],
                cdfhs[i],
                maximum_allowed_offset,
            ),
        is_gap(trailer),
    ensures
        CdView::whole(laid_out(gaps, entries) + trailer, maximum_allowed_offset).headers()
            == cdfhs,
{
    assert(CDFH_SIGNATURE@ =~= seq![0x50u8, 0x4bu8, 1u8, 2u8]);
    assert forall|i: int| 0 <= i < entries.len() implies is_entry(
        #[trigger] entries[i],
        maximum_allowed_offset,
        cdfhs[i],
    ) by {
        let header = entries[i].skip(4);
        assert(is_written_entry(entries[i], cdfhs[i], maximum_allowed_offset));
        assert(header[0] == entries[i][4] && header[2] == entries[i][6]);
        law_cdfh_read_back(header, seq![], cdfhs[i], maximum_allowed_offset);
        assert(header + Seq::<u8>::empty() =~= header);
    }
    law_directory_read_in_full(gaps, entries, cdfhs, trailer, maximum_allowed_offset);
}

/// Whether a file is written in an archive where its header in the central directory says: the
/// signature of a file header, the header of a file that was compressed with DEFLATE, and the
/// compressed contents.
pub open spec fn is_written_file(
    archive: Seq<u8>,
    cdfh: CdfhView,
    header: Seq<u8>,
    name_len: u16,
    extra_len: u16,
    compressed: Seq<u8>,
    rest: Seq<u8>,
) -> bool {
    &&& cdfh.file_header_offset < archive.len()
    &&& archive.skip(cdfh.file_header_offset as int) == seq![0x50u8, 0x4bu8, 3u8, 4u8] + header
        + compressed + rest
    &&& is_deflated_fh(header, name_len, extra_len)
    &&& compressed.len() == cdfh.compressed_size
}

/// A file of an archive comes out of it. Where the last 256 bytes of the archive hold an end of
/// central directory record, the central directory to which it points holds headers, and the first
/// header with a name points to a file that was compressed with DEFLATE, the extraction of that name
/// comes to the compressed contents of that file. All of this is stated on the bytes of the archive.
pub proof fn law_archive_extracted(
    archive: Seq<u8>,
    at: int,
    record: EndRecord,
    written: Seq<u8>,
    after_record: Seq<u8>,
    comment_len: u16,
    gaps: Seq<Seq<u8>>,
    entries: Seq<Seq<u8>>,
    cdfhs: Seq<CdfhView>,
    trailer: Seq<u8>,
    index: int,
    header: Seq<u8>,
    name_len: u16,
    extra_len: u16,
    compressed: Seq<u8>,
    rest: Seq<u8>,
)
    requires
        256 <= archive.len() <= usize::MAX,
        is_written_at(archive, at, record, written, after_record, comment_len),
        is_first_mark(archive, at),
        record.cd_offset() + record.cd_size() < archive.len(),
        archive.subrange(record.cd_offset(), record.cd_offset() + record.cd_size() + 1)
            == laid_out(gaps, entries) + trailer,
        gaps.len() == entries.len(),
        entries.len() == cdfhs.len(),
        forall|i: int| 0 <= i < gaps.len() ==> is_gap(#[trigger] gaps[i]),
        forall|i: int|
            0 <= i < entries.len() ==> is_written_entry(
                #[trigger] entries[i],
                cdfhs[i],
                record.offset(),
            ),
        is_gap(trailer),
        0 <= index < cdfhs.len(),
        forall|i: int|
            0 <= i < index ==> (#[trigger] cdfhs[i]).filename != cdfhs[index].filename,
        is_written_file(archive, cdfhs[index], header, name_len, extra_len, compressed, rest),
    ensures
        extracted(archive.len() as usize, cdfhs[index].filename, server_of(archive))
            == FileRead::Ok(compressed),
{
    let eocd = record.eocd();
    lemma_record_in_last_bytes(archive, at, record, written, after_record, comment_len);
    law_written_directory_read(gaps, entries, cdfhs, trailer, record.offset());
    assert(headers_of(archive, eocd) == cdfhs);
    law_ranges_are_served(archive);
    law_fh_read_back(header, seq![], name_len, extra_len);
    assert(header + Seq::<u8>::empty() =~= header);
    assert(FH_SIGNATURE@ =~= seq![0x50u8, 0x4bu8, 3u8, 4u8]);
    law_file_extracted(archive, server_of(archive), eocd, index, header, compressed, rest);
}

/// A file of an archive comes out of it however many files have been looked for before, and in
/// whatever order: where no other header has its name, the header that is found is its own, and what
/// is read in the reply to the request for it is its compressed contents.
pub proof fn law_archive_extracted_lazily(
    archive: Seq<u8>,
    zip: ZipView,
    to_come: Seq<u8>,
    cdfhs: Seq<CdfhView>,
    index: int,
    header: Seq<u8>,
    name_len: u16,
    extra_len: u16,
    compressed: Seq<u8>,
    rest: Seq<u8>,
)
    requires
        zip.completed(to_come).holds(cdfhs),
        0 <= index < cdfhs.len(),
        at_most_one(cdfhs, cdfhs[index].filename),
        is_written_file(archive, cdfhs[index], header, name_len, extra_len, compressed, rest),
    ensures
        match zip.lookup(cdfhs[index].filename).0 {
            Step::NeedMore => !zip.cd.source.ended,
            Step::Done(Some(cdfh)) => {
                &&& cdfh == cdfhs[index]
                &&& asks_from(
                    from_range(cdfh.file_header_offset as nat),
                    cdfhs[index].file_header_offset as nat,
                )
                &&& file_result(
                    FileView::begun(cdfh.compressed_size as usize).extended(
                        reply(archive, from_range(cdfh.file_header_offset as nat)),
                        true,
                    ),
                ) == FileRead::Ok(compressed)
            },
            Step::Done(None) => false,
        },
{
    let filename = cdfhs[index].filename;
    law_every_file_found(zip, to_come, cdfhs, filename);
    assert(cdfhs[index].filename == filename);
    law_ranges_are_served(archive);
    law_range_asks(cdfhs[index].file_header_offset as nat, 0);
    assert(server_of(archive)(from_range(cdfhs[index].file_header_offset as nat)) == archive.skip(
        cdfhs[index].file_header_offset as int,
    ));
    law_file_read_from_bytes(header, name_len, extra_len, compressed, rest, true);
}

} // verus!
