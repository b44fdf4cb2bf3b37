//! The layout of the records of a zip archive, and how they are read from a stream.
//!
//! A record is found by its signature. Bytes that are not a record can look like a signature, so
//! a reader checks what follows, and tells a record from a false positive.
use bytes::Bytes;
use vstd::prelude::*;
use vstd::slice::slice_to_vec;
use vstd::utf8::{decode_utf8, valid_utf8};

use crate::outside::contents;
use crate::parser::{le_u16, le_u32, le_u64, Parser, Shortage, Source};
use crate::structs::{Cdfh, CdfhView, CompressionMethod, Eocd32, Eocd64};

verus! {

/// What bytes say of the record that they begin with.
pub enum Outcome<T> {
    /// They break off in the field that begins here, before the record is decided.
    Short(nat),
    /// They say this, with so many bytes read.
    Read(T, nat),
}

impl Source {
    /// What is left of a stream in which a record breaks off, in the field that begins at `at`.
    /// Where the stream has ended, the fields before that one are gone; where it has not, nothing
    /// is, and the record is read again when more of it has come.
    pub open spec fn cut(self, at: nat) -> Source {
        if self.ended {
            self.advance(at)
        } else {
            self
        }
    }
}

/// What a central directory file header begins with.
pub const CDFH_SIGNATURE: [u8; 4] = [0x50, 0x4b, 0x01, 0x02];

/// What a file header begins with.
pub const FH_SIGNATURE: [u8; 4] = [0x50, 0x4b, 0x03, 0x04];

/// What an end of central directory record of a classic 32-bit zip begins with.
pub const EOCD32_SIGNATURE: [u8; 4] = [0x50, 0x4b, 0x05, 0x06];

/// What an end of central directory record of a Zip64 begins with.
pub const EOCD64_SIGNATURE: [u8; 4] = [0x50, 0x4b, 0x06, 0x06];

/// Whether four bytes are a signature.
pub fn is_signature(bytes: &[u8; 4], signature: &[u8; 4]) -> (same: bool)
    ensures
        same == (bytes@ == signature@),
{
    let same = bytes[0] == signature[0] && bytes[1] == signature[1] && bytes[2] == signature[2]
        && bytes[3] == signature[3];
    assert(same ==> bytes@ =~= signature@);
    same
}

/// Whether a version field holds a version there can be. The version is stored in the low 8 bits
/// of the field; the largest one is 63.
pub open spec fn known_version(field: u16) -> bool {
    field % 0x100 <= 63
}

/// Whether a version field holds a version there can be.
fn is_known_version(field: u16) -> (known: bool)
    ensures
        known == known_version(field),
{
    assert(field & 0xff == field % 0x100) by (bit_vector);
    field & 0xff <= 63
}

/// Takes the 2-byte field at `at` of a record that begins where `start` does.
fn field_u16(r: &mut Parser, Ghost(start): Ghost<Source>, Ghost(at): Ghost<nat>) -> (field: Result<
    u16,
    Shortage,
>)
    requires
        old(r)@ == start.advance(at),
        at <= start.bytes.len(),
    ensures
        at + 2 <= start.bytes.len() ==> field == Ok::<_, Shortage>(le_u16(start.bytes, at as int))
            && final(r)@ == start.advance(at + 2),
        at + 2 > start.bytes.len() ==> field == Err::<u16, _>(start.shortage()) && final(r)@
            == start.advance(at),
{
    let field = r.take_u16();
    assert(r@ =~= start.advance(if field is Ok { at + 2 } else { at }));
    field
}

/// Takes the 4-byte field at `at` of a record that begins where `start` does.
fn field_u32(r: &mut Parser, Ghost(start): Ghost<Source>, Ghost(at): Ghost<nat>) -> (field: Result<
    u32,
    Shortage,
>)
    requires
        old(r)@ == start.advance(at),
        at <= start.bytes.len(),
    ensures
        at + 4 <= start.bytes.len() ==> field == Ok::<_, Shortage>(le_u32(start.bytes, at as int))
            && final(r)@ == start.advance(at + 4),
        at + 4 > start.bytes.len() ==> field == Err::<u32, _>(start.shortage()) && final(r)@
            == start.advance(at),
{
    let field = r.take_u32();
    assert(r@ =~= start.advance(if field is Ok { at + 4 } else { at }));
    field
}

/// Takes the 8-byte field at `at` of a record that begins where `start` does.
fn field_u64(r: &mut Parser, Ghost(start): Ghost<Source>, Ghost(at): Ghost<nat>) -> (field: Result<
    u64,
    Shortage,
>)
    requires
        old(r)@ == start.advance(at),
        at <= start.bytes.len(),
    ensures
        at + 8 <= start.bytes.len() ==> field == Ok::<_, Shortage>(le_u64(start.bytes, at as int))
            && final(r)@ == start.advance(at + 8),
        at + 8 > start.bytes.len() ==> field == Err::<u64, _>(start.shortage()) && final(r)@
            == start.advance(at),
{
    let field = r.take_u64();
    assert(r@ =~= start.advance(if field is Ok { at + 8 } else { at }));
    field
}

/// Takes the bytes at `at` of a record that begins where `start` does.
fn field_bytes(
    r: &mut Parser,
    length: usize,
    Ghost(start): Ghost<Source>,
    Ghost(at): Ghost<nat>,
) -> (field: Result<Bytes, Shortage>)
    requires
        old(r)@ == start.advance(at),
        at <= start.bytes.len(),
    ensures
        at + length <= start.bytes.len() ==> {
            &&& field is Ok
            &&& contents(field->Ok_0) == start.bytes.subrange(at as int, at + length)
            &&& final(r)@ == start.advance(at + length as nat)
        },
        at + length > start.bytes.len() ==> field == Err::<Bytes, _>(start.shortage()) && final(r)@
            == start.advance(at),
{
    let field = r.take_bytes(length);
    proof {
        assert(r@ =~= start.advance(if field is Ok { at + length as nat } else { at }));
        if field is Ok {
            assert(contents(field->Ok_0) =~= start.bytes.subrange(at as int, at + length));
        }
    }
    field
}

/// Skips the bytes at `at` of a record that begins where `start` does.
fn field_skip(
    r: &mut Parser,
    length: usize,
    Ghost(start): Ghost<Source>,
    Ghost(at): Ghost<nat>,
) -> (field: Result<(), Shortage>)
    requires
        old(r)@ == start.advance(at),
        at <= start.bytes.len(),
    ensures
        at + length <= start.bytes.len() ==> field is Ok && final(r)@ == start.advance(
            at + length as nat,
        ),
        at + length > start.bytes.len() ==> field == Err::<(), _>(start.shortage()) && final(r)@
            == start.advance(at),
{
    let field = r.skip_bytes(length);
    assert(r@ =~= start.advance(if field is Ok { at + length as nat } else { at }));
    field
}

/// Where the field begins in which the fixed part of a central directory file header breaks off
/// after `len` bytes. Its fields are six of 2 bytes, three of 4, five of 2 and two of 4.
pub open spec fn cdfh_field(len: nat) -> nat {
    if len < 12 || 24 <= len < 34 {
        (len - len % 2) as nat
    } else if len < 24 {
        (len - len % 4) as nat
    } else if len < 38 {
        34
    } else {
        38
    }
}

/// What the fixed part of a central directory file header, behind the signature, and the name
/// behind it hold.
pub open spec fn cdfh_fields(bytes: Seq<u8>) -> CdfhView {
    CdfhView {
        version_made_by: le_u16(bytes, 0),
        version_to_extract: le_u16(bytes, 2),
        general_purpose_flags: le_u16(bytes, 4),
        compression_method: CompressionMethod::of_id(le_u16(bytes, 6))->Some_0,
        last_modification_time: le_u16(bytes, 8),
        last_modification_date: le_u16(bytes, 10),
        crc32: le_u32(bytes, 12),
        compressed_size: le_u32(bytes, 16),
        uncompressed_size: le_u32(bytes, 20),
        extra_field_length: le_u16(bytes, 26),
        file_comment_length: le_u16(bytes, 28),
        disk_number: le_u16(bytes, 30),
        internal_attrs: le_u16(bytes, 32),
        external_attrs: le_u32(bytes, 34),
        file_header_offset: le_u32(bytes, 38),
        filename: decode_utf8(bytes.subrange(42, 42 + le_u16(bytes, 24))),
    }
}

/// What bytes behind the signature of a central directory file header say. They are a false
/// positive where a version cannot be, the compression method is unknown, the file would begin
/// behind `maximum_allowed_offset` or its name is not UTF-8.
pub open spec fn cdfh_outcome(bytes: Seq<u8>, maximum_allowed_offset: usize) -> Outcome<
    Option<CdfhView>,
> {
    let name_end = 42 + le_u16(bytes, 24) as nat;
    let extra_end = name_end + le_u16(bytes, 26) as nat;
    let end = extra_end + le_u16(bytes, 28) as nat;
    if bytes.len() < 4 {
        Outcome::Short(cdfh_field(bytes.len()))
    } else if !known_version(le_u16(bytes, 0)) || !known_version(le_u16(bytes, 2)) {
        Outcome::Read(None, 4)
    } else if bytes.len() < 8 {
        Outcome::Short(cdfh_field(bytes.len()))
    } else if CompressionMethod::of_id(le_u16(bytes, 6)) is None {
        Outcome::Read(None, 8)
    } else if bytes.len() < 42 {
        Outcome::Short(cdfh_field(bytes.len()))
    } else if le_u32(bytes, 38) > maximum_allowed_offset {
        Outcome::Read(None, 42)
    } else if bytes.len() < name_end {
        Outcome::Short(42)
    } else if !valid_utf8(bytes.subrange(42, name_end as int)) {
        Outcome::Read(None, name_end)
    } else if bytes.len() < extra_end {
        Outcome::Short(name_end)
    } else if bytes.len() < end {
        Outcome::Short(extra_end)
    } else {
        Outcome::Read(Some(cdfh_fields(bytes)), end)
    }
}

/// Takes a central directory file header field by field. Where it breaks off, the fields before
/// are gone.
pub(crate) fn take_cdfh(r: &mut Parser, maximum_allowed_offset: usize) -> (read: Result<
    Option<Cdfh>,
    Shortage,
>)
    ensures
        match cdfh_outcome(old(r)@.bytes, maximum_allowed_offset) {
            Outcome::Short(at) => {
                &&& read == Err::<Option<Cdfh>, _>(old(r)@.shortage())
                &&& final(r)@ == old(r)@.advance(at)
            },
            Outcome::Read(None, len) => {
                &&& read == Ok::<Option<Cdfh>, Shortage>(None)
                &&& final(r)@ == old(r)@.advance(len)
            },
            Outcome::Read(Some(cdfh), len) => {
                &&& read matches Ok(Some(c)) && c@ == cdfh
                &&& final(r)@ == old(r)@.advance(len)
            },
        },
{
    let ghost start = r@;
    assert(r@ =~= start.advance(0));
    let version_made_by: u16 = field_u16(r, Ghost(start), Ghost(0))?;
    let version_to_extract: u16 = field_u16(r, Ghost(start), Ghost(2))?;
    if !is_known_version(version_made_by) || !is_known_version(version_to_extract) {
        return Ok(None);
    }
    let general_purpose_flags: u16 = field_u16(r, Ghost(start), Ghost(4))?;
    let compression_method_id: u16 = field_u16(r, Ghost(start), Ghost(6))?;
    let compression_method = match CompressionMethod::from_id(compression_method_id) {
        Some(method) => method,
        None => {
            return Ok(None);
        },
    };
    let last_modification_time: u16 = field_u16(r, Ghost(start), Ghost(8))?;
    let last_modification_date: u16 = field_u16(r, Ghost(start), Ghost(10))?;
    let crc32: u32 = field_u32(r, Ghost(start), Ghost(12))?;
    let compressed_size: u32 = field_u32(r, Ghost(start), Ghost(16))?;
    let uncompressed_size: u32 = field_u32(r, Ghost(start), Ghost(20))?;
    let filename_length: u16 = field_u16(r, Ghost(start), Ghost(24))?;
    let extra_field_length: u16 = field_u16(r, Ghost(start), Ghost(26))?;
    let file_comment_length: u16 = field_u16(r, Ghost(start), Ghost(28))?;
    let disk_number: u16 = field_u16(r, Ghost(start), Ghost(30))?;
    let internal_attrs: u16 = field_u16(r, Ghost(start), Ghost(32))?;
    let external_attrs: u32 = field_u32(r, Ghost(start), Ghost(34))?;
    let file_header_offset: u32 = field_u32(r, Ghost(start), Ghost(38))?;
    if file_header_offset as usize > maximum_allowed_offset {
        return Ok(None);
    }
    // Filename should be valid UTF-8
    let name = field_bytes(r, filename_length as usize, Ghost(start), Ghost(42))?;
    let ghost name_end = 42 + filename_length as nat;
    let ghost extra_end = name_end + extra_field_length as nat;
    let filename = match String::from_utf8(slice_to_vec(&name)) {
        Ok(filename) => filename,
        Err(_) => {
            return Ok(None);
        },
    };
    field_skip(r, extra_field_length as usize, Ghost(start), Ghost(name_end))?;
    field_skip(r, file_comment_length as usize, Ghost(start), Ghost(extra_end))?;
    Ok(
        Some(
            Cdfh {
                version_made_by,
                version_to_extract,
                general_purpose_flags,
                compression_method,
                last_modification_time,
                last_modification_date,
                crc32,
                compressed_size,
                uncompressed_size,
                extra_field_length,
                file_comment_length,
                disk_number,
                internal_attrs,
                external_attrs,
                file_header_offset,
                filename,
            },
        ),
    )
}

/// Read a central directory file header or None if it is a false positive.
/// The given reader should return bytes right after the signature.
pub fn read_cdfh(r: &mut Parser, maximum_allowed_offset: usize) -> (read: Result<
    Option<Cdfh>,
    Shortage,
>)
    ensures
        match cdfh_outcome(old(r)@.bytes, maximum_allowed_offset) {
            Outcome::Short(at) => {
                &&& read == Err::<Option<Cdfh>, _>(old(r)@.shortage())
                &&& final(r)@ == old(r)@.cut(at)
            },
            Outcome::Read(None, len) => {
                &&& read == Ok::<Option<Cdfh>, Shortage>(None)
                &&& final(r)@ == old(r)@.advance(len)
            },
            Outcome::Read(Some(cdfh), len) => {
                &&& read matches Ok(Some(c)) && c@ == cdfh
                &&& final(r)@ == old(r)@.advance(len)
            },
        },
{
    let start = r.snapshot();
    let read = take_cdfh(r, maximum_allowed_offset);
    if let Err(Shortage::Pending) = read {
        *r = start;
    }
    read
}

/// What a file header says.
#[derive(Debug, PartialEq, Eq, Structural)]
pub enum MaybeFh {
    /// It is not a file header.
    FalsePositive,
    /// The contents of the file are compressed in another way than with DEFLATE.
    Unsupported,
    /// The contents of the file are compressed with DEFLATE and come next.
    Deflated,
}

/// Where the field begins in which the fixed part of a file header breaks off after `len` bytes.
/// Its fields are five of 2 bytes, three of 4 and two of 2.
pub open spec fn fh_field(len: nat) -> nat {
    if 10 <= len < 22 {
        (len - (len - 10) % 4) as nat
    } else {
        (len - len % 2) as nat
    }
}

/// What bytes behind the signature of a file header say. They are a false positive where the
/// version cannot be or the compression method is unknown.
pub open spec fn fh_outcome(bytes: Seq<u8>) -> Outcome<MaybeFh> {
    let name_end = 26 + le_u16(bytes, 22) as nat;
    let end = name_end + le_u16(bytes, 24) as nat;
    if bytes.len() < 2 {
        Outcome::Short(fh_field(bytes.len()))
    } else if !known_version(le_u16(bytes, 0)) {
        Outcome::Read(MaybeFh::FalsePositive, 2)
    } else if bytes.len() < 6 {
        Outcome::Short(fh_field(bytes.len()))
    } else if CompressionMethod::of_id(le_u16(bytes, 4)) is None {
        Outcome::Read(MaybeFh::FalsePositive, 6)
    } else if CompressionMethod::of_id(le_u16(bytes, 4)) != Some(CompressionMethod::Deflated) {
        Outcome::Read(MaybeFh::Unsupported, 6)
    } else if bytes.len() < 26 {
        Outcome::Short(fh_field(bytes.len()))
    } else if bytes.len() < name_end {
        Outcome::Short(26)
    } else if bytes.len() < end {
        Outcome::Short(name_end)
    } else {
        Outcome::Read(MaybeFh::Deflated, end)
    }
}

/// Takes a file header field by field. Where it breaks off, the fields before are gone.
fn take_fh(r: &mut Parser) -> (read: Result<MaybeFh, Shortage>)
    ensures
        match fh_outcome(old(r)@.bytes) {
            Outcome::Short(at) => {
                &&& read == Err::<MaybeFh, _>(old(r)@.shortage())
                &&& final(r)@ == old(r)@.advance(at)
            },
            Outcome::Read(fh, len) => {
                &&& read == Ok::<_, Shortage>(fh)
                &&& final(r)@ == old(r)@.advance(len)
            },
        },
{
    let ghost start = r@;
    assert(r@ =~= start.advance(0));
    let version_to_extract: u16 = field_u16(r, Ghost(start), Ghost(0))?;
    if !is_known_version(version_to_extract) {
        return Ok(MaybeFh::FalsePositive);
    }
    let _general_purpose_flags: u16 = field_u16(r, Ghost(start), Ghost(2))?;
    let compression_method_id: u16 = field_u16(r, Ghost(start), Ghost(4))?;
    match CompressionMethod::from_id(compression_method_id) {
        None => {
            return Ok(MaybeFh::FalsePositive);
        },
        Some(CompressionMethod::Deflated) => {},
        Some(_) => {
            return Ok(MaybeFh::Unsupported);
        },
    }
    let _last_modification_time: u16 = field_u16(r, Ghost(start), Ghost(6))?;
    let _last_modification_date: u16 = field_u16(r, Ghost(start), Ghost(8))?;
    let _crc32: u32 = field_u32(r, Ghost(start), Ghost(10))?;
    let _compressed_size: u32 = field_u32(r, Ghost(start), Ghost(14))?;
    let _uncompressed_size: u32 = field_u32(r, Ghost(start), Ghost(18))?;
    let filename_length: u16 = field_u16(r, Ghost(start), Ghost(22))?;
    let extra_field_length: u16 = field_u16(r, Ghost(start), Ghost(24))?;
    let ghost name_end = 26 + filename_length as nat;
    field_skip(r, filename_length as usize, Ghost(start), Ghost(26))?;
    field_skip(r, extra_field_length as usize, Ghost(start), Ghost(name_end))?;
    Ok(MaybeFh::Deflated)
}

/// Whether bytes behind the signature of a file header say that the contents of the file are
/// compressed in another way than with DEFLATE.
pub open spec fn is_unsupported_fh(bytes: Seq<u8>) -> bool {
    &&& bytes.len() >= 6
    &&& known_version(le_u16(bytes, 0))
    &&& CompressionMethod::of_id(le_u16(bytes, 4)) matches Some(method)
    &&& method != CompressionMethod::Deflated
}

/// Whether the file header that comes next says that the contents of the file are compressed in
/// another way than with DEFLATE. Nothing is taken from the stream.
pub fn has_unsupported_fh(r: &mut Parser) -> (unsupported: bool)
    ensures
        unsupported == is_unsupported_fh(old(r)@.bytes),
        final(r)@ == old(r)@,
{
    let mut ahead = r.snapshot();
    match take_fh(&mut ahead) {
        Ok(MaybeFh::Unsupported) => true,
        _ => false,
    }
}

/// Read a file header or None if it is a false positive. Only DEFLATE compression is supported.
/// The given reader should return bytes right after the signature.
pub fn read_fh(r: &mut Parser) -> (read: Result<Option<()>, Shortage>)
    requires
        !is_unsupported_fh(old(r)@.bytes),
    ensures
        match fh_outcome(old(r)@.bytes) {
            Outcome::Short(at) => {
                &&& read == Err::<Option<()>, _>(old(r)@.shortage())
                &&& final(r)@ == old(r)@.cut(at)
            },
            Outcome::Read(fh, len) => {
                &&& read == Ok::<_, Shortage>(if fh is Deflated { Some(()) } else { None })
                &&& final(r)@ == old(r)@.advance(len)
            },
        },
{
    let start = r.snapshot();
    match take_fh(r) {
        Ok(MaybeFh::Deflated) => Ok(Some(())),
        Ok(_) => Ok(None),
        Err(Shortage::Pending) => {
            *r = start;
            Err(Shortage::Pending)
        },
        Err(Shortage::UnexpectedEof) => Err(Shortage::UnexpectedEof),
    }
}

/// What an end of central directory record of a classic 32-bit zip says.
#[derive(Debug, PartialEq, Eq)]
pub enum MaybeEocd32 {
    /// It is not such a record.
    FalsePositive,
    /// The archive is a Zip64: the record to go by is another one.
    Zip64,
    /// It is such a record.
    Eocd32(Eocd32),
}

/// Where the field begins in which the fixed part of a 32-bit end of central directory record
/// breaks off after `len` bytes. Its fields are four of 2 bytes, two of 4 and one of 2.
pub open spec fn eocd32_field(len: nat) -> nat {
    if len < 8 {
        (len - len % 2) as nat
    } else if len < 16 {
        (len - len % 4) as nat
    } else {
        16
    }
}

/// What the fixed part of a 32-bit end of central directory record holds.
pub open spec fn eocd32_fields(bytes: Seq<u8>, offset: usize) -> Eocd32 {
    Eocd32 {
        this_disk_number: le_u16(bytes, 0),
        cd_disk: le_u16(bytes, 2),
        cd_records_on_disk: le_u16(bytes, 4),
        cd_records_total: le_u16(bytes, 6),
        cd_size: le_u32(bytes, 8),
        cd_offset: le_u32(bytes, 12),
        offset,
    }
}

/// Whether a 32-bit end of central directory record stands in for one of a Zip64.
pub open spec fn is_zip64_placeholder(eocd: Eocd32) -> bool {
    &&& eocd.this_disk_number == 0xff
    &&& eocd.cd_disk == 0xff
    &&& eocd.cd_records_on_disk == 0xff
    &&& eocd.cd_records_total == 0xff
    &&& eocd.cd_size == 0xffff
    &&& eocd.cd_offset == 0xffff
}

/// What bytes behind the signature of a 32-bit end of central directory record say. They are a
/// false positive where a disk number is over 256, or where the central directory is larger than
/// the file or begins behind its end.
pub open spec fn eocd32_outcome(bytes: Seq<u8>, offset: usize, filesize: usize) -> Outcome<
    MaybeEocd32,
> {
    let eocd = eocd32_fields(bytes, offset);
    let end = 18 + le_u16(bytes, 16) as nat;
    if bytes.len() < 2 {
        Outcome::Short(eocd32_field(bytes.len()))
    } else if eocd.this_disk_number > 256 {
        Outcome::Read(MaybeEocd32::FalsePositive, 2)
    } else if bytes.len() < 4 {
        Outcome::Short(eocd32_field(bytes.len()))
    } else if eocd.cd_disk > 256 {
        Outcome::Read(MaybeEocd32::FalsePositive, 4)
    } else if bytes.len() < 12 {
        Outcome::Short(eocd32_field(bytes.len()))
    } else if eocd.cd_size > filesize {
        Outcome::Read(MaybeEocd32::FalsePositive, 12)
    } else if bytes.len() < 16 {
        Outcome::Short(eocd32_field(bytes.len()))
    } else if eocd.cd_offset > filesize {
        Outcome::Read(MaybeEocd32::FalsePositive, 16)
    } else if is_zip64_placeholder(eocd) {
        Outcome::Read(MaybeEocd32::Zip64, 16)
    } else if bytes.len() < 18 {
        Outcome::Short(eocd32_field(bytes.len()))
    } else if bytes.len() < end {
        Outcome::Short(18)
    } else {
        Outcome::Read(MaybeEocd32::Eocd32(eocd), end)
    }
}

/// Takes a 32-bit end of central directory record field by field. Where it breaks off, the fields
/// before are gone.
fn take_eocd32(r: &mut Parser, offset: usize, filesize: usize) -> (read: Result<
    MaybeEocd32,
    Shortage,
>)
    ensures
        match eocd32_outcome(old(r)@.bytes, offset, filesize) {
            Outcome::Short(at) => {
                &&& read == Err::<MaybeEocd32, _>(old(r)@.shortage())
                &&& final(r)@ == old(r)@.advance(at)
            },
            Outcome::Read(eocd, len) => {
                &&& read == Ok::<_, Shortage>(eocd)
                &&& final(r)@ == old(r)@.advance(len)
            },
        },
{
    let ghost start = r@;
    assert(r@ =~= start.advance(0));
    let this_disk_number: u16 = field_u16(r, Ghost(start), Ghost(0))?;
    if this_disk_number > 256 && this_disk_number != 0xff {
        return Ok(MaybeEocd32::FalsePositive);
    }
    let cd_disk: u16 = field_u16(r, Ghost(start), Ghost(2))?;
    if cd_disk > 256 && cd_disk != 0xff {
        return Ok(MaybeEocd32::FalsePositive);
    }
    let cd_records_on_disk: u16 = field_u16(r, Ghost(start), Ghost(4))?;
    let cd_records_total: u16 = field_u16(r, Ghost(start), Ghost(6))?;
    let cd_size: u32 = field_u32(r, Ghost(start), Ghost(8))?;
    if cd_size as usize > filesize {
        return Ok(MaybeEocd32::FalsePositive);
    }
    let cd_offset: u32 = field_u32(r, Ghost(start), Ghost(12))?;
    if cd_offset as usize > filesize {
        return Ok(MaybeEocd32::FalsePositive);
    }
    if this_disk_number == 0xff && cd_disk == 0xff && cd_records_on_disk == 0xff
        && cd_records_total == 0xff && cd_size == 0xffff && cd_offset == 0xffff {
        return Ok(MaybeEocd32::Zip64);
    }
    let comment_len: u16 = field_u16(r, Ghost(start), Ghost(16))?;
    field_skip(r, comment_len as usize, Ghost(start), Ghost(18))?;
    Ok(
        MaybeEocd32::Eocd32(
            Eocd32 {
                this_disk_number,
                cd_disk,
                cd_records_on_disk,
                cd_records_total,
                cd_size,
                cd_offset,
                offset,
            },
        ),
    )
}

/// Read a EOCD32 record.
/// The given reader should return bytes right after the signature.
pub fn read_eocd32(r: &mut Parser, offset: usize, filesize: usize) -> (read: Result<
    MaybeEocd32,
    Shortage,
>)
    ensures
        match eocd32_outcome(old(r)@.bytes, offset, filesize) {
            Outcome::Short(at) => {
                &&& read == Err::<MaybeEocd32, _>(old(r)@.shortage())
                &&& final(r)@ == old(r)@.cut(at)
            },
            Outcome::Read(eocd, len) => {
                &&& read == Ok::<_, Shortage>(eocd)
                &&& final(r)@ == old(r)@.advance(len)
            },
        },
{
    let start = r.snapshot();
    let read = take_eocd32(r, offset, filesize);
    if let Err(Shortage::Pending) = read {
        *r = start;
    }
    read
}

/// Where the field begins in which a Zip64 end of central directory record breaks off after `len`
/// bytes. Its fields are one of 8 bytes, two of 2, two of 4 and four of 8.
pub open spec fn eocd64_field(len: nat) -> nat {
    if len < 8 {
        0
    } else if len < 12 {
        (len - len % 2) as nat
    } else if len < 20 {
        (len - len % 4) as nat
    } else {
        (len - (len - 20) % 8) as nat
    }
}

/// What a Zip64 end of central directory record holds.
pub open spec fn eocd64_fields(bytes: Seq<u8>, offset: usize) -> Eocd64 {
    Eocd64 {
        this_disk_number: le_u32(bytes, 12),
        cd_disk: le_u32(bytes, 16),
        cd_records_on_disk: le_u64(bytes, 20),
        cd_records_total: le_u64(bytes, 28),
        cd_size: le_u64(bytes, 36),
        cd_offset: le_u64(bytes, 44),
        offset,
    }
}

/// What bytes behind the signature of a Zip64 end of central directory record say. They are a
/// false positive where a version cannot be.
pub open spec fn eocd64_outcome(bytes: Seq<u8>, offset: usize) -> Outcome<Option<Eocd64>> {
    if bytes.len() < 12 {
        Outcome::Short(eocd64_field(bytes.len()))
    } else if !known_version(le_u16(bytes, 8)) || !known_version(le_u16(bytes, 10)) {
        Outcome::Read(None, 12)
    } else if bytes.len() < 52 {
        Outcome::Short(eocd64_field(bytes.len()))
    } else {
        Outcome::Read(Some(eocd64_fields(bytes, offset)), 52)
    }
}

/// Takes a Zip64 end of central directory record field by field. Where it breaks off, the fields
/// before are gone.
fn take_eocd64(r: &mut Parser, offset: usize) -> (read: Result<Option<Eocd64>, Shortage>)
    ensures
        match eocd64_outcome(old(r)@.bytes, offset) {
            Outcome::Short(at) => {
                &&& read == Err::<Option<Eocd64>, _>(old(r)@.shortage())
                &&& final(r)@ == old(r)@.advance(at)
            },
            Outcome::Read(eocd, len) => {
                &&& read == Ok::<_, Shortage>(eocd)
                &&& final(r)@ == old(r)@.advance(len)
            },
        },
{
    let ghost start = r@;
    assert(r@ =~= start.advance(0));
    let _size: u64 = field_u64(r, Ghost(start), Ghost(0))?;
    let version_made_by: u16 = field_u16(r, Ghost(start), Ghost(8))?;
    let version_to_extract: u16 = field_u16(r, Ghost(start), Ghost(10))?;
    if !is_known_version(version_made_by) || !is_known_version(version_to_extract) {
        return Ok(None);
    }
    let this_disk_number: u32 = field_u32(r, Ghost(start), Ghost(12))?;
    let cd_disk: u32 = field_u32(r, Ghost(start), Ghost(16))?;
    let cd_records_on_disk: u64 = field_u64(r, Ghost(start), Ghost(20))?;
    let cd_records_total: u64 = field_u64(r, Ghost(start), Ghost(28))?;
    let cd_size: u64 = field_u64(r, Ghost(start), Ghost(36))?;
    let cd_offset: u64 = field_u64(r, Ghost(start), Ghost(44))?;
    Ok(
        Some(
            Eocd64 {
                this_disk_number,
                cd_disk,
                cd_records_on_disk,
                cd_records_total,
                cd_size,
                cd_offset,
                offset,
            },
        ),
    )
}

/// Read a EOCD64 or None if it is a false positive.
/// The given reader should return bytes right after the signature.
pub fn read_eocd64(r: &mut Parser, offset: usize) -> (read: Result<Option<Eocd64>, Shortage>)
    ensures
        match eocd64_outcome(old(r)@.bytes, offset) {
            Outcome::Short(at) => {
                &&& read == Err::<Option<Eocd64>, _>(old(r)@.shortage())
                &&& final(r)@ == old(r)@.cut(at)
            },
            Outcome::Read(eocd, len) => {
                &&& read == Ok::<_, Shortage>(eocd)
                &&& final(r)@ == old(r)@.advance(len)
            },
        },
{
    let start = r.snapshot();
    let read = take_eocd64(r, offset);
    if let Err(Shortage::Pending) = read {
        *r = start;
    }
    read
}

/// What comes behind bytes makes no difference to the numbers in them.
proof fn lemma_numbers_stay(bytes: Seq<u8>, more: Seq<u8>)
    ensures
        forall|at: int|
            0 <= at && at + 2 <= bytes.len() ==> #[trigger] le_u16(bytes + more, at) == le_u16(
                bytes,
                at,
            ),
        forall|at: int|
            0 <= at && at + 4 <= bytes.len() ==> #[trigger] le_u32(bytes + more, at) == le_u32(
                bytes,
                at,
            ),
        forall|at: int|
            0 <= at && at + 8 <= bytes.len() ==> #[trigger] le_u64(bytes + more, at) == le_u64(
                bytes,
                at,
            ),
{
}

/// A central directory file header breaks off in a field that has begun, and what is read of it
/// is here. Once the bytes that are here decide it, the bytes that come later change nothing.
pub proof fn law_cdfh_decided_once(bytes: Seq<u8>, more: Seq<u8>, maximum_allowed_offset: usize)
    ensures
        match cdfh_outcome(bytes, maximum_allowed_offset) {
            Outcome::Short(at) => at <= bytes.len(),
            Outcome::Read(cdfh, len) => {
                &&& 4 <= len <= bytes.len()
                &&& cdfh_outcome(bytes + more, maximum_allowed_offset) == Outcome::Read(cdfh, len)
            },
        },
{
    lemma_numbers_stay(bytes, more);
    if bytes.len() >= 42 && bytes.len() >= 42 + le_u16(bytes, 24) {
        let name_end = 42 + le_u16(bytes, 24);
        assert((bytes + more).subrange(42, name_end) =~= bytes.subrange(42, name_end));
    }
}

/// A file header breaks off in a field that has begun, and what is read of it is here. Once the
/// bytes that are here decide it, the bytes that come later change nothing.
pub proof fn law_fh_decided_once(bytes: Seq<u8>, more: Seq<u8>)
    ensures
        match fh_outcome(bytes) {
            Outcome::Short(at) => at <= bytes.len(),
            Outcome::Read(fh, len) => {
                &&& 2 <= len <= bytes.len()
                &&& fh_outcome(bytes + more) == Outcome::Read(fh, len)
            },
        },
{
    lemma_numbers_stay(bytes, more);
}

/// A 32-bit end of central directory record breaks off in a field that has begun, and what is read
/// of it is here. Once the bytes that are here decide it, the bytes that come later change nothing.
pub proof fn law_eocd32_decided_once(
    bytes: Seq<u8>,
    more: Seq<u8>,
    offset: usize,
    filesize: usize,
)
    ensures
        match eocd32_outcome(bytes, offset, filesize) {
            Outcome::Short(at) => at <= bytes.len(),
            Outcome::Read(eocd, len) => {
                &&& 2 <= len <= bytes.len()
                &&& eocd32_outcome(bytes + more, offset, filesize) == Outcome::Read(eocd, len)
            },
        },
{
    lemma_numbers_stay(bytes, more);
}

/// A Zip64 end of central directory record breaks off in a field that has begun, and what is read
/// of it is here. Once the bytes that are here decide it, the bytes that come later change nothing.
pub proof fn law_eocd64_decided_once(bytes: Seq<u8>, more: Seq<u8>, offset: usize)
    ensures
        match eocd64_outcome(bytes, offset) {
            Outcome::Short(at) => at <= bytes.len(),
            Outcome::Read(eocd, len) => {
                &&& 12 <= len <= bytes.len()
                &&& eocd64_outcome(bytes + more, offset) == Outcome::Read(eocd, len)
            },
        },
{
    lemma_numbers_stay(bytes, more);
}

/// Where a record breaks off in a stream that has ended, what was read of it is gone and nothing
/// else is; where the stream has not ended, nothing is gone.
pub proof fn law_cut_loses_fields(source: Source, at: nat)
    requires
        at <= source.bytes.len(),
    ensures
        source.cut(at).ended == source.ended,
        source.ended ==> source.bytes == source.bytes.take(at as int) + source.cut(at).bytes,
        !source.ended ==> source.cut(at) == source,
{
    assert(source.bytes =~= source.bytes.take(at as int) + source.bytes.skip(at as int));
}

} // verus!
