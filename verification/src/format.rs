//! The records of the zip format as they are written, byte by byte.
//!
//! Nothing here is read from a stream. It is what the readers of the records are held against: a
//! record that is written from given values is read back with those values.
use vstd::prelude::*;
use vstd::utf8::{encode_utf8, encode_utf8_decode_utf8, encode_utf8_valid_utf8, valid_utf8};

use crate::parser::{le_u16, le_u32, le_u64};
use crate::records::{
    cdfh_outcome, eocd32_outcome, eocd64_outcome, fh_outcome, is_unsupported_fh, MaybeEocd32,
    MaybeFh, Outcome,
};
use crate::structs::{CdfhView, CompressionMethod, Eocd32, Eocd64};

verus! {

/// The first `width` digits of a number to the base 256, the lowest one first.
pub open spec fn le_bytes(value: nat, width: nat) -> Seq<u8>
    decreases width,
{
    if width == 0 {
        seq![]
    } else {
        seq![(value % 256) as u8] + le_bytes(value / 256, (width - 1) as nat)
    }
}

/// Whether a number is written in the `width` bytes at `at`.
pub open spec fn holds_number(bytes: Seq<u8>, at: int, width: nat, value: nat) -> bool {
    &&& 0 <= at && at + width <= bytes.len()
    &&& bytes.subrange(at, at + width) == le_bytes(value, width)
}

/// A number takes up as many bytes as it is written in.
pub proof fn lemma_le_bytes_len(value: nat, width: nat)
    ensures
        le_bytes(value, width).len() == width,
    decreases width,
{
    if width > 0 {
        lemma_le_bytes_len(value / 256, (width - 1) as nat);
    }
}

/// A 2-byte number is read where it is written, and nowhere else.
pub proof fn law_u16_read_back(bytes: Seq<u8>, at: int, value: u16)
    requires
        0 <= at && at + 2 <= bytes.len(),
    ensures
        le_u16(bytes, at) == value <==> holds_number(bytes, at, 2, value as nat),
{
    reveal_with_fuel(le_bytes, 3);
    let written = le_bytes(value as nat, 2);
    let here = bytes.subrange(at, at + 2);
    assert(written.len() == 2);
    assert(written[0] == value % 256 && written[1] == value / 256);
    assert(here[0] == bytes[at] && here[1] == bytes[at + 1]);
    if le_u16(bytes, at) == value {
        assert(here =~= written);
    }
}

/// A 4-byte number is read where it is written, and nowhere else.
pub proof fn law_u32_read_back(bytes: Seq<u8>, at: int, value: u32)
    requires
        0 <= at && at + 4 <= bytes.len(),
    ensures
        le_u32(bytes, at) == value <==> holds_number(bytes, at, 4, value as nat),
{
    reveal_with_fuel(le_bytes, 5);
    let written = le_bytes(value as nat, 4);
    let here = bytes.subrange(at, at + 4);
    assert(written.len() == 4);
    assert(written[0] == value % 256 && written[1] == value / 0x100 % 256 && written[2] == value
        / 0x1_0000 % 256 && written[3] == value / 0x100_0000);
    assert(here[0] == bytes[at] && here[1] == bytes[at + 1] && here[2] == bytes[at + 2] && here[3]
        == bytes[at + 3]);
    if le_u32(bytes, at) == value {
        assert(here =~= written);
    }
}

/// How many numbers can be written in `width` bytes.
spec fn number_count(width: nat) -> nat
    decreases width,
{
    if width == 0 {
        1
    } else {
        256 * number_count((width - 1) as nat)
    }
}

/// A number is written as its low part and then its high part.
proof fn lemma_le_bytes_parts(low: nat, high: nat, width: nat, more: nat)
    requires
        low < number_count(width),
    ensures
        le_bytes(high * number_count(width) + low, width + more) == le_bytes(low, width)
            + le_bytes(high, more),
    decreases width,
{
    if width == 0 {
        assert(high * number_count(0) + low == high) by (nonlinear_arith)
            requires
                number_count(0) == 1,
                low == 0,
        ;
        assert(le_bytes(low, 0) + le_bytes(high, more) =~= le_bytes(high, more));
    } else {
        let narrower = (width - 1) as nat;
        let count = number_count(narrower);
        let value = high * number_count(width) + low;
        assert(high * (256 * count) == 256 * (high * count)) by (nonlinear_arith);
        let upper = high * count + low / 256;
        assert(value / 256 == upper && value % 256 == low % 256);
        lemma_le_bytes_parts(low / 256, high, narrower, more);
        assert((width + more - 1) as nat == narrower + more);
        assert(le_bytes(value, width + more) == seq![(low % 256) as u8] + le_bytes(
            upper,
            narrower + more,
        ));
        assert(le_bytes(low, width) == seq![(low % 256) as u8] + le_bytes(low / 256, narrower));
        assert(le_bytes(value, width + more) =~= le_bytes(low, width) + le_bytes(high, more));
    }
}

/// An 8-byte number is read where it is written, and nowhere else.
pub proof fn law_u64_read_back(bytes: Seq<u8>, at: int, value: u64)
    requires
        0 <= at && at + 8 <= bytes.len(),
    ensures
        le_u64(bytes, at) == value <==> holds_number(bytes, at, 8, value as nat),
{
    let low = (value % 0x1_0000_0000) as u32;
    let high = (value / 0x1_0000_0000) as u32;
    let here = bytes.subrange(at, at + 8);
    assert(number_count(4) == 0x1_0000_0000) by {
        reveal_with_fuel(number_count, 5);
    }
    lemma_le_bytes_parts(low as nat, high as nat, 4, 4);
    assert(high as nat * 0x1_0000_0000 + low as nat == value as nat);
    lemma_le_bytes_len(low as nat, 4);
    lemma_le_bytes_len(high as nat, 4);
    law_u32_read_back(bytes, at, low);
    law_u32_read_back(bytes, at + 4, high);
    assert(here.take(4) =~= bytes.subrange(at, at + 4));
    assert(here.skip(4) =~= bytes.subrange(at + 4, at + 4 + 4));
    let written = le_bytes(value as nat, 8);
    assert(written.take(4) =~= le_bytes(low as nat, 4));
    assert(written.skip(4) =~= le_bytes(high as nat, 4));
    assert(here =~= here.take(4) + here.skip(4));
    assert(written =~= written.take(4) + written.skip(4));
}

/// The methods have the numbers that the format gives them, and no other number has a method.
pub proof fn law_method_numbers(id: u16)
    ensures
        CompressionMethod::of_id(0) == Some(CompressionMethod::Stored),
        CompressionMethod::of_id(8) == Some(CompressionMethod::Deflated),
        CompressionMethod::of_id(9) == Some(CompressionMethod::Deflate64),
        CompressionMethod::of_id(12) == Some(CompressionMethod::Bzip2),
        CompressionMethod::of_id(14) == Some(CompressionMethod::Lzma),
        CompressionMethod::of_id(93) == Some(CompressionMethod::Zstd),
        CompressionMethod::of_id(95) == Some(CompressionMethod::Xz),
        CompressionMethod::of_id(99) == Some(CompressionMethod::Aes),
        CompressionMethod::of_id(id) is Some <==> seq![
            0u16,
            8u16,
            9u16,
            12u16,
            14u16,
            93u16,
            95u16,
            99u16,
        ].contains(id),
{
    let ids = seq![0u16, 8u16, 9u16, 12u16, 14u16, 93u16, 95u16, 99u16];
    assert(ids[0] == 0 && ids[1] == 8 && ids[2] == 9 && ids[3] == 12 && ids[4] == 14 && ids[5] == 93
        && ids[6] == 95 && ids[7] == 99);
}

/// Whether `at` is the last of the places before or at `len` at which a field begins.
pub open spec fn is_last_field(begins: spec_fn(int) -> bool, at: int, len: int) -> bool {
    &&& begins(at)
    &&& at <= len
    &&& forall|later: int| at < later <= len ==> !#[trigger] begins(later)
}

/// A central directory file header as it is written behind its signature.
pub open spec fn cdfh_bytes(cdfh: CdfhView, extra: Seq<u8>, comment: Seq<u8>) -> Seq<u8> {
    let name = encode_utf8(cdfh.filename);
    le_bytes(cdfh.version_made_by as nat, 2) + le_bytes(cdfh.version_to_extract as nat, 2)
        + le_bytes(cdfh.general_purpose_flags as nat, 2) + le_bytes(
        cdfh.compression_method.id() as nat,
        2,
    ) + le_bytes(cdfh.last_modification_time as nat, 2) + le_bytes(
        cdfh.last_modification_date as nat,
        2,
    ) + le_bytes(cdfh.crc32 as nat, 4) + le_bytes(cdfh.compressed_size as nat, 4) + le_bytes(
        cdfh.uncompressed_size as nat,
        4,
    ) + le_bytes(name.len(), 2) + le_bytes(extra.len(), 2) + le_bytes(comment.len(), 2) + le_bytes(
        cdfh.disk_number as nat,
        2,
    ) + le_bytes(cdfh.internal_attrs as nat, 2) + le_bytes(cdfh.external_attrs as nat, 4)
        + le_bytes(cdfh.file_header_offset as nat, 4) + name + extra + comment
}

/// Whether bytes are a central directory file header behind its signature, with these values in
/// its fields: the numbers of 2 and 4 bytes, the name as UTF-8, an extra field and a comment.
pub open spec fn is_cdfh(bytes: Seq<u8>, cdfh: CdfhView) -> bool {
    let name = encode_utf8(cdfh.filename);
    &&& name.len() <= 0xffff
    &&& bytes.len() == 42 + name.len() + cdfh.extra_field_length + cdfh.file_comment_length
    &&& holds_number(bytes, 0, 2, cdfh.version_made_by as nat)
    &&& holds_number(bytes, 2, 2, cdfh.version_to_extract as nat)
    &&& holds_number(bytes, 4, 2, cdfh.general_purpose_flags as nat)
    &&& holds_number(bytes, 6, 2, cdfh.compression_method.id() as nat)
    &&& holds_number(bytes, 8, 2, cdfh.last_modification_time as nat)
    &&& holds_number(bytes, 10, 2, cdfh.last_modification_date as nat)
    &&& holds_number(bytes, 12, 4, cdfh.crc32 as nat)
    &&& holds_number(bytes, 16, 4, cdfh.compressed_size as nat)
    &&& holds_number(bytes, 20, 4, cdfh.uncompressed_size as nat)
    &&& holds_number(bytes, 24, 2, name.len())
    &&& holds_number(bytes, 26, 2, cdfh.extra_field_length as nat)
    &&& holds_number(bytes, 28, 2, cdfh.file_comment_length as nat)
    &&& holds_number(bytes, 30, 2, cdfh.disk_number as nat)
    &&& holds_number(bytes, 32, 2, cdfh.internal_attrs as nat)
    &&& holds_number(bytes, 34, 4, cdfh.external_attrs as nat)
    &&& holds_number(bytes, 38, 4, cdfh.file_header_offset as nat)
    &&& bytes.subrange(42, 42int + name.len()) == name
}

/// A header that is written from given values has those values in its fields.
pub proof fn law_cdfh_written(cdfh: CdfhView, extra: Seq<u8>, comment: Seq<u8>)
    requires
        encode_utf8(cdfh.filename).len() <= 0xffff,
        extra.len() == cdfh.extra_field_length,
        comment.len() == cdfh.file_comment_length,
    ensures
        is_cdfh(cdfh_bytes(cdfh, extra, comment), cdfh),
{
    let name = encode_utf8(cdfh.filename);
    let bytes = cdfh_bytes(cdfh, extra, comment);
    assert forall|value: nat| #[trigger] le_bytes(value, 2).len() == 2 by {
        lemma_le_bytes_len(value, 2);
    }
    assert forall|value: nat| #[trigger] le_bytes(value, 4).len() == 4 by {
        lemma_le_bytes_len(value, 4);
    }
    assert(bytes.subrange(0, 2) =~= le_bytes(cdfh.version_made_by as nat, 2));
    assert(bytes.subrange(2, 4) =~= le_bytes(cdfh.version_to_extract as nat, 2));
    assert(bytes.subrange(4, 6) =~= le_bytes(cdfh.general_purpose_flags as nat, 2));
    assert(bytes.subrange(6, 8) =~= le_bytes(cdfh.compression_method.id() as nat, 2));
    assert(bytes.subrange(8, 10) =~= le_bytes(cdfh.last_modification_time as nat, 2));
    assert(bytes.subrange(10, 12) =~= le_bytes(cdfh.last_modification_date as nat, 2));
    assert(bytes.subrange(12, 16) =~= le_bytes(cdfh.crc32 as nat, 4));
    assert(bytes.subrange(16, 20) =~= le_bytes(cdfh.compressed_size as nat, 4));
    assert(bytes.subrange(20, 24) =~= le_bytes(cdfh.uncompressed_size as nat, 4));
    assert(bytes.subrange(24, 26) =~= le_bytes(name.len(), 2));
    assert(bytes.subrange(26, 28) =~= le_bytes(extra.len(), 2));
    assert(bytes.subrange(28, 30) =~= le_bytes(comment.len(), 2));
    assert(bytes.subrange(30, 32) =~= le_bytes(cdfh.disk_number as nat, 2));
    assert(bytes.subrange(32, 34) =~= le_bytes(cdfh.internal_attrs as nat, 2));
    assert(bytes.subrange(34, 38) =~= le_bytes(cdfh.external_attrs as nat, 4));
    assert(bytes.subrange(38, 42) =~= le_bytes(cdfh.file_header_offset as nat, 4));
    assert(bytes.subrange(42, 42int + name.len()) =~= name);
}

/// A central directory file header is read with the values that are in its fields, to its last byte
/// and no further, where both versions are at most 63 and the file begins at an offset that is
/// allowed. Only the low byte of a version field is the version.
pub proof fn law_cdfh_read_back(
    bytes: Seq<u8>,
    more: Seq<u8>,
    cdfh: CdfhView,
    maximum_allowed_offset: usize,
)
    requires
        is_cdfh(bytes, cdfh),
        bytes[0] <= 63 && bytes[2] <= 63,
        cdfh.file_header_offset <= maximum_allowed_offset,
    ensures
        cdfh_outcome(bytes + more, maximum_allowed_offset) == Outcome::Read(
            Some(cdfh),
            bytes.len(),
        ),
{
    let name = encode_utf8(cdfh.filename);
    let whole = bytes + more;
    lemma_numbers_stay(bytes, more);
    law_u16_read_back(whole, 0, cdfh.version_made_by);
    law_u16_read_back(whole, 2, cdfh.version_to_extract);
    law_u16_read_back(whole, 4, cdfh.general_purpose_flags);
    law_u16_read_back(whole, 6, cdfh.compression_method.id());
    law_u16_read_back(whole, 8, cdfh.last_modification_time);
    law_u16_read_back(whole, 10, cdfh.last_modification_date);
    law_u32_read_back(whole, 12, cdfh.crc32);
    law_u32_read_back(whole, 16, cdfh.compressed_size);
    law_u32_read_back(whole, 20, cdfh.uncompressed_size);
    law_u16_read_back(whole, 24, name.len() as u16);
    law_u16_read_back(whole, 26, cdfh.extra_field_length);
    law_u16_read_back(whole, 28, cdfh.file_comment_length);
    law_u16_read_back(whole, 30, cdfh.disk_number);
    law_u16_read_back(whole, 32, cdfh.internal_attrs);
    law_u32_read_back(whole, 34, cdfh.external_attrs);
    law_u32_read_back(whole, 38, cdfh.file_header_offset);
    assert(whole.subrange(42, 42int + name.len()) =~= bytes.subrange(42, 42int + name.len()));
    encode_utf8_valid_utf8(cdfh.filename);
    encode_utf8_decode_utf8(cdfh.filename);
    CompressionMethod::law_found_under_own_id(
        cdfh.compression_method.id(),
        cdfh.compression_method,
    );
}

/// What comes behind bytes makes no difference to the numbers that are written in them.
proof fn lemma_numbers_stay(bytes: Seq<u8>, more: Seq<u8>)
    ensures
        forall|at: int, width: nat, value: nat|
            holds_number(bytes, at, width, value) ==> #[trigger] holds_number(
                bytes + more,
                at,
                width,
                value,
            ),
{
    let whole = bytes + more;
    assert forall|at: int, width: nat, value: nat|
        holds_number(bytes, at, width, value) implies #[trigger] holds_number(
        whole,
        at,
        width,
        value,
    ) by {
        assert(whole.subrange(at, at + width) =~= bytes.subrange(at, at + width));
    }
}

/// The low byte of a 2-byte number.
proof fn lemma_low_byte(bytes: Seq<u8>, at: int)
    requires
        0 <= at && at + 2 <= bytes.len(),
    ensures
        le_u16(bytes, at) % 0x100 == bytes[at],
{
}

/// What looks like a central directory file header is refused as soon as a field shows that it is
/// none: a version over 63, a method that there is not, an offset that is not allowed, or a name
/// that is not UTF-8. What was read up to there is gone.
pub proof fn law_cdfh_refused(
    bytes: Seq<u8>,
    maximum_allowed_offset: usize,
    method: u16,
    offset: u32,
    name_len: u16,
)
    requires
        bytes.len() >= 4,
    ensures
        bytes[0] > 63 || bytes[2] > 63 ==> cdfh_outcome(bytes, maximum_allowed_offset)
            == Outcome::Read(None::<CdfhView>, 4),
        bytes[0] <= 63 && bytes[2] <= 63 && holds_number(bytes, 6, 2, method as nat) ==> {
            &&& CompressionMethod::of_id(method) is None ==> cdfh_outcome(
                bytes,
                maximum_allowed_offset,
            ) == Outcome::Read(None::<CdfhView>, 8)
            &&& CompressionMethod::of_id(method) is Some && holds_number(
                bytes,
                38,
                4,
                offset as nat,
            ) ==> {
                &&& offset > maximum_allowed_offset ==> cdfh_outcome(bytes, maximum_allowed_offset)
                    == Outcome::Read(None::<CdfhView>, 42)
                &&& offset <= maximum_allowed_offset && holds_number(bytes, 24, 2, name_len as nat)
                    && 42 + name_len <= bytes.len() && !valid_utf8(
                    bytes.subrange(42, 42 + name_len),
                ) ==> cdfh_outcome(bytes, maximum_allowed_offset) == Outcome::Read(
                    None::<CdfhView>,
                    42 + name_len as nat,
                )
            }
        },
{
    lemma_low_byte(bytes, 0);
    lemma_low_byte(bytes, 2);
    if bytes.len() >= 8 {
        law_u16_read_back(bytes, 6, method);
    }
    if bytes.len() >= 42 {
        law_u16_read_back(bytes, 24, name_len);
        law_u32_read_back(bytes, 38, offset);
    }
}

/// Where the fields of a central directory file header begin, with a name and an extra field of
/// these lengths.
pub open spec fn cdfh_field_begins(name_len: int, extra_len: int) -> spec_fn(int) -> bool {
    |at: int|
        {
            ||| at == 0 || at == 2 || at == 4 || at == 6 || at == 8 || at == 10
            ||| at == 12 || at == 16 || at == 20
            ||| at == 24 || at == 26 || at == 28 || at == 30 || at == 32
            ||| at == 34 || at == 38
            ||| at == 42 || at == 42 + name_len || at == 42 + name_len + extra_len
        }
}

/// A central directory file header of which not all has come, and in which nothing that has come
/// shows that it is none, breaks off in the field whose end is missing.
pub proof fn law_cdfh_breaks_off(
    bytes: Seq<u8>,
    maximum_allowed_offset: usize,
    method: u16,
    offset: u32,
    name_len: u16,
    extra_len: u16,
    comment_len: u16,
)
    requires
        bytes.len() < 42 + name_len + extra_len + comment_len,
        bytes.len() >= 4 ==> bytes[0] <= 63 && bytes[2] <= 63,
        bytes.len() >= 8 ==> holds_number(bytes, 6, 2, method as nat) && CompressionMethod::of_id(
            method,
        ) is Some,
        bytes.len() >= 42 ==> {
            &&& holds_number(bytes, 38, 4, offset as nat)
            &&& offset <= maximum_allowed_offset
            &&& holds_number(bytes, 24, 2, name_len as nat)
            &&& holds_number(bytes, 26, 2, extra_len as nat)
            &&& holds_number(bytes, 28, 2, comment_len as nat)
        },
        bytes.len() >= 42 + name_len ==> valid_utf8(bytes.subrange(42, 42 + name_len)),
    ensures
        cdfh_outcome(bytes, maximum_allowed_offset) matches Outcome::Short(at) && is_last_field(
            cdfh_field_begins(name_len as int, extra_len as int),
            at as int,
            bytes.len() as int,
        ),
{
    if bytes.len() >= 4 {
        lemma_low_byte(bytes, 0);
        lemma_low_byte(bytes, 2);
    }
    if bytes.len() >= 8 {
        law_u16_read_back(bytes, 6, method);
    }
    if bytes.len() >= 42 {
        law_u16_read_back(bytes, 24, name_len);
        law_u16_read_back(bytes, 26, extra_len);
        law_u16_read_back(bytes, 28, comment_len);
        law_u32_read_back(bytes, 38, offset);
    }
}

/// Whether bytes are a file header behind its signature, of a file that was compressed with
/// DEFLATE, with a name and an extra field of these lengths. The other fields hold anything.
pub open spec fn is_deflated_fh(bytes: Seq<u8>, name_len: u16, extra_len: u16) -> bool {
    &&& bytes.len() == 26 + name_len + extra_len
    &&& bytes[0] <= 63
    &&& bytes[4] == 8 && bytes[5] == 0
    &&& holds_number(bytes, 22, 2, name_len as nat)
    &&& holds_number(bytes, 24, 2, extra_len as nat)
}

/// The header of a file that was compressed with DEFLATE is read to its last byte and no further,
/// whatever its flags, times, checksum and sizes are.
pub proof fn law_fh_read_back(bytes: Seq<u8>, more: Seq<u8>, name_len: u16, extra_len: u16)
    requires
        is_deflated_fh(bytes, name_len, extra_len),
    ensures
        fh_outcome(bytes + more) == Outcome::Read(MaybeFh::Deflated, bytes.len()),
        !is_unsupported_fh(bytes + more),
{
    let whole = bytes + more;
    lemma_numbers_stay(bytes, more);
    lemma_low_byte(whole, 0);
    assert(le_u16(whole, 4) == 8);
    law_u16_read_back(whole, 22, name_len);
    law_u16_read_back(whole, 24, extra_len);
}

/// What looks like a file header is refused where its version is over 63 or there is no such
/// method, and is of a file that cannot be read where the method is not DEFLATE.
pub proof fn law_fh_refused(bytes: Seq<u8>, method: u16)
    requires
        bytes.len() >= 2,
    ensures
        bytes[0] > 63 ==> fh_outcome(bytes) == Outcome::Read(MaybeFh::FalsePositive, 2),
        bytes[0] <= 63 && holds_number(bytes, 4, 2, method as nat) ==> {
            &&& CompressionMethod::of_id(method) is None ==> fh_outcome(bytes) == Outcome::Read(
                MaybeFh::FalsePositive,
                6,
            )
            &&& CompressionMethod::of_id(method) is Some && method != 8 ==> fh_outcome(bytes)
                == Outcome::Read(MaybeFh::Unsupported, 6)
            &&& is_unsupported_fh(bytes) <==> CompressionMethod::of_id(method) is Some && method
                != 8
        },
        bytes[0] > 63 || bytes.len() < 6 ==> !is_unsupported_fh(bytes),
{
    lemma_low_byte(bytes, 0);
    if bytes.len() >= 6 {
        law_u16_read_back(bytes, 4, method);
    }
}

/// Where the fields of a file header begin, with a name of this length.
pub open spec fn fh_field_begins(name_len: int) -> spec_fn(int) -> bool {
    |at: int|
        {
            ||| at == 0 || at == 2 || at == 4 || at == 6 || at == 8
            ||| at == 10 || at == 14 || at == 18
            ||| at == 22 || at == 24
            ||| at == 26 || at == 26 + name_len
        }
}

/// A file header of which not all has come, and in which nothing that has come shows that it is
/// none, breaks off in the field whose end is missing.
pub proof fn law_fh_breaks_off(bytes: Seq<u8>, name_len: u16, extra_len: u16)
    requires
        bytes.len() < 26 + name_len + extra_len,
        bytes.len() >= 2 ==> bytes[0] <= 63,
        bytes.len() >= 6 ==> bytes[4] == 8 && bytes[5] == 0,
        bytes.len() >= 26 ==> holds_number(bytes, 22, 2, name_len as nat) && holds_number(
            bytes,
            24,
            2,
            extra_len as nat,
        ),
    ensures
        fh_outcome(bytes) matches Outcome::Short(at) && is_last_field(
            fh_field_begins(name_len as int),
            at as int,
            bytes.len() as int,
        ),
{
    if bytes.len() >= 2 {
        lemma_low_byte(bytes, 0);
    }
    if bytes.len() >= 6 {
        assert(le_u16(bytes, 4) == 8);
    }
    if bytes.len() >= 26 {
        law_u16_read_back(bytes, 22, name_len);
        law_u16_read_back(bytes, 24, extra_len);
    }
}

/// A 32-bit end of central directory record as it is written behind its signature.
pub open spec fn eocd32_bytes(eocd: Eocd32, comment: Seq<u8>) -> Seq<u8> {
    le_bytes(eocd.this_disk_number as nat, 2) + le_bytes(eocd.cd_disk as nat, 2) + le_bytes(
        eocd.cd_records_on_disk as nat,
        2,
    ) + le_bytes(eocd.cd_records_total as nat, 2) + le_bytes(eocd.cd_size as nat, 4) + le_bytes(
        eocd.cd_offset as nat,
        4,
    ) + le_bytes(comment.len(), 2) + comment
}

/// Whether bytes are a 32-bit end of central directory record behind its signature, with these
/// values in its fields and a comment of this length.
pub open spec fn is_eocd32(bytes: Seq<u8>, eocd: Eocd32, comment_len: u16) -> bool {
    &&& bytes.len() == 18 + comment_len
    &&& holds_number(bytes, 0, 2, eocd.this_disk_number as nat)
    &&& holds_number(bytes, 2, 2, eocd.cd_disk as nat)
    &&& holds_number(bytes, 4, 2, eocd.cd_records_on_disk as nat)
    &&& holds_number(bytes, 6, 2, eocd.cd_records_total as nat)
    &&& holds_number(bytes, 8, 4, eocd.cd_size as nat)
    &&& holds_number(bytes, 12, 4, eocd.cd_offset as nat)
    &&& holds_number(bytes, 16, 2, comment_len as nat)
}

/// A record that is written from given values has those values in its fields.
pub proof fn law_eocd32_written(eocd: Eocd32, comment: Seq<u8>)
    requires
        comment.len() <= 0xffff,
    ensures
        is_eocd32(eocd32_bytes(eocd, comment), eocd, comment.len() as u16),
{
    let bytes = eocd32_bytes(eocd, comment);
    assert forall|value: nat| #[trigger] le_bytes(value, 2).len() == 2 by {
        lemma_le_bytes_len(value, 2);
    }
    assert forall|value: nat| #[trigger] le_bytes(value, 4).len() == 4 by {
        lemma_le_bytes_len(value, 4);
    }
    assert(bytes.subrange(0, 2) =~= le_bytes(eocd.this_disk_number as nat, 2));
    assert(bytes.subrange(2, 4) =~= le_bytes(eocd.cd_disk as nat, 2));
    assert(bytes.subrange(4, 6) =~= le_bytes(eocd.cd_records_on_disk as nat, 2));
    assert(bytes.subrange(6, 8) =~= le_bytes(eocd.cd_records_total as nat, 2));
    assert(bytes.subrange(8, 12) =~= le_bytes(eocd.cd_size as nat, 4));
    assert(bytes.subrange(12, 16) =~= le_bytes(eocd.cd_offset as nat, 4));
    assert(bytes.subrange(16, 18) =~= le_bytes(comment.len(), 2));
}

/// Whether a 32-bit end of central directory record says of an archive of this size what can be:
/// disk numbers of at most 256, and a central directory that is no larger than the archive and does
/// not begin behind it.
pub open spec fn is_plausible(eocd: Eocd32, filesize: usize) -> bool {
    &&& eocd.this_disk_number <= 256
    &&& eocd.cd_disk <= 256
    &&& eocd.cd_size <= filesize
    &&& eocd.cd_offset <= filesize
}

/// Whether a 32-bit end of central directory record only says that there is one of a Zip64.
pub open spec fn is_stand_in(eocd: Eocd32) -> bool {
    &&& eocd.this_disk_number == 255
    &&& eocd.cd_disk == 255
    &&& eocd.cd_records_on_disk == 255
    &&& eocd.cd_records_total == 255
    &&& eocd.cd_size == 65535
    &&& eocd.cd_offset == 65535
}

/// A 32-bit end of central directory record is read with the values that are in its fields, to its
/// last byte and no further; one that stands in for a record of a Zip64 is told apart.
pub proof fn law_eocd32_read_back(
    bytes: Seq<u8>,
    more: Seq<u8>,
    eocd: Eocd32,
    comment_len: u16,
    filesize: usize,
)
    requires
        is_eocd32(bytes, eocd, comment_len),
        is_plausible(eocd, filesize),
    ensures
        eocd32_outcome(bytes + more, eocd.offset, filesize) == if is_stand_in(eocd) {
            Outcome::Read(MaybeEocd32::Zip64, 16)
        } else {
            Outcome::Read(MaybeEocd32::Eocd32(eocd), bytes.len())
        },
{
    let whole = bytes + more;
    lemma_numbers_stay(bytes, more);
    law_u16_read_back(whole, 0, eocd.this_disk_number);
    law_u16_read_back(whole, 2, eocd.cd_disk);
    law_u16_read_back(whole, 4, eocd.cd_records_on_disk);
    law_u16_read_back(whole, 6, eocd.cd_records_total);
    law_u32_read_back(whole, 8, eocd.cd_size);
    law_u32_read_back(whole, 12, eocd.cd_offset);
    law_u16_read_back(whole, 16, comment_len);
}

/// What looks like a 32-bit end of central directory record is refused as soon as a field shows
/// that it is none.
pub proof fn law_eocd32_refused(
    bytes: Seq<u8>,
    this_disk: u16,
    cd_disk: u16,
    size: u32,
    cd_offset: u32,
    offset: usize,
    filesize: usize,
)
    requires
        holds_number(bytes, 0, 2, this_disk as nat),
    ensures
        this_disk > 256 ==> eocd32_outcome(bytes, offset, filesize) == Outcome::Read(
            MaybeEocd32::FalsePositive,
            2,
        ),
        this_disk <= 256 && holds_number(bytes, 2, 2, cd_disk as nat) ==> {
            &&& cd_disk > 256 ==> eocd32_outcome(bytes, offset, filesize) == Outcome::Read(
                MaybeEocd32::FalsePositive,
                4,
            )
            &&& cd_disk <= 256 && holds_number(bytes, 8, 4, size as nat) ==> {
                &&& size > filesize ==> eocd32_outcome(bytes, offset, filesize) == Outcome::Read(
                    MaybeEocd32::FalsePositive,
                    12,
                )
                &&& size <= filesize && holds_number(bytes, 12, 4, cd_offset as nat) && cd_offset
                    > filesize ==> eocd32_outcome(bytes, offset, filesize) == Outcome::Read(
                    MaybeEocd32::FalsePositive,
                    16,
                )
            }
        },
{
    law_u16_read_back(bytes, 0, this_disk);
    if bytes.len() >= 4 {
        law_u16_read_back(bytes, 2, cd_disk);
    }
    if bytes.len() >= 12 {
        law_u32_read_back(bytes, 8, size);
    }
    if bytes.len() >= 16 {
        law_u32_read_back(bytes, 12, cd_offset);
    }
}

/// Where the fields of a 32-bit end of central directory record begin.
pub open spec fn eocd32_field_begins() -> spec_fn(int) -> bool {
    |at: int|
        {
            ||| at == 0 || at == 2 || at == 4 || at == 6
            ||| at == 8 || at == 12
            ||| at == 16 || at == 18
        }
}

/// A 32-bit end of central directory record of which not all has come breaks off in the field whose
/// end is missing. Up to its comment, it does not break off where it stands in for another record.
pub proof fn law_eocd32_breaks_off(
    bytes: Seq<u8>,
    eocd: Eocd32,
    comment_len: u16,
    count: int,
    filesize: usize,
)
    requires
        is_eocd32(bytes, eocd, comment_len),
        is_plausible(eocd, filesize),
        0 <= count < bytes.len(),
        count < 16 || !is_stand_in(eocd),
    ensures
        eocd32_outcome(bytes.take(count), eocd.offset, filesize) matches Outcome::Short(at)
            && is_last_field(eocd32_field_begins(), at as int, count),
{
    let whole = bytes.take(count);
    law_u16_read_back(bytes, 0, eocd.this_disk_number);
    law_u16_read_back(bytes, 2, eocd.cd_disk);
    law_u16_read_back(bytes, 4, eocd.cd_records_on_disk);
    law_u16_read_back(bytes, 6, eocd.cd_records_total);
    law_u32_read_back(bytes, 8, eocd.cd_size);
    law_u32_read_back(bytes, 12, eocd.cd_offset);
    law_u16_read_back(bytes, 16, comment_len);
    assert(forall|at: int|
        0 <= at && at + 2 <= count ==> #[trigger] le_u16(whole, at) == le_u16(bytes, at));
    assert(forall|at: int|
        0 <= at && at + 4 <= count ==> #[trigger] le_u32(whole, at) == le_u32(bytes, at));
}

/// A Zip64 end of central directory record as it is written behind its signature: how long it says
/// that it is, the versions, and the values of its fields.
pub open spec fn eocd64_bytes(
    len: u64,
    version_made_by: u16,
    version_to_extract: u16,
    eocd: Eocd64,
) -> Seq<u8> {
    le_bytes(len as nat, 8) + le_bytes(version_made_by as nat, 2) + le_bytes(
        version_to_extract as nat,
        2,
    ) + le_bytes(eocd.this_disk_number as nat, 4) + le_bytes(eocd.cd_disk as nat, 4) + le_bytes(
        eocd.cd_records_on_disk as nat,
        8,
    ) + le_bytes(eocd.cd_records_total as nat, 8) + le_bytes(eocd.cd_size as nat, 8) + le_bytes(
        eocd.cd_offset as nat,
        8,
    )
}

/// Whether bytes are a Zip64 end of central directory record behind its signature, with these
/// values in its fields. How long it says that it is, and its versions, are anything.
pub open spec fn is_eocd64(bytes: Seq<u8>, eocd: Eocd64) -> bool {
    &&& bytes.len() == 52
    &&& holds_number(bytes, 12, 4, eocd.this_disk_number as nat)
    &&& holds_number(bytes, 16, 4, eocd.cd_disk as nat)
    &&& holds_number(bytes, 20, 8, eocd.cd_records_on_disk as nat)
    &&& holds_number(bytes, 28, 8, eocd.cd_records_total as nat)
    &&& holds_number(bytes, 36, 8, eocd.cd_size as nat)
    &&& holds_number(bytes, 44, 8, eocd.cd_offset as nat)
}

/// A record that is written from given values has those values in its fields.
pub proof fn law_eocd64_written(
    len: u64,
    version_made_by: u16,
    version_to_extract: u16,
    eocd: Eocd64,
)
    ensures
        is_eocd64(eocd64_bytes(len, version_made_by, version_to_extract, eocd), eocd),
        eocd64_bytes(len, version_made_by, version_to_extract, eocd)[8] == version_made_by % 256,
        eocd64_bytes(len, version_made_by, version_to_extract, eocd)[10] == version_to_extract
            % 256,
{
    let bytes = eocd64_bytes(len, version_made_by, version_to_extract, eocd);
    assert forall|value: nat| #[trigger] le_bytes(value, 2).len() == 2 by {
        lemma_le_bytes_len(value, 2);
    }
    assert forall|value: nat| #[trigger] le_bytes(value, 4).len() == 4 by {
        lemma_le_bytes_len(value, 4);
    }
    assert forall|value: nat| #[trigger] le_bytes(value, 8).len() == 8 by {
        lemma_le_bytes_len(value, 8);
    }
    assert(bytes.subrange(8, 10) =~= le_bytes(version_made_by as nat, 2));
    assert(bytes.subrange(10, 12) =~= le_bytes(version_to_extract as nat, 2));
    assert(bytes.subrange(12, 16) =~= le_bytes(eocd.this_disk_number as nat, 4));
    assert(bytes.subrange(16, 20) =~= le_bytes(eocd.cd_disk as nat, 4));
    assert(bytes.subrange(20, 28) =~= le_bytes(eocd.cd_records_on_disk as nat, 8));
    assert(bytes.subrange(28, 36) =~= le_bytes(eocd.cd_records_total as nat, 8));
    assert(bytes.subrange(36, 44) =~= le_bytes(eocd.cd_size as nat, 8));
    assert(bytes.subrange(44, 52) =~= le_bytes(eocd.cd_offset as nat, 8));
    assert(bytes[8] == bytes.subrange(8, 10)[0]);
    assert(bytes[10] == bytes.subrange(10, 12)[0]);
}

/// A Zip64 end of central directory record is read with the values that are in its fields where
/// both versions are at most 63. Only the low byte of a version field is the version.
pub proof fn law_eocd64_read_back(bytes: Seq<u8>, more: Seq<u8>, eocd: Eocd64)
    requires
        is_eocd64(bytes, eocd),
        bytes[8] <= 63 && bytes[10] <= 63,
    ensures
        eocd64_outcome(bytes + more, eocd.offset) == Outcome::Read(Some(eocd), 52),
{
    let whole = bytes + more;
    lemma_numbers_stay(bytes, more);
    lemma_low_byte(whole, 8);
    lemma_low_byte(whole, 10);
    law_u32_read_back(whole, 12, eocd.this_disk_number);
    law_u32_read_back(whole, 16, eocd.cd_disk);
    law_u64_read_back(whole, 20, eocd.cd_records_on_disk);
    law_u64_read_back(whole, 28, eocd.cd_records_total);
    law_u64_read_back(whole, 36, eocd.cd_size);
    law_u64_read_back(whole, 44, eocd.cd_offset);
}

/// Where the fields of a Zip64 end of central directory record begin.
pub open spec fn eocd64_field_begins() -> spec_fn(int) -> bool {
    |at: int|
        {
            ||| at == 0 || at == 8 || at == 10
            ||| at == 12 || at == 16
            ||| at == 20 || at == 28 || at == 36 || at == 44
        }
}

/// What looks like a Zip64 end of central directory record is refused where a version is over 63,
/// and otherwise breaks off in the field whose end is missing where not all of it has come.
pub proof fn law_eocd64_refused(bytes: Seq<u8>, offset: usize)
    ensures
        bytes.len() >= 12 && (bytes[8] > 63 || bytes[10] > 63) ==> eocd64_outcome(bytes, offset)
            == Outcome::Read(None::<Eocd64>, 12),
        bytes.len() < 12 || (bytes.len() < 52 && bytes[8] <= 63 && bytes[10] <= 63) ==> (
        eocd64_outcome(bytes, offset) matches Outcome::Short(at) && is_last_field(
            eocd64_field_begins(),
            at as int,
            bytes.len() as int,
        )),
{
    if bytes.len() >= 12 {
        lemma_low_byte(bytes, 8);
        lemma_low_byte(bytes, 10);
    }
}

} // verus!
