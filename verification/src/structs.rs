//! The records of a zip archive.
use vstd::prelude::*;

verus! {

/// End of central directory record.
#[derive(Debug, PartialEq, Eq)]
pub struct Eocd {
    pub this_disk_number: u32,
    pub cd_disk: u32,
    pub cd_records_on_disk: u64,
    pub cd_records_total: u64,
    pub cd_size: u64,
    pub cd_offset: u64,
    pub offset: usize,
    pub is_zip64: bool,
}

/// End of central directory record for classic 32-bit zips.
#[derive(Debug, PartialEq, Eq)]
pub struct Eocd32 {
    pub this_disk_number: u16,
    pub cd_disk: u16,
    pub cd_records_on_disk: u16,
    pub cd_records_total: u16,
    pub cd_size: u32,
    pub cd_offset: u32,
    pub offset: usize,
}

/// End of central directory record for Zip64.
#[derive(Debug, PartialEq, Eq)]
pub struct Eocd64 {
    pub this_disk_number: u32,
    pub cd_disk: u32,
    pub cd_records_on_disk: u64,
    pub cd_records_total: u64,
    pub cd_size: u64,
    pub cd_offset: u64,
    pub offset: usize,
}

impl Eocd32 {
    /// The record in the form that both kinds of zip share.
    pub open spec fn widened(self) -> Eocd {
        Eocd {
            this_disk_number: self.this_disk_number as u32,
            cd_disk: self.cd_disk as u32,
            cd_records_on_disk: self.cd_records_on_disk as u64,
            cd_records_total: self.cd_records_total as u64,
            cd_size: self.cd_size as u64,
            cd_offset: self.cd_offset as u64,
            offset: self.offset,
            is_zip64: false,
        }
    }
}

impl From<Eocd32> for Eocd {
    fn from(value: Eocd32) -> (eocd: Self) {
        Eocd {
            this_disk_number: value.this_disk_number as u32,
            cd_disk: value.cd_disk as u32,
            cd_records_on_disk: value.cd_records_on_disk as u64,
            cd_records_total: value.cd_records_total as u64,
            cd_size: value.cd_size as u64,
            cd_offset: value.cd_offset as u64,
            offset: value.offset,
            is_zip64: false,
        }
    }
}

impl vstd::std_specs::convert::FromSpecImpl<Eocd32> for Eocd {
    open spec fn obeys_from_spec() -> bool {
        true
    }

    open spec fn from_spec(value: Eocd32) -> Self {
        value.widened()
    }
}

impl Eocd64 {
    /// The record in the form that both kinds of zip share.
    pub open spec fn widened(self) -> Eocd {
        Eocd {
            this_disk_number: self.this_disk_number,
            cd_disk: self.cd_disk,
            cd_records_on_disk: self.cd_records_on_disk,
            cd_records_total: self.cd_records_total,
            cd_size: self.cd_size,
            cd_offset: self.cd_offset,
            offset: self.offset,
            is_zip64: true,
        }
    }
}

impl From<Eocd64> for Eocd {
    fn from(value: Eocd64) -> (eocd: Self) {
        Eocd {
            this_disk_number: value.this_disk_number,
            cd_disk: value.cd_disk,
            cd_records_on_disk: value.cd_records_on_disk,
            cd_records_total: value.cd_records_total,
            cd_size: value.cd_size,
            cd_offset: value.cd_offset,
            offset: value.offset,
            is_zip64: true,
        }
    }
}

impl vstd::std_specs::convert::FromSpecImpl<Eocd64> for Eocd {
    open spec fn obeys_from_spec() -> bool {
        true
    }

    open spec fn from_spec(value: Eocd64) -> Self {
        value.widened()
    }
}

/// Central directory file header.
#[derive(Debug)]
pub struct Cdfh {
    pub version_made_by: u16,
    pub version_to_extract: u16,
    pub general_purpose_flags: u16,
    pub compression_method: CompressionMethod,
    pub last_modification_time: u16,
    pub last_modification_date: u16,
    pub crc32: u32,
    pub compressed_size: u32,
    pub uncompressed_size: u32,
    pub extra_field_length: u16,
    pub file_comment_length: u16,
    pub disk_number: u16,
    pub internal_attrs: u16,
    pub external_attrs: u32,
    pub file_header_offset: u32,
    pub filename: String,
}

/// A central directory file header with its name as a sequence of characters.
#[verifier::ext_equal]
pub struct CdfhView {
    pub version_made_by: u16,
    pub version_to_extract: u16,
    pub general_purpose_flags: u16,
    pub compression_method: CompressionMethod,
    pub last_modification_time: u16,
    pub last_modification_date: u16,
    pub crc32: u32,
    pub compressed_size: u32,
    pub uncompressed_size: u32,
    pub extra_field_length: u16,
    pub file_comment_length: u16,
    pub disk_number: u16,
    pub internal_attrs: u16,
    pub external_attrs: u32,
    pub file_header_offset: u32,
    pub filename: Seq<char>,
}

impl View for Cdfh {
    type V = CdfhView;

    open spec fn view(&self) -> CdfhView {
        CdfhView {
            version_made_by: self.version_made_by,
            version_to_extract: self.version_to_extract,
            general_purpose_flags: self.general_purpose_flags,
            compression_method: self.compression_method,
            last_modification_time: self.last_modification_time,
            last_modification_date: self.last_modification_date,
            crc32: self.crc32,
            compressed_size: self.compressed_size,
            uncompressed_size: self.uncompressed_size,
            extra_field_length: self.extra_field_length,
            file_comment_length: self.file_comment_length,
            disk_number: self.disk_number,
            internal_attrs: self.internal_attrs,
            external_attrs: self.external_attrs,
            file_header_offset: self.file_header_offset,
            filename: self.filename@,
        }
    }
}

/// How the contents of a file are compressed.
#[derive(Debug, PartialEq, Eq, Structural)]
pub enum CompressionMethod {
    Stored,
    Deflated,
    Deflate64,
    Bzip2,
    Lzma,
    Zstd,
    Xz,
    Aes,
}

impl CompressionMethod {
    /// The number that stands for the method in a header.
    pub open spec fn id(self) -> u16 {
        match self {
            CompressionMethod::Stored => 0,
            CompressionMethod::Deflated => 8,
            CompressionMethod::Deflate64 => 9,
            CompressionMethod::Bzip2 => 12,
            CompressionMethod::Lzma => 14,
            CompressionMethod::Zstd => 93,
            CompressionMethod::Xz => 95,
            CompressionMethod::Aes => 99,
        }
    }

    /// The method with a given number, if there is one.
    pub open spec fn of_id(id: u16) -> Option<CompressionMethod> {
        match id {
            0 => Some(CompressionMethod::Stored),
            8 => Some(CompressionMethod::Deflated),
            9 => Some(CompressionMethod::Deflate64),
            12 => Some(CompressionMethod::Bzip2),
            14 => Some(CompressionMethod::Lzma),
            93 => Some(CompressionMethod::Zstd),
            95 => Some(CompressionMethod::Xz),
            99 => Some(CompressionMethod::Aes),
            _ => None,
        }
    }

    /// The method with a given number, if there is one.
    pub fn from_id(id: u16) -> (method: Option<CompressionMethod>)
        ensures
            method == CompressionMethod::of_id(id),
    {
        Some(match id {
            0 => CompressionMethod::Stored,
            8 => CompressionMethod::Deflated,
            9 => CompressionMethod::Deflate64,
            12 => CompressionMethod::Bzip2,
            14 => CompressionMethod::Lzma,
            93 => CompressionMethod::Zstd,
            95 => CompressionMethod::Xz,
            99 => CompressionMethod::Aes,
            _ => {
                return None;
            },
        })
    }

    /// A method is found under its own number and under no other.
    pub proof fn law_found_under_own_id(id: u16, method: CompressionMethod)
        ensures
            CompressionMethod::of_id(id) == Some(method) <==> method.id() == id,
    {
    }
}

/// A record in the form that both kinds of zip share has the values that it had.
pub proof fn law_widened_keeps_values(short: Eocd32, long: Eocd64)
    ensures
        ({
            let eocd = short.widened();
            &&& eocd.this_disk_number as int == short.this_disk_number as int
            &&& eocd.cd_disk as int == short.cd_disk as int
            &&& eocd.cd_records_on_disk as int == short.cd_records_on_disk as int
            &&& eocd.cd_records_total as int == short.cd_records_total as int
            &&& eocd.cd_size as int == short.cd_size as int
            &&& eocd.cd_offset as int == short.cd_offset as int
            &&& eocd.offset == short.offset
            &&& !eocd.is_zip64
        }),
        ({
            let eocd = long.widened();
            &&& eocd.this_disk_number == long.this_disk_number
            &&& eocd.cd_disk == long.cd_disk
            &&& eocd.cd_records_on_disk == long.cd_records_on_disk
            &&& eocd.cd_records_total == long.cd_records_total
            &&& eocd.cd_size == long.cd_size
            &&& eocd.cd_offset == long.cd_offset
            &&& eocd.offset == long.offset
            &&& eocd.is_zip64
        }),
{
}

/// The view of a header has the values of its fields.
pub proof fn law_view_has_fields(cdfh: Cdfh)
    ensures
        cdfh@.version_made_by == cdfh.version_made_by,
        cdfh@.version_to_extract == cdfh.version_to_extract,
        cdfh@.general_purpose_flags == cdfh.general_purpose_flags,
        cdfh@.compression_method == cdfh.compression_method,
        cdfh@.last_modification_time == cdfh.last_modification_time,
        cdfh@.last_modification_date == cdfh.last_modification_date,
        cdfh@.crc32 == cdfh.crc32,
        cdfh@.compressed_size == cdfh.compressed_size,
        cdfh@.uncompressed_size == cdfh.uncompressed_size,
        cdfh@.extra_field_length == cdfh.extra_field_length,
        cdfh@.file_comment_length == cdfh.file_comment_length,
        cdfh@.disk_number == cdfh.disk_number,
        cdfh@.internal_attrs == cdfh.internal_attrs,
        cdfh@.external_attrs == cdfh.external_attrs,
        cdfh@.file_header_offset == cdfh.file_header_offset,
        cdfh@.filename == cdfh.filename@,
{
}

} // verus!
