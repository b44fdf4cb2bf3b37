use bytes::Bytes;
use ziponline::parser::{Parser, Shortage};
use ziponline::records::{
    has_unsupported_fh, read_cdfh, read_eocd32, read_eocd64, read_fh, MaybeEocd32,
};
use ziponline::structs::{CompressionMethod, Eocd32, Eocd64};

fn whole(bytes: &[u8]) -> Parser {
    let mut parser = Parser::new();
    parser.supply(Some(Bytes::copy_from_slice(bytes)));
    parser.supply(None);
    parser
}

fn left(parser: &mut Parser) -> Vec<u8> {
    let mut left = vec![];
    while let Ok(Some(byte)) = parser.next() {
        left.push(byte);
    }
    left
}

/// A central directory file header behind its signature.
fn cdfh_bytes(
    version: u16,
    method: u16,
    offset: u32,
    name: &[u8],
    extra: &[u8],
    comment: &[u8],
) -> Vec<u8> {
    let mut bytes = vec![];
    bytes.extend(0x0314u16.to_le_bytes());
    bytes.extend(version.to_le_bytes());
    bytes.extend(0x0800u16.to_le_bytes());
    bytes.extend(method.to_le_bytes());
    bytes.extend(0x1111u16.to_le_bytes());
    bytes.extend(0x2222u16.to_le_bytes());
    bytes.extend(0xdeadbeefu32.to_le_bytes());
    bytes.extend(14u32.to_le_bytes());
    bytes.extend(12u32.to_le_bytes());
    bytes.extend((name.len() as u16).to_le_bytes());
    bytes.extend((extra.len() as u16).to_le_bytes());
    bytes.extend((comment.len() as u16).to_le_bytes());
    bytes.extend(3u16.to_le_bytes());
    bytes.extend(4u16.to_le_bytes());
    bytes.extend(0x55667788u32.to_le_bytes());
    bytes.extend(offset.to_le_bytes());
    bytes.extend(name);
    bytes.extend(extra);
    bytes.extend(comment);
    bytes
}

#[test]
fn cdfh_is_read() {
    let mut bytes = cdfh_bytes(20, 8, 1000, "h\u{e9}llo.txt".as_bytes(), &[1, 2, 3], b"note");
    bytes.extend([9, 9]);
    let mut parser = whole(&bytes);
    let cdfh = read_cdfh(&mut parser, 1000).unwrap().unwrap();
    assert_eq!(cdfh.version_made_by, 0x0314);
    assert_eq!(cdfh.version_to_extract, 20);
    assert_eq!(cdfh.general_purpose_flags, 0x0800);
    assert_eq!(cdfh.compression_method, CompressionMethod::Deflated);
    assert_eq!(cdfh.last_modification_time, 0x1111);
    assert_eq!(cdfh.last_modification_date, 0x2222);
    assert_eq!(cdfh.crc32, 0xdeadbeef);
    assert_eq!(cdfh.compressed_size, 14);
    assert_eq!(cdfh.uncompressed_size, 12);
    assert_eq!(cdfh.extra_field_length, 3);
    assert_eq!(cdfh.file_comment_length, 4);
    assert_eq!(cdfh.disk_number, 3);
    assert_eq!(cdfh.internal_attrs, 4);
    assert_eq!(cdfh.external_attrs, 0x55667788);
    assert_eq!(cdfh.file_header_offset, 1000);
    assert_eq!(cdfh.filename, "h\u{e9}llo.txt");
    assert_eq!(left(&mut parser), vec![9, 9]);
}

#[test]
fn cdfh_with_an_unknown_version_is_refused() {
    let bytes = cdfh_bytes(64, 8, 0, b"a", &[], &[]);
    let mut parser = whole(&bytes);
    assert!(read_cdfh(&mut parser, 1000).unwrap().is_none());
    assert_eq!(left(&mut parser), bytes[4..].to_vec());
    // Only the low 8 bits are the version.
    assert!(read_cdfh(&mut whole(&cdfh_bytes(0xff3f, 8, 0, b"a", &[], &[])), 1000)
        .unwrap()
        .is_some());
}

#[test]
fn cdfh_with_an_unknown_method_is_refused() {
    let bytes = cdfh_bytes(20, 7, 0, b"a", &[], &[]);
    let mut parser = whole(&bytes);
    assert!(read_cdfh(&mut parser, 1000).unwrap().is_none());
    assert_eq!(left(&mut parser), bytes[8..].to_vec());
}

#[test]
fn cdfh_that_points_behind_the_record_is_refused() {
    let bytes = cdfh_bytes(20, 8, 1001, b"abc", &[], &[]);
    let mut parser = whole(&bytes);
    assert!(read_cdfh(&mut parser, 1000).unwrap().is_none());
    assert_eq!(left(&mut parser), b"abc".to_vec());
}

#[test]
fn cdfh_with_a_name_that_is_not_utf8_is_refused() {
    let bytes = cdfh_bytes(20, 8, 0, &[b'a', 0xff], &[1, 2], &[3]);
    let mut parser = whole(&bytes);
    assert!(read_cdfh(&mut parser, 1000).unwrap().is_none());
    assert_eq!(left(&mut parser), vec![1, 2, 3]);
}

#[test]
fn cdfh_that_breaks_off_leaves_the_broken_field() {
    let bytes = cdfh_bytes(20, 8, 0, b"abc", b"defg", b"hij");
    let fields = [0, 2, 4, 6, 8, 10, 12, 16, 20, 24, 26, 28, 30, 32, 34, 38, 42, 45, 49];
    for len in 0..bytes.len() {
        let mut parser = whole(&bytes[..len]);
        assert_eq!(
            read_cdfh(&mut parser, 1000).unwrap_err(),
            Shortage::UnexpectedEof
        );
        let begin = fields.iter().filter(|field| **field <= len).max().unwrap();
        assert_eq!(left(&mut parser), bytes[*begin..len].to_vec());
    }
}

#[test]
fn cdfh_is_read_once_all_of_it_has_come() {
    let bytes = cdfh_bytes(20, 8, 0, b"abc", b"defg", b"hij");
    let mut parser = Parser::new();
    for byte in &bytes {
        assert_eq!(read_cdfh(&mut parser, 1000).unwrap_err(), Shortage::Pending);
        parser.supply(Some(Bytes::copy_from_slice(&[*byte])));
    }
    assert_eq!(read_cdfh(&mut parser, 1000).unwrap().unwrap().filename, "abc");
    assert_eq!(parser.next(), Err(Shortage::Pending));
}

/// A file header behind its signature.
fn fh_bytes(version: u16, method: u16, name: &[u8], extra: &[u8]) -> Vec<u8> {
    let mut bytes = vec![];
    bytes.extend(version.to_le_bytes());
    bytes.extend(0u16.to_le_bytes());
    bytes.extend(method.to_le_bytes());
    bytes.extend([0; 16]);
    bytes.extend((name.len() as u16).to_le_bytes());
    bytes.extend((extra.len() as u16).to_le_bytes());
    bytes.extend(name);
    bytes.extend(extra);
    bytes
}

#[test]
fn fh_is_read() {
    let mut bytes = fh_bytes(20, 8, b"name", &[1, 2, 3]);
    bytes.extend(b"rest");
    let mut parser = whole(&bytes);
    assert!(!has_unsupported_fh(&mut parser));
    assert_eq!(read_fh(&mut parser), Ok(Some(())));
    assert_eq!(left(&mut parser), b"rest".to_vec());
}

#[test]
fn fh_is_a_false_positive() {
    let bytes = fh_bytes(64, 8, b"", &[]);
    let mut parser = whole(&bytes);
    assert_eq!(read_fh(&mut parser), Ok(None));
    assert_eq!(left(&mut parser), bytes[2..].to_vec());
    let bytes = fh_bytes(20, 1, b"", &[]);
    let mut parser = whole(&bytes);
    assert_eq!(read_fh(&mut parser), Ok(None));
    assert_eq!(left(&mut parser), bytes[6..].to_vec());
}

#[test]
fn fh_of_another_method_is_unsupported() {
    for method in [0, 9, 12, 14, 93, 95, 99] {
        let bytes = fh_bytes(20, method, b"", &[]);
        let mut parser = whole(&bytes);
        assert!(has_unsupported_fh(&mut parser));
        assert_eq!(left(&mut parser), bytes);
        assert!(!has_unsupported_fh(&mut whole(&bytes[..5])));
    }
}

#[test]
fn fh_that_breaks_off_leaves_the_broken_field() {
    let bytes = fh_bytes(20, 8, b"abc", b"defg");
    let fields = [0, 2, 4, 6, 8, 10, 14, 18, 22, 24, 26, 29];
    for len in 0..bytes.len() {
        let mut parser = whole(&bytes[..len]);
        assert_eq!(read_fh(&mut parser), Err(Shortage::UnexpectedEof));
        let begin = fields.iter().filter(|field| **field <= len).max().unwrap();
        assert_eq!(left(&mut parser), bytes[*begin..len].to_vec());
    }
}

/// A 32-bit end of central directory record behind its signature.
fn eocd32_bytes(disks: u16, records: u16, size: u32, offset: u32, comment: &[u8]) -> Vec<u8> {
    let mut bytes = vec![];
    bytes.extend(disks.to_le_bytes());
    bytes.extend(disks.to_le_bytes());
    bytes.extend(records.to_le_bytes());
    bytes.extend(records.to_le_bytes());
    bytes.extend(size.to_le_bytes());
    bytes.extend(offset.to_le_bytes());
    bytes.extend((comment.len() as u16).to_le_bytes());
    bytes.extend(comment);
    bytes
}

#[test]
fn eocd32_is_read() {
    let mut bytes = eocd32_bytes(256, 7, 1000, 900, b"comment");
    bytes.push(1);
    let mut parser = whole(&bytes);
    assert_eq!(
        read_eocd32(&mut parser, 55, 1000),
        Ok(MaybeEocd32::Eocd32(Eocd32 {
            this_disk_number: 256,
            cd_disk: 256,
            cd_records_on_disk: 7,
            cd_records_total: 7,
            cd_size: 1000,
            cd_offset: 900,
            offset: 55,
        }))
    );
    assert_eq!(left(&mut parser), vec![1]);
}

#[test]
fn eocd32_is_a_false_positive() {
    let read = |bytes: &[u8]| {
        let mut parser = whole(bytes);
        let read = read_eocd32(&mut parser, 0, 1000).unwrap();
        (read, bytes.len() - left(&mut parser).len())
    };
    assert_eq!(
        read(&eocd32_bytes(257, 0, 0, 0, &[])),
        (MaybeEocd32::FalsePositive, 2)
    );
    let mut bytes = eocd32_bytes(0, 0, 0, 0, &[]);
    bytes[3] = 0xff;
    assert_eq!(read(&bytes), (MaybeEocd32::FalsePositive, 4));
    assert_eq!(
        read(&eocd32_bytes(0, 0, 1001, 0, &[])),
        (MaybeEocd32::FalsePositive, 12)
    );
    assert_eq!(
        read(&eocd32_bytes(0, 0, 1000, 1001, &[])),
        (MaybeEocd32::FalsePositive, 16)
    );
}

#[test]
fn eocd32_stands_in_for_zip64() {
    let bytes = eocd32_bytes(0xff, 0xff, 0xffff, 0xffff, &[]);
    let mut parser = whole(&bytes);
    assert_eq!(
        read_eocd32(&mut parser, 0, 1_000_000),
        Ok(MaybeEocd32::Zip64)
    );
    assert_eq!(left(&mut parser), vec![0, 0]);
}

#[test]
fn eocd32_that_breaks_off_leaves_the_broken_field() {
    let bytes = eocd32_bytes(0, 1, 2, 3, b"abc");
    let fields = [0, 2, 4, 6, 8, 12, 16, 18];
    for len in 0..bytes.len() {
        let mut parser = whole(&bytes[..len]);
        assert_eq!(
            read_eocd32(&mut parser, 0, 1000),
            Err(Shortage::UnexpectedEof)
        );
        let begin = fields.iter().filter(|field| **field <= len).max().unwrap();
        assert_eq!(left(&mut parser), bytes[*begin..len].to_vec());
    }
}

/// A Zip64 end of central directory record behind its signature.
fn eocd64_bytes(version: u16) -> Vec<u8> {
    let mut bytes = vec![];
    bytes.extend(44u64.to_le_bytes());
    bytes.extend(version.to_le_bytes());
    bytes.extend(45u16.to_le_bytes());
    bytes.extend(1u32.to_le_bytes());
    bytes.extend(2u32.to_le_bytes());
    bytes.extend(3u64.to_le_bytes());
    bytes.extend(4u64.to_le_bytes());
    bytes.extend(0x1_0000_0005u64.to_le_bytes());
    bytes.extend(0x2_0000_0006u64.to_le_bytes());
    bytes
}

#[test]
fn eocd64_is_read() {
    let mut bytes = eocd64_bytes(45);
    bytes.push(1);
    let mut parser = whole(&bytes);
    assert_eq!(
        read_eocd64(&mut parser, 77),
        Ok(Some(Eocd64 {
            this_disk_number: 1,
            cd_disk: 2,
            cd_records_on_disk: 3,
            cd_records_total: 4,
            cd_size: 0x1_0000_0005,
            cd_offset: 0x2_0000_0006,
            offset: 77,
        }))
    );
    assert_eq!(left(&mut parser), vec![1]);
}

#[test]
fn eocd64_is_a_false_positive() {
    let bytes = eocd64_bytes(64);
    let mut parser = whole(&bytes);
    assert_eq!(read_eocd64(&mut parser, 0), Ok(None));
    assert_eq!(left(&mut parser), bytes[12..].to_vec());
}

#[test]
fn eocd64_that_breaks_off_leaves_the_broken_field() {
    let bytes = eocd64_bytes(45);
    let fields = [0, 8, 10, 12, 16, 20, 28, 36, 44];
    for len in 0..bytes.len() {
        let mut parser = whole(&bytes[..len]);
        assert_eq!(read_eocd64(&mut parser, 0), Err(Shortage::UnexpectedEof));
        let begin = fields.iter().filter(|field| **field <= len).max().unwrap();
        assert_eq!(left(&mut parser), bytes[*begin..len].to_vec());
    }
}
