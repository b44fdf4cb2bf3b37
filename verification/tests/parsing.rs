use std::num::IntErrorKind;

use bytes::Bytes;
use reqwest::header::HeaderValue;
use ziponline::content_length::request_content_length;
use ziponline::decimal::decimal_text;
use ziponline::parser::{Parser, Shortage};
use ziponline::range::{from_range_header, inclusive_range_header};
use ziponline::structs::{CompressionMethod, Eocd, Eocd32, Eocd64};
use ziponline::Error;

fn parser_of(chunks: &[&[u8]]) -> Parser {
    let mut parser = Parser::new();
    for chunk in chunks {
        parser.supply(Some(Bytes::copy_from_slice(chunk)));
    }
    parser
}

#[test]
fn numbers_are_little_endian() {
    let mut parser = parser_of(&[&[1, 2, 3, 4, 5, 6, 7, 8, 9, 10, 11, 12, 13, 14]]);
    assert_eq!(parser.take_u16(), Ok(0x0201));
    assert_eq!(parser.take_u32(), Ok(0x06050403));
    assert_eq!(parser.take_u64(), Ok(0x0e0d0c0b0a090807));
}

#[test]
fn largest_numbers_are_read() {
    let mut parser = parser_of(&[&[0xff; 14]]);
    assert_eq!(parser.take_u16(), Ok(u16::MAX));
    assert_eq!(parser.take_u32(), Ok(u32::MAX));
    assert_eq!(parser.take_u64(), Ok(u64::MAX));
}

#[test]
fn chunks_are_joined() {
    let mut parser = parser_of(&[&[1], &[], &[2], &[3, 4], &[5], &[6, 7, 8]]);
    assert_eq!(parser.take_bytes(5).unwrap(), Bytes::from(vec![1, 2, 3, 4, 5]));
    assert_eq!(parser.take_fixed_slice::<3>(), Ok([6, 7, 8]));
    assert_eq!(parser.next(), Err(Shortage::Pending));
}

#[test]
fn chunks_come_after_bytes_were_taken() {
    let mut parser = parser_of(&[&[1, 2, 3]]);
    assert_eq!(parser.take_u16(), Ok(0x0201));
    parser.supply(Some(Bytes::from(vec![4, 5])));
    parser.supply(Some(Bytes::from(vec![6])));
    assert_eq!(parser.take_u32(), Ok(0x06050403));
}

#[test]
fn nothing_is_taken_before_enough_has_come() {
    let mut parser = parser_of(&[&[1, 2, 3]]);
    assert_eq!(parser.take_u32(), Err(Shortage::Pending));
    assert!(parser.take_bytes(4).is_err());
    assert_eq!(parser.skip_bytes(4), Err(Shortage::Pending));
    assert_eq!(parser.take_fixed_slice::<4>(), Err(Shortage::Pending));
    parser.supply(Some(Bytes::from(vec![4])));
    assert_eq!(parser.take_u32(), Ok(0x04030201));
}

#[test]
fn nothing_is_taken_over_the_end() {
    let mut parser = parser_of(&[&[1, 2, 3]]);
    parser.supply(None);
    assert_eq!(parser.take_u32(), Err(Shortage::UnexpectedEof));
    assert_eq!(parser.take_u64(), Err(Shortage::UnexpectedEof));
    assert_eq!(parser.skip_bytes(4), Err(Shortage::UnexpectedEof));
    assert_eq!(parser.skip_bytes(1), Ok(()));
    assert_eq!(parser.take_u16(), Ok(0x0302));
    assert_eq!(parser.take_u16(), Err(Shortage::UnexpectedEof));
    assert_eq!(parser.next(), Ok(None));
}

#[test]
fn bytes_come_one_by_one() {
    let mut parser = parser_of(&[&[7], &[], &[8]]);
    assert_eq!(parser.next(), Ok(Some(7)));
    assert_eq!(parser.next(), Ok(Some(8)));
    assert_eq!(parser.next(), Err(Shortage::Pending));
    parser.supply(None);
    assert_eq!(parser.next(), Ok(None));
    assert_eq!(parser.next(), Ok(None));
}

#[test]
fn more_is_requested_only_where_needed() {
    let mut parser = parser_of(&[&[1, 2], &[3]]);
    assert!(!parser.request_atleast(0));
    assert!(!parser.request_atleast(2));
    assert!(!parser.request_atleast(3));
    assert!(parser.request_atleast(4));
    assert!(parser.request_atleast(usize::MAX));
    parser.supply(None);
    assert!(!parser.request_atleast(4));
}

#[test]
fn methods_are_found_by_id() {
    let known = [
        (0, CompressionMethod::Stored),
        (8, CompressionMethod::Deflated),
        (9, CompressionMethod::Deflate64),
        (12, CompressionMethod::Bzip2),
        (14, CompressionMethod::Lzma),
        (93, CompressionMethod::Zstd),
        (95, CompressionMethod::Xz),
        (99, CompressionMethod::Aes),
    ];
    let mut found = 0;
    for id in 0..=u16::MAX {
        if let Some(method) = CompressionMethod::from_id(id) {
            assert!(known.contains(&(id, method)));
            found += 1;
        }
    }
    assert_eq!(found, known.len());
}

#[test]
fn classic_record_is_widened() {
    let eocd = Eocd::from(Eocd32 {
        this_disk_number: 1,
        cd_disk: 2,
        cd_records_on_disk: 3,
        cd_records_total: 4,
        cd_size: 5,
        cd_offset: u32::MAX,
        offset: 7,
    });
    assert_eq!(
        eocd,
        Eocd {
            this_disk_number: 1,
            cd_disk: 2,
            cd_records_on_disk: 3,
            cd_records_total: 4,
            cd_size: 5,
            cd_offset: 0xffff_ffff,
            offset: 7,
            is_zip64: false,
        }
    );
}

#[test]
fn zip64_record_is_taken_over() {
    let eocd = Eocd::from(Eocd64 {
        this_disk_number: 1,
        cd_disk: 2,
        cd_records_on_disk: 3,
        cd_records_total: 4,
        cd_size: 5,
        cd_offset: u64::MAX,
        offset: 7,
    });
    assert_eq!(
        eocd,
        Eocd {
            this_disk_number: 1,
            cd_disk: 2,
            cd_records_on_disk: 3,
            cd_records_total: 4,
            cd_size: 5,
            cd_offset: u64::MAX,
            offset: 7,
            is_zip64: true,
        }
    );
}

#[test]
fn numbers_are_written_in_decimal() {
    assert_eq!(decimal_text(0), "0");
    assert_eq!(decimal_text(9), "9");
    assert_eq!(decimal_text(10), "10");
    assert_eq!(decimal_text(1234567890), "1234567890");
    assert_eq!(decimal_text(u64::MAX), "18446744073709551615");
    for number in 0..2000 {
        assert_eq!(decimal_text(number), number.to_string());
        assert_eq!(decimal_text(number).parse(), Ok(number));
    }
}

#[test]
fn ranges_are_written_as_headers() {
    assert_eq!(from_range_header(0), "bytes=0-");
    assert_eq!(from_range_header(4096), "bytes=4096-");
    assert_eq!(inclusive_range_header(744, 999), "bytes=744-999");
}

#[test]
fn content_length_is_read() {
    let value = HeaderValue::from_static("1234");
    assert!(matches!(request_content_length(Some(&value)), Ok(1234)));
    let value = HeaderValue::from_static("+0012");
    assert!(matches!(request_content_length(Some(&value)), Ok(12)));
    let largest = usize::MAX.to_string();
    let value = HeaderValue::from_str(&largest).unwrap();
    assert!(matches!(request_content_length(Some(&value)), Ok(usize::MAX)));
}

#[test]
fn content_length_is_missing() {
    assert!(matches!(
        request_content_length(None),
        Err(Error::ContentLengthMissing)
    ));
}

#[test]
fn content_length_is_not_ascii() {
    let value = HeaderValue::from_bytes(&[b'1', 0xe9]).unwrap();
    assert!(matches!(
        request_content_length(Some(&value)),
        Err(Error::ContentLengthInvalidAscii(_))
    ));
}

#[test]
fn content_length_is_not_a_number() {
    for text in ["", "+", "-1", "12 ", " 12", "1_000", "12a", "99999999999999999999999", "1\t"] {
        let value = HeaderValue::from_bytes(text.as_bytes()).unwrap();
        assert!(
            matches!(
                request_content_length(Some(&value)),
                Err(Error::ContentLengthParse(_))
            ),
            "{text:?}"
        );
    }
}

#[test]
fn content_length_error_says_what_is_wrong() {
    for (text, kind) in [
        ("", IntErrorKind::Empty),
        ("+", IntErrorKind::InvalidDigit),
        ("-1", IntErrorKind::InvalidDigit),
        ("12a", IntErrorKind::InvalidDigit),
        ("++1", IntErrorKind::InvalidDigit),
        ("100000000000000000000", IntErrorKind::PosOverflow),
        ("+100000000000000000000", IntErrorKind::PosOverflow),
    ] {
        let value = HeaderValue::from_static(text);
        match request_content_length(Some(&value)) {
            Err(Error::ContentLengthParse(e)) => assert_eq!(*e.kind(), kind, "{text:?}"),
            _ => panic!(),
        }
    }
}
