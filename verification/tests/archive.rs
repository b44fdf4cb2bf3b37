use std::io::Read;

use bytes::Bytes;
use reqwest::header::HeaderValue;
use ziponline::central_directory::{find_cdfh, CdParser};
use ziponline::eocd::{request_eocd, EocdFound};
use ziponline::error::{Abort, Failure, Step};
use ziponline::extract_file;
use ziponline::file::{read_file_at_cdfh, FileContents, FileReader};
use ziponline::open::{Action, Directory, Opening};
use ziponline::parser::Parser;
use ziponline::records::read_cdfh;
use ziponline::structs::{Cdfh, CompressionMethod, Eocd};
use ziponline::{Error, LazyZipFile};

/// "Hello, world", compressed.
const HELLO: [u8; 14] = [243, 72, 205, 201, 201, 215, 81, 40, 207, 47, 202, 73, 1, 0];

/// A stored block, which DEFLATE has for what cannot be compressed.
fn stored(text: &[u8]) -> Vec<u8> {
    let len = text.len() as u16;
    let mut bytes = vec![1];
    bytes.extend(len.to_le_bytes());
    bytes.extend((!len).to_le_bytes());
    bytes.extend(text);
    bytes
}

fn file_bytes(method: u16, name: &str, compressed: &[u8]) -> Vec<u8> {
    let mut bytes = b"PK\x03\x04".to_vec();
    bytes.extend(20u16.to_le_bytes());
    bytes.extend(0u16.to_le_bytes());
    bytes.extend(method.to_le_bytes());
    bytes.extend([0; 8]);
    bytes.extend((compressed.len() as u32).to_le_bytes());
    bytes.extend(0u32.to_le_bytes());
    bytes.extend((name.len() as u16).to_le_bytes());
    bytes.extend(4u16.to_le_bytes());
    bytes.extend(name.as_bytes());
    bytes.extend([0xaa; 4]);
    bytes.extend(compressed);
    bytes
}

fn entry_bytes(name: &str, compressed_size: u32, offset: u32) -> Vec<u8> {
    let mut bytes = b"PK\x01\x02".to_vec();
    bytes.extend(20u16.to_le_bytes());
    bytes.extend(20u16.to_le_bytes());
    bytes.extend(0u16.to_le_bytes());
    bytes.extend(8u16.to_le_bytes());
    bytes.extend([0; 8]);
    bytes.extend(compressed_size.to_le_bytes());
    bytes.extend(0u32.to_le_bytes());
    bytes.extend((name.len() as u16).to_le_bytes());
    bytes.extend([0; 12]);
    bytes.extend(offset.to_le_bytes());
    bytes.extend(name.as_bytes());
    bytes
}

fn eocd_bytes(records: u16, size: u32, offset: u32) -> Vec<u8> {
    let mut bytes = b"PK\x05\x06".to_vec();
    bytes.extend([0; 4]);
    bytes.extend(records.to_le_bytes());
    bytes.extend(records.to_le_bytes());
    bytes.extend(size.to_le_bytes());
    bytes.extend(offset.to_le_bytes());
    bytes.extend(0u16.to_le_bytes());
    bytes
}

fn eocd64_bytes(size: u64, offset: u64) -> Vec<u8> {
    let mut bytes = b"PK\x06\x06".to_vec();
    bytes.extend(44u64.to_le_bytes());
    bytes.extend(45u16.to_le_bytes());
    bytes.extend(45u16.to_le_bytes());
    bytes.extend([0; 24]);
    bytes.extend(size.to_le_bytes());
    bytes.extend(offset.to_le_bytes());
    bytes
}

/// An archive of files, each with its name and its compressed contents.
fn archive_of(files: &[(&str, Vec<u8>)]) -> Vec<u8> {
    let mut archive = vec![0; 300];
    let mut directory = vec![];
    for (name, compressed) in files {
        directory.extend(entry_bytes(
            name,
            compressed.len() as u32,
            archive.len() as u32,
        ));
        archive.extend(file_bytes(8, name, compressed));
    }
    let offset = archive.len() as u32;
    archive.extend(&directory);
    archive.extend(eocd_bytes(
        files.len() as u16,
        directory.len() as u32,
        offset,
    ));
    archive
}

/// A server with one archive on it, which replies in chunks of a given size.
struct Server {
    archive: Vec<u8>,
    chunk_size: usize,
    requests: Vec<String>,
    body: Vec<u8>,
    chunks: usize,
}

impl Server {
    fn new(archive: &[u8], chunk_size: usize) -> Self {
        Server {
            archive: archive.to_vec(),
            chunk_size,
            requests: vec![],
            body: vec![],
            chunks: 0,
        }
    }

    fn request(&mut self, range: String) {
        let (from, to) = range
            .strip_prefix("bytes=")
            .unwrap()
            .split_once('-')
            .unwrap();
        let from: usize = from.parse().unwrap();
        let end = if to.is_empty() {
            self.archive.len()
        } else {
            self.archive.len().min(to.parse::<usize>().unwrap() + 1)
        };
        self.body = self.archive[from..end].to_vec();
        self.requests.push(range);
    }

    fn next_chunk(&mut self) -> Option<Bytes> {
        if self.body.is_empty() {
            return None;
        }
        self.chunks += 1;
        let len = self.chunk_size.min(self.body.len());
        Some(Bytes::from(self.body.drain(..len).collect::<Vec<u8>>()))
    }

    fn length(&self) -> HeaderValue {
        HeaderValue::from_str(&self.archive.len().to_string()).unwrap()
    }
}

fn extract(
    server: &mut Server,
    filesize: Option<usize>,
    filename: &str,
) -> Result<FileContents, Failure> {
    let (mut extraction, mut action) = extract_file(filesize, filename);
    loop {
        action = match action {
            Action::RequestLength => {
                server.requests.push("length".to_string());
                extraction.on_length(Some(&server.length()))
            }
            Action::Request(range) => {
                server.request(range);
                extraction.on_chunk(server.next_chunk())
            }
            Action::NextChunk => extraction.on_chunk(server.next_chunk()),
            Action::Return(result) => return result,
        }
    }
}

fn text(contents: FileContents) -> String {
    let mut contents = contents;
    let mut text = String::new();
    contents.read_to_string(&mut text).unwrap();
    text
}

fn open(server: &mut Server, filesize: Option<usize>) -> Result<LazyZipFile, Failure> {
    let (mut opening, mut action): (Opening, Action<Directory>) = match filesize {
        Some(filesize) => LazyZipFile::new(Some(filesize)),
        None => LazyZipFile::get(),
    };
    loop {
        action = match action {
            Action::RequestLength => opening.on_length(Some(&server.length())),
            Action::Request(range) => {
                server.request(range);
                opening.on_chunk(server.next_chunk())
            }
            Action::NextChunk => opening.on_chunk(server.next_chunk()),
            Action::Return(directory) => {
                let directory = directory?;
                server.request(directory.range);
                return Ok(LazyZipFile::new_inner(directory.cd));
            }
        }
    }
}

/// Extracts a file whose central directory comes from one server and whose contents from another.
fn extract_lazily(
    zip: &mut LazyZipFile,
    directory: &mut Server,
    files: &mut Server,
    filename: &str,
) -> Result<String, Error> {
    let (mut file, range) = loop {
        match zip.extract_file(filename) {
            Step::NeedMore => zip.supply(directory.next_chunk()),
            Step::Done(found) => break found?,
        }
    };
    files.request(range);
    loop {
        match file.next() {
            Step::NeedMore => file.supply(files.next_chunk()),
            Step::Done(Ok(contents)) => return Ok(text(contents)),
            Step::Done(Err(Failure::Error(error))) => return Err(error),
            Step::Done(Err(Failure::Abort(abort))) => panic!("{abort:?}"),
        }
    }
}

fn three_files() -> Vec<u8> {
    archive_of(&[
        ("abc.txt", HELLO.to_vec()),
        ("def.txt", stored(b"second file")),
        ("dir/ghi.txt", stored(&[b'x'; 5000])),
    ])
}

#[test]
fn files_are_extracted_however_the_replies_are_cut() {
    let archive = three_files();
    for chunk_size in [1, 2, 3, 5, 17, 256, 100_000] {
        let mut server = Server::new(&archive, chunk_size);
        let filesize = Some(archive.len());
        let contents = extract(&mut server, filesize, "abc.txt").unwrap();
        assert_eq!(text(contents), "Hello, world");
        let contents = extract(&mut server, filesize, "def.txt").unwrap();
        assert_eq!(text(contents), "second file");
        let contents = extract(&mut server, filesize, "dir/ghi.txt").unwrap();
        assert_eq!(text(contents), "x".repeat(5000));
    }
}

#[test]
fn requests_ask_for_the_ranges_needed() {
    let archive = archive_of(&[("abc.txt", HELLO.to_vec())]);
    // The file is 30 + 7 + 4 + 14 bytes long and the directory 46 + 7.
    assert_eq!(archive.len(), 300 + 55 + 53 + 22);
    let mut server = Server::new(&archive, 1000);
    extract(&mut server, None, "abc.txt").unwrap();
    assert_eq!(
        server.requests,
        vec!["length", "bytes=174-429", "bytes=355-408", "bytes=300-"]
    );
}

#[test]
fn only_what_is_needed_of_a_reply_is_read() {
    let archive = three_files();
    let mut server = Server::new(&archive, 1);
    extract(&mut server, Some(archive.len()), "abc.txt").unwrap();
    // 256 bytes end with the record, the first header is 46 + 7 long, the file 30 + 7 + 4 + 14.
    assert_eq!(server.chunks, 256 + 53 + 55);
}

#[test]
fn missing_file_is_not_found() {
    let archive = three_files();
    let mut server = Server::new(&archive, 50);
    assert!(matches!(
        extract(&mut server, Some(archive.len()), "abc"),
        Err(Failure::Error(Error::CdFileNotFound))
    ));
}

#[test]
fn first_file_of_a_name_is_extracted() {
    let archive = archive_of(&[
        ("a", stored(b"first")),
        ("a", stored(b"second")),
        ("b", stored(b"third")),
    ]);
    let mut server = Server::new(&archive, 9);
    let contents = extract(&mut server, Some(archive.len()), "a").unwrap();
    assert_eq!(text(contents), "first");
}

#[test]
fn archive_without_a_record_is_refused() {
    let archive = vec![0; 1000];
    for chunk_size in [1, 1000] {
        let mut server = Server::new(&archive, chunk_size);
        assert!(matches!(
            extract(&mut server, Some(1000), "a"),
            Err(Failure::Error(Error::EocdNotFound))
        ));
        assert!(matches!(
            open(&mut server, Some(1000)),
            Err(Failure::Error(Error::EocdNotFound))
        ));
    }
}

#[test]
fn archive_that_is_too_small_is_given_up() {
    let mut server = Server::new(&[0; 255], 100);
    assert!(matches!(
        extract(&mut server, Some(255), "a"),
        Err(Failure::Abort(Abort::Overflow))
    ));
    assert!(matches!(
        open(&mut server, None),
        Err(Failure::Abort(Abort::Overflow))
    ));
    assert!(server.requests.is_empty());
}

#[test]
fn directory_out_of_range_is_given_up() {
    let mut archive = vec![0; 300];
    archive.extend(eocd64_bytes(2, u64::MAX - 1));
    let mut server = Server::new(&archive, 100);
    assert!(matches!(
        extract(&mut server, Some(archive.len()), "a"),
        Err(Failure::Abort(Abort::Overflow))
    ));
}

#[test]
fn zip64_archive_is_extracted() {
    let mut archive = vec![0; 300];
    archive.extend(file_bytes(8, "abc", &HELLO));
    let offset = archive.len() as u64;
    let directory = entry_bytes("abc", HELLO.len() as u32, 300);
    archive.extend(&directory);
    archive.extend(eocd64_bytes(directory.len() as u64, offset));
    let mut server = Server::new(&archive, 7);
    let contents = extract(&mut server, Some(archive.len()), "abc").unwrap();
    assert_eq!(text(contents), "Hello, world");
}

#[test]
fn length_of_the_archive_is_asked_for() {
    let (mut extraction, action) = extract_file(None, "a");
    assert!(matches!(action, Action::RequestLength));
    assert!(matches!(
        extraction.on_length(None),
        Action::Return(Err(Failure::Error(Error::ContentLengthMissing)))
    ));

    let (mut extraction, _) = extract_file(None, "a");
    let value = HeaderValue::from_static("many");
    assert!(matches!(
        extraction.on_length(Some(&value)),
        Action::Return(Err(Failure::Error(Error::ContentLengthParse(_))))
    ));

    let (mut extraction, _) = extract_file(None, "a");
    let value = HeaderValue::from_bytes(b"1\xff").unwrap();
    assert!(matches!(
        extraction.on_length(Some(&value)),
        Action::Return(Err(Failure::Error(Error::ContentLengthInvalidAscii(_))))
    ));

    let (mut extraction, _) = extract_file(None, "a");
    let value = HeaderValue::from_static("1000");
    match extraction.on_length(Some(&value)) {
        Action::Request(range) => assert_eq!(range, "bytes=744-999"),
        _ => panic!(),
    }
}

#[test]
fn files_are_extracted_lazily_in_any_order() {
    let archive = three_files();
    for chunk_size in [1, 4, 60, 10_000] {
        for order in [
            ["abc.txt", "def.txt", "dir/ghi.txt"],
            ["dir/ghi.txt", "abc.txt", "def.txt"],
        ] {
            let mut directory = Server::new(&archive, chunk_size);
            let mut files = Server::new(&archive, chunk_size);
            let mut zip = open(&mut directory, None).unwrap();
            for name in order {
                let expected = match name {
                    "abc.txt" => "Hello, world".to_string(),
                    "def.txt" => "second file".to_string(),
                    _ => "x".repeat(5000),
                };
                assert_eq!(
                    extract_lazily(&mut zip, &mut directory, &mut files, name).unwrap(),
                    expected
                );
            }
            assert!(matches!(
                extract_lazily(&mut zip, &mut directory, &mut files, "jkl.txt"),
                Err(Error::CdFileNotFound)
            ));
        }
    }
}

#[test]
fn file_found_before_needs_no_more_of_the_directory() {
    let archive = three_files();
    let mut directory = Server::new(&archive, 1);
    let mut files = Server::new(&archive, 100);
    let mut zip = open(&mut directory, Some(archive.len())).unwrap();
    directory.chunks = 0;
    extract_lazily(&mut zip, &mut directory, &mut files, "def.txt").unwrap();
    assert_eq!(directory.chunks, 2 * 53);
    extract_lazily(&mut zip, &mut directory, &mut files, "def.txt").unwrap();
    extract_lazily(&mut zip, &mut directory, &mut files, "abc.txt").unwrap();
    assert_eq!(directory.chunks, 2 * 53);
}

#[test]
fn later_header_of_a_name_takes_the_place_of_an_earlier_one() {
    let archive = archive_of(&[
        ("a", stored(b"first")),
        ("a", stored(b"second")),
        ("b", stored(b"third")),
    ]);
    let mut directory = Server::new(&archive, 1000);
    let mut files = Server::new(&archive, 1000);
    let mut zip = open(&mut directory, None).unwrap();
    assert_eq!(
        extract_lazily(&mut zip, &mut directory, &mut files, "a").unwrap(),
        "first"
    );
    assert_eq!(
        extract_lazily(&mut zip, &mut directory, &mut files, "b").unwrap(),
        "third"
    );
    assert_eq!(
        extract_lazily(&mut zip, &mut directory, &mut files, "a").unwrap(),
        "second"
    );
}

fn search(bytes: &[u8], chunk_size: usize) -> EocdFound {
    let (mut search, range) = request_eocd(1000);
    assert_eq!(range, "bytes=744-999");
    for chunk in bytes.chunks(chunk_size) {
        if let Step::Done(found) = search.next() {
            return found;
        }
        search.supply(Some(Bytes::copy_from_slice(chunk)));
    }
    search.supply(None);
    match search.next() {
        Step::Done(found) => found,
        Step::NeedMore => panic!(),
    }
}

fn found(offset: usize) -> Eocd {
    Eocd {
        this_disk_number: 0,
        cd_disk: 0,
        cd_records_on_disk: 3,
        cd_records_total: 3,
        cd_size: 40,
        cd_offset: 50,
        offset,
        is_zip64: false,
    }
}

#[test]
fn record_is_found_where_its_signature_ends() {
    let mut bytes = vec![b'P'; 100];
    bytes.extend(eocd_bytes(3, 40, 50));
    for chunk_size in [1, 3, 1000] {
        assert_eq!(search(&bytes, chunk_size).unwrap(), Some(found(744 + 103)));
    }
}

#[test]
fn record_is_found_behind_false_positives() {
    // Each false positive is read from without being counted: 2 bytes and 12 bytes.
    let mut bytes = b"PK\x05\x06\xff\xff".to_vec();
    bytes.extend(b"PK\x06\x06");
    bytes.extend([0xff; 12]);
    bytes.extend(eocd_bytes(3, 40, 50));
    for chunk_size in [1, 2, 7, 1000] {
        assert_eq!(search(&bytes, chunk_size).unwrap(), Some(found(744 + 11)));
    }
}

#[test]
fn record_of_a_zip64_is_found() {
    let mut bytes = vec![0; 10];
    bytes.extend(eocd64_bytes(1 << 40, 1 << 41));
    for chunk_size in [1, 1000] {
        let eocd = search(&bytes, chunk_size).unwrap().unwrap();
        assert!(eocd.is_zip64);
        assert_eq!(eocd.cd_size, 1 << 40);
        assert_eq!(eocd.cd_offset, 1 << 41);
        assert_eq!(eocd.offset, 744 + 13);
    }
}

#[test]
fn no_record_is_found() {
    assert_eq!(search(&[0; 256], 10).unwrap(), None);
    assert_eq!(search(&[], 10).unwrap(), None);
    assert_eq!(search(b"PK\x05", 1).unwrap(), None);
}

#[test]
fn record_that_breaks_off_is_an_error() {
    let bytes = eocd_bytes(3, 40, 50);
    for len in 4..bytes.len() {
        assert!(matches!(
            search(&bytes[..len], 5),
            Err(Failure::Error(Error::UnexpectedEof))
        ));
    }
    let bytes = eocd64_bytes(40, 50);
    for len in 4..bytes.len() {
        assert!(matches!(
            search(&bytes[..len], 5),
            Err(Failure::Error(Error::UnexpectedEof))
        ));
    }
}

#[test]
fn offset_that_is_out_of_range_is_given_up() {
    let (mut search, _) = request_eocd(usize::MAX);
    let mut bytes = vec![0; 254];
    bytes.extend(eocd_bytes(3, 40, 50));
    search.supply(Some(Bytes::from(bytes)));
    assert!(matches!(
        search.next(),
        Step::Done(Err(Failure::Abort(Abort::Overflow)))
    ));
}

fn names(bytes: &[u8], chunk_size: usize) -> Vec<String> {
    let mut cd = CdParser::new(Parser::new(), 1000);
    let mut names = vec![];
    let mut chunks = bytes.chunks(chunk_size);
    loop {
        match cd.next() {
            Step::NeedMore => cd.supply(chunks.next().map(Bytes::copy_from_slice)),
            Step::Done(Some(cdfh)) => names.push(cdfh.filename),
            Step::Done(None) => return names,
        }
    }
}

#[test]
fn headers_are_found_one_by_one() {
    let mut bytes = vec![];
    for name in ["a", "bb", "ccc"] {
        bytes.extend(entry_bytes(name, 1, 2));
    }
    bytes.push(b'P');
    for chunk_size in [1, 2, 45, 46, 47, 48, 1000] {
        assert_eq!(names(&bytes, chunk_size), vec!["a", "bb", "ccc"]);
    }
}

#[test]
fn headers_are_found_among_other_bytes() {
    let mut bytes = b"PK\x01PPK\x01\x02\xff\xff\xff\xff".to_vec();
    bytes.extend(entry_bytes("a", 1, 2));
    bytes.extend(b"noise");
    bytes.extend(entry_bytes("behind", 1, 1001));
    bytes.extend(entry_bytes("b", 1, 1000));
    for chunk_size in [1, 5, 1000] {
        assert_eq!(names(&bytes, chunk_size), vec!["a", "b"]);
    }
}

#[test]
fn header_that_breaks_off_is_searched_for_others() {
    // The first header says that its name is longer than all that follows.
    let mut bytes = entry_bytes("", 1, 2);
    bytes[28] = 0xff;
    bytes[29] = 0xff;
    bytes.extend(entry_bytes("a", 1, 2));
    for chunk_size in [1, 5, 1000] {
        assert_eq!(names(&bytes, chunk_size), vec!["a"]);
    }
}

#[test]
fn bytes_looked_at_are_forgotten_between_headers() {
    // The name ends with the beginning of a signature, and its end follows the header.
    let mut bytes = entry_bytes("aPK", 1, 2);
    bytes.extend(&entry_bytes("b", 1, 2)[2..]);
    assert!(names(&bytes, 1000) == vec!["aPK"]);
}

#[test]
fn file_is_found_in_the_directory() {
    let mut bytes = entry_bytes("a", 1, 2);
    bytes.extend(entry_bytes("b", 3, 4));
    bytes.extend(entry_bytes("b", 5, 6));
    let find = |name: &str, len: usize, ended: bool| {
        let mut cd = CdParser::new(Parser::new(), 1000);
        cd.supply(Some(Bytes::copy_from_slice(&bytes[..len])));
        if ended {
            cd.supply(None);
        }
        find_cdfh(&mut cd, name)
    };
    match find("b", bytes.len(), false) {
        Step::Done(Some(cdfh)) => {
            assert_eq!(cdfh.compressed_size, 3);
            assert_eq!(cdfh.file_header_offset, 4);
        }
        _ => panic!(),
    }
    assert!(matches!(find("b", 60, false), Step::NeedMore));
    assert!(matches!(find("b", 60, true), Step::Done(None)));
    assert!(matches!(find("c", bytes.len(), false), Step::NeedMore));
    assert!(matches!(find("c", bytes.len(), true), Step::Done(None)));
}

fn cdfh(compressed_size: u32) -> Cdfh {
    let bytes = entry_bytes("a", compressed_size, 4096);
    let mut parser = Parser::new();
    parser.supply(Some(Bytes::copy_from_slice(&bytes[4..])));
    let cdfh = read_cdfh(&mut parser, 5000).unwrap().unwrap();
    assert_eq!(cdfh.compression_method, CompressionMethod::Deflated);
    cdfh
}

fn read(file: &mut FileReader, bytes: &[u8], chunk_size: usize) -> Result<FileContents, Failure> {
    let mut chunks = bytes.chunks(chunk_size);
    loop {
        match file.next() {
            Step::NeedMore => file.supply(chunks.next().map(Bytes::copy_from_slice)),
            Step::Done(contents) => return contents,
        }
    }
}

#[test]
fn file_is_read_and_decompressed() {
    let mut bytes = file_bytes(8, "a", &HELLO);
    bytes.extend(b"what follows");
    for chunk_size in [1, 10, 1000] {
        let (mut file, range) = read_file_at_cdfh(&cdfh(HELLO.len() as u32));
        assert_eq!(range, "bytes=4096-");
        let contents = read(&mut file, &bytes, chunk_size).unwrap();
        assert_eq!(text(contents), "Hello, world");
    }
}

#[test]
fn file_with_another_signature_is_malformed() {
    let mut bytes = file_bytes(8, "a", &HELLO);
    bytes[3] = 5;
    let (mut file, _) = read_file_at_cdfh(&cdfh(HELLO.len() as u32));
    assert!(matches!(
        read(&mut file, &bytes, 3),
        Err(Failure::Error(Error::MalformedFileHeader))
    ));
}

#[test]
fn file_with_an_unknown_method_is_malformed() {
    let (mut file, _) = read_file_at_cdfh(&cdfh(HELLO.len() as u32));
    assert!(matches!(
        read(&mut file, &file_bytes(7, "a", &HELLO), 3),
        Err(Failure::Error(Error::MalformedFileHeader))
    ));
}

#[test]
fn file_with_another_method_is_given_up() {
    let (mut file, _) = read_file_at_cdfh(&cdfh(HELLO.len() as u32));
    assert!(matches!(
        read(&mut file, &file_bytes(0, "a", &HELLO), 3),
        Err(Failure::Abort(Abort::UnsupportedCompression))
    ));
}

#[test]
fn file_that_breaks_off_is_an_error() {
    let bytes = file_bytes(8, "a", &HELLO);
    for len in 0..bytes.len() {
        let (mut file, _) = read_file_at_cdfh(&cdfh(HELLO.len() as u32));
        assert!(matches!(
            read(&mut file, &bytes[..len], 6),
            Err(Failure::Error(Error::UnexpectedEof))
        ));
    }
}

#[test]
fn both_ways_to_extract_agree() {
    let archive = archive_of(&[
        ("a", stored(b"first")),
        ("b", stored(b"second")),
        ("b", stored(b"third")),
        ("c", stored(b"fourth")),
    ]);
    let mut directory = Server::new(&archive, 11);
    let mut files = Server::new(&archive, 11);
    let mut zip = open(&mut directory, None).unwrap();
    for name in ["c", "a", "d", "c", "a"] {
        let lazily = extract_lazily(&mut zip, &mut directory, &mut files, name);
        let mut server = Server::new(&archive, 11);
        match extract(&mut server, None, name) {
            Ok(contents) => assert_eq!(lazily.unwrap(), text(contents)),
            Err(Failure::Error(Error::CdFileNotFound)) => {
                assert!(matches!(lazily, Err(Error::CdFileNotFound)));
                assert_eq!(name, "d");
            }
            Err(failure) => panic!("{failure:?}"),
        }
    }
    // More than one file has this name, so the two ways need not agree. One of them is found.
    assert_eq!(
        extract_lazily(&mut zip, &mut directory, &mut files, "b").unwrap(),
        "third"
    );
}

#[test]
fn headers_are_found_behind_gaps() {
    let mut bytes = vec![];
    for (gap, name) in [
        (&b""[..], "a"),
        (b"PK\x01", "b"),
        (b"\x02PK", "c"),
        (b"PKPK\x01P", "d"),
    ] {
        bytes.extend(gap);
        bytes.extend(entry_bytes(name, 1, 2));
    }
    bytes.extend(b"\x02PK\x01");
    for chunk_size in [1, 3, 50, 1000] {
        assert_eq!(names(&bytes, chunk_size), vec!["a", "b", "c", "d"]);
    }
}

#[test]
fn search_that_was_left_begins_anew() {
    let bytes = [entry_bytes("a", 1, 2), entry_bytes("b", 3, 4)].concat();
    let search = |cut: usize, abandon: bool| {
        let mut cd = CdParser::new(Parser::new(), 1000);
        cd.supply(Some(Bytes::copy_from_slice(&bytes[..cut])));
        assert!(matches!(cd.next(), Step::NeedMore));
        if abandon {
            cd.abandon();
            cd.abandon();
        }
        cd.supply(Some(Bytes::copy_from_slice(&bytes[cut..])));
        cd.supply(None);
        match cd.next() {
            Step::Done(Some(cdfh)) => cdfh.filename,
            _ => panic!(),
        }
    };
    // The signature, or the fields that have been read, are gone, and with them the first header.
    for cut in 1..47 {
        assert_eq!(search(cut, false), "a");
        assert_eq!(search(cut, true), "b");
    }
}

#[test]
fn field_that_broke_off_stays_when_a_search_is_left() {
    // The version to extract begins in the first chunk and is the first byte of a signature.
    let mut cd = CdParser::new(Parser::new(), 1000);
    cd.supply(Some(Bytes::from_static(b"PK\x01\x02\x14\x00P")));
    assert!(matches!(cd.next(), Step::NeedMore));
    cd.abandon();
    cd.supply(Some(Bytes::copy_from_slice(&entry_bytes("a", 1, 2)[1..])));
    match cd.next() {
        Step::Done(Some(cdfh)) => assert_eq!(cdfh.filename, "a"),
        _ => panic!(),
    }
}

#[test]
fn nothing_changes_where_no_search_was_left() {
    let archive = three_files();
    let mut directory = Server::new(&archive, 7);
    let mut files = Server::new(&archive, 100);
    let mut zip = open(&mut directory, None).unwrap();
    for name in ["def.txt", "abc.txt", "dir/ghi.txt", "abc.txt"] {
        zip.abandon();
        extract_lazily(&mut zip, &mut directory, &mut files, name).unwrap();
    }
}
