# ziponline

Extract files from a zip without downloading the whole zip, using HTTP range requests.

The library in `src/` decides everything and requests nothing: which bytes of the archive to ask
for next, where in the replies the records are, and what comes of them. It is verified with Verus.
The program in `app/` makes the requests with `reqwest`.

# Examples

Extract a single file

```rust
let (mut extraction, mut action) = ziponline::extract_file(
    None,       // the filesize or None if it is unknown
    "file.txt", // the name of the file to extract
);

let mut reader = loop {
    action = match action {
        Action::RequestLength => extraction.on_length(/* content-length of a HEAD request */),
        Action::Request(range) => extraction.on_chunk(/* first chunk of a GET request */),
        Action::NextChunk => extraction.on_chunk(/* next chunk of the reply */),
        Action::Return(result) => break result?,
    }
};

// `reader` is an io::Read object.
io::copy(&mut reader, ...);
```

Several files of one archive are extracted with `LazyZipFile`, which keeps the headers that it has
read. `app/online.rs` shows how.

# Layout

| Module | What it does |
| --- | --- |
| `extract`, `lazy`, `open` | the state machines that the caller drives |
| `eocd`, `central_directory`, `file` | searching and reading the replies |
| `records`, `structs` | the records of the zip format |
| `parser` | bytes and little-endian numbers from a stream that comes in chunks |
| `content_length`, `range`, `decimal` | HTTP header values |
| `chunk_by`, `ring_buf`, `window` | even chunks, the last bytes of a stream |
| `outside` | what is taken on trust from other crates |

What holds of the library as a whole is stated in the functions whose names begin with `law_`:
among others that the way a reply is cut into chunks makes no difference, and that a file of an
archive comes out of it.
