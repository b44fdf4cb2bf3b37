//! An archive of which several files are extracted.
use bytes::Bytes;
use vstd::hash_map::StringHashMap;
use vstd::prelude::*;

use crate::central_directory::{
    law_find_is_first, law_finished_search_is_idle, law_headers_in_chunks, law_next_advances,
    law_next_in_chunks, lemma_exhausted_is_empty, lemma_next_ends, CdParser, CdView,
};
use crate::error::{Error, Result, Step};
use crate::file::{read_file_at_cdfh, FileReader, FileView};
use crate::open::{
    open_action_view, open_awaits, Action, ActionView, Directory, Opening, OpeningView,
};
use crate::parser::chunk_bytes;
use crate::range::from_range;
use crate::structs::{Cdfh, CdfhView};

verus! {

/// What is known of an archive: the headers that have been found, by name, and the central
/// directory in which the others are found.
#[verifier::ext_equal]
pub struct ZipView {
    pub cache: Map<Seq<char>, CdfhView>,
    pub cd: CdView,
}

impl ZipView {
    /// The archive with a header found in the central directory, which goes on with `cd`.
    pub open spec fn cached(self, cdfh: CdfhView, cd: CdView) -> ZipView {
        ZipView { cache: self.cache.insert(cdfh.filename, cdfh), cd }
    }

    /// What the search for a file in the central directory comes to. Every header that is found on
    /// the way is kept.
    pub open spec fn scan(self, filename: Seq<char>) -> (Step<Option<CdfhView>>, ZipView)
        decreases self.cd.source.bytes.len(),
    {
        proof {
            law_next_advances(self.cd);
        }
        match self.cd.next() {
            (Step::Done(Some(cdfh)), cd) => if cdfh.filename == filename {
                (Step::Done(Some(cdfh)), self.cached(cdfh, cd))
            } else {
                self.cached(cdfh, cd).scan(filename)
            },
            (step, cd) => (step, ZipView { cd, ..self }),
        }
    }

    /// What the search for a file comes to. A header that has been found before is not looked for
    /// again.
    pub open spec fn lookup(self, filename: Seq<char>) -> (Step<Option<CdfhView>>, ZipView) {
        if self.cache.contains_key(filename) {
            (Step::Done(Some(self.cache[filename])), self)
        } else {
            self.scan(filename)
        }
    }

    /// The archive with more of the central directory here.
    pub open spec fn extended(self, more: Seq<u8>, ended: bool) -> ZipView {
        ZipView { cd: self.cd.extended(more, ended), ..self }
    }
}

/// Zip file that fetches the data it needs lazily.
/// If you plan to extract only one file from the zip use `extract_file` instead.
pub struct LazyZipFile {
    headers: StringHashMap<Cdfh>,
    cd: CdParser,
}

impl View for LazyZipFile {
    type V = ZipView;

    closed spec fn view(&self) -> ZipView {
        ZipView { cache: self.headers@.map_values(|cdfh: Cdfh| cdfh@), cd: self.cd@ }
    }
}

impl LazyZipFile {
    /// Begins to open a lazy zip file with the filesize.
    pub fn new(filesize: Option<usize>) -> (opening: (Opening, Action<Directory>))
        ensures
            (opening.0@, open_action_view(opening.1)) == match filesize {
                Some(filesize) => OpeningView::sized(filesize),
                None => (OpeningView::Length, ActionView::RequestLength),
            },
            open_awaits(opening.0@, opening.1),
    {
        Opening::new(filesize)
    }

    /// Begins to open a lazy zip file, assuming the filesize is unknown.
    pub fn get() -> (opening: (Opening, Action<Directory>))
        ensures
            opening.0@ is Length,
            opening.1 is RequestLength,
    {
        Opening::new(None)
    }

    /// The lazy zip file with a central directory that has been requested.
    pub fn new_inner(cd: CdParser) -> (zip: Self)
        ensures
            zip@ == (ZipView { cache: Map::empty(), cd: cd@ }),
    {
        let zip = LazyZipFile { headers: StringHashMap::new(), cd };
        assert(zip@.cache =~= Map::empty());
        zip
    }

    /// Takes in the next chunk of the central directory, or that it has ended.
    pub fn supply(&mut self, next: Option<Bytes>)
        ensures
            final(self)@ == (ZipView {
                cd: CdView {
                    source: old(self)@.cd.source.supplied(chunk_bytes(next)),
                    ..old(self)@.cd
                },
                ..old(self)@
            }),
    {
        self.cd.supply(next);
    }

    /// Leaves a search in the central directory that has not come to its end, where its next chunk
    /// could not be had. The next search begins anew: what has been read of a header is gone. Where
    /// no search has been left, nothing changes.
    pub fn abandon(&mut self)
        ensures
            final(self)@ == (ZipView { cd: old(self)@.cd.abandoned(), ..old(self)@ }),
    {
        self.cd.abandon();
    }

    /// Extract a single file from the zip.
    ///
    /// Gives the file, and the `Range` header value of the request in whose reply to read it. Where
    /// more of the central directory is needed first, it is called again after that has come.
    pub fn extract_file(&mut self, filename: &str) -> (step: Step<Result<(FileReader, String)>>)
        ensures
            final(self)@ == old(self)@.lookup(filename@).1,
            match old(self)@.lookup(filename@).0 {
                Step::NeedMore => step is NeedMore,
                Step::Done(Some(cdfh)) => {
                    &&& step matches Step::Done(Ok((file, range)))
                    &&& file@ == FileView::begun(cdfh.compressed_size as usize)
                    &&& range@ == from_range(cdfh.file_header_offset as nat)
                },
                Step::Done(None) => step == Step::Done(
                    Err::<(FileReader, String), _>(Error::CdFileNotFound),
                ),
            },
    {
        if let Some(cdfh) = self.headers.get(filename) {
            return Step::Done(Ok(read_file_at_cdfh(cdfh)));
        }
        let name: String = filename.to_owned();
        loop
            invariant
                name@ == filename@,
                self@.scan(filename@) == old(self)@.lookup(filename@),
            decreases self@.cd.source.bytes.len(),
        {
            let ghost before = self@;
            proof {
                law_next_advances(before.cd);
            }
            match self.cd.next() {
                Step::Done(Some(cdfh)) => {
                    let request = if cdfh.filename == name {
                        Some(read_file_at_cdfh(&cdfh))
                    } else {
                        None
                    };
                    self.headers.insert(cdfh.filename.clone(), cdfh);
                    assert(self@ =~= before.cached(cdfh@, self.cd@));
                    if let Some(request) = request {
                        return Step::Done(Ok(request));
                    }
                },
                Step::Done(None) => {
                    return Step::Done(Err(Error::CdFileNotFound));
                },
                Step::NeedMore => {
                    return Step::NeedMore;
                },
            }
        }
    }
}

/// A file that has been found is known from then on: looking for it again gives the same header,
/// and nothing more is read of the central directory.
pub proof fn law_found_once(zip: ZipView, filename: Seq<char>)
    ensures
        zip.lookup(filename).0 matches Step::Done(Some(cdfh)) ==> zip.lookup(filename).1.lookup(
            filename,
        ) == zip.lookup(filename),
{
    lemma_scan_caches(zip, filename);
}

/// The header that a search comes to is kept.
proof fn lemma_scan_caches(zip: ZipView, filename: Seq<char>)
    ensures
        zip.scan(filename).0 matches Step::Done(Some(cdfh)) ==> {
            &&& zip.scan(filename).1.cache.contains_key(filename)
            &&& zip.scan(filename).1.cache[filename] == cdfh
        },
    decreases zip.cd.source.bytes.len(),
{
    law_next_advances(zip.cd);
    if let (Step::Done(Some(cdfh)), cd) = zip.cd.next() {
        if cdfh.filename != filename {
            lemma_scan_caches(zip.cached(cdfh, cd), filename);
        }
    }
}

/// A file that has not been found before is found where a search for that file alone finds it, and
/// the central directory is read just as far.
pub proof fn law_lookup_is_find(zip: ZipView, filename: Seq<char>)
    requires
        !zip.cache.contains_key(filename),
    ensures
        (zip.lookup(filename).0, zip.lookup(filename).1.cd) == zip.cd.find(filename),
{
    lemma_scan_is_find(zip, filename);
}

/// A search that keeps the headers that it meets finds what one that does not keep them finds.
proof fn lemma_scan_is_find(zip: ZipView, filename: Seq<char>)
    ensures
        (zip.scan(filename).0, zip.scan(filename).1.cd) == zip.cd.find(filename),
    decreases zip.cd.source.bytes.len(),
{
    law_next_advances(zip.cd);
    if let (Step::Done(Some(cdfh)), cd) = zip.cd.next() {
        if cdfh.filename != filename {
            lemma_scan_is_find(zip.cached(cdfh, cd), filename);
        }
    }
}

/// How the central directory is cut into chunks makes no difference to what is found in it and what
/// is kept. A search that is over on the bytes that have come is over in the same way on more of
/// them; one that needs more and is made again once that has come finds what it would have found
/// had all of it been there.
pub proof fn law_lookup_in_chunks(zip: ZipView, more: Seq<u8>, ended: bool, filename: Seq<char>)
    requires
        !zip.cd.source.ended,
    ensures
        match zip.lookup(filename) {
            (Step::NeedMore, after) => zip.extended(more, ended).lookup(filename) == after.extended(
                more,
                ended,
            ).lookup(filename),
            (step, after) => zip.extended(more, ended).lookup(filename) == (
                step,
                after.extended(more, ended),
            ),
        },
{
    if !zip.cache.contains_key(filename) {
        lemma_scan_in_chunks(zip, more, ended, filename);
    }
}

/// How the central directory is cut into chunks makes no difference to a search in it.
proof fn lemma_scan_in_chunks(zip: ZipView, more: Seq<u8>, ended: bool, filename: Seq<char>)
    requires
        !zip.cd.source.ended,
        !zip.cache.contains_key(filename),
    ensures
        match zip.scan(filename) {
            (Step::NeedMore, after) => {
                &&& zip.extended(more, ended).scan(filename) == after.extended(more, ended).scan(
                    filename,
                )
                &&& !after.cache.contains_key(filename)
            },
            (step, after) => zip.extended(more, ended).scan(filename) == (
                step,
                after.extended(more, ended),
            ),
        },
    decreases zip.cd.source.bytes.len(),
{
    law_next_advances(zip.cd);
    law_next_in_chunks(zip.cd, more, ended);
    if let (Step::Done(Some(cdfh)), cd) = zip.cd.next() {
        assert(zip.extended(more, ended).cached(cdfh, cd.extended(more, ended)) =~= zip.cached(
            cdfh,
            cd,
        ).extended(more, ended));
        if cdfh.filename != filename {
            lemma_scan_in_chunks(zip.cached(cdfh, cd), more, ended, filename);
        }
    }
}

/// A search that comes to its end leaves nothing to abandon.
pub proof fn law_finished_lookup_is_idle(zip: ZipView, filename: Seq<char>)
    requires
        zip.cd.is_idle(),
        zip.lookup(filename).0 !is NeedMore,
    ensures
        zip.lookup(filename).1.cd.is_idle(),
{
    if !zip.cache.contains_key(filename) {
        lemma_finished_scan_is_idle(zip, filename);
    }
}

/// A search in the central directory that comes to its end leaves nothing to abandon.
proof fn lemma_finished_scan_is_idle(zip: ZipView, filename: Seq<char>)
    requires
        zip.scan(filename).0 !is NeedMore,
    ensures
        zip.scan(filename).1.cd.is_idle(),
    decreases zip.cd.source.bytes.len(),
{
    law_next_advances(zip.cd);
    law_finished_search_is_idle(zip.cd);
    if let (Step::Done(Some(cdfh)), cd) = zip.cd.next() {
        if cdfh.filename != filename {
            lemma_finished_scan_is_idle(zip.cached(cdfh, cd), filename);
        }
    }
}

/// Whether no two headers have the same name.
pub open spec fn distinct_names(cdfhs: Seq<CdfhView>) -> bool {
    forall|i: int, j: int|
        0 <= i < j < cdfhs.len() ==> (#[trigger] cdfhs[i]).filename != (
        #[trigger] cdfhs[j]).filename
}

impl ZipView {
    /// The archive once all of the central directory is here, `rest` being what is still to come.
    pub open spec fn completed(self, rest: Seq<u8>) -> ZipView {
        if self.cd.source.ended {
            self
        } else {
            self.extended(rest, true)
        }
    }

    /// Whether what is kept under a name is one of these headers, and has that name.
    pub open spec fn keeps_one_of(self, cdfhs: Seq<CdfhView>, name: Seq<char>) -> bool {
        cdfhs.contains(self.cache[name]) && self.cache[name].filename == name
    }

    /// Whether the archive has these headers, with the names of the first `known` of them kept and
    /// the other headers still to be found. A name that several headers have is kept for one of
    /// them.
    pub open spec fn holds_from(self, cdfhs: Seq<CdfhView>, known: int) -> bool {
        &&& 0 <= known <= cdfhs.len()
        &&& self.cd.headers() == cdfhs.skip(known)
        &&& forall|i: int|
            0 <= i < known ==> self.cache.contains_key((#[trigger] cdfhs[i]).filename)
        &&& forall|name: Seq<char>| #[trigger]
            self.cache.contains_key(name) ==> self.keeps_one_of(cdfhs.take(known), name)
    }

    /// Whether the archive has these headers, some of them kept and the others still to be found.
    pub open spec fn holds(self, cdfhs: Seq<CdfhView>) -> bool {
        exists|known: int| #[trigger] self.holds_from(cdfhs, known)
    }
}

/// An archive that has just been opened has the headers of its central directory.
pub proof fn law_opened_holds_headers(cd: CdView)
    ensures
        (ZipView { cache: Map::empty(), cd }).holds(cd.headers()),
{
    let zip = ZipView { cache: Map::empty(), cd };
    assert(cd.headers().skip(0) =~= cd.headers());
    assert(zip.holds_from(cd.headers(), 0));
}

/// However many files have been looked for before, and in whatever order, a file of the archive is
/// found under its name, and no other is. Looking for it leaves the archive with the headers that
/// it had, so that this goes for the next file too.
pub proof fn law_every_file_found(
    zip: ZipView,
    rest: Seq<u8>,
    cdfhs: Seq<CdfhView>,
    filename: Seq<char>,
)
    requires
        zip.completed(rest).holds(cdfhs),
    ensures
        zip.lookup(filename).1.completed(rest).holds(cdfhs),
        match zip.lookup(filename).0 {
            Step::NeedMore => !zip.cd.source.ended,
            Step::Done(Some(cdfh)) => cdfhs.contains(cdfh) && cdfh.filename == filename,
            Step::Done(None) => forall|i: int|
                0 <= i < cdfhs.len() ==> (#[trigger] cdfhs[i]).filename != filename,
        },
{
    let known = choose|known: int| #[trigger] zip.completed(rest).holds_from(cdfhs, known);
    if zip.cache.contains_key(filename) {
        assert(zip.completed(rest).cache.contains_key(filename));
        lemma_kept_header(zip.completed(rest), cdfhs, known, filename);
    } else {
        lemma_scan_finds(zip, rest, cdfhs, known, filename);
    }
}

/// What is kept under a name is a header of the archive.
proof fn lemma_kept_header(zip: ZipView, cdfhs: Seq<CdfhView>, known: int, name: Seq<char>)
    requires
        zip.holds_from(cdfhs, known),
        zip.cache.contains_key(name),
    ensures
        zip.keeps_one_of(cdfhs, name),
{
    assert(zip.keeps_one_of(cdfhs.take(known), name));
    let i = choose|i: int| 0 <= i < known && cdfhs.take(known)[i] == zip.cache[name];
    assert(cdfhs[i] == zip.cache[name]);
}

/// Where no two headers of the archive have the same name, each file is found under its name by its
/// own header, and what is kept under a name is the one header with that name, before and after.
pub proof fn law_distinct_files_found(
    zip: ZipView,
    rest: Seq<u8>,
    cdfhs: Seq<CdfhView>,
    index: int,
)
    requires
        distinct_names(cdfhs),
        zip.completed(rest).holds(cdfhs),
        0 <= index < cdfhs.len(),
    ensures
        zip.lookup(cdfhs[index].filename).1.completed(rest).holds(cdfhs),
        zip.lookup(cdfhs[index].filename).0 != Step::Done(Some(cdfhs[index])) ==> zip.lookup(
            cdfhs[index].filename,
        ).0 is NeedMore && !zip.cd.source.ended,
        zip.keeps_own_headers(cdfhs),
        zip.lookup(cdfhs[index].filename).1.keeps_own_headers(cdfhs),
{
    law_every_file_found(zip, rest, cdfhs, cdfhs[index].filename);
    lemma_keeps_own_headers(zip, rest, cdfhs);
    lemma_keeps_own_headers(zip.lookup(cdfhs[index].filename).1, rest, cdfhs);
}

impl ZipView {
    /// Whether what is kept under the name of a header, if anything is, is that header.
    pub open spec fn keeps_own_headers(self, cdfhs: Seq<CdfhView>) -> bool {
        forall|i: int|
            0 <= i < cdfhs.len() && self.cache.contains_key((#[trigger] cdfhs[i]).filename)
                ==> self.cache[cdfhs[i].filename] == cdfhs[i]
    }
}

/// Where no two headers of the archive have the same name, each name is kept for its own header.
proof fn lemma_keeps_own_headers(zip: ZipView, rest: Seq<u8>, cdfhs: Seq<CdfhView>)
    requires
        distinct_names(cdfhs),
        zip.completed(rest).holds(cdfhs),
    ensures
        zip.keeps_own_headers(cdfhs),
{
    let known = choose|known: int| #[trigger] zip.completed(rest).holds_from(cdfhs, known);
    assert forall|i: int|
        0 <= i < cdfhs.len() && zip.cache.contains_key(
            (#[trigger] cdfhs[i]).filename,
        ) implies zip.cache[cdfhs[i].filename] == cdfhs[i] by {
        lemma_kept_header(zip.completed(rest), cdfhs, known, cdfhs[i].filename);
    }
}

/// Whether no more than one header has a name.
pub open spec fn at_most_one(cdfhs: Seq<CdfhView>, filename: Seq<char>) -> bool {
    forall|i: int, j: int|
        0 <= i < j < cdfhs.len() && (#[trigger] cdfhs[i]).filename == filename ==> (
        #[trigger] cdfhs[j]).filename != filename
}

/// The two ways to extract a file agree: however many files have been looked for before, and in
/// whatever order, what is found under a name that no two files have is what a search for that file
/// alone finds in the whole of the central directory.
pub proof fn law_lazy_is_extracted(zip: ZipView, whole: CdView, filename: Seq<char>)
    requires
        whole.source.ended,
        zip.cd.source.ended,
        at_most_one(whole.headers(), filename),
        zip.holds(whole.headers()),
    ensures
        zip.lookup(filename).0 == whole.find(filename).0,
{
    law_lazy_is_extracted_in_chunks(zip, seq![], whole, filename);
}

/// The two ways to extract a file agree while the central directory is still coming, `rest` being
/// what is to come of it: what is found under a name that no two files have, once enough has come,
/// is what a search for that file alone finds in the whole of the central directory.
pub proof fn law_lazy_is_extracted_in_chunks(
    zip: ZipView,
    rest: Seq<u8>,
    whole: CdView,
    filename: Seq<char>,
)
    requires
        whole.source.ended,
        at_most_one(whole.headers(), filename),
        zip.completed(rest).holds(whole.headers()),
    ensures
        match zip.lookup(filename).0 {
            Step::NeedMore => !zip.cd.source.ended,
            step => step == whole.find(filename).0,
        },
{
    law_every_file_found(zip, rest, whole.headers(), filename);
    law_find_is_first(whole, filename);
}

/// A search in the central directory finds a file that is not among the headers kept.
proof fn lemma_scan_finds(
    zip: ZipView,
    rest: Seq<u8>,
    cdfhs: Seq<CdfhView>,
    known: int,
    filename: Seq<char>,
)
    requires
        zip.completed(rest).holds_from(cdfhs, known),
        !zip.cache.contains_key(filename),
    ensures
        zip.scan(filename).1.completed(rest).holds(cdfhs),
        match zip.scan(filename).0 {
            Step::NeedMore => !zip.cd.source.ended,
            Step::Done(Some(cdfh)) => cdfhs.contains(cdfh) && cdfh.filename == filename,
            Step::Done(None) => forall|i: int|
                0 <= i < cdfhs.len() ==> (#[trigger] cdfhs[i]).filename != filename,
        },
    decreases zip.cd.source.bytes.len(),
{
    let whole = zip.completed(rest);
    law_next_advances(zip.cd);
    if zip.cd.source.ended {
        lemma_next_ends(zip.cd);
    } else {
        law_next_in_chunks(zip.cd, rest, true);
        law_headers_in_chunks(zip.cd, rest);
    }
    match zip.cd.next() {
        (Step::Done(Some(cdfh)), cd) => {
            let after = zip.cached(cdfh, cd);
            let remaining = after.completed(rest).cd.headers();
            assert(cdfhs.skip(known) == seq![cdfh] + remaining);
            assert(cdfhs.skip(known)[0] == cdfh);
            assert(cdfhs[known] == cdfh);
            assert(remaining =~= cdfhs.skip(known + 1)) by {
                assert forall|i: int| 0 <= i < remaining.len() implies remaining[i]
                    == cdfhs.skip(known + 1)[i] by {
                    assert(cdfhs.skip(known)[i + 1] == remaining[i]);
                }
                assert(cdfhs.skip(known).len() == 1 + remaining.len());
            }
            assert forall|name: Seq<char>| #[trigger]
                after.completed(rest).cache.contains_key(name) implies after.completed(
                rest,
            ).keeps_one_of(cdfhs.take(known + 1), name) by {
                if name == cdfh.filename {
                    assert(cdfhs.take(known + 1)[known] == cdfh);
                } else {
                    assert(whole.cache.contains_key(name));
                    let i = choose|i: int|
                        0 <= i < known && cdfhs.take(known)[i] == whole.cache[name];
                    assert(cdfhs.take(known + 1)[i] == whole.cache[name]);
                }
            }
            assert(after.completed(rest).holds_from(cdfhs, known + 1));
            if cdfh.filename != filename {
                lemma_scan_finds(after, rest, cdfhs, known + 1, filename);
            }
        },
        (Step::Done(None), cd) => {
            assert(whole.cd.headers() =~= seq![]);
            assert(known == cdfhs.len()) by {
                assert(cdfhs.skip(known).len() == 0);
            }
            assert(cd.headers() =~= seq![]) by {
                lemma_exhausted_is_empty(zip.cd);
            }
            let after = ZipView { cd, ..zip };
            assert(after.completed(rest).holds_from(cdfhs, known));
        },
        (Step::NeedMore, cd) => {
            let after = ZipView { cd, ..zip };
            assert(after.completed(rest).cache == whole.cache);
            assert(after.completed(rest).cd.headers() == whole.cd.headers());
            assert(after.completed(rest).holds_from(cdfhs, known));
        },
    }
}

/// A map with headers put into it one after the other, each under its name, in the place of one
/// that was there before.
pub open spec fn put_all(
    cache: Map<Seq<char>, CdfhView>,
    cdfhs: Seq<CdfhView>,
) -> Map<Seq<char>, CdfhView>
    decreases cdfhs.len(),
{
    if cdfhs.len() == 0 {
        cache
    } else {
        put_all(cache.insert(cdfhs[0].filename, cdfhs[0]), cdfhs.drop_first())
    }
}

/// A search through all of the central directory keeps every header of it. Under a name that several
/// of them have, the last one is kept.
pub proof fn law_latest_header_kept(zip: ZipView, filename: Seq<char>)
    requires
        zip.scan(filename).0 == Step::Done(None::<CdfhView>),
    ensures
        zip.scan(filename).1.cache == put_all(zip.cache, zip.cd.headers()),
    decreases zip.cd.source.bytes.len(),
{
    law_next_advances(zip.cd);
    if let (Step::Done(Some(cdfh)), cd) = zip.cd.next() {
        law_latest_header_kept(zip.cached(cdfh, cd), filename);
        assert(zip.cd.headers()[0] == cdfh);
        assert(zip.cd.headers().drop_first() =~= cd.headers());
    }
}

} // verus!
