//! The central directory: finding the headers of its files in a stream.
use bytes::Bytes;
use vstd::prelude::*;

use crate::error::Step;
use crate::parser::{chunk_bytes, Parser, Shortage, Source};
use crate::records::{
    cdfh_outcome, is_signature, law_cdfh_decided_once, read_cdfh, take_cdfh, Outcome,
    CDFH_SIGNATURE,
};
use crate::structs::{Cdfh, CdfhView};
use crate::window::{blank, lemma_window_moves, slide, window_after};

verus! {

/// How far the search for the next header of a central directory has come.
#[verifier::ext_equal]
pub struct CdView {
    /// The bytes that have not been looked at.
    pub source: Source,
    /// A header of a file that begins behind this offset is a false positive.
    pub maximum_allowed_offset: usize,
    /// The last four bytes looked at, with zeros for those before the search.
    pub window: Seq<u8>,
    /// Whether the window is a signature of which the header has not been read.
    pub in_header: bool,
}

impl CdView {
    /// The search with one more byte looked at.
    pub open spec fn shifted(self) -> CdView {
        let window = slide(self.window, self.source.bytes[0]);
        CdView {
            source: self.source.advance(1),
            window,
            in_header: window == CDFH_SIGNATURE@,
            ..self
        }
    }

    /// The search goes on behind `count` bytes that were read in vain.
    pub open spec fn resumed(self, count: nat) -> CdView {
        CdView { source: self.source.advance(count), in_header: false, ..self }
    }

    /// A new search begins behind `count` bytes.
    pub open spec fn restarted(self, count: nat) -> CdView {
        CdView { source: self.source.advance(count), window: blank(), in_header: false, ..self }
    }

    /// Whether no search has begun, or the last one has come to its end.
    pub open spec fn is_idle(self) -> bool {
        self.window == blank() && !self.in_header
    }

    /// A new search begins after one that was left before its end. Of a header that was being read,
    /// the fields that are here are gone.
    pub open spec fn abandoned(self) -> CdView {
        if self.in_header {
            match cdfh_outcome(self.source.bytes, self.maximum_allowed_offset) {
                Outcome::Short(at) => self.restarted(at),
                Outcome::Read(_, len) => self.restarted(len),
            }
        } else {
            self.restarted(0)
        }
    }

    /// The search with more of the stream here.
    pub open spec fn extended(self, more: Seq<u8>, ended: bool) -> CdView {
        CdView { source: Source { bytes: self.source.bytes + more, ended }, ..self }
    }

    /// What the search comes to, and where the next one begins. A header that breaks off where
    /// the stream ends is a false positive.
    pub open spec fn next(self) -> (Step<Option<CdfhView>>, CdView)
        decreases self.source.bytes.len(), self.in_header as int,
    {
        proof {
            law_cdfh_decided_once(self.source.bytes, seq![], self.maximum_allowed_offset);
        }
        if self.in_header {
            match cdfh_outcome(self.source.bytes, self.maximum_allowed_offset) {
                Outcome::Short(at) => if self.source.ended {
                    self.resumed(at).next()
                } else {
                    (Step::NeedMore, self)
                },
                Outcome::Read(None, len) => self.resumed(len).next(),
                Outcome::Read(Some(cdfh), len) => (Step::Done(Some(cdfh)), self.restarted(len)),
            }
        } else if self.source.bytes.len() > 0 {
            self.shifted().next()
        } else if self.source.ended {
            (Step::Done(None), self.restarted(0))
        } else {
            (Step::NeedMore, self)
        }
    }
}

/// Parses the central directory and provides an API similar to Iterator but for Central Directory
/// File Headers.
pub struct CdParser {
    parser: Parser,
    maximum_allowed_offset: usize,
    peek_buf: [u8; 4],
    in_header: bool,
}

impl View for CdParser {
    type V = CdView;

    closed spec fn view(&self) -> CdView {
        CdView {
            source: self.parser@,
            maximum_allowed_offset: self.maximum_allowed_offset,
            window: self.peek_buf@,
            in_header: self.in_header,
        }
    }
}

/// A header, if there is one, with its name as a sequence of characters.
pub open spec fn step_view(step: Step<Option<Cdfh>>) -> Step<Option<CdfhView>> {
    match step {
        Step::NeedMore => Step::NeedMore,
        Step::Done(None) => Step::Done(None),
        Step::Done(Some(cdfh)) => Step::Done(Some(cdfh@)),
    }
}

impl CdParser {
    /// A central directory of which nothing has come yet.
    pub fn new(parser: Parser, maximum_allowed_offset: usize) -> (cd: Self)
        ensures
            cd@ == (CdView {
                source: parser@,
                maximum_allowed_offset,
                window: blank(),
                in_header: false,
            }),
    {
        let cd = CdParser { parser, maximum_allowed_offset, peek_buf: [0u8;4], in_header: false };
        assert(cd.peek_buf@ =~= blank());
        cd
    }

    /// Takes in the next chunk of the central directory, or that it has ended.
    pub fn supply(&mut self, next: Option<Bytes>)
        ensures
            final(self)@ == (CdView {
                source: old(self)@.source.supplied(chunk_bytes(next)),
                ..old(self)@
            }),
    {
        self.parser.supply(next);
    }

    /// The next header, or None when there are no more.
    pub fn next(&mut self) -> (step: Step<Option<Cdfh>>)
        ensures
            (step_view(step), final(self)@) == old(self)@.next(),
    {
        loop
            invariant
                self@.next() == old(self)@.next(),
            decreases self@.source.bytes.len(), self@.in_header as int,
        {
            let ghost before = self@;
            if self.in_header {
                proof {
                    law_cdfh_decided_once(
                        before.source.bytes,
                        seq![],
                        before.maximum_allowed_offset,
                    );
                }
                match read_cdfh(&mut self.parser, self.maximum_allowed_offset) {
                    Ok(Some(cdfh)) => {
                        self.restart();
                        return Step::Done(Some(cdfh));
                    },
                    Ok(None) | Err(Shortage::UnexpectedEof) => {
                        self.in_header = false;
                    },
                    Err(Shortage::Pending) => {
                        return Step::NeedMore;
                    },
                }
            } else {
                match self.parser.next() {
                    Ok(Some(value)) => {
                        let last = self.peek_buf;
                        self.peek_buf = [last[1], last[2], last[3], value];
                        assert(self.peek_buf@ =~= slide(before.window, value));
                        self.in_header = is_signature(&self.peek_buf, &CDFH_SIGNATURE);
                        assert(self@ =~= before.shifted());
                    },
                    Ok(None) => {
                        self.restart();
                        return Step::Done(None);
                    },
                    Err(_) => {
                        return Step::NeedMore;
                    },
                }
            }
        }
    }

    /// Leaves a search that has not come to its end, where the next chunk could not be had.
    pub fn abandon(&mut self)
        ensures
            final(self)@ == old(self)@.abandoned(),
    {
        if self.in_header {
            let _ = take_cdfh(&mut self.parser, self.maximum_allowed_offset);
        }
        let ghost left = self@;
        self.restart();
        assert(left.restarted(0) =~= old(self)@.abandoned());
    }

    /// Forgets the bytes looked at.
    fn restart(&mut self)
        ensures
            final(self)@ == old(self)@.restarted(0),
    {
        self.peek_buf = [0u8;4];
        self.in_header = false;
        assert(self.peek_buf@ =~= blank());
        assert(self@ =~= old(self)@.restarted(0));
    }
}

impl CdView {
    /// What the search for the header of a file comes to, and where the next search begins.
    pub open spec fn find(self, filename: Seq<char>) -> (Step<Option<CdfhView>>, CdView)
        decreases self.source.bytes.len(),
    {
        proof {
            law_next_advances(self);
        }
        match self.next() {
            (Step::Done(Some(cdfh)), after) => if cdfh.filename == filename {
                (Step::Done(Some(cdfh)), after)
            } else {
                after.find(filename)
            },
            other => other,
        }
    }

    /// The headers of a central directory that has come to its end.
    pub open spec fn headers(self) -> Seq<CdfhView>
        decreases self.source.bytes.len(),
    {
        proof {
            law_next_advances(self);
        }
        match self.next() {
            (Step::Done(Some(cdfh)), after) => seq![cdfh] + after.headers(),
            _ => seq![],
        }
    }
}

/// Find a file inside the central directory.
pub fn find_cdfh(cd: &mut CdParser, filename: &str) -> (step: Step<Option<Cdfh>>)
    ensures
        (step_view(step), final(cd)@) == old(cd)@.find(filename@),
{
    let name: String = filename.to_owned();
    loop
        invariant
            name@ == filename@,
            cd@.find(filename@) == old(cd)@.find(filename@),
        decreases cd@.source.bytes.len(),
    {
        proof {
            law_next_advances(cd@);
        }
        match cd.next() {
            Step::Done(Some(cdfh)) => {
                if cdfh.filename == name {
                    return Step::Done(Some(cdfh));
                }
            },
            other => {
                return other;
            },
        }
    }
}

/// A search never goes back: what it leaves is no longer than what it began with, and shorter
/// where it finds a header.
pub proof fn law_next_advances(cd: CdView)
    ensures
        cd.next().1.source.bytes.len() <= cd.source.bytes.len(),
        cd.next().0 matches Step::Done(Some(_)) ==> cd.next().1.source.bytes.len()
            < cd.source.bytes.len(),
    decreases cd.source.bytes.len(), cd.in_header as int,
{
    law_cdfh_decided_once(cd.source.bytes, seq![], cd.maximum_allowed_offset);
    if cd.in_header {
        match cdfh_outcome(cd.source.bytes, cd.maximum_allowed_offset) {
            Outcome::Short(at) => if cd.source.ended {
                law_next_advances(cd.resumed(at));
            },
            Outcome::Read(None, len) => {
                law_next_advances(cd.resumed(len));
            },
            Outcome::Read(Some(_), _) => {},
        }
    } else if cd.source.bytes.len() > 0 {
        law_next_advances(cd.shifted());
    }
}

/// A search that comes to its end leaves nothing to abandon: to abandon it changes nothing. What
/// was left before its end and has been abandoned is left so no longer.
pub proof fn law_finished_search_is_idle(cd: CdView)
    ensures
        cd.next().0 !is NeedMore ==> cd.next().1.is_idle(),
        cd.is_idle() ==> cd.abandoned() == cd,
        cd.abandoned().is_idle(),
    decreases cd.source.bytes.len(), cd.in_header as int,
{
    law_cdfh_decided_once(cd.source.bytes, seq![], cd.maximum_allowed_offset);
    if cd.is_idle() {
        assert(cd.restarted(0) =~= cd);
    }
    if cd.in_header {
        match cdfh_outcome(cd.source.bytes, cd.maximum_allowed_offset) {
            Outcome::Short(at) => if cd.source.ended {
                law_finished_search_is_idle(cd.resumed(at));
            },
            Outcome::Read(None, len) => {
                law_finished_search_is_idle(cd.resumed(len));
            },
            Outcome::Read(Some(_), _) => {},
        }
    } else if cd.source.bytes.len() > 0 {
        law_finished_search_is_idle(cd.shifted());
    }
}

/// How the central directory is cut into chunks makes no difference to a search in it. A search
/// that is over on the bytes that have come is over in the same way on more of them, and leaves the
/// rest; a search that needs more goes on from where it stopped as if all of it had been there.
pub proof fn law_next_in_chunks(cd: CdView, more: Seq<u8>, ended: bool)
    requires
        !cd.source.ended,
    ensures
        match cd.next() {
            (Step::NeedMore, after) => cd.extended(more, ended).next() == after.extended(
                more,
                ended,
            ).next(),
            (step, after) => cd.extended(more, ended).next() == (step, after.extended(more, ended)),
        },
        cd.next().0 != Step::<Option<CdfhView>>::Done(None),
        !cd.next().1.source.ended,
    decreases cd.source.bytes.len(), cd.in_header as int,
{
    let bytes = cd.source.bytes;
    law_cdfh_decided_once(bytes, more, cd.maximum_allowed_offset);
    if cd.in_header {
        match cdfh_outcome(bytes, cd.maximum_allowed_offset) {
            Outcome::Short(at) => {},
            Outcome::Read(None, len) => {
                lemma_extended_advances(cd, more, ended, len);
                law_next_in_chunks(cd.resumed(len), more, ended);
            },
            Outcome::Read(Some(_), len) => {
                lemma_extended_advances(cd, more, ended, len);
            },
        }
    } else if bytes.len() > 0 {
        assert(cd.extended(more, ended).shifted() =~= cd.shifted().extended(more, ended));
        law_next_in_chunks(cd.shifted(), more, ended);
    }
}

/// Taking bytes that are here and having more come can be done in either order.
proof fn lemma_extended_advances(cd: CdView, more: Seq<u8>, ended: bool, count: nat)
    requires
        count <= cd.source.bytes.len(),
    ensures
        cd.extended(more, ended).resumed(count) == cd.resumed(count).extended(more, ended),
        cd.extended(more, ended).restarted(count) == cd.restarted(count).extended(more, ended),
{
    assert((cd.source.bytes + more).skip(count as int) =~= cd.source.bytes.skip(count as int)
        + more);
}

/// Reading a central directory as its chunks come gives the headers of the whole of it, one by
/// one.
pub proof fn law_headers_in_chunks(cd: CdView, more: Seq<u8>)
    requires
        !cd.source.ended,
    ensures
        match cd.next() {
            (Step::Done(Some(cdfh)), after) => cd.extended(more, true).headers() == seq![cdfh]
                + after.extended(more, true).headers(),
            (_, after) => cd.extended(more, true).headers() == after.extended(more, true).headers(),
        },
{
    law_next_in_chunks(cd, more, true);
}

/// Finding a file as the chunks come is finding it in the whole of the central directory.
pub proof fn law_find_in_chunks(cd: CdView, more: Seq<u8>, ended: bool, filename: Seq<char>)
    requires
        !cd.source.ended,
    ensures
        match cd.find(filename) {
            (Step::NeedMore, after) => cd.extended(more, ended).find(filename) == after.extended(
                more,
                ended,
            ).find(filename),
            (step, after) => cd.extended(more, ended).find(filename) == (
                step,
                after.extended(more, ended),
            ),
        },
        !cd.find(filename).1.source.ended,
    decreases cd.source.bytes.len(),
{
    law_next_advances(cd);
    law_next_in_chunks(cd, more, ended);
    match cd.next() {
        (Step::Done(Some(cdfh)), after) => if cdfh.filename != filename {
            law_find_in_chunks(after, more, ended, filename);
        },
        _ => {},
    }
}

/// The file found is the first one with the name in the central directory; none is found only
/// where no header has the name.
pub proof fn law_find_is_first(cd: CdView, filename: Seq<char>)
    requires
        cd.source.ended,
    ensures
        match cd.find(filename).0 {
            Step::NeedMore => false,
            Step::Done(None) => forall|i: int|
                0 <= i < cd.headers().len() ==> (#[trigger] cd.headers()[i]).filename != filename,
            Step::Done(Some(cdfh)) => exists|i: int|
                {
                    &&& 0 <= i < cd.headers().len()
                    &&& #[trigger] cd.headers()[i] == cdfh
                    &&& cdfh.filename == filename
                    &&& forall|j: int|
                        0 <= j < i ==> (#[trigger] cd.headers()[j]).filename != filename
                },
        },
    decreases cd.source.bytes.len(),
{
    law_next_advances(cd);
    lemma_next_ends(cd);
    match cd.next() {
        (Step::Done(Some(cdfh)), after) => {
            let headers = cd.headers();
            assert(headers[0] == cdfh);
            assert forall|i: int| 0 <= i < after.headers().len() implies headers[i + 1]
                == #[trigger] after.headers()[i] by {}
            if cdfh.filename != filename {
                law_find_is_first(after, filename);
                match after.find(filename).0 {
                    Step::Done(Some(found)) => {
                        let i = choose|i: int|
                            {
                                &&& 0 <= i < after.headers().len()
                                &&& #[trigger] after.headers()[i] == found
                                &&& found.filename == filename
                                &&& forall|j: int|
                                    0 <= j < i ==> (#[trigger] after.headers()[j]).filename
                                        != filename
                            };
                        assert(headers[i + 1] == found);
                        assert forall|j: int| 0 <= j < i + 1 implies (
                        #[trigger] headers[j]).filename != filename by {
                            if j > 0 {
                                assert(headers[j] == after.headers()[j - 1]);
                            }
                        }
                    },
                    _ => {
                        assert forall|j: int| 0 <= j < headers.len() implies (
                        #[trigger] headers[j]).filename != filename by {
                            if j > 0 {
                                assert(headers[j] == after.headers()[j - 1]);
                            }
                        }
                    },
                }
            }
        },
        _ => {},
    }
}

/// A search in a stream that has ended needs nothing more.
pub proof fn lemma_next_ends(cd: CdView)
    requires
        cd.source.ended,
    ensures
        cd.next().0 !is NeedMore,
        cd.next().1.source.ended,
    decreases cd.source.bytes.len(), cd.in_header as int,
{
    law_cdfh_decided_once(cd.source.bytes, seq![], cd.maximum_allowed_offset);
    if cd.in_header {
        match cdfh_outcome(cd.source.bytes, cd.maximum_allowed_offset) {
            Outcome::Short(at) => {
                lemma_next_ends(cd.resumed(at));
            },
            Outcome::Read(None, len) => {
                lemma_next_ends(cd.resumed(len));
            },
            Outcome::Read(Some(_), _) => {},
        }
    } else if cd.source.bytes.len() > 0 {
        lemma_next_ends(cd.shifted());
    }
}

/// Whether bytes are the signature of a header and the header behind it, and nothing else.
pub open spec fn is_entry(bytes: Seq<u8>, maximum_allowed_offset: usize, cdfh: CdfhView) -> bool {
    &&& bytes.len() >= 4
    &&& bytes.take(4) == CDFH_SIGNATURE@
    &&& cdfh_outcome(bytes.skip(4), maximum_allowed_offset) == Outcome::Read(
        Some(cdfh),
        (bytes.len() - 4) as nat,
    )
}

impl CdView {
    /// What has come of a central directory, before any of it has been looked at.
    pub open spec fn come(bytes: Seq<u8>, maximum_allowed_offset: usize, ended: bool) -> CdView {
        CdView { source: Source { bytes, ended }, ..CdView::whole(bytes, maximum_allowed_offset) }
    }

    /// The whole of a central directory, before any of it has been looked at.
    pub open spec fn whole(bytes: Seq<u8>, maximum_allowed_offset: usize) -> CdView {
        CdView {
            source: Source { bytes, ended: true },
            maximum_allowed_offset,
            window: blank(),
            in_header: false,
        }
    }
}

/// A search that has looked at `done` bytes of a central directory and found no signature.
spec fn scanned(bytes: Seq<u8>, maximum_allowed_offset: usize, ended: bool, done: int) -> CdView {
    CdView {
        source: Source { bytes: bytes.skip(done), ended },
        window: window_after(bytes, done),
        ..CdView::whole(bytes, maximum_allowed_offset)
    }
}

/// Whether bytes hold no signature of a header.
pub open spec fn is_gap(bytes: Seq<u8>) -> bool {
    forall|i: int|
        0 <= i <= bytes.len() - 4 ==> #[trigger] bytes.subrange(i, i + 4) != CDFH_SIGNATURE@
}

/// Entries one behind the other, each with its gap before it.
pub open spec fn laid_out(gaps: Seq<Seq<u8>>, entries: Seq<Seq<u8>>) -> Seq<u8>
    recommends
        gaps.len() == entries.len(),
    decreases entries.len(),
{
    if entries.len() == 0 {
        seq![]
    } else {
        gaps[0] + entries[0] + laid_out(gaps.drop_first(), entries.drop_first())
    }
}

/// A central directory that is made of headers, and of bytes before, between and behind them that
/// hold no signature, is read in full: all of its headers are found, in their order, and nothing
/// else is.
pub proof fn law_directory_read_in_full(
    gaps: Seq<Seq<u8>>,
    entries: Seq<Seq<u8>>,
    cdfhs: Seq<CdfhView>,
    trailer: Seq<u8>,
    maximum_allowed_offset: usize,
)
    requires
        gaps.len() == entries.len(),
        entries.len() == cdfhs.len(),
        forall|i: int| 0 <= i < gaps.len() ==> is_gap(#[trigger] gaps[i]),
        forall|i: int|
            0 <= i < entries.len() ==> is_entry(
                #[trigger] entries[i],
                maximum_allowed_offset,
                cdfhs[i],
            ),
        is_gap(trailer),
    ensures
        CdView::whole(laid_out(gaps, entries) + trailer, maximum_allowed_offset).headers()
            == cdfhs,
    decreases entries.len(),
{
    let bytes = laid_out(gaps, entries) + trailer;
    let cd = CdView::whole(bytes, maximum_allowed_offset);
    if entries.len() == 0 {
        assert(bytes =~= trailer);
        assert(trailer.skip(0) =~= trailer);
        assert(window_after(trailer, 0) =~= blank());
        lemma_scan_to_end(trailer, maximum_allowed_offset, 0);
        assert(cd.headers() =~= cdfhs);
    } else {
        let rest = laid_out(gaps.drop_first(), entries.drop_first()) + trailer;
        assert(is_gap(gaps[0]));
        assert(is_entry(entries[0], maximum_allowed_offset, cdfhs[0]));
        assert(bytes =~= gaps[0] + (entries[0] + rest));
        lemma_first_entry(gaps[0], entries[0], rest, cdfhs[0], maximum_allowed_offset);
        assert forall|i: int| 0 <= i < gaps.len() - 1 implies is_gap(
            #[trigger] gaps.drop_first()[i],
        ) by {
            assert(is_gap(gaps[i + 1]));
        }
        assert forall|i: int| 0 <= i < entries.len() - 1 implies is_entry(
            #[trigger] entries.drop_first()[i],
            maximum_allowed_offset,
            cdfhs.drop_first()[i],
        ) by {
            assert(is_entry(entries[i + 1], maximum_allowed_offset, cdfhs[i + 1]));
        }
        law_directory_read_in_full(
            gaps.drop_first(),
            entries.drop_first(),
            cdfhs.drop_first(),
            trailer,
            maximum_allowed_offset,
        );
        assert(cd.headers() =~= cdfhs);
    }
}

/// A search in a whole directory that begins at a gap finds the header behind it, and the next one
/// begins right behind that header.
proof fn lemma_first_entry(
    gap: Seq<u8>,
    entry: Seq<u8>,
    rest: Seq<u8>,
    cdfh: CdfhView,
    maximum_allowed_offset: usize,
)
    requires
        is_gap(gap),
        is_entry(entry, maximum_allowed_offset, cdfh),
    ensures
        CdView::whole(gap + (entry + rest), maximum_allowed_offset).next() == (
            Step::Done(Some(cdfh)),
            CdView::whole(rest, maximum_allowed_offset),
        ),
{
    law_header_found_at_once(gap, entry, rest, cdfh, maximum_allowed_offset, true);
}

/// A header that has come is found at once, without waiting for what is behind it, and the next
/// search begins right behind it. Bytes before it that hold no signature are passed over.
pub proof fn law_header_found_at_once(
    gap: Seq<u8>,
    entry: Seq<u8>,
    rest: Seq<u8>,
    cdfh: CdfhView,
    maximum_allowed_offset: usize,
    ended: bool,
)
    requires
        is_gap(gap),
        is_entry(entry, maximum_allowed_offset, cdfh),
    ensures
        CdView::come(gap + (entry + rest), maximum_allowed_offset, ended).next() == (
            Step::Done(Some(cdfh)),
            CdView::come(rest, maximum_allowed_offset, ended),
        ),
{
    let bytes = gap + (entry + rest);
    let at = gap.len() as int;
    let cd = CdView::come(bytes, maximum_allowed_offset, ended);
    assert(cd.next() == at_header(bytes, maximum_allowed_offset, ended, at).next()) by {
        assert(bytes.subrange(at, at + 4) =~= entry.take(4));
        assert(bytes.subrange(0, at) =~= gap);
        assert(bytes.skip(0) =~= bytes);
        assert(window_after(bytes, 0) =~= blank());
        assert(cd == scanned(bytes, maximum_allowed_offset, ended, 0));
        lemma_scan_to_header(bytes, maximum_allowed_offset, ended, at, 0);
    }
    assert(bytes.skip(at + 4) =~= entry.skip(4) + rest);
    lemma_header_read(bytes, entry.skip(4), rest, cdfh, maximum_allowed_offset, ended, at);
}

/// A search that stands behind a signature reads the header there, and the next one begins right
/// behind it.
proof fn lemma_header_read(
    bytes: Seq<u8>,
    header: Seq<u8>,
    rest: Seq<u8>,
    cdfh: CdfhView,
    maximum_allowed_offset: usize,
    ended: bool,
    at: int,
)
    requires
        bytes.skip(at + 4) == header + rest,
        cdfh_outcome(header, maximum_allowed_offset) == Outcome::Read(Some(cdfh), header.len()),
    ensures
        at_header(bytes, maximum_allowed_offset, ended, at).next() == (
            Step::Done(Some(cdfh)),
            CdView::come(rest, maximum_allowed_offset, ended),
        ),
{
    let cd = at_header(bytes, maximum_allowed_offset, ended, at);
    law_cdfh_decided_once(header, rest, maximum_allowed_offset);
    assert((header + rest).skip(header.len() as int) =~= rest);
    assert(cd.restarted(header.len()) == CdView::come(rest, maximum_allowed_offset, ended));
}

/// A search that stands behind the signature that begins at `at`.
spec fn at_header(bytes: Seq<u8>, maximum_allowed_offset: usize, ended: bool, at: int) -> CdView {
    CdView {
        source: Source { bytes: bytes.skip(at + 4), ended },
        window: CDFH_SIGNATURE@,
        in_header: true,
        ..CdView::whole(bytes, maximum_allowed_offset)
    }
}

/// A search that has looked at `done` bytes and found no signature goes on to the header behind the
/// first one, which begins at `at`.
proof fn lemma_scan_to_header(
    bytes: Seq<u8>,
    maximum_allowed_offset: usize,
    ended: bool,
    at: int,
    done: int,
)
    requires
        0 <= at && at + 4 <= bytes.len(),
        0 <= done < at + 4,
        bytes.subrange(at, at + 4) == CDFH_SIGNATURE@,
        is_gap(bytes.subrange(0, at)),
    ensures
        scanned(bytes, maximum_allowed_offset, ended, done).next() == at_header(
            bytes,
            maximum_allowed_offset,
            ended,
            at,
        ).next(),
    decreases at + 4 - done,
{
    lemma_window_moves(bytes, done);
    assert(bytes.skip(done).skip(1) =~= bytes.skip(done + 1));
    if done + 1 < at + 4 {
        lemma_no_signature_yet(bytes, at, done + 1);
        lemma_scan_one(bytes, maximum_allowed_offset, ended, done);
        lemma_scan_to_header(bytes, maximum_allowed_offset, ended, at, done + 1);
    } else {
        assert(scanned(bytes, maximum_allowed_offset, ended, done).shifted() =~= at_header(
            bytes,
            maximum_allowed_offset,
            ended,
            at,
        ));
    }
}

/// No signature ends before the one behind a gap does, since a signature does not overlap itself.
proof fn lemma_no_signature_yet(bytes: Seq<u8>, at: int, done: int)
    requires
        0 <= at && at + 4 <= bytes.len(),
        0 < done < at + 4,
        bytes.subrange(at, at + 4) == CDFH_SIGNATURE@,
        is_gap(bytes.subrange(0, at)),
    ensures
        window_after(bytes, done) != CDFH_SIGNATURE@,
{
    let window = window_after(bytes, done);
    assert(CDFH_SIGNATURE@[0] == 0x50 && CDFH_SIGNATURE@[1] == 0x4b && CDFH_SIGNATURE@[2] == 0x01
        && CDFH_SIGNATURE@[3] == 0x02);
    lemma_window_moves(bytes, done - 1);
    assert(window[3] == bytes[done - 1]);
    if done > at {
        assert(bytes[done - 1] == bytes.subrange(at, at + 4)[done - 1 - at]);
    } else if done >= 4 {
        let i = done - 4;
        assert(bytes.subrange(0, at).subrange(i, i + 4) =~= bytes.subrange(i, i + 4));
    }
}

/// A byte that completes no signature is passed over.
proof fn lemma_scan_one(bytes: Seq<u8>, maximum_allowed_offset: usize, ended: bool, done: int)
    requires
        0 <= done < bytes.len(),
        window_after(bytes, done + 1) != CDFH_SIGNATURE@,
    ensures
        scanned(bytes, maximum_allowed_offset, ended, done).next() == scanned(
            bytes,
            maximum_allowed_offset,
            ended,
            done + 1,
        ).next(),
{
    lemma_window_moves(bytes, done);
    assert(bytes.skip(done).skip(1) =~= bytes.skip(done + 1));
}

/// A search that meets no signature finds nothing.
proof fn lemma_scan_to_end(bytes: Seq<u8>, maximum_allowed_offset: usize, done: int)
    requires
        0 <= done <= bytes.len(),
        is_gap(bytes),
    ensures
        scanned(bytes, maximum_allowed_offset, true, done).next().0 == Step::<
            Option<CdfhView>,
        >::Done(None),
    decreases bytes.len() - done,
{
    if done < bytes.len() {
        assert(CDFH_SIGNATURE@[0] == 0x50);
        lemma_window_moves(bytes, done);
        lemma_scan_one(bytes, maximum_allowed_offset, true, done);
        lemma_scan_to_end(bytes, maximum_allowed_offset, done + 1);
    }
}

/// A search that finds nothing leaves nothing.
pub proof fn lemma_exhausted_is_empty(cd: CdView)
    requires
        cd.next().0 == Step::<Option<CdfhView>>::Done(None),
    ensures
        cd.next().1.source.bytes.len() == 0,
        cd.next().1.headers() == Seq::<CdfhView>::empty(),
    decreases cd.source.bytes.len(), cd.in_header as int,
{
    law_cdfh_decided_once(cd.source.bytes, seq![], cd.maximum_allowed_offset);
    if cd.in_header {
        match cdfh_outcome(cd.source.bytes, cd.maximum_allowed_offset) {
            Outcome::Short(at) => {
                lemma_exhausted_is_empty(cd.resumed(at));
            },
            Outcome::Read(None, len) => {
                lemma_exhausted_is_empty(cd.resumed(len));
            },
            Outcome::Read(Some(_), _) => {},
        }
    } else if cd.source.bytes.len() > 0 {
        lemma_exhausted_is_empty(cd.shifted());
    }
}

/// Bytes that were looked at before make no difference to a search where none of them can begin a
/// signature with the bytes that follow.
proof fn lemma_window_forgotten(cd: CdView, other: CdView, shared: int)
    requires
        cd.source == other.source,
        cd.source.ended,
        cd.maximum_allowed_offset == other.maximum_allowed_offset,
        !cd.in_header && !other.in_header,
        cd.window.len() == 4 && other.window.len() == 4,
        0 <= shared <= 3,
        cd.window.skip(4 - shared) == other.window.skip(4 - shared),
        forall|i: int| 1 <= i < 4 - shared ==> #[trigger] cd.window[i] != 0x50,
        forall|i: int| 1 <= i < 4 - shared ==> #[trigger] other.window[i] != 0x50,
    ensures
        cd.next() == other.next(),
    decreases cd.source.bytes.len(),
{
    if cd.source.bytes.len() > 0 {
        let byte = cd.source.bytes[0];
        assert(CDFH_SIGNATURE@[0] == 0x50);
        assert forall|i: int| 4 - shared <= i < 4 implies #[trigger] cd.window[i]
            == other.window[i] by {
            assert(cd.window.skip(4 - shared)[i - (4 - shared)] == other.window.skip(4 - shared)[i
                - (4 - shared)]);
        }
        if shared == 3 {
            assert(slide(cd.window, byte) =~= slide(other.window, byte));
        } else {
            assert(slide(cd.window, byte)[0] == cd.window[1]);
            assert(slide(other.window, byte)[0] == other.window[1]);
            assert(slide(cd.window, byte).skip(3 - shared) =~= slide(other.window, byte).skip(
                3 - shared,
            ));
            lemma_window_forgotten(cd.shifted(), other.shifted(), shared + 1);
        }
    }
}

/// What looks like a header and is none is passed over: the search goes on right behind the fields
/// that were read of it, and finds what is found there. So it is with a header that breaks off
/// where the directory ends.
pub proof fn law_false_header_passed_over(
    gap: Seq<u8>,
    tail: Seq<u8>,
    maximum_allowed_offset: usize,
    count: nat,
)
    requires
        is_gap(gap),
        match cdfh_outcome(tail, maximum_allowed_offset) {
            Outcome::Short(at) => at == count,
            Outcome::Read(cdfh, len) => cdfh is None && len == count,
        },
    ensures
        CdView::whole(gap + (seq![0x50u8, 0x4bu8, 1u8, 2u8] + tail), maximum_allowed_offset).next()
            == CdView::whole(tail.skip(count as int), maximum_allowed_offset).next(),
        CdView::whole(
            gap + (seq![0x50u8, 0x4bu8, 1u8, 2u8] + tail),
            maximum_allowed_offset,
        ).headers() == CdView::whole(tail.skip(count as int), maximum_allowed_offset).headers(),
{
    let signature = seq![0x50u8, 0x4bu8, 1u8, 2u8];
    let bytes = gap + (signature + tail);
    let at = gap.len() as int;
    let cd = CdView::whole(bytes, maximum_allowed_offset);
    let behind = CdView::whole(tail.skip(count as int), maximum_allowed_offset);
    assert(CDFH_SIGNATURE@ =~= signature);
    assert(cd.next() == at_header(bytes, maximum_allowed_offset, true, at).next()) by {
        assert(bytes.subrange(at, at + 4) =~= signature);
        assert(bytes.subrange(0, at) =~= gap);
        assert(bytes.skip(0) =~= bytes);
        assert(window_after(bytes, 0) =~= blank());
        assert(cd == scanned(bytes, maximum_allowed_offset, true, 0));
        lemma_scan_to_header(bytes, maximum_allowed_offset, true, at, 0);
    }
    assert(bytes.skip(at + 4) =~= tail);
    let here = at_header(bytes, maximum_allowed_offset, true, at);
    assert(here.next() == here.resumed(count).next());
    assert(here.window =~= signature);
    assert(here.resumed(count).window.skip(4) =~= behind.window.skip(4));
    lemma_window_forgotten(here.resumed(count), behind, 0);
}

/// To abandon a search loses what was read of a header that was being looked at, and nothing else.
pub proof fn law_abandoned_loses_fields(cd: CdView)
    ensures
        cd.abandoned().source.ended == cd.source.ended,
        cd.abandoned().maximum_allowed_offset == cd.maximum_allowed_offset,
        !cd.in_header ==> cd.abandoned().source.bytes == cd.source.bytes,
        cd.in_header ==> match cdfh_outcome(cd.source.bytes, cd.maximum_allowed_offset) {
            Outcome::Short(at) => cd.source.bytes == cd.source.bytes.take(at as int)
                + cd.abandoned().source.bytes,
            Outcome::Read(_, len) => cd.source.bytes == cd.source.bytes.take(len as int)
                + cd.abandoned().source.bytes,
        },
        cd.abandoned().window == seq![0u8, 0u8, 0u8, 0u8],
        !cd.abandoned().in_header,
{
    law_cdfh_decided_once(cd.source.bytes, seq![], cd.maximum_allowed_offset);
    let bytes = cd.source.bytes;
    assert(bytes.skip(0) =~= bytes);
    if cd.in_header {
        match cdfh_outcome(bytes, cd.maximum_allowed_offset) {
            Outcome::Short(at) => {
                assert(bytes =~= bytes.take(at as int) + bytes.skip(at as int));
            },
            Outcome::Read(_, len) => {
                assert(bytes =~= bytes.take(len as int) + bytes.skip(len as int));
            },
        }
    }
}

/// The view of what a search comes to is the same header.
pub proof fn law_step_viewed(step: Step<Option<Cdfh>>)
    ensures
        match step {
            Step::NeedMore => step_view(step) is NeedMore,
            Step::Done(None) => step_view(step) == Step::Done(None::<CdfhView>),
            Step::Done(Some(cdfh)) => step_view(step) == Step::Done(Some(cdfh@)),
        },
{
}

} // verus!
