//! Opening an archive: from its size, or from nothing but its address, to its central directory.
use bytes::Bytes;
use reqwest::header::HeaderValue;
use vstd::prelude::*;

use crate::central_directory::{CdParser, CdView};
use crate::content_length::{is_length, request_content_length};
use crate::eocd::{request_eocd, EocdFound, EocdSearch, EocdView, CHUNK_SIZE};
use crate::error::{Abort, Error, Failure, Result, Step};
use crate::parser::{chunk_bytes, Parser, Source};
use crate::range::{asks_for, inclusive_range, inclusive_range_header, law_range_asks};
use crate::structs::Eocd;
use crate::window::blank;

verus! {

/// What the caller has to do next.
#[derive(Debug)]
pub enum Action<T> {
    /// Make a HEAD request, and hand in the `content-length` header of the reply.
    RequestLength,
    /// Make a GET request with this `Range` header, and hand in the first chunk of the reply.
    Request(String),
    /// Hand in the next chunk of the reply to the last GET request.
    NextChunk,
    /// Nothing: this is what it has come to.
    Return(core::result::Result<T, Failure>),
}

/// What the caller has to do next, with the header value as a sequence of characters.
pub enum ActionView<T> {
    RequestLength,
    Request(Seq<char>),
    NextChunk,
    Return(core::result::Result<T, Failure>),
}

/// A central directory that has not been requested yet.
pub struct Directory {
    /// The central directory.
    pub cd: CdParser,
    /// The `Range` header value of the request whose reply it is.
    pub range: String,
}

/// A central directory, and the `Range` header value of the request whose reply it is.
#[verifier::ext_equal]
pub struct DirectoryView {
    pub cd: CdView,
    pub range: Seq<char>,
}

impl View for Directory {
    type V = DirectoryView;

    open spec fn view(&self) -> DirectoryView {
        DirectoryView { cd: self.cd@, range: self.range@ }
    }
}

/// What the caller has to do next to open an archive.
pub open spec fn open_action_view(action: Action<Directory>) -> ActionView<DirectoryView> {
    match action {
        Action::RequestLength => ActionView::RequestLength,
        Action::Request(range) => ActionView::Request(range@),
        Action::NextChunk => ActionView::NextChunk,
        Action::Return(Ok(directory)) => ActionView::Return(Ok(directory@)),
        Action::Return(Err(failure)) => ActionView::Return(Err(failure)),
    }
}

/// Whether the end of the central directory is an offset.
pub open spec fn cd_in_range(eocd: Eocd) -> bool {
    eocd.cd_offset + eocd.cd_size <= u64::MAX
}

/// The central directory that a record points to. Its files begin before the record.
pub open spec fn directory_of(eocd: Eocd) -> DirectoryView {
    DirectoryView {
        cd: CdView {
            source: Source { bytes: Seq::empty(), ended: false },
            maximum_allowed_offset: eocd.offset,
            window: blank(),
            in_header: false,
        },
        range: inclusive_range(eocd.cd_offset as nat, (eocd.cd_offset + eocd.cd_size) as nat),
    }
}

/// The central directory, and the range request for it.
pub fn request_cd(eocd: &Eocd) -> (directory: Directory)
    requires
        cd_in_range(*eocd),
    ensures
        directory@ == directory_of(*eocd),
{
    Directory {
        cd: CdParser::new(Parser::new(), eocd.offset),
        range: inclusive_range_header(eocd.cd_offset, eocd.cd_offset + eocd.cd_size),
    }
}

/// How far the opening of an archive has come.
pub enum OpeningView {
    /// The size of the archive has been asked for.
    Length,
    /// The end of central directory record is being searched.
    Eocd(EocdView),
    /// It is over.
    Closed,
}

impl OpeningView {
    /// What comes first once the size of the archive is known.
    pub open spec fn sized(filesize: usize) -> (OpeningView, ActionView<DirectoryView>) {
        if filesize < CHUNK_SIZE {
            (OpeningView::Closed, ActionView::Return(Err(Failure::Abort(Abort::Overflow))))
        } else {
            (
                OpeningView::Eocd(EocdView::begun(filesize)),
                ActionView::Request(
                    inclusive_range((filesize - CHUNK_SIZE) as nat, (filesize - 1) as nat),
                ),
            )
        }
    }

    /// What comes after a search for the end of central directory record.
    pub open spec fn searched(search: EocdView) -> (OpeningView, ActionView<DirectoryView>) {
        match search.next() {
            (Step::NeedMore, after) => (OpeningView::Eocd(after), ActionView::NextChunk),
            (Step::Done(Ok(Some(eocd))), _) => (
                OpeningView::Closed,
                ActionView::Return(
                    if cd_in_range(eocd) {
                        Ok(directory_of(eocd))
                    } else {
                        Err(Failure::Abort(Abort::Overflow))
                    },
                ),
            ),
            (Step::Done(Ok(None)), _) => (
                OpeningView::Closed,
                ActionView::Return(Err(Failure::Error(Error::EocdNotFound))),
            ),
            (Step::Done(Err(failure)), _) => (
                OpeningView::Closed,
                ActionView::Return(Err(failure)),
            ),
        }
    }
}

/// Whether an opening awaits what the caller has to do next.
pub open spec fn open_awaits(opening: OpeningView, action: Action<Directory>) -> bool {
    match action {
        Action::RequestLength => opening is Length,
        Action::Request(_) => opening is Eocd,
        Action::NextChunk => opening is Eocd,
        Action::Return(_) => opening is Closed,
    }
}

enum OpeningStage {
    Length,
    Eocd(EocdSearch),
    Closed,
}

/// An archive that is being opened.
pub struct Opening {
    stage: OpeningStage,
}

impl View for Opening {
    type V = OpeningView;

    closed spec fn view(&self) -> OpeningView {
        match self.stage {
            OpeningStage::Length => OpeningView::Length,
            OpeningStage::Eocd(search) => OpeningView::Eocd(search@),
            OpeningStage::Closed => OpeningView::Closed,
        }
    }
}

impl Opening {
    /// Begins to open an archive. Where its size is not known, it is asked for.
    pub fn new(filesize: Option<usize>) -> (opening: (Self, Action<Directory>))
        ensures
            (opening.0@, open_action_view(opening.1)) == match filesize {
                Some(filesize) => OpeningView::sized(filesize),
                None => (OpeningView::Length, ActionView::RequestLength),
            },
            open_awaits(opening.0@, opening.1),
    {
        match filesize {
            Some(filesize) => Opening::sized(filesize),
            None => (Opening { stage: OpeningStage::Length }, Action::RequestLength),
        }
    }

    /// Goes on once the size of the archive is known.
    fn sized(filesize: usize) -> (opening: (Self, Action<Directory>))
        ensures
            (opening.0@, open_action_view(opening.1)) == OpeningView::sized(filesize),
            open_awaits(opening.0@, opening.1),
    {
        if filesize < CHUNK_SIZE {
            (
                Opening { stage: OpeningStage::Closed },
                Action::Return(Err(Failure::Abort(Abort::Overflow))),
            )
        } else {
            let (search, range) = request_eocd(filesize);
            (Opening { stage: OpeningStage::Eocd(search) }, Action::Request(range))
        }
    }

    /// Takes in the `content-length` header of the reply, if it has one.
    pub fn on_length(&mut self, value: Option<&HeaderValue>) -> (action: Action<Directory>)
        requires
            old(self)@ is Length,
        ensures
            open_awaits(final(self)@, action),
            exists|length: Result<usize>| #[trigger]
                is_length(value, length) && match length {
                    Ok(filesize) => (final(self)@, open_action_view(action)) == OpeningView::sized(
                        filesize,
                    ),
                    Err(error) => {
                        &&& final(self)@ is Closed
                        &&& action == Action::Return(Err::<Directory, _>(Failure::Error(error)))
                    },
                },
    {
        let length = request_content_length(value);
        assert(is_length(value, length));
        match length {
            Ok(filesize) => {
                let (opening, action) = Opening::sized(filesize);
                *self = opening;
                action
            },
            Err(error) => {
                self.stage = OpeningStage::Closed;
                Action::Return(Err(Failure::Error(error)))
            },
        }
    }

    /// Takes in the next chunk of the reply to the last GET request, or that it has ended.
    pub fn on_chunk(&mut self, next: Option<Bytes>) -> (action: Action<Directory>)
        requires
            old(self)@ is Eocd,
        ensures
            open_awaits(final(self)@, action),
            (final(self)@, open_action_view(action)) == OpeningView::searched(
                (EocdView {
                    source: old(self)@->Eocd_0.source.supplied(chunk_bytes(next)),
                    ..old(self)@->Eocd_0
                }),
            ),
    {
        let found = match &mut self.stage {
            OpeningStage::Eocd(search) => {
                search.supply(next);
                match search.next() {
                    Step::NeedMore => {
                        return Action::NextChunk;
                    },
                    Step::Done(found) => found,
                }
            },
            _ => {
                return Action::NextChunk;
            },
        };
        self.stage = OpeningStage::Closed;
        match found {
            Ok(Some(eocd)) => {
                if eocd.cd_offset > u64::MAX - eocd.cd_size {
                    Action::Return(Err(Failure::Abort(Abort::Overflow)))
                } else {
                    Action::Return(Ok(request_cd(&eocd)))
                }
            },
            Ok(None) => Action::Return(Err(Failure::Error(Error::EocdNotFound))),
            Err(failure) => Action::Return(Err(failure)),
        }
    }
}

/// The first request for an archive asks for its last 256 bytes. An archive that has fewer is given
/// up.
pub proof fn law_first_request(filesize: usize)
    ensures
        filesize < 256 ==> OpeningView::sized(filesize) == (
            OpeningView::Closed,
            ActionView::<DirectoryView>::Return(Err(Failure::Abort(Abort::Overflow))),
        ),
        filesize >= 256 ==> {
            &&& OpeningView::sized(filesize).0 == OpeningView::Eocd(EocdView::begun(filesize))
            &&& OpeningView::sized(filesize).1 matches ActionView::Request(range) && asks_for(
                range,
                (filesize - 256) as nat,
                (filesize - 1) as nat,
            )
        },
{
    if filesize >= 256 {
        law_range_asks((filesize - 256) as nat, (filesize - 1) as nat);
    }
}

/// Once the record has been found, the central directory is asked for: from the offset to which the
/// record points to as many bytes behind it as the record says. Nothing of it is here yet, and its
/// files begin no later than the signature of the record ends. A directory whose end is not an
/// offset is given up, and an archive without a record is an error.
pub proof fn law_directory_request(search: EocdView, eocd: Eocd)
    ensures
        search.next().0 == Step::<EocdFound>::Done(Ok(Some(eocd))) ==> {
            &&& OpeningView::searched(search).0 is Closed
            &&& eocd.cd_offset + eocd.cd_size > u64::MAX ==> OpeningView::searched(search).1
                == ActionView::<DirectoryView>::Return(Err(Failure::Abort(Abort::Overflow)))
            &&& eocd.cd_offset + eocd.cd_size <= u64::MAX ==> {
                &&& OpeningView::searched(search).1 matches ActionView::Return(Ok(directory))
                &&& asks_for(
                    directory.range,
                    eocd.cd_offset as nat,
                    (eocd.cd_offset + eocd.cd_size) as nat,
                )
                &&& directory.cd.source == (Source { bytes: seq![], ended: false })
                &&& directory.cd.maximum_allowed_offset == eocd.offset
                &&& directory.cd.is_idle()
            }
        },
        search.next().0 == Step::<EocdFound>::Done(Ok(None)) ==> OpeningView::searched(search) == (
            OpeningView::Closed,
            ActionView::<DirectoryView>::Return(Err(Failure::Error(Error::EocdNotFound))),
        ),
        search.next().0 matches Step::Done(Err(failure)) ==> OpeningView::searched(search) == (
            OpeningView::Closed,
            ActionView::<DirectoryView>::Return(Err(failure)),
        ),
        search.next().0 is NeedMore ==> OpeningView::searched(search) == (
            OpeningView::Eocd(search.next().1),
            ActionView::<DirectoryView>::NextChunk,
        ),
{
    if eocd.cd_offset + eocd.cd_size <= u64::MAX {
        law_range_asks(eocd.cd_offset as nat, (eocd.cd_offset + eocd.cd_size) as nat);
    }
}

/// The view of what the caller has to do next is the same thing to do.
pub proof fn law_open_action_viewed(action: Action<Directory>)
    ensures
        match action {
            Action::RequestLength => open_action_view(action) is RequestLength,
            Action::Request(range) => open_action_view(action)
                == ActionView::<DirectoryView>::Request(range@),
            Action::NextChunk => open_action_view(action) is NextChunk,
            Action::Return(Ok(directory)) => {
                &&& open_action_view(action) matches ActionView::Return(Ok(viewed))
                &&& viewed.cd == directory.cd@
                &&& viewed.range == directory.range@
            },
            Action::Return(Err(failure)) => open_action_view(action)
                == ActionView::<DirectoryView>::Return(Err(failure)),
        },
{
}

} // verus!
