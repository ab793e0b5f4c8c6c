//! Reading the sections of a multipart stream.

use rocket::http::HeaderMap;
use serde_json::Value;
use tokio_util::bytes::{Bytes, BytesMut};
use vstd::prelude::*;
use vstd::utf8::encode_utf8;

use crate::buffer::{buffer_bytes, frozen_bytes};
use crate::content_type::{param_of, parsed_content_type, read_content_type, ContentType};
use crate::decoder::{
    DecoderView, FrameView, MultipartDecoder, MultipartDecoderState, MultipartFrame,
};
use crate::error::{Error, JsonFailure};
use crate::header::{add_field, header_groups, values_of, with_added};
use crate::json::{json_text, parsed_json, read_json};
use crate::text::same_ignoring_case;

verus! {

/// The limit on a multipart stream where none is configured: 1 MiB.
pub const DEFAULT_LIMIT: u64 = 1048576;

/// The status of a request that is not a multipart stream with a boundary.
pub const BAD_REQUEST: u16 = 400;

/// What the frames of the stream do while a section is looked for or read.
#[derive(Debug)]
pub enum FrameEvent {
    /// The next frame came.
    Frame(MultipartFrame),
    /// The stream failed.
    Failed(Error),
    /// There are no more frames.
    Finished,
}

/// What an event says.
pub enum EventView {
    /// The next frame came.
    Frame(FrameView),
    /// The stream failed.
    Failed,
    /// There are no more frames.
    Finished,
}

impl View for FrameEvent {
    type V = EventView;

    open spec fn view(&self) -> EventView {
        match self {
            FrameEvent::Frame(frame) => EventView::Frame(frame@),
            FrameEvent::Failed(_) => EventView::Failed,
            FrameEvent::Finished => EventView::Finished,
        }
    }
}

/// A multipart stream that is being read: the frame that was read last, and the
/// content type of the stream.
pub struct MultipartReader {
    buffer: MultipartFrame,
    content_type: ContentType,
}

/// A reader of a multipart stream.
pub struct ReaderView {
    /// The frame that was read last.
    pub buffer: FrameView,
    /// The content type of the stream.
    pub content_type: (Seq<char>, Seq<char>, Seq<(Seq<char>, Seq<char>)>),
}

impl View for MultipartReader {
    type V = ReaderView;

    closed spec fn view(&self) -> ReaderView {
        ReaderView { buffer: self.buffer@, content_type: self.content_type@ }
    }
}

/// A single section in a multipart stream: its headers. Its body is read through
/// the reader of the stream.
pub struct MultipartReadSection {
    headers: HeaderMap<'static>,
}

impl View for MultipartReadSection {
    type V = Seq<(Seq<char>, Seq<Seq<char>>)>;

    closed spec fn view(&self) -> Seq<(Seq<char>, Seq<Seq<char>>)> {
        header_groups(self.headers)
    }
}

/// What becomes of a request with a body.
pub enum FromData {
    /// The body is a multipart stream: its reader, its decoder, and how many bytes
    /// of it may be read.
    Success(MultipartReader, MultipartDecoder, u64),
    /// The request is refused with this status.
    Error(u16, Error),
    /// The request goes on to other handlers, with this status if there is none.
    Forward(u16),
}

/// What becomes of a request with a body.
pub enum AdmissionView {
    /// The body is a multipart stream: its reader, its decoder, and how many bytes
    /// of it may be read.
    Success(ReaderView, DecoderView, u64),
    /// The request is refused with this status.
    Error(u16),
    /// The request goes on to other handlers, with this status if there is none.
    Forward(u16),
}

impl View for FromData {
    type V = AdmissionView;

    open spec fn view(&self) -> AdmissionView {
        match self {
            FromData::Success(reader, decoder, limit) => AdmissionView::Success(
                reader@,
                decoder@,
                *limit,
            ),
            FromData::Error(status, _) => AdmissionView::Error(*status),
            FromData::Forward(status) => AdmissionView::Forward(*status),
        }
    }
}

/// How far a search for the next section is.
pub enum NextProgress {
    /// No boundary was found yet.
    Seeking,
    /// These headers were read after the boundary.
    Collecting(HeaderMap<'static>),
}

/// How far a search for the next section is.
pub enum ProgressView {
    /// No boundary was found yet.
    Seeking,
    /// These headers were read after the boundary.
    Collecting(Seq<(Seq<char>, Seq<Seq<char>>)>),
}

impl View for NextProgress {
    type V = ProgressView;

    open spec fn view(&self) -> ProgressView {
        match self {
            NextProgress::Seeking => ProgressView::Seeking,
            NextProgress::Collecting(headers) => ProgressView::Collecting(header_groups(*headers)),
        }
    }
}

/// What to do next in a search for the next section.
pub enum NextAction {
    /// Get the next event, and go on with this progress.
    Poll(NextProgress),
    /// The search has found this section.
    Section(MultipartReadSection),
    /// The stream has no more sections.
    NoSection,
    /// The stream failed.
    Failed(Error),
}

/// What to do next in a search for the next section.
pub enum NextView {
    /// Get the next event, and go on with this progress.
    Poll(ProgressView),
    /// The search has found a section with these headers.
    Section(Seq<(Seq<char>, Seq<Seq<char>>)>),
    /// The stream has no more sections.
    NoSection,
    /// The stream failed.
    Failed,
}

impl View for NextAction {
    type V = NextView;

    open spec fn view(&self) -> NextView {
        match self {
            NextAction::Poll(progress) => NextView::Poll(progress@),
            NextAction::Section(section) => NextView::Section(section@),
            NextAction::NoSection => NextView::NoSection,
            NextAction::Failed(_) => NextView::Failed,
        }
    }
}

/// Where a search for the next section starts: at the boundary, if that was read
/// last.
pub open spec fn next_start(buffer: FrameView) -> ProgressView {
    if buffer is Boundary {
        ProgressView::Collecting(Seq::empty())
    } else {
        ProgressView::Seeking
    }
}

/// One step of the search for the next section: the frame that was read last, and
/// what to do next. Everything up to a boundary is passed over. The headers after
/// it belong to the section, which starts with the first frame that is not a
/// header. A stream that ends after the boundary and before any header has no
/// section there.
pub open spec fn next_step(buffer: FrameView, progress: ProgressView, event: EventView) -> (
    FrameView,
    NextView,
) {
    match (progress, event) {
        (_, EventView::Failed) => (buffer, NextView::Failed),
        (ProgressView::Seeking, EventView::Finished)
        | (ProgressView::Seeking, EventView::Frame(FrameView::End)) => (
            FrameView::End,
            NextView::NoSection,
        ),
        (ProgressView::Seeking, EventView::Frame(frame)) => (
            frame,
            NextView::Poll(next_start(frame)),
        ),
        (ProgressView::Collecting(groups), EventView::Finished)
        | (ProgressView::Collecting(groups), EventView::Frame(FrameView::End)) => (
            FrameView::End,
            if groups.len() == 0 {
                NextView::NoSection
            } else {
                NextView::Section(groups)
            },
        ),
        (
            ProgressView::Collecting(groups),
            EventView::Frame(FrameView::Header(name, value)),
        ) => (
            buffer,
            NextView::Poll(ProgressView::Collecting(with_added(groups, (name, value)))),
        ),
        (ProgressView::Collecting(groups), EventView::Frame(frame)) => (
            frame,
            NextView::Section(groups),
        ),
    }
}

/// The content type makes the body a multipart stream.
pub open spec fn is_multipart(
    content_type: (Seq<char>, Seq<char>, Seq<(Seq<char>, Seq<char>)>),
) -> bool {
    same_ignoring_case(content_type.0, "multipart"@)
}

/// What becomes of a request with this content type and this configured limit.
pub open spec fn admission(
    content_type: Option<(Seq<char>, Seq<char>, Seq<(Seq<char>, Seq<char>)>)>,
    limit: Option<u64>,
) -> AdmissionView {
    match content_type {
        Some(given) if is_multipart(given) => match param_of(given.2, "boundary"@) {
            Some(boundary) => AdmissionView::Success(
                ReaderView { buffer: FrameView::Data(Seq::empty()), content_type: given },
                DecoderView {
                    state: MultipartDecoderState::BeforeFirstBoundary,
                    boundary: encode_utf8(boundary),
                },
                match limit {
                    Some(l) => l,
                    None => DEFAULT_LIMIT,
                },
            ),
            None => AdmissionView::Error(BAD_REQUEST),
        },
        _ => AdmissionView::Forward(BAD_REQUEST),
    }
}

impl MultipartReader {
    /// The primary type of the stream is `multipart`.
    #[verifier::type_invariant]
    closed spec fn inv(&self) -> bool {
        is_multipart(self.content_type@)
    }

    /// Makes a reader for the body of a request with this content type, where that
    /// is `multipart` with a boundary. The configured limit applies, or else the
    /// default one.
    pub fn from_data(content_type: Option<ContentType>, limit: Option<u64>) -> (outcome: FromData)
        ensures
            outcome@ == admission(
                match content_type {
                    Some(given) => Some(given@),
                    None => None,
                },
                limit,
            ),
            match content_type {
                Some(given) if is_multipart(given@) => match param_of(given@.2, "boundary"@) {
                    Some(boundary) => outcome matches FromData::Success(reader, decoder, bytes) && {
                        &&& reader@.buffer == FrameView::Data(Seq::empty())
                        &&& reader@.content_type == given@
                        &&& decoder@ == (DecoderView {
                            state: MultipartDecoderState::BeforeFirstBoundary,
                            boundary: encode_utf8(boundary),
                        })
                        &&& bytes == (match limit {
                            Some(l) => l,
                            None => DEFAULT_LIMIT,
                        })
                    },
                    None => outcome == FromData::Error(BAD_REQUEST, Error::BoundaryNotSpecified),
                },
                _ => outcome == FromData::Forward(BAD_REQUEST),
            },
    {
        let limit = match limit {
            Some(l) => l,
            None => DEFAULT_LIMIT,
        };
        match content_type {
            Some(content_type) => {
                if !content_type.top.as_str().eq_ignore_ascii_case("multipart") {
                    return FromData::Forward(BAD_REQUEST);
                }
                let boundary = match content_type.param("boundary") {
                    Some(boundary) => boundary.to_owned(),
                    None => return FromData::Error(BAD_REQUEST, Error::BoundaryNotSpecified),
                };
                let empty = BytesMut::new();
                assert(buffer_bytes(empty) =~= Seq::empty());
                let reader = MultipartReader { buffer: MultipartFrame::Data(empty), content_type };
                FromData::Success(reader, MultipartDecoder::new(boundary), limit)
            },
            None => FromData::Forward(BAD_REQUEST),
        }
    }

    /// The content type of the multipart stream as a whole. The primary type is
    /// always `multipart`
    pub fn content_type(&self) -> (content_type: &ContentType)
        ensures
            content_type@ == self@.content_type,
            is_multipart(content_type@),
    {
        proof {
            use_type_invariant(self);
        }
        &self.content_type
    }

    /// The frame that was read last.
    pub fn buffer(&self) -> (frame: &MultipartFrame)
        ensures
            frame@ == self@.buffer,
    {
        &self.buffer
    }

    fn take_buffer(&mut self) -> (frame: MultipartFrame)
        ensures
            frame@ == old(self)@.buffer,
            final(self)@.content_type == old(self)@.content_type,
    {
        proof {
            use_type_invariant(&*self);
        }
        let mut frame = MultipartFrame::End;
        std::mem::swap(&mut frame, &mut self.buffer);
        frame
    }

    /// Starts the search for the next section.
    pub fn start_next(&self) -> (progress: NextProgress)
        ensures
            progress@ == next_start(self@.buffer),
    {
        match self.buffer {
            MultipartFrame::Boundary => {
                let headers = HeaderMap::new();
                assert(header_groups(headers) =~= Seq::empty());
                NextProgress::Collecting(headers)
            },
            _ => NextProgress::Seeking,
        }
    }

    /// Gets the next section from this multipart reader, one event of the stream
    /// at a time.
    pub fn next(&mut self, progress: NextProgress, event: FrameEvent) -> (action: NextAction)
        ensures
            (final(self)@.buffer, action@) == next_step(old(self)@.buffer, progress@, event@),
            final(self)@.content_type == old(self)@.content_type,
            event matches FrameEvent::Failed(e) ==> action == NextAction::Failed(e),
    {
        proof {
            use_type_invariant(&*self);
        }
        let frame = match event {
            FrameEvent::Failed(e) => return NextAction::Failed(e),
            FrameEvent::Finished => MultipartFrame::End,
            FrameEvent::Frame(frame) => frame,
        };
        match progress {
            NextProgress::Seeking => {
                self.buffer = frame;
                match self.buffer {
                    MultipartFrame::End => NextAction::NoSection,
                    _ => NextAction::Poll(self.start_next()),
                }
            },
            NextProgress::Collecting(mut headers) => match frame {
                MultipartFrame::Header(field) => {
                    add_field(&mut headers, field);
                    NextAction::Poll(NextProgress::Collecting(headers))
                },
                MultipartFrame::End => {
                    self.buffer = MultipartFrame::End;
                    if headers.is_empty() {
                        NextAction::NoSection
                    } else {
                        NextAction::Section(MultipartReadSection { headers })
                    }
                },
                frame => {
                    self.buffer = frame;
                    NextAction::Section(MultipartReadSection { headers })
                },
            },
        }
    }
}

/// What to do next while the body of a section is put together.
pub enum BodyAction {
    /// Get the next event, and go on with what was read so far.
    Poll(BytesMut),
    /// The body is complete.
    Done(Bytes),
    /// The stream failed.
    Failed(Error),
}

/// What to do next while the body of a section is put together.
pub enum BodyView {
    /// Get the next event, and go on with what was read so far.
    Poll(Seq<u8>),
    /// The body is complete.
    Done(Seq<u8>),
    /// The stream failed.
    Failed,
}

impl View for BodyAction {
    type V = BodyView;

    open spec fn view(&self) -> BodyView {
        match self {
            BodyAction::Poll(raw_data) => BodyView::Poll(buffer_bytes(*raw_data)),
            BodyAction::Done(bytes) => BodyView::Done(frozen_bytes(*bytes)),
            BodyAction::Failed(_) => BodyView::Failed,
        }
    }
}

/// The bytes of the body that the frame read last still has.
pub open spec fn buffered(buffer: FrameView) -> Seq<u8> {
    match buffer {
        FrameView::Data(bytes) => bytes,
        _ => Seq::empty(),
    }
}

/// Takes the bytes out of the frame that was read last, and asks for the next
/// one. The body is complete at the first frame that is not part of a body.
pub open spec fn absorb_step(buffer: FrameView, raw_data: Seq<u8>) -> (FrameView, BodyView) {
    match buffer {
        FrameView::Data(bytes) => (
            FrameView::Data(Seq::empty()),
            BodyView::Poll(raw_data + bytes),
        ),
        other => (other, BodyView::Done(raw_data)),
    }
}

/// One step of putting the body of a section together.
pub open spec fn body_step(raw_data: Seq<u8>, event: EventView) -> (FrameView, BodyView) {
    match event {
        EventView::Frame(frame) => absorb_step(frame, raw_data),
        EventView::Failed => (FrameView::End, BodyView::Failed),
        EventView::Finished => (FrameView::End, BodyView::Done(raw_data)),
    }
}

/// What to do next while a part of a body is fetched.
pub enum FillAction {
    /// Get the next event.
    Poll,
    /// There are bytes, or the body has ended.
    Ready,
    /// The stream failed.
    Failed(Error),
}

/// What to do next while bytes of a body are read.
pub enum ReadAction {
    /// Get the next event.
    Poll,
    /// These bytes were read. None means that the body has ended, or that there
    /// was no room for any.
    Ready(BytesMut),
    /// The stream failed.
    Failed(Error),
}

/// What to do next while a part of a body is fetched.
pub enum FillView {
    /// Get the next event.
    Poll,
    /// There are bytes, or the body has ended.
    Ready,
    /// The stream failed.
    Failed,
}

impl View for FillAction {
    type V = FillView;

    open spec fn view(&self) -> FillView {
        match self {
            FillAction::Poll => FillView::Poll,
            FillAction::Ready => FillView::Ready,
            FillAction::Failed(_) => FillView::Failed,
        }
    }
}

/// What to do next while bytes of a body are read.
pub enum ReadView {
    /// Get the next event.
    Poll,
    /// These bytes were read.
    Ready(Seq<u8>),
    /// The stream failed.
    Failed,
}

impl View for ReadAction {
    type V = ReadView;

    open spec fn view(&self) -> ReadView {
        match self {
            ReadAction::Poll => ReadView::Poll,
            ReadAction::Ready(bytes) => ReadView::Ready(buffer_bytes(*bytes)),
            ReadAction::Failed(_) => ReadView::Failed,
        }
    }
}

/// What an event says, if there was one.
pub open spec fn event_view(event: Option<FrameEvent>) -> Option<EventView> {
    match event {
        Some(e) => Some(e@),
        None => None,
    }
}

/// What is done to fetch bytes of a body: the next event is asked for where none are
/// left, and none was brought along.
pub open spec fn fill_action(buffer: FrameView, event: Option<EventView>) -> FillView {
    match event {
        None => if buffer == FrameView::Data(Seq::empty()) {
            FillView::Poll
        } else {
            FillView::Ready
        },
        Some(EventView::Failed) => FillView::Failed,
        Some(_) => FillView::Ready,
    }
}

/// A read: what it leaves of the frame that was read last, and the bytes that it
/// returns.
pub open spec fn read_step(buffer: FrameView, event: Option<EventView>, room: nat) -> (
    FrameView,
    ReadView,
) {
    let filled = fill_step(buffer, event);
    let n = smaller(room as int, buffered(filled).len() as int);
    match fill_action(buffer, event) {
        FillView::Poll => (filled, ReadView::Poll),
        FillView::Ready => (without_first(filled, n), ReadView::Ready(buffered(filled).take(n))),
        FillView::Failed => (filled, ReadView::Failed),
    }
}

/// The frame that was read last, once the event, if there was one, is taken in.
pub open spec fn fill_step(buffer: FrameView, event: Option<EventView>) -> FrameView {
    match event {
        Some(EventView::Frame(frame)) => frame,
        Some(EventView::Finished) => FrameView::End,
        _ => buffer,
    }
}

/// The frame that was read last, without the first `n` bytes of its body.
pub open spec fn without_first(buffer: FrameView, n: int) -> FrameView {
    match buffer {
        FrameView::Data(bytes) => FrameView::Data(bytes.skip(n)),
        other => other,
    }
}

/// The smaller number.
pub open spec fn smaller(a: int, b: int) -> int {
    if a < b {
        a
    } else {
        b
    }
}

impl MultipartReadSection {
    /// Gets the list of headers specific to this multipart section
    pub fn headers(&self) -> (headers: &HeaderMap<'static>)
        ensures
            header_groups(*headers) == self@,
    {
        &self.headers
    }

    /// Retrieves the `Content-Type` header (if it exists) and parses it.
    pub fn content_type(&self) -> (content_type: Option<ContentType>)
        ensures
            ({
                let values = values_of(self@, "Content-Type"@);
                match content_type {
                    Some(c) => values.len() > 0 && parsed_content_type(values[0]) == Some(c@),
                    None => values.len() == 0 || parsed_content_type(values[0]) is None,
                }
            }),
    {
        match self.headers.get_one("Content-Type") {
            Some(text) => read_content_type(text),
            None => None,
        }
    }

    fn absorb(&self, reader: &mut MultipartReader, mut raw_data: BytesMut) -> (action: BodyAction)
        requires
            buffer_bytes(raw_data).len() + buffered(old(reader)@.buffer).len() <= isize::MAX,
        ensures
            (final(reader)@.buffer, action@) == absorb_step(
                old(reader)@.buffer,
                buffer_bytes(raw_data),
            ),
            final(reader)@.content_type == old(reader)@.content_type,
            !(action is Failed),
    {
        proof {
            use_type_invariant(&*reader);
        }
        match reader.take_buffer() {
            MultipartFrame::Data(mut bytes) => {
                let part = bytes.split();
                assert(buffer_bytes(bytes) =~= Seq::empty());
                reader.buffer = MultipartFrame::Data(bytes);
                raw_data.unsplit(part);
                BodyAction::Poll(raw_data)
            },
            other => {
                reader.buffer = other;
                BodyAction::Done(raw_data.freeze())
            },
        }
    }

    /// Read the entire stream into a single bytes object, one event of the stream
    /// at a time. This starts it; `to_bytes_next` goes on with each event.
    pub fn to_bytes(&self, reader: &mut MultipartReader) -> (action: BodyAction)
        requires
            buffered(old(reader)@.buffer).len() <= isize::MAX,
        ensures
            (final(reader)@.buffer, action@) == absorb_step(old(reader)@.buffer, Seq::empty()),
            final(reader)@.content_type == old(reader)@.content_type,
    {
        let raw_data = BytesMut::new();
        assert(buffer_bytes(raw_data) =~= Seq::empty());
        self.absorb(reader, raw_data)
    }

    /// Goes on reading the entire stream into a single bytes object, with what was
    /// read so far.
    pub fn to_bytes_next(
        &self,
        reader: &mut MultipartReader,
        raw_data: BytesMut,
        event: FrameEvent,
    ) -> (action: BodyAction)
        requires
            event@ matches EventView::Frame(frame) ==> buffer_bytes(raw_data).len() + buffered(
                frame,
            ).len() <= isize::MAX,
        ensures
            (final(reader)@.buffer, action@) == body_step(buffer_bytes(raw_data), event@),
            final(reader)@.content_type == old(reader)@.content_type,
            event matches FrameEvent::Failed(e) ==> action == BodyAction::Failed(e),
    {
        proof {
            use_type_invariant(&*reader);
        }
        match event {
            FrameEvent::Frame(frame) => {
                reader.buffer = frame;
                self.absorb(reader, raw_data)
            },
            FrameEvent::Failed(e) => {
                reader.buffer = MultipartFrame::End;
                BodyAction::Failed(e)
            },
            FrameEvent::Finished => {
                reader.buffer = MultipartFrame::End;
                BodyAction::Done(raw_data.freeze())
            },
        }
    }

    /// Parse the entire stream, as `to_bytes` has read it, as a JSON object. Where it
    /// could not be read, that is the error.
    pub fn json(&self, body: Result<Bytes, Error>) -> (value: Result<Value, Error>)
        ensures
            match body {
                Ok(bytes) => match parsed_json(frozen_bytes(bytes)) {
                    Ok(text) => value matches Ok(v) && json_text(v) == text,
                    Err(report) => value matches Err(Error::Json(e)) && (
                        e.line,
                        e.column,
                        e.message@,
                    ) == report,
                },
                Err(e) => value == Err::<Value, Error>(e),
            },
    {
        let parsed = match body {
            Ok(bytes) => Ok(read_json(&bytes)),
            Err(e) => Err(e),
        };
        self.json_parsed(parsed)
    }

    /// What comes of parsing the entire stream as a value of any type, given what the
    /// parser made of the bytes that `to_bytes` has read, or the error where they could
    /// not be read. The headers of the section play no part.
    pub fn json_parsed<T>(&self, parsed: Result<Result<T, JsonFailure>, Error>) -> (value: Result<
        T,
        Error,
    >)
        ensures
            match parsed {
                Ok(Ok(v)) => value == Ok::<T, Error>(v),
                Ok(Err(e)) => value == Err::<T, Error>(Error::Json(e)),
                Err(e) => value == Err::<T, Error>(e),
            },
    {
        match parsed {
            Ok(Ok(value)) => Ok(value),
            Ok(Err(e)) => Err(Error::Json(e)),
            Err(e) => Err(e),
        }
    }

    /// Fetches bytes of the body where none are left, with the event that was
    /// asked for, if there was one. `filled` shows them.
    pub fn poll_fill_buf(&self, reader: &mut MultipartReader, event: Option<FrameEvent>) -> (action:
        FillAction)
        ensures
            action@ == fill_action(old(reader)@.buffer, event_view(event)),
            final(reader)@.buffer == fill_step(
                old(reader)@.buffer,
                match event {
                    Some(e) => Some(e@),
                    None => None,
                },
            ),
            final(reader)@.content_type == old(reader)@.content_type,
            match event {
                None => action == if old(reader)@.buffer == FrameView::Data(Seq::empty()) {
                    FillAction::Poll
                } else {
                    FillAction::Ready
                },
                Some(FrameEvent::Failed(e)) => action == FillAction::Failed(e),
                Some(_) => action == FillAction::Ready,
            },
    {
        proof {
            use_type_invariant(&*reader);
        }
        match event {
            None => {
                if reader.buffer.is_empty() {
                    assert(buffered(reader@.buffer) =~= Seq::empty());
                    FillAction::Poll
                } else {
                    FillAction::Ready
                }
            },
            Some(FrameEvent::Frame(frame)) => {
                reader.buffer = frame;
                FillAction::Ready
            },
            Some(FrameEvent::Finished) => {
                reader.buffer = MultipartFrame::End;
                FillAction::Ready
            },
            Some(FrameEvent::Failed(e)) => FillAction::Failed(e),
        }
    }

    /// The bytes of the body that were fetched and not consumed yet. None means
    /// that the body has ended.
    pub fn filled<'a>(&self, reader: &'a MultipartReader) -> (bytes: &'a [u8])
        ensures
            bytes@ == buffered(reader@.buffer),
    {
        match &reader.buffer {
            MultipartFrame::Data(data) => data,
            _ => {
                let nothing: &'a [u8] = &[];
                assert(nothing@ =~= Seq::empty());
                nothing
            },
        }
    }

    /// Passes over bytes that were fetched, at most as many as there are.
    pub fn consume(&self, reader: &mut MultipartReader, amt: usize)
        ensures
            final(reader)@.buffer == without_first(
                old(reader)@.buffer,
                smaller(amt as int, buffered(old(reader)@.buffer).len() as int),
            ),
            final(reader)@.content_type == old(reader)@.content_type,
    {
        let _ = self.take_first(reader, amt);
    }

    fn take_first(&self, reader: &mut MultipartReader, amt: usize) -> (front: BytesMut)
        ensures
            ({
                let n = smaller(amt as int, buffered(old(reader)@.buffer).len() as int);
                &&& buffer_bytes(front) == buffered(old(reader)@.buffer).take(n)
                &&& final(reader)@.buffer == without_first(old(reader)@.buffer, n)
            }),
            final(reader)@.content_type == old(reader)@.content_type,
    {
        proof {
            use_type_invariant(&*reader);
        }
        match reader.take_buffer() {
            MultipartFrame::Data(mut data) => {
                let len = data.len();
                let front = data.split_to(
                    if amt < len {
                        amt
                    } else {
                        len
                    },
                );
                reader.buffer = MultipartFrame::Data(data);
                front
            },
            other => {
                reader.buffer = other;
                let front = BytesMut::new();
                assert(buffer_bytes(front) =~= buffered(other@).take(0));
                front
            },
        }
    }

    /// Reads bytes of the body, at most as many as there is room for, with the
    /// event that was asked for, if there was one.
    pub fn poll_read(
        &self,
        reader: &mut MultipartReader,
        event: Option<FrameEvent>,
        room: usize,
    ) -> (action: ReadAction)
        ensures
            (final(reader)@.buffer, action@) == read_step(
                old(reader)@.buffer,
                event_view(event),
                room as nat,
            ),
            final(reader)@.content_type == old(reader)@.content_type,
            ({
                let filled = fill_step(
                    old(reader)@.buffer,
                    match event {
                        Some(e) => Some(e@),
                        None => None,
                    },
                );
                let n = smaller(room as int, buffered(filled).len() as int);
                match event {
                    None if old(reader)@.buffer == FrameView::Data(Seq::empty()) => {
                        &&& action is Poll
                        &&& final(reader)@.buffer == filled
                    },
                    Some(FrameEvent::Failed(e)) => {
                        &&& action == ReadAction::Failed(e)
                        &&& final(reader)@.buffer == filled
                    },
                    _ => {
                        &&& action matches ReadAction::Ready(bytes)
                        &&& buffer_bytes(bytes) == buffered(filled).take(n)
                        &&& final(reader)@.buffer == without_first(filled, n)
                    },
                }
            }),
    {
        match self.poll_fill_buf(reader, event) {
            FillAction::Poll => ReadAction::Poll,
            FillAction::Ready => ReadAction::Ready(self.take_first(reader, room)),
            FillAction::Failed(e) => ReadAction::Failed(e),
        }
    }
}

} // verus!
