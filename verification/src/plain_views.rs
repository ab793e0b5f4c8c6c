//! What the values that are handed over say, stated on what they hold.

use rocket::http::HeaderMap;
use tokio_util::bytes::{Bytes, BytesMut};
use vstd::prelude::*;

use crate::buffer::{buffer_bytes, frozen_bytes};
use crate::content_type::ContentType;
use crate::decoder::{FrameView, MultipartDecoder, MultipartFrame};
use crate::error::Error;
use crate::header::{header_groups, Header};
use crate::reader::{
    event_view, AdmissionView, BodyAction, BodyView, EventView, FillAction, FillView, FrameEvent,
    FromData, MultipartReadSection, MultipartReader, NextAction, NextProgress, NextView,
    ProgressView, ReadAction, ReadView,
};
use crate::writer::{
    ActionView, MultipartSection, StateView, StreamAction, StreamEvent, StreamEventView,
    StreamState,
};

verus! {

/// A frame says what it holds.
pub proof fn law_frames_say_what_they_hold(header: Header, bytes: BytesMut)
    ensures
        MultipartFrame::Boundary@ == FrameView::Boundary,
        MultipartFrame::Header(header)@ == FrameView::Header(header.name@, header.value@),
        MultipartFrame::Data(bytes)@ == FrameView::Data(buffer_bytes(bytes)),
        MultipartFrame::End@ == FrameView::End,
{
}

/// A header field is its name and its value.
pub proof fn law_headers_say_what_they_hold(header: Header)
    ensures
        header@.0 == header.name@,
        header@.1 == header.value@,
{
}

/// A content type is its top-level type, its sub type, and its parameters, as many and in
/// the same order, each its name and its value.
pub proof fn law_content_types_say_what_they_hold(content_type: ContentType, i: int)
    ensures
        content_type@.0 == content_type.top@,
        content_type@.1 == content_type.sub@,
        content_type@.2.len() == content_type.params@.len(),
        0 <= i < content_type.params@.len() ==> {
            &&& content_type@.2[i].0 == content_type.params@[i].0@
            &&& content_type@.2[i].1 == content_type.params@[i].1@
        },
{
}

/// An event of the frames says which frame came, that the stream failed, or that there are
/// no more frames. No event says nothing.
pub proof fn law_frame_events_say_what_happened(frame: MultipartFrame, error: Error)
    ensures
        FrameEvent::Frame(frame)@ == EventView::Frame(frame@),
        FrameEvent::Failed(error)@ == EventView::Failed,
        FrameEvent::Finished@ == EventView::Finished,
        event_view(Some(FrameEvent::Frame(frame))) == Some(EventView::Frame(frame@)),
        event_view(Some(FrameEvent::Failed(error))) == Some(EventView::Failed),
        event_view(Some(FrameEvent::Finished)) == Some(EventView::Finished),
        event_view(None) is None,
{
}

/// What a search says to do next is what it holds: the headers so far, or the section.
pub proof fn law_search_says_what_it_holds(
    headers: HeaderMap<'static>,
    progress: NextProgress,
    section: MultipartReadSection,
    error: Error,
)
    ensures
        NextProgress::Seeking@ == ProgressView::Seeking,
        NextProgress::Collecting(headers)@ == ProgressView::Collecting(header_groups(headers)),
        NextAction::Poll(progress)@ == NextView::Poll(progress@),
        NextAction::Section(section)@ == NextView::Section(section@),
        NextAction::NoSection@ == NextView::NoSection,
        NextAction::Failed(error)@ == NextView::Failed,
{
}

/// What putting a body together says to do next is what it holds: the bytes so far, or all
/// of them.
pub proof fn law_bodies_say_what_they_hold(raw_data: BytesMut, bytes: Bytes, error: Error)
    ensures
        BodyAction::Poll(raw_data)@ == BodyView::Poll(buffer_bytes(raw_data)),
        BodyAction::Done(bytes)@ == BodyView::Done(frozen_bytes(bytes)),
        BodyAction::Failed(error)@ == BodyView::Failed,
{
}

/// What a read returns is what it holds.
pub proof fn law_reads_say_what_they_hold(bytes: BytesMut, error: Error)
    ensures
        ReadAction::Poll@ == ReadView::Poll,
        ReadAction::Ready(bytes)@ == ReadView::Ready(buffer_bytes(bytes)),
        ReadAction::Failed(error)@ == ReadView::Failed,
        FillAction::Poll@ == FillView::Poll,
        FillAction::Ready@ == FillView::Ready,
        FillAction::Failed(error)@ == FillView::Failed,
{
}

/// What becomes of a request is what it holds.
pub proof fn law_admissions_say_what_they_hold(
    reader: MultipartReader,
    decoder: MultipartDecoder,
    limit: u64,
    status: u16,
    error: Error,
)
    ensures
        FromData::Success(reader, decoder, limit)@ == AdmissionView::Success(
            reader@,
            decoder@,
            limit,
        ),
        FromData::Error(status, error)@ == AdmissionView::Error(status),
        FromData::Forward(status)@ == AdmissionView::Forward(status),
{
}

/// How far a body is written, what happened since, and what to do next, are what they hold.
pub proof fn law_writing_says_what_it_holds<C>(
    bytes: Vec<u8>,
    content: C,
    section: MultipartSection<C>,
    n: usize,
)
    ensures
        StreamState::<C>::Waiting@ == StateView::<C>::Waiting,
        StreamState::Header(bytes, content)@ == StateView::Header(bytes@, content),
        StreamState::Raw(content)@ == StateView::Raw(content),
        StreamState::<C>::Footer(bytes)@ == StateView::<C>::Footer(bytes@),
        StreamEvent::<C>::Start@ == StreamEventView::<C>::Start,
        StreamEvent::Section(section)@ == StreamEventView::Section(
            section.groups(),
            section.content(),
        ),
        StreamEvent::<C>::NoMoreSections@ == StreamEventView::<C>::NoMoreSections,
        StreamEvent::<C>::ContentRead(n)@ == StreamEventView::<C>::ContentRead(n as nat),
        StreamAction::PollSections@ == ActionView::PollSections,
        StreamAction::PollContent@ == ActionView::PollContent,
        StreamAction::Ready(bytes)@ == ActionView::Ready(bytes@),
{
}

} // verus!
