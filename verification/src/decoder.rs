//! The grammar of a multipart stream, read piece by piece.

use tokio_util::bytes::BytesMut;
use vstd::prelude::*;
use vstd::utf8::{decode_utf8, encode_utf8, encode_utf8_decode_utf8, valid_utf8};

use crate::buffer::buffer_bytes;
use crate::error::Error;
use crate::header::Header;
use crate::search::{
    first_at, first_byte, first_occurrence, last_byte_or_zero, lemma_first_byte_is,
    lemma_first_byte_is_none, lemma_first_is, lemma_last_byte_is, lemma_last_byte_is_zero,
    occurs_at,
};
use crate::text::{is_failure_of, text_from_utf8, trimmed};

verus! {

/// How much room the decoder asks for when it needs more of the stream.
pub const CHUNK_SIZE: usize = 1024;

/// Where in the stream the decoder is.
#[derive(Debug, PartialEq, Eq, Clone, Copy, Hash, Structural)]
pub enum MultipartDecoderState {
    /// Before the boundary that opens the first section.
    BeforeFirstBoundary,
    /// Among the header lines of a section.
    Headers,
    /// In the body of a section.
    Data,
    /// After the boundary that closes the stream.
    End,
}

/// Cuts a multipart stream into frames.
#[derive(Debug)]
pub struct MultipartDecoder {
    state: MultipartDecoderState,
    boundary: String,
}

/// A piece of a multipart stream.
#[derive(Debug)]
pub enum MultipartFrame {
    /// A boundary that opens a section.
    Boundary,
    /// A header line of a section.
    Header(Header),
    /// A part of the body of a section.
    Data(BytesMut),
    /// The end of the stream.
    End,
}

/// What a frame says.
pub enum FrameView {
    /// A boundary that opens a section.
    Boundary,
    /// The name and the value of a header line.
    Header(Seq<char>, Seq<char>),
    /// A part of the body of a section.
    Data(Seq<u8>),
    /// The end of the stream.
    End,
}

impl View for MultipartFrame {
    type V = FrameView;

    open spec fn view(&self) -> FrameView {
        match self {
            MultipartFrame::Boundary => FrameView::Boundary,
            MultipartFrame::Header(header) => FrameView::Header(header@.0, header@.1),
            MultipartFrame::Data(bytes) => FrameView::Data(buffer_bytes(*bytes)),
            MultipartFrame::End => FrameView::End,
        }
    }
}

impl MultipartFrame {
    /// Whether this is a part of a body without bytes.
    pub fn is_empty(&self) -> (empty: bool)
        ensures
            empty == (self@ matches FrameView::Data(bytes) && bytes.len() == 0),
    {
        match self {
            MultipartFrame::Data(bytes) => bytes.is_empty(),
            _ => false,
        }
    }
}

/// Carriage return and line feed.
pub open spec fn crlf() -> Seq<u8> {
    seq![13u8, 10u8]
}

/// Two dashes.
pub open spec fn dashes() -> Seq<u8> {
    seq![45u8, 45u8]
}

/// What a header line is read as.
pub enum HeaderLine {
    /// A field: its name and its value.
    Field(Seq<char>, Seq<char>),
    /// The part before the colon, or else the part after it, is not UTF-8.
    NotUtf8(Seq<u8>),
    /// A line without a colon.
    NoColon,
}

/// Reads a header line: the name is what stands before the first colon, the value
/// what stands after it without the white space around.
pub open spec fn header_line(line: Seq<u8>) -> HeaderLine {
    match first_byte(line, 58) {
        None => HeaderLine::NoColon,
        Some(colon) => {
            let name = line.take(colon);
            let value = line.skip(colon + 1);
            if !valid_utf8(name) {
                HeaderLine::NotUtf8(name)
            } else if !valid_utf8(value) {
                HeaderLine::NotUtf8(value)
            } else {
                HeaderLine::Field(decode_utf8(name), trimmed(decode_utf8(value)))
            }
        },
    }
}

/// What one call of the decoder comes to.
pub enum DecodeOutcome {
    /// A frame of the stream.
    Frame(FrameView),
    /// More of the stream is needed.
    NeedMore,
    /// These bytes of a header line are not UTF-8.
    NotUtf8(Seq<u8>),
    /// The decoder cannot go on.
    Stuck,
}

/// One call of the decoder: what it comes to, the state it leaves the decoder in,
/// and what it leaves of the source.
pub struct DecodeStep {
    /// What the call comes to.
    pub outcome: DecodeOutcome,
    /// The state after the call.
    pub state: MultipartDecoderState,
    /// The source after the call.
    pub rest: Seq<u8>,
}

/// A call after the end of the stream: everything is dropped.
pub open spec fn end_step() -> DecodeStep {
    DecodeStep {
        outcome: DecodeOutcome::NeedMore,
        state: MultipartDecoderState::End,
        rest: Seq::empty(),
    }
}

/// A call before the first boundary. A boundary needs two bytes before it and two
/// after it. Between dashes it closes the stream. After dashes or before a line
/// break it opens the first section. Everything before it is dropped.
pub open spec fn preamble_step(boundary: Seq<u8>, src: Seq<u8>) -> DecodeStep
    decreases src.len(),
{
    let waiting = MultipartDecoderState::BeforeFirstBoundary;
    match first_occurrence(src, boundary) {
        None => DecodeStep { outcome: DecodeOutcome::NeedMore, state: waiting, rest: src },
        Some(pos) => {
            let end = pos + boundary.len();
            if pos < 2 {
                if 0 <= pos < src.len() {
                    preamble_step(boundary, src.skip(pos + 1))
                } else {
                    DecodeStep { outcome: DecodeOutcome::Stuck, state: waiting, rest: src }
                }
            } else if src.len() < end + 2 {
                if pos < 4 {
                    DecodeStep { outcome: DecodeOutcome::Stuck, state: waiting, rest: src }
                } else {
                    DecodeStep {
                        outcome: DecodeOutcome::NeedMore,
                        state: waiting,
                        rest: src.skip(pos - 4),
                    }
                }
            } else {
                let before = src.subrange(pos - 2, pos);
                let after = src.subrange(end, end + 2);
                if before == dashes() && after == dashes() {
                    end_step()
                } else if before == dashes() || after == crlf() {
                    DecodeStep {
                        outcome: DecodeOutcome::Frame(FrameView::Boundary),
                        state: MultipartDecoderState::Headers,
                        rest: src.skip(end + 2),
                    }
                } else {
                    preamble_step(boundary, src.skip(end))
                }
            }
        },
    }
}

/// A call in the body of a section that gives out the first `n` bytes, or asks
/// for more where that is none.
pub open spec fn data_prefix_step(src: Seq<u8>, n: int) -> DecodeStep {
    DecodeStep {
        outcome: if n == 0 {
            DecodeOutcome::NeedMore
        } else {
            DecodeOutcome::Frame(FrameView::Data(src.take(n)))
        },
        state: MultipartDecoderState::Data,
        rest: src.skip(n),
    }
}

/// How many bytes of a body in which no boundary stands can be given out: not the
/// last ones, which may begin a line break, two dashes and the boundary.
pub open spec fn safe_prefix(boundary: Seq<u8>, src: Seq<u8>) -> int {
    let kept = src.len() - (boundary.len() + 4);
    let last_cr = last_byte_or_zero(src, 13);
    if kept > last_cr {
        kept
    } else {
        last_cr
    }
}

/// A call in the body of a section. A boundary needs four bytes before it and two
/// after it. Between a line break with dashes and dashes it closes the stream.
/// After a line break with dashes, or before a line break, it opens the next
/// section. Otherwise it is part of the body.
pub open spec fn data_step(boundary: Seq<u8>, src: Seq<u8>) -> DecodeStep {
    match first_occurrence(src, boundary) {
        None => data_prefix_step(src, safe_prefix(boundary, src)),
        Some(pos) => {
            let end = pos + boundary.len();
            if pos < 4 {
                if pos < src.len() {
                    data_prefix_step(src, pos + 1)
                } else {
                    DecodeStep {
                        outcome: DecodeOutcome::Stuck,
                        state: MultipartDecoderState::Data,
                        rest: src,
                    }
                }
            } else if src.len() < end + 2 {
                data_prefix_step(src, pos - 4)
            } else {
                let before = src.subrange(pos - 4, pos);
                let after = src.subrange(end, end + 2);
                let delimited = before == crlf() + dashes();
                if delimited && after == dashes() {
                    if pos == 4 {
                        end_step()
                    } else {
                        DecodeStep {
                            state: MultipartDecoderState::End,
                            ..data_prefix_step(src, pos - 4)
                        }
                    }
                } else if delimited || after == crlf() {
                    if pos == 4 {
                        DecodeStep {
                            outcome: DecodeOutcome::Frame(FrameView::Boundary),
                            state: MultipartDecoderState::Headers,
                            rest: src.skip(end + 2),
                        }
                    } else {
                        data_prefix_step(src, pos - 4)
                    }
                } else {
                    data_prefix_step(src, end)
                }
            }
        },
    }
}

/// A call among the header lines of a section. An empty line ends them.
pub open spec fn headers_step(boundary: Seq<u8>, src: Seq<u8>) -> DecodeStep {
    let here = MultipartDecoderState::Headers;
    match first_occurrence(src, crlf()) {
        None => DecodeStep { outcome: DecodeOutcome::NeedMore, state: here, rest: src },
        Some(end) => {
            let rest = src.skip(end + 2);
            if end == 0 {
                data_step(boundary, rest)
            } else {
                match header_line(src.take(end + 2)) {
                    HeaderLine::Field(name, value) => DecodeStep {
                        outcome: DecodeOutcome::Frame(FrameView::Header(name, value)),
                        state: here,
                        rest,
                    },
                    HeaderLine::NotUtf8(bytes) => DecodeStep {
                        outcome: DecodeOutcome::NotUtf8(bytes),
                        state: here,
                        rest,
                    },
                    HeaderLine::NoColon => DecodeStep {
                        outcome: DecodeOutcome::Stuck,
                        state: here,
                        rest: src,
                    },
                }
            }
        },
    }
}

/// One call of the decoder in this state, with this boundary, on this source.
pub open spec fn decode_step(
    state: MultipartDecoderState,
    boundary: Seq<u8>,
    src: Seq<u8>,
) -> DecodeStep {
    match state {
        MultipartDecoderState::BeforeFirstBoundary => preamble_step(boundary, src),
        MultipartDecoderState::Headers => headers_step(boundary, src),
        MultipartDecoderState::Data => data_step(boundary, src),
        MultipartDecoderState::End => end_step(),
    }
}

/// A decoder: its state and the bytes of its boundary.
pub struct DecoderView {
    /// Where in the stream the decoder is.
    pub state: MultipartDecoderState,
    /// The boundary.
    pub boundary: Seq<u8>,
}

impl View for MultipartDecoder {
    type V = DecoderView;

    closed spec fn view(&self) -> DecoderView {
        DecoderView { state: self.state, boundary: encode_utf8(self.boundary@) }
    }
}

/// The next call of the decoder comes to something, and there is room to read on.
pub open spec fn decodable(decoder: DecoderView, src: Seq<u8>) -> bool {
    &&& !(decode_step(decoder.state, decoder.boundary, src).outcome is Stuck)
    &&& src.len() + CHUNK_SIZE <= isize::MAX
}

/// The result of a call of the decoder is what the call comes to.
pub open spec fn is_outcome(
    result: Result<Option<MultipartFrame>, Error>,
    outcome: DecodeOutcome,
) -> bool {
    match result {
        Ok(None) => outcome is NeedMore,
        Ok(Some(frame)) => outcome == DecodeOutcome::Frame(frame@),
        Err(Error::Encoding(failure)) => outcome matches DecodeOutcome::NotUtf8(bytes)
            && is_failure_of(failure, bytes),
        Err(_) => false,
    }
}

/// Whether these two bytes stand at this place.
fn pair_at(bytes: &[u8], at: usize, first: u8, second: u8) -> (there: bool)
    requires
        at + 2 <= bytes@.len(),
    ensures
        there == (bytes@.subrange(at as int, at + 2) == seq![first, second]),
{
    let there = bytes[at] == first && bytes[at + 1] == second;
    proof {
        let pair = bytes@.subrange(at as int, at + 2);
        assert(pair[0] == bytes@[at as int] && pair[1] == bytes@[at + 1]);
        if there {
            assert(pair =~= seq![first, second]);
        }
    }
    there
}

impl MultipartDecoder {
    /// A decoder at the start of a stream with this boundary.
    pub fn new(boundary: String) -> (decoder: MultipartDecoder)
        ensures
            decoder@.state == MultipartDecoderState::BeforeFirstBoundary,
            decoder@.boundary == encode_utf8(boundary@),
    {
        MultipartDecoder { state: MultipartDecoderState::BeforeFirstBoundary, boundary }
    }

    fn decode_preamble(&mut self, src: &mut BytesMut) -> (found: Option<Option<MultipartFrame>>)
        requires
            old(self)@.state == MultipartDecoderState::BeforeFirstBoundary,
            buffer_bytes(*old(src)).len() + CHUNK_SIZE <= isize::MAX,
        ensures
            ({
                let step = preamble_step(old(self)@.boundary, buffer_bytes(*old(src)));
                &&& final(self)@.boundary == old(self)@.boundary
                &&& final(self)@.state == step.state
                &&& buffer_bytes(*final(src)) == step.rest
                &&& match found {
                    None => step.outcome is Stuck,
                    Some(None) => step.outcome is NeedMore,
                    Some(Some(frame)) => step.outcome == DecodeOutcome::Frame(frame@),
                }
            }),
    {
        loop
            invariant
                self@ == old(self)@,
                self@.state == MultipartDecoderState::BeforeFirstBoundary,
                preamble_step(self@.boundary, buffer_bytes(*src)) == preamble_step(
                    self@.boundary,
                    buffer_bytes(*old(src)),
                ),
                buffer_bytes(*src).len() + CHUNK_SIZE <= isize::MAX,
            decreases buffer_bytes(*src).len(),
        {
            let boundary = self.boundary.as_str().as_bytes();
            let ghost before_call = buffer_bytes(*src);
            let found = memchr::memmem::find(src, boundary);
            proof {
                lemma_found(before_call, boundary@, found);
            }
            match found {
                None => {
                    src.reserve(CHUNK_SIZE);
                    return Some(None);
                },
                Some(pos) => {
                    let len = src.len();
                    if pos < 2 {
                        if pos >= len {
                            return None;
                        }
                        let _ = src.split_to(pos + 1);
                        continue ;
                    }
                    let end = pos + boundary.len();
                    if len - end < 2 {
                        if pos < 4 {
                            return None;
                        }
                        let _ = src.split_to(pos - 4);
                        src.reserve(CHUNK_SIZE);
                        return Some(None);
                    }
                    let dashes_before = pair_at(src, pos - 2, 45, 45);
                    if dashes_before && pair_at(src, end, 45, 45) {
                        self.state = MultipartDecoderState::End;
                        self.decode_end(src);
                        return Some(None);
                    }
                    if !dashes_before && !pair_at(src, end, 13, 10) {
                        let _ = src.split_to(end);
                    } else {
                        let _ = src.split_to(end + 2);
                        self.state = MultipartDecoderState::Headers;
                        return Some(Some(MultipartFrame::Boundary));
                    }
                },
            }
        }
    }

    fn decode_data(&mut self, src: &mut BytesMut) -> (found: Option<Option<MultipartFrame>>)
        requires
            old(self)@.state == MultipartDecoderState::Data,
            buffer_bytes(*old(src)).len() + CHUNK_SIZE <= isize::MAX,
        ensures
            ({
                let step = data_step(old(self)@.boundary, buffer_bytes(*old(src)));
                &&& final(self)@.boundary == old(self)@.boundary
                &&& final(self)@.state == step.state
                &&& buffer_bytes(*final(src)) == step.rest
                &&& match found {
                    None => step.outcome is Stuck,
                    Some(None) => step.outcome is NeedMore,
                    Some(Some(frame)) => step.outcome == DecodeOutcome::Frame(frame@),
                }
            }),
    {
        let boundary = self.boundary.as_str().as_bytes();
        let ghost before_call = buffer_bytes(*src);
        let len = src.len();
        let found = memchr::memmem::find(src, boundary);
        proof {
            lemma_found(before_call, boundary@, found);
        }
        match found {
            Some(pos) => {
                if pos < 4 {
                    if pos >= len {
                        return None;
                    }
                    let data = src.split_to(pos + 1);
                    return Some(Some(MultipartFrame::Data(data)));
                }
                let end = pos + boundary.len();
                if len - end < 2 {
                    let data = src.split_to(pos - 4);
                    src.reserve(CHUNK_SIZE);
                    return if data.is_empty() {
                        Some(None)
                    } else {
                        Some(Some(MultipartFrame::Data(data)))
                    };
                }
                let delimited = pair_at(src, pos - 4, 13, 10) && pair_at(src, pos - 2, 45, 45);
                proof {
                    let before = before_call.subrange(pos - 4, pos as int);
                    assert(before.take(2) =~= before_call.subrange(pos - 4, pos - 2));
                    assert(before.skip(2) =~= before_call.subrange(pos - 2, pos as int));
                    assert(before =~= before.take(2) + before.skip(2));
                    let delimiter = crlf() + dashes();
                    assert(delimiter.take(2) =~= crlf() && delimiter.skip(2) =~= dashes());
                    assert(delimited == (before == delimiter));
                }
                if delimited && pair_at(src, end, 45, 45) {
                    self.state = MultipartDecoderState::End;
                    if pos > 4 {
                        let data = src.split_to(pos - 4);
                        return Some(Some(MultipartFrame::Data(data)));
                    }
                    self.decode_end(src);
                    return Some(None);
                }
                if !delimited && !pair_at(src, end, 13, 10) {
                    let data = src.split_to(end);
                    Some(Some(MultipartFrame::Data(data)))
                } else if pos > 4 {
                    let data = src.split_to(pos - 4);
                    Some(Some(MultipartFrame::Data(data)))
                } else {
                    let _ = src.split_to(end + 2);
                    self.state = MultipartDecoderState::Headers;
                    Some(Some(MultipartFrame::Boundary))
                }
            },
            None => {
                let kept = len.saturating_sub(boundary.len()).saturating_sub(4);
                let last_cr = match memchr::memrchr(13, src) {
                    Some(at) => {
                        proof {
                            lemma_last_byte_is(before_call, 13, at as int);
                        }
                        at
                    },
                    None => {
                        proof {
                            lemma_last_byte_is_zero(before_call, 13);
                        }
                        0
                    },
                };
                let given = if kept > last_cr {
                    kept
                } else {
                    last_cr
                };
                let data = src.split_to(given);
                src.reserve(CHUNK_SIZE);
                if data.is_empty() {
                    Some(None)
                } else {
                    Some(Some(MultipartFrame::Data(data)))
                }
            },
        }
    }

    /// Reads a header line: the name is what stands before the first colon, the
    /// value what stands after it without the white space around.
    pub fn parse_header(header: &[u8]) -> (field: Result<Header, Error>)
        requires
            !(header_line(header@) is NoColon),
        ensures
            match field {
                Ok(h) => header_line(header@) == HeaderLine::Field(h@.0, h@.1),
                Err(Error::Encoding(failure)) => header_line(header@) matches HeaderLine::NotUtf8(
                    bytes,
                ) && is_failure_of(failure, bytes),
                Err(_) => false,
            },
    {
        let found = memchr::memchr(58, header);
        match found {
            None => {
                proof {
                    lemma_first_byte_is_none(header@, 58);
                }
                vstd::pervasive::unreached()
            },
            Some(middle) => {
                proof {
                    lemma_first_byte_is(header@, 58, middle as int);
                }
                let (name_part, rest) = header.split_at(middle);
                let (_, value_part) = rest.split_at(1);
                assert(name_part@ =~= header@.take(middle as int));
                assert(value_part@ =~= header@.skip(middle + 1));
                let name = match text_from_utf8(name_part) {
                    Ok(name) => name,
                    Err(failure) => return Err(Error::Encoding(failure)),
                };
                let value = match text_from_utf8(value_part) {
                    Ok(value) => value,
                    Err(failure) => return Err(Error::Encoding(failure)),
                };
                proof {
                    encode_utf8_decode_utf8(name@);
                    encode_utf8_decode_utf8(value@);
                }
                Ok(Header::new(name.to_owned(), value.trim().to_owned()))
            },
        }
    }

    fn decode_headers(&mut self, src: &mut BytesMut) -> (found: Option<
        Result<Option<MultipartFrame>, Error>,
    >)
        requires
            old(self)@.state == MultipartDecoderState::Headers,
            buffer_bytes(*old(src)).len() + CHUNK_SIZE <= isize::MAX,
        ensures
            ({
                let step = headers_step(old(self)@.boundary, buffer_bytes(*old(src)));
                &&& final(self)@.boundary == old(self)@.boundary
                &&& final(self)@.state == step.state
                &&& buffer_bytes(*final(src)) == step.rest
                &&& match found {
                    None => step.outcome is Stuck,
                    Some(result) => is_outcome(result, step.outcome),
                }
            }),
    {
        let ghost before_call = buffer_bytes(*src);
        let line_break: [u8; 2] = [13, 10];
        let found = memchr::memmem::find(src, line_break.as_slice());
        proof {
            assert(line_break@ =~= crlf());
            lemma_found(before_call, crlf(), found);
        }
        match found {
            None => {
                src.reserve(CHUNK_SIZE);
                Some(Ok(None))
            },
            Some(end) => {
                if end == 0 {
                    let _ = src.split_to(end + 2);
                    self.state = MultipartDecoderState::Data;
                    return match self.decode_data(src) {
                        None => None,
                        Some(frame) => Some(Ok(frame)),
                    };
                }
                let line = vstd::slice::slice_subrange(src, 0, end + 2);
                assert(line@ =~= before_call.take(end + 2));
                match memchr::memchr(58, line) {
                    None => {
                        proof {
                            lemma_first_byte_is_none(line@, 58);
                        }
                        return None;
                    },
                    Some(at) => {
                        proof {
                            lemma_first_byte_is(line@, 58, at as int);
                        }
                    },
                }
                let header = src.split_to(end + 2);
                match Self::parse_header(&header) {
                    Ok(field) => Some(Ok(Some(MultipartFrame::Header(field)))),
                    Err(e) => Some(Err(e)),
                }
            },
        }
    }

    /// Cuts the next frame off the source, like `decode`. Returns `None` where
    /// that is not possible: where a header line has no colon, where the first
    /// boundary stands too close to the start of the source and its end is not
    /// there yet, where the boundary is empty, and where there is no room for
    /// more of the stream.
    pub fn try_decode(&mut self, src: &mut BytesMut) -> (result: Option<
        Result<Option<MultipartFrame>, Error>,
    >)
        ensures
            result is None <==> !decodable(old(self)@, buffer_bytes(*old(src))),
            final(self)@.boundary == old(self)@.boundary,
            ({
                let step = decode_step(
                    old(self)@.state,
                    old(self)@.boundary,
                    buffer_bytes(*old(src)),
                );
                if buffer_bytes(*old(src)).len() + CHUNK_SIZE <= isize::MAX {
                    &&& result matches Some(r) ==> is_outcome(r, step.outcome)
                    &&& final(self)@.state == step.state
                    &&& buffer_bytes(*final(src)) == step.rest
                } else {
                    &&& final(self)@.state == old(self)@.state
                    &&& buffer_bytes(*final(src)) == buffer_bytes(*old(src))
                }
            }),
    {
        if src.len() > isize::MAX as usize - CHUNK_SIZE {
            return None;
        }
        match self.state {
            MultipartDecoderState::BeforeFirstBoundary => match self.decode_preamble(src) {
                None => None,
                Some(frame) => Some(Ok(frame)),
            },
            MultipartDecoderState::Headers => self.decode_headers(src),
            MultipartDecoderState::Data => match self.decode_data(src) {
                None => None,
                Some(frame) => Some(Ok(frame)),
            },
            MultipartDecoderState::End => {
                self.decode_end(src);
                Some(Ok(None))
            },
        }
    }

    /// Cuts the next frame off the source, or returns `None` where more of the
    /// stream is needed.
    pub fn decode(&mut self, src: &mut BytesMut) -> (result: Result<Option<MultipartFrame>, Error>)
        requires
            decodable(old(self)@, buffer_bytes(*old(src))),
        ensures
            ({
                let step = decode_step(
                    old(self)@.state,
                    old(self)@.boundary,
                    buffer_bytes(*old(src)),
                );
                &&& is_outcome(result, step.outcome)
                &&& final(self)@.boundary == old(self)@.boundary
                &&& final(self)@.state == step.state
                &&& buffer_bytes(*final(src)) == step.rest
            }),
    {
        match self.try_decode(src) {
            Some(result) => result,
            None => vstd::pervasive::unreached(),
        }
    }

    fn decode_end(&self, src: &mut BytesMut)
        ensures
            buffer_bytes(*final(src)) == end_step().rest,
    {
        let _ = src.split();
        src.reserve(CHUNK_SIZE);
        assert(buffer_bytes(*src) =~= Seq::<u8>::empty());
    }
}

/// What a search returned is the first occurrence.
proof fn lemma_found(haystack: Seq<u8>, needle: Seq<u8>, found: Option<usize>)
    requires
        match found {
            Some(at) => first_at(haystack, needle, at as int),
            None => forall|j: int| !occurs_at(haystack, needle, j),
        },
    ensures
        match found {
            Some(at) => first_occurrence(haystack, needle) == Some(at as int),
            None => first_occurrence(haystack, needle) is None,
        },
{
    if let Some(at) = found {
        lemma_first_is(haystack, needle, at as int);
    }
}

} // verus!
