//! What holds of every call of the decoder.

use vstd::prelude::*;

use crate::decoder::{
    crlf, data_step, decodable, decode_step, end_step, header_line, preamble_step, safe_prefix,
    DecodeOutcome, DecoderView, FrameView, MultipartDecoderState, CHUNK_SIZE,
};
use crate::search::{first_at, first_occurrence, last_byte_or_zero, lemma_first_means, occurs_at};

verus! {

/// The last position of a byte is in the bytes.
pub proof fn lemma_last_byte_bound(bytes: Seq<u8>, byte: u8)
    ensures
        0 <= last_byte_or_zero(bytes, byte),
        bytes.len() > 0 ==> last_byte_or_zero(bytes, byte) < bytes.len(),
        last_byte_or_zero(bytes, byte) != 0 ==> bytes[last_byte_or_zero(bytes, byte)] == byte,
    decreases bytes.len(),
{
    if bytes.len() > 0 {
        lemma_last_byte_bound(bytes.drop_last(), byte);
    }
}

/// What is given out of a body in which no boundary stands is part of it.
pub proof fn lemma_safe_prefix_bound(boundary: Seq<u8>, src: Seq<u8>)
    ensures
        0 <= safe_prefix(boundary, src) <= src.len(),
        src.len() > 0 ==> safe_prefix(boundary, src) < src.len(),
{
    lemma_last_byte_bound(src, 13);
}

/// In the body of a section nothing is lost: the bytes that are given out,
/// followed by those that are left, are the source.
pub proof fn law_data_is_kept(boundary: Seq<u8>, src: Seq<u8>)
    ensures
        data_step(boundary, src).outcome matches DecodeOutcome::Frame(FrameView::Data(data)) ==> data
            + data_step(boundary, src).rest == src && data.len() > 0,
        data_step(boundary, src).outcome matches DecodeOutcome::Frame(frame) ==> data_step(
            boundary,
            src,
        ).rest.len() < src.len() && !(frame is End),
{
    lemma_first_means(src, boundary);
    lemma_safe_prefix_bound(boundary, src);
    let step = data_step(boundary, src);
    if let DecodeOutcome::Frame(FrameView::Data(data)) = step.outcome {
        assert(data + step.rest =~= src);
    }
}

/// A call before the first boundary drops bytes from the front only, and at least
/// one where it finds the boundary.
pub proof fn lemma_preamble_rest(boundary: Seq<u8>, src: Seq<u8>)
    ensures
        preamble_step(boundary, src).rest.len() <= src.len(),
        preamble_step(boundary, src).rest == src.skip(
            src.len() - preamble_step(boundary, src).rest.len(),
        ),
        preamble_step(boundary, src).outcome matches DecodeOutcome::Frame(frame) ==> frame
            == FrameView::Boundary && preamble_step(boundary, src).rest.len() < src.len(),
    decreases src.len(),
{
    lemma_first_means(src, boundary);
    if let Some(pos) = first_occurrence(src, boundary) {
        let end = pos + boundary.len();
        let step = preamble_step(boundary, src);
        if pos < 2 && pos < src.len() {
            lemma_preamble_rest(boundary, src.skip(pos + 1));
            assert(src.skip(pos + 1).skip(src.skip(pos + 1).len() - step.rest.len()) =~= src.skip(
                src.len() - step.rest.len(),
            ));
        } else if pos >= 2 && src.len() >= end + 2 {
            if step == preamble_step(boundary, src.skip(end)) {
                lemma_preamble_rest(boundary, src.skip(end));
                assert(src.skip(end).skip(src.skip(end).len() - step.rest.len()) =~= src.skip(
                    src.len() - step.rest.len(),
                ));
            }
        }
        assert(step.rest =~= src.skip(src.len() - step.rest.len()));
    } else {
        assert(src.skip(0) =~= src);
    }
}

/// Every frame takes at least one byte off the source, no part of a body is
/// empty, and the decoder never says that the stream has ended.
pub proof fn law_frame_makes_progress(
    state: MultipartDecoderState,
    boundary: Seq<u8>,
    src: Seq<u8>,
)
    ensures
        decode_step(state, boundary, src).outcome matches DecodeOutcome::Frame(frame) ==> {
            &&& decode_step(state, boundary, src).rest.len() < src.len()
            &&& frame matches FrameView::Data(data) ==> data.len() > 0
            &&& !(frame is End)
        },
{
    match state {
        MultipartDecoderState::BeforeFirstBoundary => lemma_preamble_rest(boundary, src),
        MultipartDecoderState::Headers => {
            lemma_first_means(src, crlf());
            if first_occurrence(src, crlf()) == Some(0int) {
                law_data_is_kept(boundary, src.skip(2));
            }
        },
        MultipartDecoderState::Data => law_data_is_kept(boundary, src),
        MultipartDecoderState::End => {},
    }
}

/// What a call leaves of the source is an end of it: the decoder takes bytes off
/// the front and changes none.
pub proof fn law_rest_is_suffix(state: MultipartDecoderState, boundary: Seq<u8>, src: Seq<u8>)
    ensures
        decode_step(state, boundary, src).rest.len() <= src.len(),
        decode_step(state, boundary, src).rest == src.skip(
            src.len() - decode_step(state, boundary, src).rest.len(),
        ),
{
    let step = decode_step(state, boundary, src);
    match state {
        MultipartDecoderState::BeforeFirstBoundary => lemma_preamble_rest(boundary, src),
        MultipartDecoderState::Headers => {
            lemma_first_means(src, crlf());
            if first_occurrence(src, crlf()) == Some(0int) {
                lemma_data_rest(boundary, src.skip(2));
                assert(src.skip(2).skip(src.skip(2).len() - step.rest.len()) =~= src.skip(
                    src.len() - step.rest.len(),
                ));
            }
        },
        MultipartDecoderState::Data => lemma_data_rest(boundary, src),
        MultipartDecoderState::End => {},
    }
    assert(step.rest =~= src.skip(src.len() - step.rest.len()));
}

proof fn lemma_data_rest(boundary: Seq<u8>, src: Seq<u8>)
    ensures
        data_step(boundary, src).rest.len() <= src.len(),
        data_step(boundary, src).rest == src.skip(
            src.len() - data_step(boundary, src).rest.len(),
        ),
{
    lemma_first_means(src, boundary);
    lemma_safe_prefix_bound(boundary, src);
    let step = data_step(boundary, src);
    assert(step.rest =~= src.skip(src.len() - step.rest.len()));
}

/// Once the stream is closed it stays closed: nothing more comes of it, and
/// whatever follows is dropped.
pub proof fn law_end_is_final(boundary: Seq<u8>, src: Seq<u8>)
    ensures
        decode_step(MultipartDecoderState::End, boundary, src) == end_step(),
{
}

/// A boundary stands two or three bytes after this place, and the two bytes after
/// it are not there yet.
pub open spec fn cut_short(boundary: Seq<u8>, src: Seq<u8>, place: int) -> bool {
    &&& 0 <= place <= src.len()
    &&& first_occurrence(src.skip(place), boundary) matches Some(pos) && 2 <= pos < 4 && src.len()
        < place + pos + boundary.len() + 2
}

/// Before the first boundary a decoder cannot go on only where a boundary is cut
/// short.
proof fn lemma_preamble_stuck(boundary: Seq<u8>, src: Seq<u8>) -> (place: int)
    requires
        boundary.len() > 0,
        preamble_step(boundary, src).outcome is Stuck,
    ensures
        cut_short(boundary, src, place),
    decreases src.len(),
{
    lemma_first_means(src, boundary);
    let pos = first_occurrence(src, boundary)->Some_0;
    let end = pos + boundary.len();
    if pos < 2 {
        let inner = lemma_preamble_stuck(boundary, src.skip(pos + 1));
        assert(src.skip(pos + 1).skip(inner) =~= src.skip(pos + 1 + inner));
        pos + 1 + inner
    } else if src.len() < end + 2 {
        assert(src.skip(0) =~= src);
        0
    } else {
        let inner = lemma_preamble_stuck(boundary, src.skip(end));
        assert(src.skip(end).skip(inner) =~= src.skip(end + inner));
        end + inner
    }
}

/// A decoder with a boundary that is not empty cannot go on only where the next
/// header line has no colon, or where the first boundary has two or three bytes
/// before it that are left and the two bytes after it are not there yet.
pub proof fn law_stuck(state: MultipartDecoderState, boundary: Seq<u8>, src: Seq<u8>)
    requires
        boundary.len() > 0,
        decode_step(state, boundary, src).outcome is Stuck,
    ensures
        match state {
            MultipartDecoderState::BeforeFirstBoundary => exists|place: int|
                cut_short(boundary, src, place),
            MultipartDecoderState::Headers => first_occurrence(src, crlf()) matches Some(end) && end
                > 0 && header_line(src.take(end + 2)) is NoColon,
            _ => false,
        },
{
    match state {
        MultipartDecoderState::BeforeFirstBoundary => {
            let place = lemma_preamble_stuck(boundary, src);
        },
        MultipartDecoderState::Headers => {
            lemma_first_means(src, crlf());
            lemma_first_means(src.skip(2), boundary);
        },
        MultipartDecoderState::Data => lemma_first_means(src, boundary),
        MultipartDecoderState::End => {},
    }
}

/// A decoder with a boundary that is not empty goes on wherever there is room for more
/// of the stream, if before the first boundary every boundary in the source has its two
/// bytes after it, and among header lines the next one is empty or has a colon. In the
/// body of a section and after the end nothing more is asked.
pub proof fn law_goes_on(state: MultipartDecoderState, boundary: Seq<u8>, src: Seq<u8>)
    requires
        boundary.len() > 0,
        state == MultipartDecoderState::BeforeFirstBoundary ==> forall|at: int| #[trigger]
            occurs_at(src, boundary, at) ==> at + boundary.len() + 2 <= src.len(),
        state == MultipartDecoderState::Headers ==> forall|end: int|
            first_at(src, crlf(), end) && end > 0 ==> src.take(end).contains(58),
    ensures
        !(decode_step(state, boundary, src).outcome is Stuck),
        src.len() + CHUNK_SIZE <= isize::MAX ==> decodable(DecoderView { state, boundary }, src),
{
    if decode_step(state, boundary, src).outcome is Stuck {
        law_stuck(state, boundary, src);
        match state {
            MultipartDecoderState::BeforeFirstBoundary => {
                let place = choose|place: int| cut_short(boundary, src, place);
                let left = src.skip(place);
                lemma_first_means(left, boundary);
                let pos = first_occurrence(left, boundary)->Some_0;
                let at = place + pos;
                assert(src.subrange(at, at + boundary.len()) =~= left.subrange(
                    pos,
                    pos + boundary.len(),
                ));
                assert(occurs_at(src, boundary, at));
            },
            MultipartDecoderState::Headers => {
                lemma_first_means(src, crlf());
                let end = first_occurrence(src, crlf())->Some_0;
                let line = src.take(end + 2);
                lemma_first_means(line, seq![58u8]);
                let i = choose|i: int| 0 <= i < src.take(end).len() && src.take(end)[i] == 58;
                assert(line.subrange(i, i + 1) =~= seq![58u8]);
                assert(occurs_at(line, seq![58u8], i));
            },
            _ => {},
        }
    }
}

} // verus!
