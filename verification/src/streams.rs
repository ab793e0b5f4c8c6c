//! Multipart streams as they stand, and the frames that they are cut into, however
//! they come in chunks.

use vstd::prelude::*;

use crate::decoder::{
    crlf, dashes, data_prefix_step, data_step, decode_step, end_step, header_line, safe_prefix,
    DecodeOutcome, DecodeStep, FrameView, HeaderLine, MultipartDecoderState,
};
use crate::decoder_laws::{
    law_data_is_kept, law_frame_makes_progress, law_rest_is_suffix, lemma_last_byte_bound,
    lemma_preamble_rest, lemma_safe_prefix_bound,
};
use crate::search::{
    first_at, first_occurrence, last_byte_or_zero, lemma_first_after_append,
    lemma_first_after_skip, lemma_first_byte_is_none, lemma_first_exists, lemma_first_in_prefix,
    lemma_first_means, occurs_at,
};

verus! {

/// A line break, two dashes and the boundary.
pub open spec fn delimiter(boundary: Seq<u8>) -> Seq<u8> {
    crlf() + dashes() + boundary
}

/// Where the boundary stands at this place of a body, before the delimiter that
/// follows, it is taken for a part of the body: it starts in the body, and, unless
/// there are not even four bytes before it, it ends in the body as well, with no
/// line break and dashes before it, and no line break after it.
pub open spec fn is_plain_data(boundary: Seq<u8>, body: Seq<u8>, at: int) -> bool {
    let text = body + delimiter(boundary);
    let end = at + boundary.len();
    &&& at < body.len()
    &&& at >= 4 ==> {
        &&& end <= body.len()
        &&& text.subrange(at - 4, at) != crlf() + dashes()
        &&& text.subrange(end, end + 2) != crlf()
    }
}

/// A body that is read back as it was written: wherever the boundary stands before
/// its place in the delimiter that follows, it is taken for a part of the body.
#[verifier::opaque]
pub open spec fn readable_body(boundary: Seq<u8>, body: Seq<u8>) -> bool {
    forall|at: int|
        #[trigger] occurs_at(body + delimiter(boundary), boundary, at) && at < body.len() + 4
            ==> is_plain_data(boundary, body, at)
}

/// A section as it stands in a stream: its header lines, each without the line break
/// that ends it, and the bytes of its body.
pub struct RawSection {
    /// The header lines.
    pub lines: Seq<Seq<u8>>,
    /// The bytes of the body.
    pub body: Seq<u8>,
}

/// A header line that can be read: no line break in it, and a field once one follows.
pub open spec fn readable_line(line: Seq<u8>) -> bool {
    &&& first_at(line + crlf(), crlf(), line.len() as int)
    &&& header_line(line + crlf()) is Field
}

/// The field that a header line is read as.
pub open spec fn line_field(line: Seq<u8>) -> (Seq<char>, Seq<char>) {
    match header_line(line + crlf()) {
        HeaderLine::Field(name, value) => (name, value),
        _ => (Seq::empty(), Seq::empty()),
    }
}

/// A section that can be read from a stream with this boundary.
pub open spec fn well_formed_section(boundary: Seq<u8>, section: RawSection) -> bool {
    &&& forall|i: int|
        0 <= i < section.lines.len() ==> readable_line(#[trigger] section.lines[i])
    &&& readable_body(boundary, section.body)
}

/// Sections that can be read from a stream with this boundary.
pub open spec fn well_formed(boundary: Seq<u8>, sections: Seq<RawSection>) -> bool {
    forall|i: int|
        0 <= i < sections.len() ==> well_formed_section(boundary, #[trigger] sections[i])
}

/// No byte of the boundary but the last is a carriage return.
pub open spec fn no_inner_cr(boundary: Seq<u8>) -> bool {
    forall|i: int| 0 <= i < boundary.len() - 1 ==> boundary[i] != 13
}

/// All chunks in a row.
pub open spec fn joined(chunks: Seq<Seq<u8>>) -> Seq<u8>
    decreases chunks.len(),
{
    if chunks.len() == 0 {
        Seq::empty()
    } else {
        chunks[0] + joined(chunks.drop_first())
    }
}

/// What comes of calling the decoder again and again.
pub struct DecodeRun {
    /// The frames, in order.
    pub frames: Seq<FrameView>,
    /// Whether a call failed.
    pub failed: bool,
    /// The state after the last call.
    pub state: MultipartDecoderState,
    /// What the last call left of the source.
    pub rest: Seq<u8>,
}

/// Calls the decoder on a source until it asks for more, appends the next chunk to
/// the source, and so on until there are no more chunks.
#[verifier::opaque]
pub open spec fn decode_run(
    state: MultipartDecoderState,
    boundary: Seq<u8>,
    src: Seq<u8>,
    chunks: Seq<Seq<u8>>,
) -> DecodeRun
    decreases chunks.len(), src.len(),
{
    let step = decode_step(state, boundary, src);
    match step.outcome {
        DecodeOutcome::Frame(frame) if step.rest.len() < src.len() => {
            let run = decode_run(step.state, boundary, step.rest, chunks);
            DecodeRun { frames: seq![frame] + run.frames, ..run }
        },
        DecodeOutcome::NeedMore if chunks.len() > 0 => decode_run(
            step.state,
            boundary,
            step.rest + chunks[0],
            chunks.drop_first(),
        ),
        outcome => DecodeRun {
            frames: Seq::empty(),
            failed: !(outcome is NeedMore),
            state: step.state,
            rest: step.rest,
        },
    }
}

/// No frame of a run says that the stream has ended, and none is a part of a body
/// without bytes.
pub proof fn law_frames_of_a_run(
    state: MultipartDecoderState,
    boundary: Seq<u8>,
    src: Seq<u8>,
    chunks: Seq<Seq<u8>>,
)
    ensures
        forall|i: int|
            0 <= i < decode_run(state, boundary, src, chunks).frames.len() ==> {
                let frame = #[trigger] decode_run(state, boundary, src, chunks).frames[i];
                &&& !(frame is End)
                &&& frame matches FrameView::Data(data) ==> data.len() > 0
            },
    decreases chunks.len(), src.len(),
{
    reveal(decode_run);
    law_frame_makes_progress(state, boundary, src);
    let step = decode_step(state, boundary, src);
    match step.outcome {
        DecodeOutcome::Frame(frame) => {
            law_frames_of_a_run(step.state, boundary, step.rest, chunks);
        },
        DecodeOutcome::NeedMore if chunks.len() > 0 => {
            law_frames_of_a_run(
                step.state,
                boundary,
                step.rest + chunks[0],
                chunks.drop_first(),
            );
        },
        _ => {},
    }
}

/// How many bytes the parts of bodies among the frames have together.
pub open spec fn data_len(frames: Seq<FrameView>) -> nat
    decreases frames.len(),
{
    if frames.len() == 0 {
        0
    } else {
        let others = data_len(frames.drop_first());
        match frames[0] {
            FrameView::Data(data) => data.len() + others,
            _ => others,
        }
    }
}

/// What a call in the body of a section gives out, and what it leaves of the source, are
/// together the source.
proof fn lemma_data_gives_no_more(boundary: Seq<u8>, src: Seq<u8>)
    ensures
        data_step(boundary, src).outcome matches DecodeOutcome::Frame(FrameView::Data(data))
            ==> data.len() + data_step(boundary, src).rest.len() == src.len(),
{
    law_data_is_kept(boundary, src);
    let step = data_step(boundary, src);
    if let DecodeOutcome::Frame(FrameView::Data(data)) = step.outcome {
        assert((data + step.rest).len() == src.len());
    }
}

/// What a call gives out of a body, and what it leaves of the source, are together no
/// more than the source.
proof fn lemma_step_gives_no_more(state: MultipartDecoderState, boundary: Seq<u8>, src: Seq<u8>)
    ensures
        ({
            let step = decode_step(state, boundary, src);
            &&& step.rest.len() <= src.len()
            &&& step.outcome matches DecodeOutcome::Frame(FrameView::Data(data)) ==> data.len()
                + step.rest.len() <= src.len()
        }),
{
    law_rest_is_suffix(state, boundary, src);
    match state {
        MultipartDecoderState::Headers => {
            lemma_first_means(src, crlf());
            lemma_data_gives_no_more(boundary, src.skip(2));
        },
        MultipartDecoderState::Data => lemma_data_gives_no_more(boundary, src),
        MultipartDecoderState::BeforeFirstBoundary => lemma_preamble_rest(boundary, src),
        MultipartDecoderState::End => {},
    }
}

/// A run gives out no more than came: the parts of bodies among its frames, and what is
/// left at its end, have together at most as many bytes as the source and the chunks.
pub proof fn law_run_gives_no_more(
    state: MultipartDecoderState,
    boundary: Seq<u8>,
    src: Seq<u8>,
    chunks: Seq<Seq<u8>>,
)
    ensures
        ({
            let run = decode_run(state, boundary, src, chunks);
            data_len(run.frames) + run.rest.len() <= src.len() + joined(chunks).len()
        }),
    decreases chunks.len(), src.len(),
{
    reveal(decode_run);
    lemma_step_gives_no_more(state, boundary, src);
    law_frame_makes_progress(state, boundary, src);
    let step = decode_step(state, boundary, src);
    match step.outcome {
        DecodeOutcome::Frame(frame) => {
            law_run_gives_no_more(step.state, boundary, step.rest, chunks);
            let later = decode_run(step.state, boundary, step.rest, chunks).frames;
            assert((seq![frame] + later).drop_first() =~= later);
        },
        DecodeOutcome::NeedMore if chunks.len() > 0 => {
            law_run_gives_no_more(
                step.state,
                boundary,
                step.rest + chunks[0],
                chunks.drop_first(),
            );
        },
        _ => {},
    }
}

/// The run came to the end of the stream.
pub open spec fn run_complete(run: DecodeRun) -> bool {
    &&& !run.failed
    &&& run.state == MultipartDecoderState::End
    &&& run.rest.len() == 0
}

/// The bytes of the parts of a body that the frames start with.
pub open spec fn leading_data(frames: Seq<FrameView>) -> Seq<u8>
    decreases frames.len(),
{
    if frames.len() == 0 {
        Seq::empty()
    } else {
        match frames[0] {
            FrameView::Data(data) => data + leading_data(frames.drop_first()),
            _ => Seq::empty(),
        }
    }
}

/// The frames after the parts of a body that they start with.
pub open spec fn after_data(frames: Seq<FrameView>) -> Seq<FrameView>
    decreases frames.len(),
{
    if frames.len() == 0 {
        Seq::empty()
    } else {
        match frames[0] {
            FrameView::Data(data) => after_data(frames.drop_first()),
            _ => frames,
        }
    }
}

/// The frames give the rest of this body, and then these sections.
pub open spec fn frames_of_body(
    frames: Seq<FrameView>,
    body: Seq<u8>,
    sections: Seq<RawSection>,
) -> bool
    decreases sections.len(), 2nat, 0nat,
{
    &&& leading_data(frames) == body
    &&& frames_of_sections(after_data(frames), sections)
}

/// The frames give the fields of these header lines, then this body, and then these
/// sections.
pub open spec fn frames_of_headers(
    frames: Seq<FrameView>,
    lines: Seq<Seq<u8>>,
    body: Seq<u8>,
    sections: Seq<RawSection>,
) -> bool
    decreases sections.len(), 3nat, lines.len(),
{
    if lines.len() == 0 {
        frames_of_body(frames, body, sections)
    } else {
        &&& frames.len() > 0
        &&& frames[0] == FrameView::Header(line_field(lines[0]).0, line_field(lines[0]).1)
        &&& frames_of_headers(frames.drop_first(), lines.drop_first(), body, sections)
    }
}

/// The frames give these sections, each after its boundary.
pub open spec fn frames_of_sections(frames: Seq<FrameView>, sections: Seq<RawSection>) -> bool
    decreases sections.len(), 1nat, 0nat,
{
    if sections.len() == 0 {
        frames.len() == 0
    } else {
        &&& frames.len() > 0
        &&& frames[0] == FrameView::Boundary
        &&& frames_of_headers(
            frames.drop_first(),
            sections[0].lines,
            sections[0].body,
            sections.drop_first(),
        )
    }
}

/// The frames with adjacent parts of a body joined.
pub open spec fn data_joined(frames: Seq<FrameView>) -> Seq<FrameView>
    decreases frames.len(), 0nat,
{
    if frames.len() == 0 {
        Seq::empty()
    } else {
        let others = data_joined(frames.drop_first());
        match frames[0] {
            FrameView::Data(data) => if others.len() > 0 && others[0] is Data {
                others.update(0, FrameView::Data(data + others[0]->Data_0))
            } else {
                seq![frames[0]] + others
            },
            _ => seq![frames[0]] + others,
        }
    }
}

/// The frames of header lines.
pub open spec fn line_frames(lines: Seq<Seq<u8>>) -> Seq<FrameView> {
    lines.map_values(|line: Seq<u8>| FrameView::Header(line_field(line).0, line_field(line).1))
}

/// The frame of a body, if it has bytes.
pub open spec fn body_frames(body: Seq<u8>) -> Seq<FrameView> {
    if body.len() == 0 {
        Seq::empty()
    } else {
        seq![FrameView::Data(body)]
    }
}

/// The frames of sections: for each its boundary, its header lines and its body.
pub open spec fn stream_frames(sections: Seq<RawSection>) -> Seq<FrameView>
    decreases sections.len(),
{
    if sections.len() == 0 {
        Seq::empty()
    } else {
        seq![FrameView::Boundary] + (line_frames(sections[0].lines) + (body_frames(sections[0].body)
            + stream_frames(sections.drop_first())))
    }
}

/// The header lines in a row, each with its line break.
pub open spec fn lines_bytes(lines: Seq<Seq<u8>>) -> Seq<u8>
    decreases lines.len(),
{
    if lines.len() == 0 {
        Seq::empty()
    } else {
        lines[0] + crlf() + lines_bytes(lines.drop_first())
    }
}

/// What follows a boundary of a stream: two dashes and whatever comes after the
/// stream where there are no more sections, and else the next section from its
/// header lines on.
pub open spec fn after_boundary(
    boundary: Seq<u8>,
    sections: Seq<RawSection>,
    epilogue: Seq<u8>,
) -> Seq<u8>
    decreases sections.len(),
{
    if sections.len() == 0 {
        dashes() + epilogue
    } else {
        crlf() + (lines_bytes(sections[0].lines) + crlf() + (sections[0].body + (
        delimiter(boundary) + after_boundary(boundary, sections.drop_first(), epilogue))))
    }
}

/// A stream from a delimiter on.
pub open spec fn from_delimiter(
    boundary: Seq<u8>,
    sections: Seq<RawSection>,
    epilogue: Seq<u8>,
) -> Seq<u8> {
    delimiter(boundary) + after_boundary(boundary, sections, epilogue)
}

/// A stream of sections, between whatever comes before the first boundary and
/// whatever comes after the last one.
pub open spec fn multipart_stream(
    boundary: Seq<u8>,
    preamble: Seq<u8>,
    sections: Seq<RawSection>,
    epilogue: Seq<u8>,
) -> Seq<u8> {
    preamble + dashes() + boundary + after_boundary(boundary, sections, epilogue)
}

/// One call of the decoder.
#[verifier::opaque]
spec fn one_call(state: MultipartDecoderState, boundary: Seq<u8>, src: Seq<u8>) -> DecodeStep {
    decode_step(state, boundary, src)
}

/// A run goes on after a frame.
proof fn lemma_run_frame(
    state: MultipartDecoderState,
    boundary: Seq<u8>,
    src: Seq<u8>,
    chunks: Seq<Seq<u8>>,
    frame: FrameView,
)
    requires
        one_call(state, boundary, src).outcome == DecodeOutcome::Frame(frame),
    ensures
        ({
            let step = one_call(state, boundary, src);
            let run = decode_run(step.state, boundary, step.rest, chunks);
            decode_run(state, boundary, src, chunks) == (DecodeRun {
                frames: seq![frame] + run.frames,
                ..run
            })
        }),
{
    reveal(decode_run);
    reveal(one_call);
    law_frame_makes_progress(state, boundary, src);
}

/// A run goes on with the next chunk where a call asks for more.
proof fn lemma_run_more(
    state: MultipartDecoderState,
    boundary: Seq<u8>,
    src: Seq<u8>,
    chunks: Seq<Seq<u8>>,
)
    requires
        one_call(state, boundary, src).outcome is NeedMore,
        chunks.len() > 0,
    ensures
        ({
            let step = one_call(state, boundary, src);
            decode_run(state, boundary, src, chunks) == decode_run(
                step.state,
                boundary,
                step.rest + chunks[0],
                chunks.drop_first(),
            )
        }),
{
    reveal(decode_run);
    reveal(one_call);
}

/// A run depends only on what its first call comes to.
proof fn lemma_run_same(
    state: MultipartDecoderState,
    src: Seq<u8>,
    other_state: MultipartDecoderState,
    other_src: Seq<u8>,
    boundary: Seq<u8>,
    chunks: Seq<Seq<u8>>,
)
    requires
        one_call(state, boundary, src) == one_call(other_state, boundary, other_src),
    ensures
        decode_run(state, boundary, src, chunks) == decode_run(
            other_state,
            boundary,
            other_src,
            chunks,
        ),
{
    reveal(decode_run);
    reveal(one_call);
    law_frame_makes_progress(state, boundary, src);
    law_frame_makes_progress(other_state, boundary, other_src);
}

/// A run that finds the end of the stream at once.
proof fn lemma_run_end(
    state: MultipartDecoderState,
    boundary: Seq<u8>,
    src: Seq<u8>,
    chunks: Seq<Seq<u8>>,
)
    requires
        one_call(state, boundary, src) == end_step(),
    ensures
        run_complete(decode_run(state, boundary, src, chunks)),
        decode_run(state, boundary, src, chunks).frames == Seq::<FrameView>::empty(),
    decreases chunks.len(),
{
    reveal(decode_run);
    reveal(one_call);
    assert(one_call(
        MultipartDecoderState::End,
        boundary,
        end_step().rest + chunks[0],
    ) == end_step());
    if chunks.len() > 0 {
        lemma_run_end(
            MultipartDecoderState::End,
            boundary,
            end_step().rest + chunks[0],
            chunks.drop_first(),
        );
    }
}

/// A chunk more in the source, a chunk less to come.
proof fn lemma_next_chunk(src: Seq<u8>, chunks: Seq<Seq<u8>>)
    requires
        chunks.len() > 0,
    ensures
        (src + chunks[0]) + joined(chunks.drop_first()) == src + joined(chunks),
{
    assert((src + chunks[0]) + joined(chunks.drop_first()) =~= src + joined(chunks));
}

/// The source without its first bytes, and the chunks to come.
proof fn lemma_skip(src: Seq<u8>, chunks: Seq<Seq<u8>>, n: int)
    requires
        0 <= n <= src.len(),
    ensures
        src.skip(n) + joined(chunks) == (src + joined(chunks)).skip(n),
{
    assert(src.skip(n) + joined(chunks) =~= (src + joined(chunks)).skip(n));
}

/// A part of a body in front of other frames.
proof fn lemma_data_in_front(data: Seq<u8>, frames: Seq<FrameView>)
    ensures
        leading_data(seq![FrameView::Data(data)] + frames) == data + leading_data(frames),
        after_data(seq![FrameView::Data(data)] + frames) == after_data(frames),
{
    let all = seq![FrameView::Data(data)] + frames;
    assert(all[0] == FrameView::Data(data));
    assert(all.drop_first() =~= frames);
}

/// Where no boundary stands in the beginning of a body and what follows it, what
/// is given out belongs to the body.
#[verifier::spinoff_prover]
proof fn lemma_safe_in_body(boundary: Seq<u8>, body: Seq<u8>, after: Seq<u8>, len: int)
    requires
        no_inner_cr(boundary),
        0 <= len < body.len() + 4 + boundary.len(),
        len <= (body + delimiter(boundary) + after).len(),
    ensures
        0 <= safe_prefix(boundary, (body + delimiter(boundary) + after).take(len)) <= body.len(),
{
    let whole = body + delimiter(boundary) + after;
    let src = whole.take(len);
    lemma_safe_prefix_bound(boundary, src);
    lemma_last_byte_bound(src, 13);
    let last = last_byte_or_zero(src, 13);
    if last > body.len() {
        assert(src[last] == 13);
        let k = last - body.len();
        assert(whole[last] == delimiter(boundary)[k]);
        if k >= 4 {
            assert(delimiter(boundary)[k] == boundary[k - 4]);
        } else {
            assert(delimiter(boundary)[k] == (crlf() + dashes())[k]);
        }
        assert(false);
    }
}

/// Where the boundary stands first in a body and the delimiter that follows it.
proof fn lemma_first_boundary(boundary: Seq<u8>, body: Seq<u8>) -> (pos: int)
    requires
        readable_body(boundary, body),
    ensures
        first_at(body + delimiter(boundary), boundary, pos),
        boundary.len() > 0,
        0 <= pos <= body.len() + 4,
        pos == body.len() + 4 || is_plain_data(boundary, body, pos),
{
    reveal(readable_body);
    let text = body + delimiter(boundary);
    let last = body.len() as int + 4;
    assert(text.subrange(last, last + boundary.len()) =~= boundary);
    assert(occurs_at(text, boundary, last));
    lemma_first_exists(text, boundary, last);
    let pos = choose|i: int| first_at(text, boundary, i);
    assert(!(last < pos));
    if boundary.len() == 0 {
        let there = body.len() as int;
        assert(text.subrange(there, there) =~= boundary);
        assert(occurs_at(text, boundary, there));
        assert(is_plain_data(boundary, body, there));
    }
    pos
}

/// What a call comes to where no whole boundary is there yet.
#[verifier::spinoff_prover]
proof fn lemma_safe_call(boundary: Seq<u8>, body: Seq<u8>, tail: Seq<u8>, pos: int, len: int) -> (n:
    int)
    requires
        first_at(body + delimiter(boundary), boundary, pos),
        pos <= body.len() + 4,
        no_inner_cr(boundary),
        0 <= len < pos + boundary.len(),
    ensures
        ({
            let src = (body + delimiter(boundary) + tail).take(len);
            &&& 0 <= n <= body.len() && n <= len
            &&& one_call(MultipartDecoderState::Data, boundary, src) == data_prefix_step(src, n)
        }),
{
    reveal(one_call);
    let text = body + delimiter(boundary);
    let whole = text + tail;
    let src = whole.take(len);
    lemma_safe_in_body(boundary, body, tail, len);
    lemma_safe_prefix_bound(boundary, src);
    lemma_first_after_append(text, boundary, pos, tail);
    lemma_first_in_prefix(whole, boundary, pos, len);
    safe_prefix(boundary, src)
}

/// What a call comes to where the boundary is taken for a part of the body.
#[verifier::spinoff_prover]
proof fn lemma_plain_call(
    boundary: Seq<u8>,
    body: Seq<u8>,
    tail: Seq<u8>,
    pos: int,
    len: int,
) -> (n: int)
    requires
        first_at(body + delimiter(boundary), boundary, pos),
        boundary.len() > 0,
        0 <= pos < body.len() + 4,
        is_plain_data(boundary, body, pos),
        pos + boundary.len() <= len <= (body + delimiter(boundary) + tail).len(),
    ensures
        ({
            let src = (body + delimiter(boundary) + tail).take(len);
            &&& 0 <= n <= body.len() && n <= len
            &&& n == 0 ==> len < body.len() + 4 + boundary.len() + 2
            &&& one_call(MultipartDecoderState::Data, boundary, src) == data_prefix_step(src, n)
        }),
{
    reveal(one_call);
    let text = body + delimiter(boundary);
    let whole = text + tail;
    let src = whole.take(len);
    let end = pos + boundary.len();
    lemma_first_after_append(text, boundary, pos, tail);
    lemma_first_in_prefix(whole, boundary, pos, len);
    if pos < 4 {
        pos + 1
    } else if len < end + 2 {
        pos - 4
    } else {
        assert(src.subrange(pos - 4, pos) =~= text.subrange(pos - 4, pos));
        assert(src.subrange(end, end + 2) =~= text.subrange(end, end + 2));
        end
    }
}

/// What a call comes to where a whole delimiter stands first, with what follows it.
proof fn lemma_delimited_call(boundary: Seq<u8>, src: Seq<u8>, n: int, last: bool)
    requires
        first_occurrence(src, boundary) == Some(n + 4),
        0 <= n,
        n + 4 + boundary.len() + 2 <= src.len(),
        src.subrange(n, n + 4) == crlf() + dashes(),
        src.subrange(n + 4 + boundary.len(), n + 4 + boundary.len() + 2) == if last {
            dashes()
        } else {
            crlf()
        },
    ensures
        one_call(MultipartDecoderState::Data, boundary, src) == if last {
            if n == 0 {
                end_step()
            } else {
                DecodeStep { state: MultipartDecoderState::End, ..data_prefix_step(src, n) }
            }
        } else {
            if n == 0 {
                DecodeStep {
                    outcome: DecodeOutcome::Frame(FrameView::Boundary),
                    state: MultipartDecoderState::Headers,
                    rest: src.skip(n + 4 + boundary.len() + 2),
                }
            } else {
                data_prefix_step(src, n)
            }
        },
{
    reveal(one_call);
    assert(crlf()[0] == 13 && dashes()[0] == 45);
}

/// What stands around the boundary of a delimiter in a stream.
proof fn lemma_delimiter_bytes(
    boundary: Seq<u8>,
    body: Seq<u8>,
    sections: Seq<RawSection>,
    epilogue: Seq<u8>,
    len: int,
)
    requires
        body.len() + 4 + boundary.len() + 2 <= len,
        len <= (body + delimiter(boundary) + after_boundary(boundary, sections, epilogue)).len(),
    ensures
        ({
            let src = (body + delimiter(boundary) + after_boundary(
                boundary,
                sections,
                epilogue,
            )).take(len);
            let n = body.len() as int;
            let end = n + 4 + boundary.len();
            &&& src.subrange(n, n + 4) == crlf() + dashes()
            &&& src.subrange(end, end + 2) == if sections.len() == 0 {
                dashes()
            } else {
                crlf()
            }
        }),
{
    let tail = after_boundary(boundary, sections, epilogue);
    let src = (body + delimiter(boundary) + tail).take(len);
    let n = body.len() as int;
    let end = n + 4 + boundary.len();
    assert(src.subrange(n, n + 4) =~= crlf() + dashes());
    assert(src.subrange(end, end + 2) =~= tail.subrange(0, 2));
    if sections.len() == 0 {
        assert(tail.subrange(0, 2) =~= dashes());
    } else {
        assert(tail.subrange(0, 2) =~= crlf());
    }
}

/// What a call comes to where the boundary that stands first is that of the
/// delimiter.
#[verifier::spinoff_prover]
proof fn lemma_delimiter_call(
    boundary: Seq<u8>,
    body: Seq<u8>,
    sections: Seq<RawSection>,
    epilogue: Seq<u8>,
    len: int,
)
    requires
        first_at(body + delimiter(boundary), boundary, body.len() as int + 4),
        boundary.len() > 0,
        body.len() + 4 + boundary.len() <= len,
        len <= (body + delimiter(boundary) + after_boundary(boundary, sections, epilogue)).len(),
    ensures
        ({
            let src = (body + delimiter(boundary) + after_boundary(
                boundary,
                sections,
                epilogue,
            )).take(len);
            let n = body.len() as int;
            let end = n + 4 + boundary.len();
            one_call(MultipartDecoderState::Data, boundary, src) == if len < end + 2 {
                data_prefix_step(src, n)
            } else if sections.len() == 0 {
                if n == 0 {
                    end_step()
                } else {
                    DecodeStep {
                        state: MultipartDecoderState::End,
                        ..data_prefix_step(src, n)
                    }
                }
            } else {
                if n == 0 {
                    DecodeStep {
                        outcome: DecodeOutcome::Frame(FrameView::Boundary),
                        state: MultipartDecoderState::Headers,
                        rest: src.skip(end + 2),
                    }
                } else {
                    data_prefix_step(src, n)
                }
            }
        }),
{
    let tail = after_boundary(boundary, sections, epilogue);
    let text = body + delimiter(boundary);
    let whole = text + tail;
    let src = whole.take(len);
    let pos = body.len() as int + 4;
    lemma_first_after_append(text, boundary, pos, tail);
    lemma_first_in_prefix(whole, boundary, pos, len);
    if len >= pos + boundary.len() + 2 {
        lemma_delimiter_bytes(boundary, body, sections, epilogue, len);
        lemma_delimited_call(boundary, src, body.len() as int, sections.len() == 0);
    } else {
        reveal(one_call);
    }
}

/// What a call in the body of a section comes to, on a beginning of the rest of the
/// stream: it gives out some of the body, or asks for more, or finds the delimiter.
#[verifier::spinoff_prover]
proof fn lemma_data_call(
    boundary: Seq<u8>,
    body: Seq<u8>,
    sections: Seq<RawSection>,
    epilogue: Seq<u8>,
    len: int,
) -> (n: int)
    requires
        readable_body(boundary, body),
        0 <= len <= (body + from_delimiter(boundary, sections, epilogue)).len(),
        len == (body + from_delimiter(boundary, sections, epilogue)).len() || no_inner_cr(boundary),
    ensures
        ({
            let whole = body + from_delimiter(boundary, sections, epilogue);
            let src = whole.take(len);
            let end = body.len() as int + 4 + boundary.len();
            let call = one_call(MultipartDecoderState::Data, boundary, src);
            &&& 0 <= n <= body.len() && n <= len
            &&& end + 2 <= whole.len()
            &&& n == 0 && len < end + 2 ==> call == data_prefix_step(src, 0)
            &&& n == 0 && len >= end + 2 ==> body.len() == 0 && call == if sections.len() == 0 {
                end_step()
            } else {
                DecodeStep {
                    outcome: DecodeOutcome::Frame(FrameView::Boundary),
                    state: MultipartDecoderState::Headers,
                    rest: src.skip(end + 2),
                }
            }
            &&& n > 0 ==> {
                ||| call == data_prefix_step(src, n)
                ||| n == body.len() && sections.len() == 0 && call == (DecodeStep {
                    state: MultipartDecoderState::End,
                    ..data_prefix_step(src, n)
                })
            }
        }),
{
    let tail = after_boundary(boundary, sections, epilogue);
    let text = body + delimiter(boundary);
    let whole = body + from_delimiter(boundary, sections, epilogue);
    assert(whole =~= text + tail);
    assert(tail.len() >= 2);
    let pos = lemma_first_boundary(boundary, body);
    if len < pos + boundary.len() {
        lemma_safe_call(boundary, body, tail, pos, len)
    } else if pos < body.len() + 4 {
        lemma_plain_call(boundary, body, tail, pos, len)
    } else {
        lemma_delimiter_call(boundary, body, sections, epilogue, len);
        body.len() as int
    }
}

/// The rest of a body, once its first bytes are read.
#[verifier::spinoff_prover]
proof fn lemma_rest_of_body(boundary: Seq<u8>, body: Seq<u8>, n: int)
    requires
        readable_body(boundary, body),
        0 <= n <= body.len(),
    ensures
        readable_body(boundary, body.skip(n)),
{
    reveal(readable_body);
    let left = body.skip(n);
    let text = body + delimiter(boundary);
    let rest = left + delimiter(boundary);
    assert(rest =~= text.skip(n));
    assert forall|at: int| #[trigger]
        occurs_at(rest, boundary, at) && at < left.len() + 4 implies is_plain_data(
        boundary,
        left,
        at,
    ) by {
        let there = at + n;
        let end = there + boundary.len();
        assert(text.subrange(there, end) =~= rest.subrange(at, end - n));
        assert(occurs_at(text, boundary, there));
        assert(is_plain_data(boundary, body, there));
        if at >= 4 {
            assert(text.subrange(there - 4, there) =~= rest.subrange(at - 4, at));
            assert(text.subrange(end, end + 2) =~= rest.subrange(end - n, end - n + 2));
        }
    }
}

/// The sections after the first can be read as all can.
proof fn lemma_well_formed_rest(boundary: Seq<u8>, sections: Seq<RawSection>)
    requires
        well_formed(boundary, sections),
        sections.len() > 0,
    ensures
        well_formed_section(boundary, sections[0]),
        well_formed(boundary, sections.drop_first()),
{
    let rest = sections.drop_first();
    assert forall|i: int| 0 <= i < rest.len() implies well_formed_section(
        boundary,
        #[trigger] rest[i],
    ) by {
        assert(rest[i] == sections[i + 1]);
    }
}

/// A header line that can be read is not empty.
proof fn lemma_line_not_empty(line: Seq<u8>)
    requires
        readable_line(line),
    ensures
        line.len() > 0,
{
    if line.len() == 0 {
        assert(line + crlf() =~= crlf());
        assert(crlf()[0] == 13 && crlf()[1] == 10);
        lemma_first_byte_is_none(crlf(), 58);
    }
}

/// What a call among the header lines comes to, on a beginning of the rest of the
/// stream, where there is a line.
proof fn lemma_headers_call(
    boundary: Seq<u8>,
    lines: Seq<Seq<u8>>,
    after: Seq<u8>,
    len: int,
)
    requires
        lines.len() > 0,
        readable_line(lines[0]),
        0 <= len <= (lines_bytes(lines) + crlf() + after).len(),
    ensures
        ({
            let whole = lines_bytes(lines) + crlf() + after;
            let src = whole.take(len);
            let line = lines[0] + crlf();
            let here = MultipartDecoderState::Headers;
            &&& 2 < line.len() <= whole.len()
            &&& whole.skip(line.len() as int) == lines_bytes(lines.drop_first()) + crlf() + after
            &&& one_call(MultipartDecoderState::Headers, boundary, src) == if len < line.len() {
                DecodeStep { outcome: DecodeOutcome::NeedMore, state: here, rest: src }
            } else {
                DecodeStep {
                    outcome: DecodeOutcome::Frame(
                        FrameView::Header(line_field(lines[0]).0, line_field(lines[0]).1),
                    ),
                    state: here,
                    rest: src.skip(line.len() as int),
                }
            }
        }),
{
    reveal(one_call);
    let whole = lines_bytes(lines) + crlf() + after;
    let src = whole.take(len);
    let line = lines[0] + crlf();
    lemma_line_not_empty(lines[0]);
    let following = lines_bytes(lines.drop_first()) + crlf() + after;
    assert(whole =~= line + following);
    assert(whole.skip(line.len() as int) =~= following);
    let end = line.len() - 2;
    lemma_first_after_append(line, crlf(), end, following);
    lemma_first_in_prefix(whole, crlf(), end, len);
    if len >= line.len() {
        assert(src.take(end + 2) =~= line);
    }
}

/// What a call among the header lines comes to, on a beginning of the rest of the
/// stream, where the empty line is next.
proof fn lemma_blank_call(boundary: Seq<u8>, after: Seq<u8>, len: int)
    requires
        0 <= len <= (crlf() + after).len(),
    ensures
        ({
            let src = (crlf() + after).take(len);
            &&& len < 2 ==> one_call(MultipartDecoderState::Headers, boundary, src) == (DecodeStep {
                outcome: DecodeOutcome::NeedMore,
                state: MultipartDecoderState::Headers,
                rest: src,
            })
            &&& len >= 2 ==> one_call(MultipartDecoderState::Headers, boundary, src) == one_call(
                MultipartDecoderState::Data,
                boundary,
                src.skip(2),
            )
        }),
{
    reveal(one_call);
    let whole = crlf() + after;
    assert(whole.subrange(0, 2) =~= crlf());
    assert(first_at(whole, crlf(), 0));
    lemma_first_in_prefix(whole, crlf(), 0, len);
}

/// The frames of a run in the body of a section.
#[verifier::spinoff_prover]
proof fn lemma_run_data(
    boundary: Seq<u8>,
    body: Seq<u8>,
    sections: Seq<RawSection>,
    epilogue: Seq<u8>,
    src: Seq<u8>,
    chunks: Seq<Seq<u8>>,
)
    requires
        src + joined(chunks) == body + from_delimiter(boundary, sections, epilogue),
        readable_body(boundary, body),
        well_formed(boundary, sections),
        chunks.len() == 0 || no_inner_cr(boundary),
    ensures
        ({
            let run = decode_run(
                MultipartDecoderState::Data,
                boundary,
                src,
                chunks,
            );
            &&& run_complete(run)
            &&& frames_of_body(run.frames, body, sections)
        }),
    decreases chunks.len(), src.len(), 1nat,
{
    let here = MultipartDecoderState::Data;
    let whole = body + from_delimiter(boundary, sections, epilogue);
    let end = body.len() as int + 4 + boundary.len();
    assert(src =~= whole.take(src.len() as int));
    if chunks.len() == 0 {
        assert(src =~= whole);
    }
    let n = lemma_data_call(boundary, body, sections, epilogue, src.len() as int);
    let step = one_call(here, boundary, src);
    if n == 0 && src.len() < end + 2 {
        assert(step.rest =~= src);
        lemma_run_more(here, boundary, src, chunks);
        lemma_next_chunk(src, chunks);
        lemma_run_data(boundary, body, sections, epilogue, src + chunks[0], chunks.drop_first());
    } else if n == 0 {
        assert(body =~= Seq::empty());
        if sections.len() == 0 {
            lemma_run_end(here, boundary, src, chunks);
        } else {
            let rest = src.skip(end + 2);
            lemma_run_frame(here, boundary, src, chunks, FrameView::Boundary);
            lemma_skip(src, chunks, end + 2);
            lemma_after_boundary(boundary, sections, epilogue);
            lemma_well_formed_rest(boundary, sections);
            lemma_run_headers(
                boundary,
                sections[0].lines,
                sections[0].body,
                sections.drop_first(),
                epilogue,
                rest,
                chunks,
            );
            let after = decode_run(MultipartDecoderState::Headers, boundary, rest, chunks);
            let frames = seq![FrameView::Boundary] + after.frames;
            assert(frames[0] == FrameView::Boundary);
            assert(frames.drop_first() =~= after.frames);
        }
    } else {
        let data = body.take(n);
        let left = body.skip(n);
        assert(src.take(n) =~= data);
        lemma_run_frame(here, boundary, src, chunks, FrameView::Data(data));
        let after = decode_run(step.state, boundary, src.skip(n), chunks);
        lemma_data_in_front(data, after.frames);
        assert(data + left =~= body);
        if step.state == MultipartDecoderState::End {
            assert(one_call(step.state, boundary, src.skip(n)) == end_step()) by {
                reveal(one_call);
            }
            lemma_run_end(step.state, boundary, src.skip(n), chunks);
            assert(left =~= Seq::empty());
        } else {
            lemma_skip(src, chunks, n);
            assert(whole.skip(n) =~= left + from_delimiter(boundary, sections, epilogue));
            lemma_rest_of_body(boundary, body, n);
            lemma_run_data(boundary, left, sections, epilogue, src.skip(n), chunks);
        }
    }
}

/// What follows a boundary that opens a section.
proof fn lemma_after_boundary(
    boundary: Seq<u8>,
    sections: Seq<RawSection>,
    epilogue: Seq<u8>,
)
    requires
        sections.len() > 0,
    ensures
        ({
            let none = Seq::<u8>::empty();
            let end = 4 + boundary.len() as int;
            let section = lines_bytes(sections[0].lines) + crlf() + (sections[0].body
                + from_delimiter(boundary, sections.drop_first(), epilogue));
            &&& after_boundary(boundary, sections, epilogue) == crlf() + section
            &&& (none + from_delimiter(boundary, sections, epilogue)).skip(end + 2) == section
        }),
{
    let none = Seq::<u8>::empty();
    let stream = from_delimiter(boundary, sections, epilogue);
    let end = 4 + boundary.len() as int;
    let section = lines_bytes(sections[0].lines) + crlf() + (sections[0].body
        + from_delimiter(boundary, sections.drop_first(), epilogue));
    assert(none + stream =~= delimiter(boundary) + (crlf() + section));
    assert((none + stream).skip(end + 2) =~= section);
}

/// The frames of a run among the header lines of a section.
#[verifier::spinoff_prover]
proof fn lemma_run_headers(
    boundary: Seq<u8>,
    lines: Seq<Seq<u8>>,
    body: Seq<u8>,
    sections: Seq<RawSection>,
    epilogue: Seq<u8>,
    src: Seq<u8>,
    chunks: Seq<Seq<u8>>,
)
    requires
        src + joined(chunks) == lines_bytes(lines) + crlf() + (body + from_delimiter(
            boundary,
            sections,
            epilogue,
        )),
        forall|i: int| 0 <= i < lines.len() ==> readable_line(#[trigger] lines[i]),
        readable_body(boundary, body),
        well_formed(boundary, sections),
        chunks.len() == 0 || no_inner_cr(boundary),
    ensures
        ({
            let run = decode_run(
                MultipartDecoderState::Headers,
                boundary,
                src,
                chunks,
            );
            &&& run_complete(run)
            &&& frames_of_headers(run.frames, lines, body, sections)
        }),
    decreases chunks.len(), src.len(), 0nat,
{
    let b = boundary;
    let here = MultipartDecoderState::Headers;
    let after = body + from_delimiter(boundary, sections, epilogue);
    let whole = lines_bytes(lines) + crlf() + after;
    let len = src.len() as int;
    assert(src =~= whole.take(len));
    if chunks.len() == 0 {
        assert(src =~= whole);
    }
    let asks = if lines.len() == 0 {
        len < 2
    } else {
        len < (lines[0] + crlf()).len()
    };
    if lines.len() == 0 {
        assert(lines_bytes(lines) =~= Seq::empty());
        assert(whole =~= crlf() + after);
        lemma_blank_call(b, after, len);
    } else {
        lemma_headers_call(b, lines, after, len);
    }
    if asks {
        lemma_run_more(here, b, src, chunks);
        lemma_next_chunk(src, chunks);
        lemma_run_headers(
            boundary,
            lines,
            body,
            sections,
            epilogue,
            src + chunks[0],
            chunks.drop_first(),
        );
    } else if lines.len() == 0 {
        let rest = src.skip(2);
        lemma_run_same(here, src, MultipartDecoderState::Data, rest, b, chunks);
        lemma_skip(src, chunks, 2);
        assert(whole.skip(2) =~= after);
        lemma_run_data(boundary, body, sections, epilogue, rest, chunks);
    } else {
        let n = (lines[0] + crlf()).len() as int;
        let others = lines.drop_first();
        let frame = FrameView::Header(line_field(lines[0]).0, line_field(lines[0]).1);
        lemma_run_frame(here, b, src, chunks, frame);
        lemma_skip(src, chunks, n);
        assert forall|i: int| 0 <= i < others.len() implies readable_line(
            #[trigger] others[i],
        ) by {
            assert(others[i] == lines[i + 1]);
        }
        lemma_run_headers(boundary, others, body, sections, epilogue, src.skip(n), chunks);
        let later = decode_run(here, b, src.skip(n), chunks);
        let frames = seq![frame] + later.frames;
        assert(frames[0] == frame);
        assert(frames.drop_first() =~= later.frames);
    }
}

/// What comes before the first boundary, and that boundary with its two dashes.
pub open spec fn opening(boundary: Seq<u8>, preamble: Seq<u8>) -> Seq<u8> {
    preamble + dashes() + boundary
}

/// Where the boundary stands at this place before the first one, it is passed over, and
/// the two dashes of the first one are left: either there are not even two bytes
/// before it, or there are no dashes before it and no line break after it.
pub open spec fn is_passed_over(boundary: Seq<u8>, preamble: Seq<u8>, at: int) -> bool {
    let text = opening(boundary, preamble);
    let end = at + boundary.len();
    if at < 2 {
        at < preamble.len()
    } else {
        &&& end <= preamble.len()
        &&& text.subrange(at - 2, at) != dashes()
        &&& text.subrange(end, end + 2) != crlf()
    }
}

/// Bytes before the first boundary in which the boundary does not stand, or stands only
/// where it is passed over.
#[verifier::opaque]
pub open spec fn readable_preamble(boundary: Seq<u8>, preamble: Seq<u8>) -> bool {
    forall|at: int| #[trigger]
        occurs_at(opening(boundary, preamble), boundary, at) && at < preamble.len() + 2
            ==> is_passed_over(boundary, preamble, at)
}

/// What a call before the first boundary comes to, on a beginning of a stream, where
/// the boundary stands nowhere before it.
proof fn lemma_preamble_call(
    boundary: Seq<u8>,
    preamble: Seq<u8>,
    sections: Seq<RawSection>,
    epilogue: Seq<u8>,
    len: int,
)
    requires
        first_at(opening(boundary, preamble), boundary, preamble.len() as int + 2),
        0 <= len <= multipart_stream(boundary, preamble, sections, epilogue).len(),
    ensures
        ({
            let here = MultipartDecoderState::BeforeFirstBoundary;
            let src = multipart_stream(boundary, preamble, sections, epilogue).take(len);
            let end = preamble.len() as int + 2 + boundary.len();
            let call = one_call(here, boundary, src);
            &&& end + 2 <= multipart_stream(boundary, preamble, sections, epilogue).len()
            &&& len < end ==> call == (DecodeStep {
                outcome: DecodeOutcome::NeedMore,
                state: here,
                rest: src,
            })
            &&& end <= len < end + 2 && preamble.len() >= 2 ==> call == (DecodeStep {
                outcome: DecodeOutcome::NeedMore,
                state: here,
                rest: src.skip(preamble.len() - 2),
            })
            &&& end + 2 <= len ==> call == if sections.len() == 0 {
                end_step()
            } else {
                DecodeStep {
                    outcome: DecodeOutcome::Frame(FrameView::Boundary),
                    state: MultipartDecoderState::Headers,
                    rest: src.skip(end + 2),
                }
            }
        }),
{
    reveal(one_call);
    let tail = after_boundary(boundary, sections, epilogue);
    let text = opening(boundary, preamble);
    let whole = multipart_stream(boundary, preamble, sections, epilogue);
    let src = whole.take(len);
    let pos = preamble.len() as int + 2;
    let end = pos + boundary.len();
    lemma_first_after_append(text, boundary, pos, tail);
    lemma_first_in_prefix(whole, boundary, pos, len);
    if len >= end + 2 {
        let before_bytes = src.subrange(pos - 2, pos);
        let after_bytes = src.subrange(end, end + 2);
        assert(before_bytes =~= dashes()) by {
            assert(before_bytes =~= text.subrange(pos - 2, pos));
        }
        assert(after_bytes =~= tail.subrange(0, 2));
        if sections.len() == 0 {
            assert(tail.subrange(0, 2) =~= dashes());
        } else {
            assert(tail.subrange(0, 2) =~= crlf());
            assert(crlf()[0] == 13 && dashes()[0] == 45);
        }
    }
}

/// What a call before the first boundary comes to, on a beginning of a stream, where
/// the boundary stands before it and is passed over.
proof fn lemma_passed_over_call(
    boundary: Seq<u8>,
    preamble: Seq<u8>,
    tail: Seq<u8>,
    pos: int,
    len: int,
)
    requires
        first_at(opening(boundary, preamble), boundary, pos),
        boundary.len() > 0,
        pos < preamble.len() + 2,
        is_passed_over(boundary, preamble, pos),
        0 <= len <= (opening(boundary, preamble) + tail).len(),
    ensures
        ({
            let here = MultipartDecoderState::BeforeFirstBoundary;
            let src = (opening(boundary, preamble) + tail).take(len);
            let end = pos + boundary.len();
            let call = one_call(here, boundary, src);
            &&& len < end ==> call == (DecodeStep {
                outcome: DecodeOutcome::NeedMore,
                state: here,
                rest: src,
            })
            &&& end <= len && pos < 2 ==> call == one_call(here, boundary, src.skip(pos + 1))
            &&& end <= len < end + 2 && pos >= 4 ==> call == (DecodeStep {
                outcome: DecodeOutcome::NeedMore,
                state: here,
                rest: src.skip(pos - 4),
            })
            &&& end + 2 <= len && pos >= 2 ==> call == one_call(here, boundary, src.skip(end))
        }),
{
    reveal(one_call);
    let text = opening(boundary, preamble);
    let whole = text + tail;
    let src = whole.take(len);
    let end = pos + boundary.len();
    lemma_first_after_append(text, boundary, pos, tail);
    lemma_first_in_prefix(whole, boundary, pos, len);
    if end + 2 <= len && pos >= 2 {
        assert(src.subrange(pos - 2, pos) =~= text.subrange(pos - 2, pos));
        assert(src.subrange(end, end + 2) =~= text.subrange(end, end + 2));
    }
}

/// Where the boundary stands first, at its place or where it is passed over.
proof fn lemma_first_in_opening(boundary: Seq<u8>, preamble: Seq<u8>) -> (pos: int)
    requires
        readable_preamble(boundary, preamble),
    ensures
        first_at(opening(boundary, preamble), boundary, pos),
        boundary.len() > 0,
        0 <= pos <= preamble.len() + 2,
        pos == preamble.len() + 2 || is_passed_over(boundary, preamble, pos),
{
    reveal(readable_preamble);
    let text = opening(boundary, preamble);
    let place = preamble.len() as int + 2;
    assert(text.subrange(place, place + boundary.len()) =~= boundary);
    assert(occurs_at(text, boundary, place));
    lemma_first_exists(text, boundary, place);
    let pos = choose|i: int| first_at(text, boundary, i);
    assert(!(place < pos));
    if boundary.len() == 0 {
        let there = preamble.len() as int;
        let next = there + 1;
        assert(text.subrange(there, there) =~= boundary);
        assert(text.subrange(next, next) =~= boundary);
        assert(occurs_at(text, boundary, there));
        assert(occurs_at(text, boundary, next));
        assert(is_passed_over(boundary, preamble, there));
        assert(is_passed_over(boundary, preamble, next));
    }
    pos
}

/// What is left before the first boundary, once its first bytes are dropped.
#[verifier::spinoff_prover]
proof fn lemma_preamble_skip(
    boundary: Seq<u8>,
    preamble: Seq<u8>,
    sections: Seq<RawSection>,
    epilogue: Seq<u8>,
    n: int,
)
    requires
        readable_preamble(boundary, preamble),
        0 <= n <= preamble.len(),
    ensures
        readable_preamble(boundary, preamble.skip(n)),
        opening(boundary, preamble.skip(n)) == opening(boundary, preamble).skip(n),
        multipart_stream(boundary, preamble, sections, epilogue).skip(n) == multipart_stream(
            boundary,
            preamble.skip(n),
            sections,
            epilogue,
        ),
{
    let left = preamble.skip(n);
    let text = opening(boundary, preamble);
    let rest = opening(boundary, left);
    let _ = lemma_first_in_opening(boundary, preamble);
    assert(rest =~= text.skip(n));
    assert(multipart_stream(boundary, preamble, sections, epilogue).skip(n) =~= multipart_stream(
        boundary,
        left,
        sections,
        epilogue,
    ));
    reveal(readable_preamble);
    assert forall|at: int| #[trigger]
        occurs_at(rest, boundary, at) && at < left.len() + 2 implies is_passed_over(
        boundary,
        left,
        at,
    ) by {
        let there = at + n;
        let end = there + boundary.len();
        lemma_occurs_before_skip(text, boundary, at, n);
        assert(is_passed_over(boundary, preamble, there));
        if at >= 2 {
            assert(text.subrange(there - 2, there) =~= rest.subrange(at - 2, at));
            assert(text.subrange(end, end + 2) =~= rest.subrange(end - n, end - n + 2));
        }
    }
}

/// What stands in a text without its first bytes stands in the text.
proof fn lemma_occurs_before_skip(text: Seq<u8>, word: Seq<u8>, at: int, n: int)
    requires
        0 <= n <= text.len(),
        occurs_at(text.skip(n), word, at),
    ensures
        occurs_at(text, word, at + n),
{
    assert(text.subrange(at + n, at + n + word.len()) =~= text.skip(n).subrange(
        at,
        at + word.len(),
    ));
}

/// No chunk ends where this place is reached and the two bytes after it are not all
/// there. So many bytes have come before the chunks.
pub open spec fn clear_of(len: int, chunks: Seq<Seq<u8>>, end: int) -> bool
    decreases chunks.len(),
{
    chunks.len() == 0 || (!(end <= len < end + 2) && clear_of(
        len + chunks[0].len(),
        chunks.drop_first(),
        end,
    ))
}

/// No chunk ends right after a boundary that stands up to the place of the first one, or
/// one byte later, but for a boundary before which the boundary does not stand and
/// which has four bytes or more before it.
#[verifier::opaque]
pub open spec fn readable_cuts(
    boundary: Seq<u8>,
    preamble: Seq<u8>,
    len: int,
    chunks: Seq<Seq<u8>>,
) -> bool {
    forall|at: int| #[trigger]
        occurs_at(opening(boundary, preamble), boundary, at) && at <= preamble.len() + 2 ==> {
            ||| clear_of(len, chunks, at + boundary.len())
            ||| at >= 4 && first_at(opening(boundary, preamble), boundary, at)
        }
}

/// A stream whose chunks do not keep it from being read: it comes in one, or no byte
/// of the boundary but the last is a carriage return and no chunk ends too early to tell
/// what to do with a boundary that stands up to the place of the first one.
pub open spec fn readable_chunks(
    boundary: Seq<u8>,
    preamble: Seq<u8>,
    chunks: Seq<Seq<u8>>,
) -> bool {
    chunks.len() <= 1 || (no_inner_cr(boundary) && readable_cuts(boundary, preamble, 0, chunks))
}

/// Bytes in which the boundary does not stand, nor across their end, can come before the
/// first one.
pub proof fn lemma_readable_preamble(boundary: Seq<u8>, preamble: Seq<u8>)
    requires
        first_at(opening(boundary, preamble), boundary, preamble.len() as int + 2),
    ensures
        readable_preamble(boundary, preamble),
{
    reveal(readable_preamble);
}

/// Where the boundary stands nowhere before the first one, a stream can come in any
/// chunks if two bytes or more come before the first boundary, and else in chunks none
/// of which ends right after that boundary or one byte later.
pub proof fn law_readable_chunks(boundary: Seq<u8>, preamble: Seq<u8>, chunks: Seq<Seq<u8>>)
    requires
        first_at(opening(boundary, preamble), boundary, preamble.len() as int + 2),
        no_inner_cr(boundary),
        preamble.len() >= 2 || clear_of(
            0,
            chunks,
            preamble.len() as int + 2 + boundary.len(),
        ),
    ensures
        readable_chunks(boundary, preamble, chunks),
{
    reveal(readable_cuts);
    let text = opening(boundary, preamble);
    assert forall|at: int| #[trigger]
        occurs_at(text, boundary, at) && at <= preamble.len() + 2 implies at == preamble.len()
        + 2 by {}
}

/// The chunks as they were, seen from a later place.
proof fn lemma_clear_shift(len: int, chunks: Seq<Seq<u8>>, end: int, n: int)
    requires
        clear_of(len, chunks, end),
    ensures
        clear_of(len - n, chunks, end - n),
    decreases chunks.len(),
{
    if chunks.len() > 0 {
        lemma_clear_shift(len + chunks[0].len(), chunks.drop_first(), end, n);
    }
}

/// The cuts stay readable as the next chunk comes.
proof fn lemma_cuts_next(
    boundary: Seq<u8>,
    preamble: Seq<u8>,
    len: int,
    chunks: Seq<Seq<u8>>,
)
    requires
        readable_cuts(boundary, preamble, len, chunks),
        chunks.len() > 0,
    ensures
        readable_cuts(boundary, preamble, len + chunks[0].len(), chunks.drop_first()),
{
    reveal(readable_cuts);
}

/// The cuts stay readable as bytes before the first boundary are dropped, up to four
/// bytes before the place where the boundary stands first, or over that place.
proof fn lemma_cuts_skip(
    boundary: Seq<u8>,
    preamble: Seq<u8>,
    len: int,
    chunks: Seq<Seq<u8>>,
    pos: int,
    n: int,
)
    requires
        readable_cuts(boundary, preamble, len, chunks),
        first_at(opening(boundary, preamble), boundary, pos),
        0 <= n <= preamble.len(),
        n <= pos - 4 || pos < n,
    ensures
        readable_cuts(boundary, preamble.skip(n), len - n, chunks),
{
    reveal(readable_cuts);
    let text = opening(boundary, preamble);
    let left = preamble.skip(n);
    let rest = opening(boundary, left);
    assert(rest =~= text.skip(n));
    assert forall|at: int| #[trigger]
        occurs_at(rest, boundary, at) && at <= left.len() + 2 implies {
        ||| clear_of(len - n, chunks, at + boundary.len())
        ||| at >= 4 && first_at(rest, boundary, at)
    } by {
        let there = at + n;
        lemma_occurs_before_skip(text, boundary, at, n);
        if clear_of(len, chunks, there + boundary.len()) {
            lemma_clear_shift(len, chunks, there + boundary.len(), n);
        } else {
            assert(first_at(text, boundary, there));
            assert(there == pos);
            lemma_first_after_skip(text, boundary, pos, n);
        }
    }
}

/// A chunk that ends right after the boundary that stands first, or one byte later,
/// leaves four bytes before it.
proof fn lemma_cut_after_first(
    boundary: Seq<u8>,
    preamble: Seq<u8>,
    len: int,
    chunks: Seq<Seq<u8>>,
    pos: int,
)
    requires
        readable_cuts(boundary, preamble, len, chunks),
        first_at(opening(boundary, preamble), boundary, pos),
        pos <= preamble.len() + 2,
        pos + boundary.len() <= len < pos + boundary.len() + 2,
        chunks.len() > 0,
    ensures
        pos >= 4,
{
    reveal(readable_cuts);
    assert(occurs_at(opening(boundary, preamble), boundary, pos));
}

/// The frames of a run from the start of a stream.
#[verifier::spinoff_prover]
proof fn lemma_run_stream(
    boundary: Seq<u8>,
    preamble: Seq<u8>,
    sections: Seq<RawSection>,
    epilogue: Seq<u8>,
    src: Seq<u8>,
    chunks: Seq<Seq<u8>>,
)
    requires
        src + joined(chunks) == multipart_stream(boundary, preamble, sections, epilogue),
        readable_preamble(boundary, preamble),
        well_formed(boundary, sections),
        chunks.len() == 0 || (src.len() == 0 && chunks.len() == 1) || (no_inner_cr(boundary)
            && readable_cuts(boundary, preamble, src.len() as int, chunks)),
    ensures
        ({
            let run = decode_run(
                MultipartDecoderState::BeforeFirstBoundary,
                boundary,
                src,
                chunks,
            );
            &&& run_complete(run)
            &&& frames_of_sections(run.frames, sections)
        }),
    decreases chunks.len(), src.len(), 0nat,
{
    let here = MultipartDecoderState::BeforeFirstBoundary;
    let whole = multipart_stream(boundary, preamble, sections, epilogue);
    let tail = after_boundary(boundary, sections, epilogue);
    let len = src.len() as int;
    let pos = lemma_first_in_opening(boundary, preamble);
    let place = preamble.len() as int + 2;
    let end = pos + boundary.len();
    let cuts = readable_cuts(boundary, preamble, len, chunks);
    assert(src =~= whole.take(len));
    assert(tail.len() >= 2);
    assert(whole =~= opening(boundary, preamble) + tail);
    if chunks.len() == 0 {
        assert(src =~= whole);
    }
    if pos == place {
        lemma_preamble_call(boundary, preamble, sections, epilogue, len);
    } else {
        lemma_passed_over_call(boundary, preamble, tail, pos, len);
    }
    if len < end {
        lemma_run_more(here, boundary, src, chunks);
        lemma_next_chunk(src, chunks);
        if cuts {
            lemma_cuts_next(boundary, preamble, len, chunks);
        }
        lemma_run_stream(
            boundary,
            preamble,
            sections,
            epilogue,
            src + chunks[0],
            chunks.drop_first(),
        );
    } else if pos != place && pos < 2 {
        lemma_run_passed_over(boundary, preamble, sections, epilogue, src, chunks, pos, pos + 1);
    } else if len < end + 2 {
        let n = pos - 4;
        lemma_cut_after_first(boundary, preamble, len, chunks, pos);
        let rest = src.skip(n);
        lemma_run_more(here, boundary, src, chunks);
        lemma_skip(src, chunks, n);
        lemma_preamble_skip(boundary, preamble, sections, epilogue, n);
        lemma_cuts_skip(boundary, preamble, len, chunks, pos, n);
        lemma_cuts_next(boundary, preamble.skip(n), len - n, chunks);
        lemma_next_chunk(rest, chunks);
        lemma_run_stream(
            boundary,
            preamble.skip(n),
            sections,
            epilogue,
            rest + chunks[0],
            chunks.drop_first(),
        );
    } else if pos != place {
        lemma_run_passed_over(boundary, preamble, sections, epilogue, src, chunks, pos, end);
    } else if sections.len() == 0 {
        lemma_run_end(here, boundary, src, chunks);
    } else {
        let rest = src.skip(end + 2);
        lemma_run_frame(here, boundary, src, chunks, FrameView::Boundary);
        lemma_skip(src, chunks, end + 2);
        lemma_after_boundary(boundary, sections, epilogue);
        let section = lines_bytes(sections[0].lines) + crlf() + (sections[0].body
            + from_delimiter(boundary, sections.drop_first(), epilogue));
        assert(whole.skip(end + 2) =~= section);
        lemma_well_formed_rest(boundary, sections);
        lemma_run_headers(
            boundary,
            sections[0].lines,
            sections[0].body,
            sections.drop_first(),
            epilogue,
            rest,
            chunks,
        );
        let after = decode_run(MultipartDecoderState::Headers, boundary, rest, chunks);
        let frames = seq![FrameView::Boundary] + after.frames;
        assert(frames[0] == FrameView::Boundary);
        assert(frames.drop_first() =~= after.frames);
    }
}

/// The frames of a run from the start of a stream, where the boundary that stands first
/// is passed over and the bytes up to here are dropped.
proof fn lemma_run_passed_over(
    boundary: Seq<u8>,
    preamble: Seq<u8>,
    sections: Seq<RawSection>,
    epilogue: Seq<u8>,
    src: Seq<u8>,
    chunks: Seq<Seq<u8>>,
    pos: int,
    n: int,
)
    requires
        src + joined(chunks) == multipart_stream(boundary, preamble, sections, epilogue),
        readable_preamble(boundary, preamble),
        well_formed(boundary, sections),
        chunks.len() == 0 || (no_inner_cr(boundary) && readable_cuts(
            boundary,
            preamble,
            src.len() as int,
            chunks,
        )),
        first_at(opening(boundary, preamble), boundary, pos),
        0 <= pos < n <= preamble.len(),
        n <= src.len(),
        one_call(MultipartDecoderState::BeforeFirstBoundary, boundary, src) == one_call(
            MultipartDecoderState::BeforeFirstBoundary,
            boundary,
            src.skip(n),
        ),
    ensures
        ({
            let run = decode_run(
                MultipartDecoderState::BeforeFirstBoundary,
                boundary,
                src,
                chunks,
            );
            &&& run_complete(run)
            &&& frames_of_sections(run.frames, sections)
        }),
    decreases chunks.len(), src.len() - n, 1nat,
{
    let here = MultipartDecoderState::BeforeFirstBoundary;
    let rest = src.skip(n);
    lemma_run_same(here, src, here, rest, boundary, chunks);
    lemma_skip(src, chunks, n);
    lemma_preamble_skip(boundary, preamble, sections, epilogue, n);
    if chunks.len() > 0 {
        lemma_cuts_skip(boundary, preamble, src.len() as int, chunks, pos, n);
    }
    lemma_run_stream(boundary, preamble.skip(n), sections, epilogue, rest, chunks);
}

/// No part of a body among the frames is without bytes.
spec fn no_empty_data(frames: Seq<FrameView>) -> bool {
    forall|i: int|
        0 <= i < frames.len() ==> (#[trigger] frames[i] matches FrameView::Data(data) ==> data.len()
            > 0)
}

/// The frames after the first have no part of a body without bytes either.
proof fn lemma_no_empty_rest(frames: Seq<FrameView>)
    requires
        no_empty_data(frames),
        frames.len() > 0,
    ensures
        no_empty_data(frames.drop_first()),
{
    let rest = frames.drop_first();
    assert forall|i: int| 0 <= i < rest.len() implies (#[trigger] rest[i] matches FrameView::Data(
        data,
    ) ==> data.len() > 0) by {
        assert(rest[i] == frames[i + 1]);
    }
}

/// The parts of a body that frames start with, joined.
proof fn lemma_joined_body(frames: Seq<FrameView>, body: Seq<u8>, sections: Seq<RawSection>)
    requires
        frames_of_body(frames, body, sections),
        no_empty_data(frames),
    ensures
        data_joined(frames) == body_frames(body) + stream_frames(sections),
    decreases sections.len(), 2nat, frames.len(),
{
    let later = stream_frames(sections);
    if frames.len() > 0 && frames[0] is Data {
        let data = frames[0]->Data_0;
        let rest = frames.drop_first();
        let left = leading_data(rest);
        lemma_no_empty_rest(frames);
        lemma_joined_body(rest, left, sections);
        assert(data.len() > 0);
        if left.len() == 0 {
            assert(data + left =~= data);
            assert(data_joined(rest) =~= later);
            assert(data_joined(frames) =~= body_frames(body) + later);
        } else {
            assert(data_joined(rest)[0] == FrameView::Data(left));
            assert(data_joined(frames) =~= body_frames(body) + later);
        }
    } else {
        lemma_joined_sections(frames, sections);
        assert(body_frames(body) + later =~= later);
    }
}

/// The frames of header lines and of what follows them, joined.
proof fn lemma_joined_headers(
    frames: Seq<FrameView>,
    lines: Seq<Seq<u8>>,
    body: Seq<u8>,
    sections: Seq<RawSection>,
)
    requires
        frames_of_headers(frames, lines, body, sections),
        no_empty_data(frames),
    ensures
        data_joined(frames) == line_frames(lines) + (body_frames(body) + stream_frames(sections)),
    decreases sections.len(), 3nat, frames.len(),
{
    let later = body_frames(body) + stream_frames(sections);
    if lines.len() == 0 {
        lemma_joined_body(frames, body, sections);
        assert(line_frames(lines) + later =~= later);
    } else {
        lemma_no_empty_rest(frames);
        lemma_joined_headers(frames.drop_first(), lines.drop_first(), body, sections);
        assert(line_frames(lines) =~= seq![frames[0]] + line_frames(lines.drop_first()));
        assert(data_joined(frames) =~= line_frames(lines) + later);
    }
}

/// The frames of sections, joined.
proof fn lemma_joined_sections(frames: Seq<FrameView>, sections: Seq<RawSection>)
    requires
        frames_of_sections(frames, sections),
        no_empty_data(frames),
    ensures
        data_joined(frames) == stream_frames(sections),
    decreases sections.len(), 1nat, frames.len(),
{
    if sections.len() > 0 {
        lemma_no_empty_rest(frames);
        lemma_joined_headers(
            frames.drop_first(),
            sections[0].lines,
            sections[0].body,
            sections.drop_first(),
        );
        assert(data_joined(frames) =~= stream_frames(sections));
    }
}

/// Decoding a stream gives the frames of the sections that it is made of, and comes
/// to its end with nothing left over, for every way of cutting it into chunks that
/// does not keep it from being read. A header line may stand in the stream in any
/// spelling that can be read.
pub proof fn law_stream_is_framed(
    boundary: Seq<u8>,
    preamble: Seq<u8>,
    sections: Seq<RawSection>,
    epilogue: Seq<u8>,
    chunks: Seq<Seq<u8>>,
)
    requires
        joined(chunks) == multipart_stream(boundary, preamble, sections, epilogue),
        readable_preamble(boundary, preamble),
        well_formed(boundary, sections),
        readable_chunks(boundary, preamble, chunks),
    ensures
        ({
            let run = decode_run(
                MultipartDecoderState::BeforeFirstBoundary,
                boundary,
                Seq::empty(),
                chunks,
            );
            &&& run_complete(run)
            &&& frames_of_sections(run.frames, sections)
            &&& data_joined(run.frames) == stream_frames(sections)
        }),
{
    let none = Seq::<u8>::empty();
    let start = MultipartDecoderState::BeforeFirstBoundary;
    assert(none + joined(chunks) =~= joined(chunks));
    lemma_run_stream(boundary, preamble, sections, epilogue, none, chunks);
    law_frames_of_a_run(start, boundary, none, chunks);
    lemma_joined_sections(decode_run(start, boundary, none, chunks).frames, sections);
}

/// How a stream is cut into chunks makes no difference: with adjacent parts of a body
/// joined, its frames are the same for every cut that does not keep it from being
/// read, and so the same as for one chunk.
pub proof fn law_cut_makes_no_difference(
    boundary: Seq<u8>,
    preamble: Seq<u8>,
    sections: Seq<RawSection>,
    epilogue: Seq<u8>,
    chunks: Seq<Seq<u8>>,
    others: Seq<Seq<u8>>,
)
    requires
        joined(chunks) == multipart_stream(boundary, preamble, sections, epilogue),
        joined(others) == joined(chunks),
        readable_preamble(boundary, preamble),
        well_formed(boundary, sections),
        readable_chunks(boundary, preamble, chunks),
        readable_chunks(boundary, preamble, others),
    ensures
        ({
            let start = MultipartDecoderState::BeforeFirstBoundary;
            let run = decode_run(start, boundary, Seq::empty(), chunks);
            let other = decode_run(start, boundary, Seq::empty(), others);
            data_joined(run.frames) == data_joined(other.frames)
        }),
{
    law_stream_is_framed(boundary, preamble, sections, epilogue, chunks);
    law_stream_is_framed(boundary, preamble, sections, epilogue, others);
}

} // verus!
