//! Which boundaries can be told from what stands between them.

use vstd::prelude::*;
use vstd::utf8::encode_utf8;

use crate::decoder::{crlf, dashes, FrameView, MultipartDecoderState};
use crate::header::{fields_of, groups_wf};
use crate::reading::read_all;
use crate::round_trip::{last_is_seen, readable_field, readable_section};
use crate::search::{first_at, occurs_at};
use crate::streams::{
    clear_of, data_joined, decode_run, delimiter, is_plain_data, joined, law_readable_chunks,
    law_stream_is_framed, lemma_readable_preamble, multipart_stream, no_inner_cr, opening,
    readable_body, readable_line, run_complete, stream_frames, well_formed_section, RawSection,
};
use crate::text_laws::{lemma_encode_char, lemma_encode_lacks};
use crate::writer::{is_alphanumeric, stream_bytes, SectionView};
use crate::writing::{law_response_is_read, new_body, write_run, Ask};

verus! {

/// A boundary as one would choose it: without a carriage return, with no line feed
/// at its start, and not made of dashes alone.
pub open spec fn ordinary_boundary(boundary: Seq<u8>) -> bool {
    &&& exists|i: int| 0 <= i < boundary.len() && #[trigger] boundary[i] != 45
    &&& forall|i: int| 0 <= i < boundary.len() ==> boundary[i] != 13
    &&& boundary[0] != 10
}

/// A word does not occur where one of its bytes is not that of the text.
proof fn lemma_no_occurrence(text: Seq<u8>, word: Seq<u8>, at: int, k: int)
    requires
        0 <= k < word.len(),
        word[k] != text[at + k],
    ensures
        !occurs_at(text, word, at),
{
    if occurs_at(text, word, at) {
        assert(text.subrange(at, at + word.len())[k] == text[at + k]);
    }
}

/// Where a byte of the delimiter that follows a body stands.
proof fn lemma_delimiter_byte(boundary: Seq<u8>, body: Seq<u8>, k: int)
    requires
        0 <= k < 4 + boundary.len(),
    ensures
        (body + delimiter(boundary))[body.len() + k] == if k < 2 {
            crlf()[k]
        } else if k < 4 {
            45u8
        } else {
            boundary[k - 4]
        },
{
    let text = body + delimiter(boundary);
    assert(text[body.len() + k] == delimiter(boundary)[k]);
    if k < 4 {
        assert(delimiter(boundary)[k] == (crlf() + dashes())[k]);
    }
}

/// An ordinary boundary stands nowhere across the end of a body, nor in the bytes
/// before its place in a delimiter.
proof fn lemma_not_across(boundary: Seq<u8>, body: Seq<u8>, at: int)
    requires
        ordinary_boundary(boundary),
        body.len() - boundary.len() < at < body.len() + 4,
    ensures
        !occurs_at(body + delimiter(boundary), boundary, at),
{
    let text = body + delimiter(boundary);
    let n = body.len() as int;
    let k = if at <= n {
        n - at
    } else if at == n + 1 {
        0
    } else {
        lemma_first_not_dash(boundary)
    };
    lemma_delimiter_byte(boundary, body, at - n + k);
    lemma_no_occurrence(text, boundary, at, k);
}

/// The first byte of a boundary that is not a dash.
proof fn lemma_first_not_dash(boundary: Seq<u8>) -> (k: int)
    requires
        ordinary_boundary(boundary),
    ensures
        0 <= k < boundary.len(),
        boundary[k] != 45,
        forall|i: int| 0 <= i < k ==> boundary[i] == 45,
{
    let some = choose|i: int| 0 <= i < boundary.len() && #[trigger] boundary[i] != 45;
    lemma_first_not_dash_before(boundary, some)
}

/// The first byte of a boundary that is not a dash, where this one is not a dash.
proof fn lemma_first_not_dash_before(boundary: Seq<u8>, some: int) -> (k: int)
    requires
        0 <= some < boundary.len(),
        boundary[some] != 45,
    ensures
        0 <= k <= some,
        boundary[k] != 45,
        forall|i: int| 0 <= i < k ==> boundary[i] == 45,
    decreases some,
{
    if forall|i: int| 0 <= i < some ==> boundary[i] == 45 {
        some
    } else {
        let earlier = choose|i: int| 0 <= i < some && boundary[i] != 45;
        lemma_first_not_dash_before(boundary, earlier)
    }
}

/// With an ordinary boundary, every body in which it does not stand is read back as
/// it was written, and so is the empty body. The boundary has no carriage return,
/// so that it does not matter how a stream with it is cut into chunks.
pub proof fn law_ordinary_boundary(boundary: Seq<u8>, body: Seq<u8>)
    requires
        ordinary_boundary(boundary),
        forall|at: int| !occurs_at(body, boundary, at),
    ensures
        readable_body(boundary, body),
        readable_body(boundary, Seq::empty()),
        no_inner_cr(boundary),
{
    lemma_ordinary_body(boundary, body);
    let none = Seq::<u8>::empty();
    assert(forall|at: int| !occurs_at(none, boundary, at));
    lemma_ordinary_body(boundary, none);
}

/// A body in which an ordinary boundary does not stand is read back as it was
/// written.
proof fn lemma_ordinary_body(boundary: Seq<u8>, body: Seq<u8>)
    requires
        ordinary_boundary(boundary),
        forall|at: int| !occurs_at(body, boundary, at),
    ensures
        readable_body(boundary, body),
{
    reveal(readable_body);
    let text = body + delimiter(boundary);
    assert forall|at: int| #[trigger]
        occurs_at(text, boundary, at) && at < body.len() + 4 implies is_plain_data(
        boundary,
        body,
        at,
    ) by {
        if at + boundary.len() <= body.len() {
            assert(body.subrange(at, at + boundary.len()) =~= text.subrange(
                at,
                at + boundary.len(),
            ));
            assert(occurs_at(body, boundary, at));
        } else {
            lemma_not_across(boundary, body, at);
        }
    }
}

/// A boundary of ASCII letters and digits, such as a random one, is ordinary.
pub proof fn law_alphanumeric_boundary(boundary: Seq<char>)
    requires
        boundary.len() > 0,
        forall|i: int| 0 <= i < boundary.len() ==> is_alphanumeric(#[trigger] boundary[i]),
    ensures
        ordinary_boundary(encode_utf8(boundary)),
{
    let bytes = encode_utf8(boundary);
    lemma_encode_lacks(boundary, '\r');
    lemma_encode_lacks(boundary, '\n');
    lemma_encode_lacks(boundary, '-');
    lemma_encode_char(boundary[0]);
    assert(bytes.len() > 0);
    assert(bytes[0] != 45 && bytes[0] != 10);
}

/// What comes before the first boundary leaves it at the start of a line.
pub open spec fn ends_a_line(preamble: Seq<u8>) -> bool {
    preamble.len() == 0 || (preamble.len() >= 2 && preamble.skip(preamble.len() - 2) == crlf())
}

/// An ordinary boundary at the start of a line is told from what comes before it, if it
/// does not stand there.
pub proof fn law_ordinary_first_boundary(boundary: Seq<u8>, preamble: Seq<u8>)
    requires
        ordinary_boundary(boundary),
        ends_a_line(preamble),
        forall|at: int| !occurs_at(preamble, boundary, at),
    ensures
        first_at(opening(boundary, preamble), boundary, preamble.len() as int + 2),
{
    let whole = opening(boundary, preamble);
    let place = preamble.len() as int + 2;
    assert(whole.subrange(place, place + boundary.len()) =~= boundary);
    assert forall|at: int| at < place implies !occurs_at(whole, boundary, at) by {
        if preamble.len() == 0 {
            if at >= 0 {
                let k = lemma_first_not_dash(boundary);
                assert(whole[at + k] == 45);
                lemma_no_occurrence(whole, boundary, at, k);
            }
        } else {
            let text = preamble.take(preamble.len() - 2);
            assert(preamble =~= text + crlf());
            assert(whole =~= text + delimiter(boundary));
            if at + boundary.len() > text.len() {
                lemma_not_across(boundary, text, at);
            } else if occurs_at(whole, boundary, at) {
                assert(preamble.subrange(at, at + boundary.len()) =~= whole.subrange(
                    at,
                    at + boundary.len(),
                ));
                assert(occurs_at(preamble, boundary, at));
            }
        }
    }
}

/// A stream with an ordinary boundary that stands in none of the bodies, nor before the
/// place of the first one, gives the same frames for every way of cutting it into
/// chunks, with adjacent parts of a body joined: those of its sections, in order. Only
/// where it begins with the boundary, no chunk may end right after that or one byte
/// later.
pub proof fn law_ordinary_stream_is_framed(
    boundary: Seq<u8>,
    preamble: Seq<u8>,
    sections: Seq<RawSection>,
    epilogue: Seq<u8>,
    chunks: Seq<Seq<u8>>,
)
    requires
        ordinary_boundary(boundary),
        ends_a_line(preamble),
        forall|at: int| !occurs_at(preamble, boundary, at),
        forall|i: int, at: int|
            0 <= i < sections.len() ==> !#[trigger] occurs_at(sections[i].body, boundary, at),
        forall|i: int, j: int|
            0 <= i < sections.len() && 0 <= j < sections[i].lines.len() ==> readable_line(
                #[trigger] sections[i].lines[j],
            ),
        joined(chunks) == multipart_stream(boundary, preamble, sections, epilogue),
        preamble.len() > 0 || chunks.len() <= 1 || clear_of(0, chunks, 2 + boundary.len() as int),
    ensures
        ({
            let run = decode_run(
                MultipartDecoderState::BeforeFirstBoundary,
                boundary,
                Seq::empty(),
                chunks,
            );
            &&& run_complete(run)
            &&& data_joined(run.frames) == stream_frames(sections)
        }),
{
    law_ordinary_first_boundary(boundary, preamble);
    lemma_readable_preamble(boundary, preamble);
    if chunks.len() > 1 {
        law_readable_chunks(boundary, preamble, chunks);
    }
    assert forall|i: int| 0 <= i < sections.len() implies well_formed_section(
        boundary,
        #[trigger] sections[i],
    ) by {
        assert forall|at: int| !occurs_at(sections[i].body, boundary, at) by {}
        law_ordinary_boundary(boundary, sections[i].body);
    }
    law_stream_is_framed(boundary, preamble, sections, epilogue, chunks);
}

/// A response with an ordinary boundary that stands in none of the bodies is read
/// back as its sections, however it is asked for bytes, where every header field is
/// one that can be read back. The last section must have a header or a body that is
/// not empty.
pub proof fn law_ordinary_response_is_read(
    boundary: Seq<char>,
    sections: Seq<SectionView>,
    asks: Seq<Ask>,
)
    requires
        ordinary_boundary(encode_utf8(boundary)),
        forall|i: int, at: int|
            0 <= i < sections.len() ==> !#[trigger] occurs_at(
                sections[i].body,
                encode_utf8(boundary),
                at,
            ),
        forall|i: int|
            0 <= i < sections.len() ==> groups_wf((#[trigger] sections[i]).groups),
        forall|i: int, j: int|
            0 <= i < sections.len() && 0 <= j < fields_of(sections[i].groups).len()
                ==> readable_field(#[trigger] fields_of(sections[i].groups)[j]),
        last_is_seen(sections),
        forall|i: int| 0 <= i < asks.len() ==> (#[trigger] asks[i]).room > 0,
        asks.len() > stream_bytes(boundary, sections).len() + write_run(
            new_body(boundary),
            sections,
            asks,
        ).unanswered,
    ensures
        ({
            let run = decode_run(
                MultipartDecoderState::BeforeFirstBoundary,
                encode_utf8(boundary),
                Seq::empty(),
                write_run(new_body(boundary), sections, asks).chunks,
            );
            &&& run_complete(run)
            &&& read_all(FrameView::Data(Seq::empty()), run.frames) == sections
        }),
{
    let b = encode_utf8(boundary);
    let none = Seq::<u8>::empty();
    assert(forall|at: int| !occurs_at(none, b, at));
    law_ordinary_boundary(b, none);
    assert forall|i: int| 0 <= i < sections.len() implies readable_section(
        b,
        #[trigger] sections[i],
    ) by {
        assert forall|at: int| !occurs_at(sections[i].body, b, at) by {}
        law_ordinary_boundary(b, sections[i].body);
    }
    law_response_is_read(boundary, sections, asks);
}

} // verus!
