//! Single calls of the decoder, stated on the bytes of the source.

use vstd::prelude::*;
use vstd::utf8::{encode_utf8, encode_utf8_decode_utf8, encode_utf8_valid_utf8, valid_utf8};

use crate::decoder::{
    crlf, dashes, decodable, decode_step, header_line, is_outcome, DecodeOutcome, DecodeStep,
    DecoderView, FrameView, HeaderLine, MultipartDecoderState, MultipartFrame,
};
use crate::decoder_laws::lemma_last_byte_bound;
use crate::error::Error;
use crate::plain_text::law_inner_piece_is_trimmed;
use crate::search::{
    first_at, first_occurrence, last_byte_or_zero, lemma_first_byte_is, lemma_first_byte_is_none,
    lemma_first_is, lemma_first_is_none, occurs_at,
};
use crate::text::{is_white_space, trimmed, wrong_sequence_len, Utf8Failure};
use crate::text_laws::{lemma_encode_ascii_pair, lemma_encode_concat, lemma_encode_lacks};

verus! {

/// A header line is a name and a value: the name is all that stands before the first
/// colon, and the value all that stands after it, without the white space around. There
/// may be white space after the colon or none.
pub proof fn law_header_line_is_name_and_value(
    name: Seq<char>,
    before: Seq<char>,
    value: Seq<char>,
    after: Seq<char>,
)
    requires
        forall|k: int| 0 <= k < name.len() ==> name[k] != ':',
        forall|k: int| 0 <= k < before.len() ==> is_white_space(#[trigger] before[k]),
        forall|k: int| 0 <= k < after.len() ==> is_white_space(#[trigger] after[k]),
        value.len() > 0 ==> !is_white_space(value[0]) && !is_white_space(value.last()),
    ensures
        header_line(encode_utf8(name) + seq![58u8] + encode_utf8(before + value + after))
            == HeaderLine::Field(name, value),
{
    let text = before + value + after;
    lemma_header_line(name, text);
    law_inner_piece_is_trimmed(before, value, after);
}

/// A header line made of a name, a colon and a text.
proof fn lemma_header_line(name: Seq<char>, text: Seq<char>)
    requires
        forall|k: int| 0 <= k < name.len() ==> name[k] != ':',
    ensures
        header_line(encode_utf8(name) + seq![58u8] + encode_utf8(text)) == HeaderLine::Field(
            name,
            trimmed(text),
        ),
{
    let first = encode_utf8(name);
    let second = encode_utf8(text);
    let line = first + seq![58u8] + second;
    let colon = first.len() as int;
    lemma_encode_lacks(name, ':');
    assert(line[colon] == 58);
    assert forall|j: int| 0 <= j < colon implies line[j] != 58 by {
        assert(line[j] == first[j]);
    }
    lemma_first_byte_is(line, 58, colon);
    assert(line.take(colon) =~= first);
    assert(line.skip(colon + 1) =~= second);
    encode_utf8_valid_utf8(name);
    encode_utf8_valid_utf8(text);
    encode_utf8_decode_utf8(name);
    encode_utf8_decode_utf8(text);
}

/// A header line whose name or value is not UTF-8 is refused for that, for the name first.
/// One without a colon is no field.
pub proof fn law_header_line_is_refused(name: Seq<u8>, value: Seq<u8>)
    requires
        forall|k: int| 0 <= k < name.len() ==> name[k] != 58,
    ensures
        header_line(name) == HeaderLine::NoColon,
        !valid_utf8(name) ==> header_line(name + seq![58u8] + value) == HeaderLine::NotUtf8(name),
        valid_utf8(name) && !valid_utf8(value) ==> header_line(name + seq![58u8] + value)
            == HeaderLine::NotUtf8(value),
        header_line(name + seq![58u8] + value) is Field <==> valid_utf8(name) && valid_utf8(value),
{
    let line = name + seq![58u8] + value;
    let colon = name.len() as int;
    lemma_first_byte_is_none(name, 58);
    assert(line[colon] == 58);
    assert forall|j: int| 0 <= j < colon implies line[j] != 58 by {
        assert(line[j] == name[j]);
    }
    lemma_first_byte_is(line, 58, colon);
    assert(line.take(colon) =~= name);
    assert(line.skip(colon + 1) =~= value);
}

/// Among the header lines, a line that has come to its line break is cut off, and is given
/// out as the field that it is, without the white space around its value.
#[verifier::spinoff_prover]
pub proof fn law_header_is_given_out(
    boundary: Seq<u8>,
    name: Seq<char>,
    before: Seq<char>,
    value: Seq<char>,
    after: Seq<char>,
    rest: Seq<u8>,
)
    requires
        forall|k: int| 0 <= k < name.len() ==> name[k] != ':',
        forall|k: int| 0 <= k < before.len() ==> is_white_space(#[trigger] before[k]),
        forall|k: int| 0 <= k < after.len() ==> is_white_space(#[trigger] after[k]),
        value.len() > 0 ==> !is_white_space(value[0]) && !is_white_space(value.last()),
        ({
            let line = encode_utf8(name) + seq![58u8] + encode_utf8(before + value + after);
            first_at(line + seq![13u8, 10u8] + rest, seq![13u8, 10u8], line.len() as int)
        }),
    ensures
        ({
            let line = encode_utf8(name) + seq![58u8] + encode_utf8(before + value + after);
            let step = decode_step(
                MultipartDecoderState::Headers,
                boundary,
                line + seq![13u8, 10u8] + rest,
            );
            &&& step.outcome == DecodeOutcome::Frame(FrameView::Header(name, value))
            &&& step.state == MultipartDecoderState::Headers
            &&& step.rest == rest
        }),
{
    let text = before + value + after;
    let line = encode_utf8(name) + seq![58u8] + encode_utf8(text);
    let longer = after + seq!['\r', '\n'];
    assert forall|k: int| 0 <= k < longer.len() implies is_white_space(#[trigger] longer[k]) by {
        if k < after.len() {
            assert(longer[k] == after[k]);
        }
    }
    law_header_line_is_name_and_value(name, before, value, longer);
    lemma_encode_concat(text, seq!['\r', '\n']);
    lemma_encode_ascii_pair('\r', '\n');
    assert(before + value + longer =~= text + seq!['\r', '\n']);
    assert(encode_utf8(name) + seq![58u8] + encode_utf8(before + value + longer) =~= line + seq![
        13u8,
        10u8,
    ]);
    lemma_line_is_cut_off(boundary, line, rest);
}

/// Among the header lines, a line that has come to its line break is cut off with it.
proof fn lemma_line_is_cut_off(boundary: Seq<u8>, line: Seq<u8>, rest: Seq<u8>)
    requires
        line.len() > 0,
        first_at(line + seq![13u8, 10u8] + rest, seq![13u8, 10u8], line.len() as int),
    ensures
        ({
            let src = line + seq![13u8, 10u8] + rest;
            let here = MultipartDecoderState::Headers;
            decode_step(here, boundary, src) == match header_line(line + seq![13u8, 10u8]) {
                HeaderLine::Field(name, value) => DecodeStep {
                    outcome: DecodeOutcome::Frame(FrameView::Header(name, value)),
                    state: here,
                    rest,
                },
                HeaderLine::NotUtf8(bytes) => DecodeStep {
                    outcome: DecodeOutcome::NotUtf8(bytes),
                    state: here,
                    rest,
                },
                HeaderLine::NoColon => DecodeStep {
                    outcome: DecodeOutcome::Stuck,
                    state: here,
                    rest: src,
                },
            }
        }),
{
    let src = line + seq![13u8, 10u8] + rest;
    let end = line.len() as int;
    lemma_first_is(src, seq![13u8, 10u8], end);
    assert(src.take(end + 2) =~= line + seq![13u8, 10u8]);
    assert(src.skip(end + 2) =~= rest);
}

/// Among the header lines, a line that is not UTF-8 on one side of its first colon is cut
/// off and reported, with the bytes on that side, its line break among those of a value.
/// A line without a colon stops the decoder.
pub proof fn law_bad_header_is_reported(
    boundary: Seq<u8>,
    name: Seq<u8>,
    value: Seq<u8>,
    rest: Seq<u8>,
)
    requires
        forall|k: int| 0 <= k < name.len() ==> name[k] != 58,
        first_at(
            name + seq![58u8] + value + seq![13u8, 10u8] + rest,
            seq![13u8, 10u8],
            name.len() as int + 1 + value.len(),
        ),
    ensures
        ({
            let src = name + seq![58u8] + value + seq![13u8, 10u8] + rest;
            let step = decode_step(MultipartDecoderState::Headers, boundary, src);
            let ended = value + seq![13u8, 10u8];
            &&& !valid_utf8(name) ==> step.outcome == DecodeOutcome::NotUtf8(name)
            &&& valid_utf8(name) && !valid_utf8(ended) ==> step.outcome == DecodeOutcome::NotUtf8(
                ended,
            )
            &&& step.outcome is Frame <==> valid_utf8(name) && valid_utf8(ended)
            &&& step.state == MultipartDecoderState::Headers
            &&& step.rest == rest
        }),
{
    let line = name + seq![58u8] + value;
    let ended = value + seq![13u8, 10u8];
    assert(name + seq![58u8] + ended =~= line + seq![13u8, 10u8]);
    law_header_line_is_refused(name, ended);
    lemma_line_is_cut_off(boundary, line, rest);
}

/// A line among the headers that has no colon stops the decoder.
pub proof fn law_line_without_colon_stops(boundary: Seq<u8>, line: Seq<u8>, rest: Seq<u8>)
    requires
        line.len() > 0,
        forall|k: int| 0 <= k < line.len() ==> line[k] != 58,
        first_at(line + seq![13u8, 10u8] + rest, seq![13u8, 10u8], line.len() as int),
    ensures
        decode_step(
            MultipartDecoderState::Headers,
            boundary,
            line + seq![13u8, 10u8] + rest,
        ) == (DecodeStep {
            outcome: DecodeOutcome::Stuck,
            state: MultipartDecoderState::Headers,
            rest: line + seq![13u8, 10u8] + rest,
        }),
{
    let ended = line + seq![13u8, 10u8];
    assert forall|k: int| 0 <= k < ended.len() implies ended[k] != 58 by {
        if k < line.len() {
            assert(ended[k] == line[k]);
        }
    }
    law_header_line_is_refused(ended, Seq::empty());
    lemma_line_is_cut_off(boundary, line, rest);
}

/// Among the header lines, more is asked for until a line break is there, and nothing is
/// dropped. An empty line is dropped, and the body starts after it.
pub proof fn law_header_lines_come_whole(boundary: Seq<u8>, src: Seq<u8>)
    ensures
        (forall|j: int| !occurs_at(src, seq![13u8, 10u8], j)) ==> decode_step(
            MultipartDecoderState::Headers,
            boundary,
            src,
        ) == (DecodeStep {
            outcome: DecodeOutcome::NeedMore,
            state: MultipartDecoderState::Headers,
            rest: src,
        }),
        decode_step(MultipartDecoderState::Headers, boundary, seq![13u8, 10u8] + src)
            == decode_step(MultipartDecoderState::Data, boundary, src),
{
    let pair = seq![13u8, 10u8];
    if forall|j: int| !occurs_at(src, pair, j) {
        lemma_first_is_none(src, pair);
    }
    let whole = pair + src;
    assert(whole.subrange(0, 2) =~= pair);
    assert(first_at(whole, pair, 0));
    lemma_first_is(whole, pair, 0);
    assert(whole.skip(2) =~= src);
}

/// After the end of the stream everything is dropped, and nothing more comes.
pub proof fn law_after_the_end(boundary: Seq<u8>, src: Seq<u8>)
    ensures
        ({
            let step = decode_step(MultipartDecoderState::End, boundary, src);
            &&& step.outcome is NeedMore
            &&& step.state == MultipartDecoderState::End
            &&& step.rest.len() == 0
        }),
{
}

/// In a body, a line break, two dashes and the boundary end it. What stands before them is
/// given out first, all of it. Then, where two dashes follow, the stream has ended, and
/// otherwise a section is opened after the two bytes that follow.
#[verifier::spinoff_prover]
pub proof fn law_delimiter_ends_the_body(
    boundary: Seq<u8>,
    body: Seq<u8>,
    follow: Seq<u8>,
    more: Seq<u8>,
)
    requires
        boundary.len() > 0,
        follow.len() == 2,
        first_at(
            body + seq![13u8, 10u8, 45u8, 45u8] + boundary + follow + more,
            boundary,
            body.len() as int + 4,
        ),
    ensures
        ({
            let src = body + seq![13u8, 10u8, 45u8, 45u8] + boundary + follow + more;
            let step = decode_step(MultipartDecoderState::Data, boundary, src);
            let last = follow[0] == 45 && follow[1] == 45;
            &&& body.len() > 0 ==> {
                &&& step.outcome == DecodeOutcome::Frame(FrameView::Data(body))
                &&& step.rest == seq![13u8, 10u8, 45u8, 45u8] + boundary + follow + more
                &&& last ==> step.state == MultipartDecoderState::End
                &&& !last ==> step.state == MultipartDecoderState::Data
            }
            &&& body.len() == 0 && last ==> {
                &&& step.outcome is NeedMore
                &&& step.rest.len() == 0
                &&& step.state == MultipartDecoderState::End
            }
            &&& body.len() == 0 && !last ==> {
                &&& step.outcome == DecodeOutcome::Frame(FrameView::Boundary)
                &&& step.rest == more
                &&& step.state == MultipartDecoderState::Headers
            }
        }),
{
    let src = body + seq![13u8, 10u8, 45u8, 45u8] + boundary + follow + more;
    let pos = body.len() as int + 4;
    let end = pos + boundary.len();
    lemma_first_is(src, boundary, pos);
    assert(src.subrange(pos - 4, pos) =~= seq![13u8, 10u8, 45u8, 45u8]);
    assert(crlf() + dashes() =~= seq![13u8, 10u8, 45u8, 45u8]);
    assert(src.subrange(end, end + 2) =~= follow);
    assert(follow =~= seq![follow[0], follow[1]]);
    if follow[0] != 45 || follow[1] != 45 {
        assert(dashes()[0] == 45 && dashes()[1] == 45);
    }
    assert(src.take(pos - 4) =~= body);
    assert(src.skip(pos - 4) =~= seq![13u8, 10u8, 45u8, 45u8] + boundary + follow + more);
    assert(src.skip(end + 2) =~= more);
}

/// In a body, the boundary after four bytes or more that are not a line break and two
/// dashes is part of the body, up to its end, unless a line break follows it. Then it opens
/// a section, and the four bytes before it are no part of the body.
#[verifier::spinoff_prover]
pub proof fn law_boundary_without_delimiter(
    boundary: Seq<u8>,
    before: Seq<u8>,
    follow: Seq<u8>,
    more: Seq<u8>,
)
    requires
        boundary.len() > 0,
        follow.len() == 2,
        before.len() >= 4,
        before.skip(before.len() - 4) != seq![13u8, 10u8, 45u8, 45u8],
        first_at(before + boundary + follow + more, boundary, before.len() as int),
    ensures
        ({
            let src = before + boundary + follow + more;
            let step = decode_step(MultipartDecoderState::Data, boundary, src);
            let broken = follow[0] == 13 && follow[1] == 10;
            let n = before.len() - 4;
            &&& !broken ==> {
                &&& step.outcome == DecodeOutcome::Frame(FrameView::Data(before + boundary))
                &&& step.rest == follow + more
                &&& step.state == MultipartDecoderState::Data
            }
            &&& broken && n > 0 ==> {
                &&& step.outcome == DecodeOutcome::Frame(FrameView::Data(before.take(n)))
                &&& step.rest == before.skip(n) + boundary + follow + more
                &&& step.state == MultipartDecoderState::Data
            }
            &&& broken && n == 0 ==> {
                &&& step.outcome == DecodeOutcome::Frame(FrameView::Boundary)
                &&& step.rest == more
                &&& step.state == MultipartDecoderState::Headers
            }
        }),
{
    let src = before + boundary + follow + more;
    let pos = before.len() as int;
    let n = pos - 4;
    let end = pos + boundary.len();
    lemma_first_is(src, boundary, pos);
    assert(src.subrange(n, pos) =~= before.skip(n));
    assert(crlf() + dashes() =~= seq![13u8, 10u8, 45u8, 45u8]);
    assert(src.subrange(end, end + 2) =~= follow);
    assert(follow =~= seq![follow[0], follow[1]]);
    if follow[0] != 13 || follow[1] != 10 {
        assert(crlf()[0] == 13 && crlf()[1] == 10);
    }
    assert(src.take(n) =~= before.take(n));
    assert(src.skip(n) =~= before.skip(n) + boundary + follow + more);
    assert(src.take(end) =~= before + boundary);
    assert(src.skip(end) =~= follow + more);
    assert(src.skip(end + 2) =~= more);
}

/// In a body, the boundary after fewer than four bytes is no delimiter: these bytes and the
/// first byte of the boundary are given out.
#[verifier::spinoff_prover]
pub proof fn law_boundary_near_the_start(boundary: Seq<u8>, before: Seq<u8>, more: Seq<u8>)
    requires
        boundary.len() > 0,
        before.len() < 4,
        first_at(before + boundary + more, boundary, before.len() as int),
    ensures
        ({
            let step = decode_step(
                MultipartDecoderState::Data,
                boundary,
                before + boundary + more,
            );
            &&& step.outcome == DecodeOutcome::Frame(FrameView::Data(before.push(boundary[0])))
            &&& step.rest == boundary.skip(1) + more
            &&& step.state == MultipartDecoderState::Data
        }),
{
    let src = before + boundary + more;
    let pos = before.len() as int;
    lemma_first_is(src, boundary, pos);
    lemma_pieces(before, boundary, more);
    lemma_near_call(boundary, src, pos);
}

/// The pieces of a text with a word in it.
proof fn lemma_pieces(before: Seq<u8>, word: Seq<u8>, more: Seq<u8>)
    requires
        word.len() > 0,
    ensures
        ({
            let text = before + word + more;
            let pos = before.len() as int;
            &&& text.take(pos + 1) == before.push(word[0])
            &&& text.skip(pos + 1) == word.skip(1) + more
            &&& pos >= 4 ==> text.skip(pos - 4) == before.skip(pos - 4) + word + more
        }),
{
    let text = before + word + more;
    let pos = before.len() as int;
    assert(text.take(pos + 1) =~= before.push(word[0]));
    assert(text.skip(pos + 1) =~= word.skip(1) + more);
    if pos >= 4 {
        assert(text.skip(pos - 4) =~= before.skip(pos - 4) + word + more);
    }
}

/// A call in a body where the boundary stands first after fewer than four bytes.
proof fn lemma_near_call(boundary: Seq<u8>, src: Seq<u8>, pos: int)
    requires
        first_occurrence(src, boundary) == Some(pos),
        0 <= pos < 4,
        pos < src.len(),
    ensures
        decode_step(MultipartDecoderState::Data, boundary, src) == (DecodeStep {
            outcome: DecodeOutcome::Frame(FrameView::Data(src.take(pos + 1))),
            state: MultipartDecoderState::Data,
            rest: src.skip(pos + 1),
        }),
{
}

/// A call before the first boundary where a boundary is too near to the start, or where
/// the two bytes after it are not there.
proof fn lemma_early_call(boundary: Seq<u8>, src: Seq<u8>, pos: int)
    requires
        first_occurrence(src, boundary) == Some(pos),
        0 <= pos < src.len(),
    ensures
        ({
            let here = MultipartDecoderState::BeforeFirstBoundary;
            let step = decode_step(here, boundary, src);
            let cut = src.len() < pos + boundary.len() + 2;
            &&& pos < 2 ==> step == decode_step(here, boundary, src.skip(pos + 1))
            &&& pos >= 4 && cut ==> step == (DecodeStep {
                outcome: DecodeOutcome::NeedMore,
                state: here,
                rest: src.skip(pos - 4),
            })
            &&& 2 <= pos < 4 && cut ==> step == (DecodeStep {
                outcome: DecodeOutcome::Stuck,
                state: here,
                rest: src,
            })
        }),
{
}

/// In a body, the boundary after four bytes or more that the two bytes after it have not
/// followed yet is kept, with the four bytes before it. What stands before those is given
/// out.
#[verifier::spinoff_prover]
pub proof fn law_boundary_cut_in_the_body(boundary: Seq<u8>, before: Seq<u8>, follow: Seq<u8>)
    requires
        boundary.len() > 0,
        before.len() >= 4,
        follow.len() < 2,
        first_at(before + boundary + follow, boundary, before.len() as int),
    ensures
        ({
            let n = before.len() - 4;
            let step = decode_step(
                MultipartDecoderState::Data,
                boundary,
                before + boundary + follow,
            );
            &&& n == 0 ==> step.outcome is NeedMore
            &&& n > 0 ==> step.outcome == DecodeOutcome::Frame(FrameView::Data(before.take(n)))
            &&& step.rest == before.skip(n) + boundary + follow
            &&& step.state == MultipartDecoderState::Data
        }),
{
    let src = before + boundary + follow;
    let pos = before.len() as int;
    lemma_first_is(src, boundary, pos);
    assert(src.take(pos - 4) =~= before.take(pos - 4));
    assert(src.skip(pos - 4) =~= before.skip(pos - 4) + boundary + follow);
}

/// In a body in which no boundary stands, some bytes are given out and the others kept.
/// Those that are kept have no carriage return but at their start, and are no more than a
/// line break, two dashes and the boundary can be; as many are given out as that allows.
pub proof fn law_body_without_boundary(boundary: Seq<u8>, src: Seq<u8>) -> (n: int)
    requires
        forall|j: int| !occurs_at(src, boundary, j),
    ensures
        0 <= n <= src.len(),
        forall|i: int| n < i < src.len() ==> src[i] != 13,
        src.len() - n <= boundary.len() + 4,
        n == 0 || src.len() - n == boundary.len() + 4 || src[n] == 13,
        ({
            let step = decode_step(MultipartDecoderState::Data, boundary, src);
            &&& n == 0 ==> step.outcome is NeedMore
            &&& n > 0 ==> step.outcome == DecodeOutcome::Frame(FrameView::Data(src.take(n)))
            &&& step.rest == src.skip(n)
            &&& step.state == MultipartDecoderState::Data
        }),
{
    lemma_first_is_none(src, boundary);
    let last = lemma_last_return(src);
    let kept = src.len() - (boundary.len() + 4);
    if kept > last {
        kept
    } else {
        last
    }
}

/// The last carriage return, or the start where there is none.
proof fn lemma_last_return(src: Seq<u8>) -> (last: int)
    ensures
        last == last_byte_or_zero(src, 13),
        0 <= last,
        last == 0 || last < src.len() && src[last] == 13,
        forall|i: int| last < i < src.len() ==> src[i] != 13,
    decreases src.len(),
{
    lemma_last_byte_bound(src, 13);
    if src.len() > 0 && src.last() != 13 {
        let front = src.drop_last();
        let last = lemma_last_return(front);
        assert forall|i: int| last < i < src.len() implies src[i] != 13 by {
            if i < front.len() {
                assert(src[i] == front[i]);
            }
        }
        last
    } else if src.len() > 0 {
        src.len() - 1
    } else {
        0
    }
}

/// Before the first boundary, a boundary after two dashes ends the stream where two dashes
/// follow it. After two dashes, or where a line break follows it, it opens the first
/// section, after the two bytes that follow. Any other is passed over, with all before it.
#[verifier::spinoff_prover]
pub proof fn law_first_boundary(
    boundary: Seq<u8>,
    before: Seq<u8>,
    follow: Seq<u8>,
    more: Seq<u8>,
)
    requires
        boundary.len() > 0,
        before.len() >= 2,
        follow.len() == 2,
        first_at(before + boundary + follow + more, boundary, before.len() as int),
    ensures
        ({
            let here = MultipartDecoderState::BeforeFirstBoundary;
            let step = decode_step(here, boundary, before + boundary + follow + more);
            let dashed = before[before.len() - 2] == 45 && before[before.len() - 1] == 45;
            let last = follow[0] == 45 && follow[1] == 45;
            let broken = follow[0] == 13 && follow[1] == 10;
            &&& dashed && last ==> {
                &&& step.outcome is NeedMore
                &&& step.rest.len() == 0
                &&& step.state == MultipartDecoderState::End
            }
            &&& (dashed && !last) || broken ==> {
                &&& step.outcome == DecodeOutcome::Frame(FrameView::Boundary)
                &&& step.rest == more
                &&& step.state == MultipartDecoderState::Headers
            }
            &&& !dashed && !broken ==> step == decode_step(here, boundary, follow + more)
        }),
{
    let src = before + boundary + follow + more;
    let pos = before.len() as int;
    let end = pos + boundary.len();
    lemma_first_is(src, boundary, pos);
    let two = src.subrange(pos - 2, pos);
    let after = src.subrange(end, end + 2);
    assert(two =~= seq![before[pos - 2], before[pos - 1]]);
    assert(after =~= seq![follow[0], follow[1]]);
    assert(dashes()[0] == 45 && dashes()[1] == 45);
    assert(crlf()[0] == 13 && crlf()[1] == 10);
    assert((two == dashes()) == (before[pos - 2] == 45 && before[pos - 1] == 45)) by {
        if before[pos - 2] == 45 && before[pos - 1] == 45 {
            assert(two =~= dashes());
        }
    }
    assert((after == dashes()) == (follow[0] == 45 && follow[1] == 45)) by {
        if follow[0] == 45 && follow[1] == 45 {
            assert(after =~= dashes());
        }
    }
    assert((after == crlf()) == (follow[0] == 13 && follow[1] == 10)) by {
        if follow[0] == 13 && follow[1] == 10 {
            assert(after =~= crlf());
        }
    }
    assert(src.skip(end) =~= follow + more);
    assert(src.skip(end + 2) =~= more);
}

/// Before the first boundary, more is asked for where no boundary stands, and nothing is
/// dropped. A boundary after fewer than two bytes is passed over, up to its first byte.
/// One that the two bytes after it have not followed yet is kept with the four bytes before
/// it; where there are fewer than four, the decoder stops.
#[verifier::spinoff_prover]
pub proof fn law_before_the_first_boundary(boundary: Seq<u8>, before: Seq<u8>, follow: Seq<u8>)
    requires
        boundary.len() > 0,
    ensures
        ({
            let here = MultipartDecoderState::BeforeFirstBoundary;
            let src = before + boundary + follow;
            let step = decode_step(here, boundary, src);
            let first = first_at(src, boundary, before.len() as int);
            &&& (forall|j: int| !occurs_at(follow, boundary, j)) ==> decode_step(
                here,
                boundary,
                follow,
            ) == (DecodeStep { outcome: DecodeOutcome::NeedMore, state: here, rest: follow })
            &&& first && before.len() < 2 ==> step == decode_step(
                here,
                boundary,
                boundary.skip(1) + follow,
            )
            &&& first && before.len() >= 4 && follow.len() < 2 ==> step == (DecodeStep {
                outcome: DecodeOutcome::NeedMore,
                state: here,
                rest: before.skip(before.len() - 4) + boundary + follow,
            })
            &&& first && 2 <= before.len() < 4 && follow.len() < 2 ==> step == (DecodeStep {
                outcome: DecodeOutcome::Stuck,
                state: here,
                rest: src,
            })
        }),
{
    let src = before + boundary + follow;
    let pos = before.len() as int;
    if forall|j: int| !occurs_at(follow, boundary, j) {
        lemma_first_is_none(follow, boundary);
    }
    lemma_pieces(before, boundary, follow);
    if first_at(src, boundary, pos) {
        lemma_first_is(src, boundary, pos);
        lemma_early_call(boundary, src, pos);
    }
}

/// With an empty boundary no stream is read: before the first boundary everything is
/// dropped and the decoder stops, and in a body bytes are given out one at a time until
/// there are none and the decoder stops.
pub proof fn law_empty_boundary(src: Seq<u8>)
    ensures
        ({
            let none = Seq::<u8>::empty();
            let before = decode_step(MultipartDecoderState::BeforeFirstBoundary, none, src);
            let step = decode_step(MultipartDecoderState::Data, none, src);
            &&& before == (DecodeStep {
                outcome: DecodeOutcome::Stuck,
                state: MultipartDecoderState::BeforeFirstBoundary,
                rest: none,
            })
            &&& src.len() == 0 ==> step == (DecodeStep {
                outcome: DecodeOutcome::Stuck,
                state: MultipartDecoderState::Data,
                rest: src,
            })
            &&& src.len() > 0 ==> step == (DecodeStep {
                outcome: DecodeOutcome::Frame(FrameView::Data(src.take(1))),
                state: MultipartDecoderState::Data,
                rest: src.skip(1),
            })
        }),
    decreases src.len(),
{
    let none = Seq::<u8>::empty();
    assert(src.subrange(0, 0) =~= none);
    assert(first_at(src, none, 0));
    lemma_first_is(src, none, 0);
    if src.len() > 0 {
        law_empty_boundary(src.skip(1));
    } else {
        assert(src =~= none);
    }
}

/// What a call returns says what it comes to: a frame what the frame is, no frame that more
/// is needed, and an error in the encoding how many bytes of those reported are UTF-8.
pub proof fn law_results_say_the_outcome(
    frame: MultipartFrame,
    failure: Utf8Failure,
    outcome: DecodeOutcome,
)
    ensures
        is_outcome(Ok(None), outcome) <==> outcome == DecodeOutcome::NeedMore,
        is_outcome(Ok(Some(frame)), outcome) <==> outcome == DecodeOutcome::Frame(frame@),
        is_outcome(Err(Error::Encoding(failure)), outcome) <==> outcome is NotUtf8 && {
            let bytes = outcome->NotUtf8_0;
            let n = failure.valid_up_to as int;
            &&& 0 <= n <= bytes.len()
            &&& valid_utf8(bytes.take(n))
            &&& forall|m: int| n < m <= bytes.len() ==> !valid_utf8(#[trigger] bytes.take(m))
            &&& failure.error_len == wrong_sequence_len(bytes)
        },
        !is_outcome(Err(Error::BoundaryNotSpecified), outcome),
{
}

/// A call can be made wherever the decoder is not stopped and 1024 bytes more can be held.
pub proof fn law_calls_that_can_be_made(decoder: DecoderView, src: Seq<u8>)
    ensures
        decodable(decoder, src) <==> {
            &&& !(decode_step(decoder.state, decoder.boundary, src).outcome is Stuck)
            &&& src.len() + 1024 <= isize::MAX
        },
{
}

} // verus!
