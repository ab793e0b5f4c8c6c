//! What is written as a multipart stream is read back from it, however the stream
//! is cut into chunks on the way.

use vstd::prelude::*;
use vstd::utf8::{encode_utf8, encode_utf8_decode_utf8, encode_utf8_valid_utf8};

use crate::decoder::{crlf, dashes, FrameView, MultipartDecoderState};
use crate::header::{fields_of, groups_wf, lemma_group_index, with_added};
use crate::header_laws::{law_fields_make_the_map, lemma_all_added_concat, with_all_added};
use crate::reader::ProgressView;
use crate::reading::{
    body_run, body_total, law_bodies_are_of_the_frames, next_run, read_all, to_bytes_run,
};
use crate::search::{first_at, lemma_first_byte_is, occurs_at};
use crate::streams::{
    after_boundary, after_data, decode_run, delimiter, frames_of_body, frames_of_headers,
    frames_of_sections, from_delimiter, is_plain_data, joined, law_readable_chunks,
    law_run_gives_no_more, law_stream_is_framed, leading_data, lemma_readable_preamble,
    line_field, lines_bytes, multipart_stream, no_inner_cr, opening, readable_body,
    readable_chunks, readable_line, readable_preamble, run_complete, well_formed,
    well_formed_section, RawSection,
};
use crate::text::trimmed;
use crate::text_laws::{
    breaks_at, lemma_encode_ascii_pair, lemma_encode_char, lemma_encode_concat, lemma_encode_lacks,
    lemma_encode_one, lemma_first_break, lemma_trim_field_value,
};
use crate::writer::{field_line, field_lines, stream_bytes, SectionView};

verus! {

/// A header field that is read back as it was written: no colon in the name, no
/// line break in the line, no white space around the value.
pub open spec fn readable_field(field: (Seq<char>, Seq<char>)) -> bool {
    &&& forall|i: int| 0 <= i < field.0.len() ==> field.0[i] != ':'
    &&& forall|at: int| !breaks_at(field.0 + seq![':', ' '] + field.1, at)
    &&& trimmed(field.1) == field.1
}

/// A section that is read back as it was written.
pub open spec fn readable_section(boundary: Seq<u8>, section: SectionView) -> bool {
    &&& groups_wf(section.groups)
    &&& forall|i: int|
        0 <= i < fields_of(section.groups).len() ==> readable_field(
            #[trigger] fields_of(section.groups)[i],
        )
    &&& readable_body(boundary, section.body)
}

/// Sections that are read back as they were written.
pub open spec fn readable(boundary: Seq<u8>, sections: Seq<SectionView>) -> bool {
    forall|i: int| 0 <= i < sections.len() ==> readable_section(boundary, #[trigger] sections[i])
}

/// The line of a header field as it is written, without its line break.
pub open spec fn written_line(field: (Seq<char>, Seq<char>)) -> Seq<u8> {
    encode_utf8(field.0 + ": "@ + field.1)
}

/// A section as it is written to a stream.
pub open spec fn written_section(section: SectionView) -> RawSection {
    RawSection {
        lines: fields_of(section.groups).map_values(
            |field: (Seq<char>, Seq<char>)| written_line(field),
        ),
        body: section.body,
    }
}

/// Sections as they are written to a stream.
pub open spec fn written_sections(sections: Seq<SectionView>) -> Seq<RawSection> {
    sections.map_values(|section: SectionView| written_section(section))
}

/// A section of a stream as it is read: its fields make its headers.
pub open spec fn read_section(section: RawSection) -> SectionView {
    SectionView {
        groups: with_all_added(
            Seq::empty(),
            section.lines.map_values(|line: Seq<u8>| line_field(line)),
        ),
        body: section.body,
    }
}

/// Sections of a stream as they are read.
pub open spec fn read_sections(sections: Seq<RawSection>) -> Seq<SectionView> {
    sections.map_values(|section: RawSection| read_section(section))
}

/// The last section has a header line or a body that is not empty.
pub open spec fn last_stands_out(sections: Seq<RawSection>) -> bool {
    sections.len() > 0 ==> sections.last().lines.len() > 0 || sections.last().body.len() > 0
}

/// The last section has a header or a body that is not empty.
pub open spec fn last_is_seen(sections: Seq<SectionView>) -> bool {
    sections.len() > 0 ==> sections.last().groups.len() > 0 || sections.last().body.len() > 0
}

/// The header lines are the first line and then the others.
proof fn lemma_lines_front(fields: Seq<(Seq<char>, Seq<char>)>)
    requires
        fields.len() > 0,
    ensures
        field_lines(fields) == field_line(fields[0]) + field_lines(fields.drop_first()),
    decreases fields.len(),
{
    if fields.len() == 1 {
        assert(fields.drop_last() =~= Seq::empty());
        assert(fields.drop_first() =~= Seq::empty());
        assert(field_lines(fields) =~= field_line(fields[0]) + field_lines(fields.drop_first()));
    } else {
        lemma_lines_front(fields.drop_last());
        assert(fields.drop_last().drop_first() =~= fields.drop_first().drop_last());
        assert(fields.drop_first().last() == fields.last());
        assert(fields.drop_last()[0] == fields[0]);
        assert(field_lines(fields) =~= field_line(fields[0]) + field_lines(fields.drop_first()));
    }
}

/// The pieces of text that stand around a boundary, in bytes.
proof fn lemma_literals()
    ensures
        "\r\n"@ == seq!['\r', '\n'],
        ": "@ == seq![':', ' '],
        encode_utf8("\r\n"@) == crlf(),
        encode_utf8("\r\n--"@) == crlf() + dashes(),
        encode_utf8("--\r\n"@) == dashes() + crlf(),
{
    reveal_strlit("\r\n");
    reveal_strlit(": ");
    reveal_strlit("\r\n--");
    reveal_strlit("--\r\n");
    assert("\r\n"@ =~= seq!['\r', '\n']);
    assert(": "@ =~= seq![':', ' ']);
    assert("\r\n--"@ =~= seq!['\r', '\n'] + seq!['-', '-']);
    assert("--\r\n"@ =~= seq!['-', '-'] + seq!['\r', '\n']);
    lemma_encode_ascii_pair('\r', '\n');
    lemma_encode_ascii_pair('-', '-');
    lemma_encode_concat(seq!['\r', '\n'], seq!['-', '-']);
    lemma_encode_concat(seq!['-', '-'], seq!['\r', '\n']);
}

/// The header lines as they are written are those of the section in the stream.
proof fn lemma_written_lines(fields: Seq<(Seq<char>, Seq<char>)>)
    ensures
        encode_utf8(field_lines(fields)) == lines_bytes(
            fields.map_values(|field: (Seq<char>, Seq<char>)| written_line(field)),
        ),
    decreases fields.len(),
{
    let lines = fields.map_values(|field: (Seq<char>, Seq<char>)| written_line(field));
    if fields.len() == 0 {
        assert(encode_utf8(field_lines(fields)) =~= Seq::empty());
    } else {
        let others = fields.drop_first();
        lemma_literals();
        lemma_written_lines(others);
        lemma_lines_front(fields);
        lemma_encode_concat(field_line(fields[0]), field_lines(others));
        lemma_encode_concat(fields[0].0 + ": "@ + fields[0].1, "\r\n"@);
        assert(lines[0] == written_line(fields[0]));
        assert(lines.drop_first() =~= others.map_values(
            |field: (Seq<char>, Seq<char>)| written_line(field),
        ));
    }
}

/// What is written has one line break before the first boundary and one after the
/// last.
proof fn lemma_written_stream(boundary: Seq<char>, sections: Seq<SectionView>)
    ensures
        stream_bytes(boundary, sections) == from_delimiter(
            encode_utf8(boundary),
            written_sections(sections),
            crlf(),
        ),
    decreases sections.len(),
{
    lemma_literals();
    let b = encode_utf8(boundary);
    let open = "\r\n--"@;
    lemma_encode_concat(open, boundary);
    let raw = written_sections(sections);
    let after = after_boundary(b, raw, crlf());
    if sections.len() == 0 {
        lemma_encode_concat(open + boundary, "--\r\n"@);
        assert(stream_bytes(boundary, sections) =~= delimiter(b) + after);
    } else {
        let fields = fields_of(sections[0].groups);
        lemma_encode_concat(open + boundary, "\r\n"@);
        lemma_encode_concat(open + boundary + "\r\n"@, field_lines(fields));
        lemma_encode_concat(open + boundary + "\r\n"@ + field_lines(fields), "\r\n"@);
        lemma_written_lines(fields);
        lemma_written_stream(boundary, sections.drop_first());
        assert(raw[0] == written_section(sections[0]));
        assert(raw.drop_first() =~= written_sections(sections.drop_first()));
        assert(stream_bytes(boundary, sections) =~= delimiter(b) + after);
    }
}

/// A header line that is read back: where it ends, and what it says.
proof fn lemma_line(field: (Seq<char>, Seq<char>))
    requires
        readable_field(field),
    ensures
        readable_line(written_line(field)),
        line_field(written_line(field)) == field,
{
    lemma_literals();
    let text = field.0 + seq![':', ' '] + field.1;
    assert(field_line(field) =~= text + seq!['\r', '\n']);
    lemma_first_break(text);
    let line = encode_utf8(field_line(field));
    assert(line =~= written_line(field) + crlf());
    let name = encode_utf8(field.0);
    let value_text = seq![' '] + field.1 + seq!['\r', '\n'];
    let value = encode_utf8(value_text);
    assert(field_line(field) =~= field.0 + (seq![':'] + value_text));
    lemma_encode_concat(field.0, seq![':'] + value_text);
    lemma_encode_concat(seq![':'], value_text);
    lemma_encode_one(':');
    lemma_encode_char(':');
    lemma_encode_concat(seq![' '] + field.1, seq!['\r', '\n']);
    lemma_encode_ascii_pair('\r', '\n');
    assert(line =~= name + (seq![58u8] + value));
    lemma_encode_lacks(field.0, ':');
    let colon = name.len() as int;
    assert(line[colon] == 58);
    assert forall|j: int| 0 <= j < colon implies line[j] != 58 by {
        assert(line[j] == name[j]);
    }
    lemma_first_byte_is(line, 58, colon);
    assert(line.take(colon) =~= name);
    assert(line.skip(colon + 1) =~= value);
    encode_utf8_valid_utf8(field.0);
    encode_utf8_valid_utf8(value_text);
    encode_utf8_decode_utf8(field.0);
    encode_utf8_decode_utf8(value_text);
    lemma_trim_field_value(field.1);
}

/// A section that is read back as it was written can be read, and is.
proof fn lemma_section_read_back(boundary: Seq<u8>, section: SectionView)
    requires
        readable_section(boundary, section),
    ensures
        well_formed_section(boundary, written_section(section)),
        read_section(written_section(section)) == section,
        section.groups.len() > 0 ==> written_section(section).lines.len() > 0,
{
    let fields = fields_of(section.groups);
    let raw = written_section(section);
    assert forall|i: int| 0 <= i < raw.lines.len() implies readable_line(#[trigger] raw.lines[i])
        && line_field(raw.lines[i]) == fields[i] by {
        lemma_line(fields[i]);
    }
    assert(raw.lines.map_values(|line: Seq<u8>| line_field(line)) =~= fields);
    law_fields_make_the_map(section.groups);
    if fields.len() == 0 {
        assert(fields =~= Seq::empty());
    }
}

/// The rest of a body comes out of its frames.
proof fn lemma_read_body(
    raw_data: Seq<u8>,
    frames: Seq<FrameView>,
    body: Seq<u8>,
    sections: Seq<RawSection>,
)
    requires
        frames_of_body(frames, body, sections),
    ensures
        ({
            let run = body_run(raw_data, frames);
            &&& run.bytes == raw_data + body
            &&& run.frames.len() <= frames.len()
            &&& if sections.len() == 0 {
                run.buffer == FrameView::End && run.frames.len() == 0
            } else {
                &&& run.buffer == FrameView::Boundary
                &&& run.frames.len() < frames.len()
                &&& frames_of_headers(
                    run.frames,
                    sections[0].lines,
                    sections[0].body,
                    sections.drop_first(),
                )
            }
        }),
    decreases frames.len(),
{
    assert(raw_data + Seq::<u8>::empty() =~= raw_data);
    if frames.len() > 0 {
        if let FrameView::Data(data) = frames[0] {
            let later = leading_data(frames.drop_first());
            lemma_read_body(raw_data + data, frames.drop_first(), later, sections);
            assert((raw_data + data) + later =~= raw_data + (data + later));
        }
    }
}

/// The section after a boundary comes out of its frames.
proof fn lemma_read_section(
    groups: Seq<(Seq<char>, Seq<Seq<char>>)>,
    frames: Seq<FrameView>,
    lines: Seq<Seq<u8>>,
    body: Seq<u8>,
    sections: Seq<RawSection>,
)
    requires
        frames_of_headers(frames, lines, body, sections),
        groups.len() > 0 || lines.len() > 0 || body.len() > 0 || sections.len() > 0,
    ensures
        ({
            let found = next_run(FrameView::Boundary, ProgressView::Collecting(groups), frames);
            let run = to_bytes_run(found.buffer, found.frames);
            &&& found.section == Some(
                with_all_added(groups, lines.map_values(|line: Seq<u8>| line_field(line))),
            )
            &&& run.bytes == body
            &&& run.frames.len() <= frames.len()
            &&& if sections.len() == 0 {
                run.buffer == FrameView::End && run.frames.len() == 0
            } else {
                &&& run.buffer == FrameView::Boundary
                &&& run.frames.len() < frames.len()
                &&& frames_of_headers(
                    run.frames,
                    sections[0].lines,
                    sections[0].body,
                    sections.drop_first(),
                )
            }
        }),
    decreases frames.len(),
{
    let fields = lines.map_values(|line: Seq<u8>| line_field(line));
    if lines.len() > 0 {
        let others = fields.drop_first();
        assert(others =~= lines.drop_first().map_values(|line: Seq<u8>| line_field(line)));
        let more = with_added(groups, fields[0]);
        lemma_group_index(groups, fields[0].0);
        lemma_all_added_concat(groups, seq![fields[0]], others);
        assert(seq![fields[0]] + others =~= fields);
        assert(seq![fields[0]].drop_last() =~= Seq::empty());
        assert(with_all_added(groups, Seq::empty()) == groups);
        assert(with_all_added(groups, seq![fields[0]]) == more);
        lemma_read_section(more, frames.drop_first(), lines.drop_first(), body, sections);
    } else {
        let none = Seq::<u8>::empty();
        assert(fields =~= Seq::empty());
        assert(frames_of_body(frames, body, sections));
        assert(frames_of_sections(after_data(frames), sections));
        if frames.len() > 0 && frames[0] is Data {
            let data = frames[0]->Data_0;
            let later = leading_data(frames.drop_first());
            assert(frames_of_body(frames.drop_first(), later, sections));
            lemma_read_body(none + data, frames.drop_first(), later, sections);
            assert((none + data) + later =~= data + later);
        }
    }
}

/// The sections from a boundary on come out of their frames.
proof fn lemma_read_from_boundary(frames: Seq<FrameView>, sections: Seq<RawSection>)
    requires
        sections.len() > 0,
        frames_of_headers(
            frames,
            sections[0].lines,
            sections[0].body,
            sections.drop_first(),
        ),
        last_stands_out(sections),
    ensures
        read_all(FrameView::Boundary, frames) == read_sections(sections),
    decreases sections.len(),
{
    let others = sections.drop_first();
    let none = Seq::<(Seq<char>, Seq<Seq<char>>)>::empty();
    let section = sections[0];
    lemma_read_section(none, frames, section.lines, section.body, others);
    let found = next_run(FrameView::Boundary, ProgressView::Collecting(none), frames);
    let run = to_bytes_run(found.buffer, found.frames);
    if others.len() == 0 {
        assert(read_all(run.buffer, run.frames) =~= Seq::empty());
    } else {
        assert(others.last() == sections.last());
        lemma_read_from_boundary(run.frames, others);
    }
    assert(read_all(FrameView::Boundary, frames) =~= seq![read_section(section)] + read_sections(
        others,
    ));
    assert(seq![read_section(section)] + read_sections(others) =~= read_sections(sections));
}

/// Frames that give sections give them to a reader that has just been made.
proof fn lemma_read_sections(frames: Seq<FrameView>, sections: Seq<RawSection>)
    requires
        frames_of_sections(frames, sections),
        last_stands_out(sections),
    ensures
        read_all(FrameView::Data(Seq::empty()), frames) == read_sections(sections),
{
    let start = FrameView::Data(Seq::empty());
    if sections.len() == 0 {
        assert(read_all(start, frames) =~= read_sections(sections));
    } else {
        let rest = frames.drop_first();
        let groups = Seq::<(Seq<char>, Seq<Seq<char>>)>::empty();
        lemma_read_from_boundary(rest, sections);
        assert(next_run(start, ProgressView::Seeking, frames) == next_run(
            FrameView::Boundary,
            ProgressView::Collecting(groups),
            rest,
        ));
        lemma_read_section(
            groups,
            rest,
            sections[0].lines,
            sections[0].body,
            sections.drop_first(),
        );
        assert(read_all(start, frames) =~= read_all(FrameView::Boundary, rest));
    }
}

/// A multipart stream is read as the sections that it is made of, whatever comes
/// before the first boundary and after the last one: decoding it gives frames from
/// which `next` and `to_bytes` return these sections, with the fields of their header
/// lines and with their bodies, and nothing is left over. Wherever the boundary stands
/// before the first one it must be passed over, and wherever else it stands before its
/// place in a delimiter it must be taken for a part of a body. Every header line must be one
/// that can be read, in whatever spelling. The last section must have a header line or
/// a body that is not empty. It does not matter how the stream is cut into chunks, as
/// long as that does not keep it from being read.
pub proof fn law_stream_is_read(
    boundary: Seq<u8>,
    preamble: Seq<u8>,
    sections: Seq<RawSection>,
    epilogue: Seq<u8>,
    chunks: Seq<Seq<u8>>,
)
    requires
        joined(chunks) == multipart_stream(boundary, preamble, sections, epilogue),
        readable_preamble(boundary, preamble),
        well_formed(boundary, sections),
        last_stands_out(sections),
        readable_chunks(boundary, preamble, chunks),
    ensures
        ({
            let run = decode_run(
                MultipartDecoderState::BeforeFirstBoundary,
                boundary,
                Seq::empty(),
                chunks,
            );
            &&& run_complete(run)
            &&& read_all(FrameView::Data(Seq::empty()), run.frames) == read_sections(sections)
        }),
{
    law_stream_is_framed(boundary, preamble, sections, epilogue, chunks);
    let start = MultipartDecoderState::BeforeFirstBoundary;
    let run = decode_run(start, boundary, Seq::empty(), chunks);
    lemma_read_sections(run.frames, sections);
}

/// Sections that are read back as they were written can be read, and are.
proof fn lemma_sections_read_back(boundary: Seq<u8>, sections: Seq<SectionView>)
    requires
        readable(boundary, sections),
        last_is_seen(sections),
    ensures
        well_formed(boundary, written_sections(sections)),
        read_sections(written_sections(sections)) == sections,
        last_stands_out(written_sections(sections)),
{
    let raw = written_sections(sections);
    assert forall|i: int| 0 <= i < raw.len() implies well_formed_section(
        boundary,
        #[trigger] raw[i],
    ) && read_section(raw[i]) == sections[i] by {
        lemma_section_read_back(boundary, sections[i]);
    }
    assert(read_sections(raw) =~= sections);
    if sections.len() > 0 {
        lemma_section_read_back(boundary, sections.last());
        assert(raw.last() == written_section(sections.last()));
    }
}

/// A boundary that is told from the delimiter before it is told from the line break
/// that comes first in what is written.
proof fn lemma_written_preamble(boundary: Seq<u8>)
    requires
        readable_body(boundary, Seq::empty()),
    ensures
        first_at(opening(boundary, crlf()), boundary, 4),
{
    reveal(readable_body);
    let text = opening(boundary, crlf());
    let none = Seq::<u8>::empty();
    assert(none + delimiter(boundary) =~= text);
    assert(text.subrange(4, 4 + boundary.len() as int) =~= boundary);
    assert forall|at: int| at < 4 implies !occurs_at(text, boundary, at) by {
        if occurs_at(none + delimiter(boundary), boundary, at) {
            assert(is_plain_data(boundary, none, at));
        }
    }
}

/// What is written is read back: decoding the stream of the sections gives frames
/// from which `next` and `to_bytes` return the same sections, with the same headers
/// and the same bodies, and nothing is left over. Wherever the boundary stands before
/// its place in a delimiter, it must be taken for a part of a body, and every header
/// field must be one that can be read back. The last section must have a header or a
/// body that is not empty. It does not matter how the stream is cut into chunks, unless
/// it comes in more than one and a byte of the boundary before the last is a carriage
/// return.
pub proof fn law_what_is_written_is_read(
    boundary: Seq<char>,
    sections: Seq<SectionView>,
    chunks: Seq<Seq<u8>>,
)
    requires
        joined(chunks) == stream_bytes(boundary, sections),
        readable_body(encode_utf8(boundary), Seq::empty()),
        readable(encode_utf8(boundary), sections),
        last_is_seen(sections),
        chunks.len() <= 1 || no_inner_cr(encode_utf8(boundary)),
    ensures
        ({
            let run = decode_run(
                MultipartDecoderState::BeforeFirstBoundary,
                encode_utf8(boundary),
                Seq::empty(),
                chunks,
            );
            &&& run_complete(run)
            &&& read_all(FrameView::Data(Seq::empty()), run.frames) == sections
        }),
{
    let b = encode_utf8(boundary);
    let raw = written_sections(sections);
    lemma_written_stream(boundary, sections);
    assert(stream_bytes(boundary, sections) =~= multipart_stream(b, crlf(), raw, crlf()));
    lemma_sections_read_back(b, sections);
    lemma_written_preamble(b);
    lemma_readable_preamble(b, crlf());
    if no_inner_cr(b) {
        law_readable_chunks(b, crlf(), chunks);
    }
    law_stream_is_read(b, crlf(), raw, crlf(), chunks);
}

/// A limit on a stream is one for the stream as a whole: where at most so many bytes of
/// it come, the bodies of all its sections together have at most as many, whatever the
/// stream holds.
pub proof fn law_limit_is_for_the_whole_stream(
    boundary: Seq<u8>,
    chunks: Seq<Seq<u8>>,
    limit: nat,
)
    requires
        joined(chunks).len() <= limit,
    ensures
        ({
            let run = decode_run(
                MultipartDecoderState::BeforeFirstBoundary,
                boundary,
                Seq::empty(),
                chunks,
            );
            body_total(read_all(FrameView::Data(Seq::empty()), run.frames)) <= limit
        }),
{
    let start = MultipartDecoderState::BeforeFirstBoundary;
    law_run_gives_no_more(start, boundary, Seq::empty(), chunks);
    let run = decode_run(start, boundary, Seq::empty(), chunks);
    law_bodies_are_of_the_frames(FrameView::Data(Seq::empty()), run.frames);
}

} // verus!
