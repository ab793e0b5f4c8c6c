//! What is written, stated on the characters and the bytes, and headers as they are kept.

use vstd::prelude::*;
use vstd::utf8::encode_utf8;

use crate::header::{
    fields_of, group_fields, group_index, lemma_group_index, values_of, with_added, with_replaced,
};
use crate::text::same_ignoring_case;
use crate::text_laws::{lemma_encode_ascii_pair, lemma_encode_concat};
use crate::writer::{
    event_fits, field_lines, fitting, is_alphanumeric, poll_step, section_head,
    stream_bytes, stream_foot, ActionView, BodyState, SectionView, StateView, StreamEventView,
};
use crate::writing::lemma_never_empty;

verus! {

/// The literals of a stream, character by character.
proof fn lemma_pieces_of_text()
    ensures
        "\r\n"@ == seq!['\r', '\n'],
        ": "@ == seq![':', ' '],
        "\r\n--"@ == seq!['\r', '\n', '-', '-'],
        "--\r\n"@ == seq!['-', '-', '\r', '\n'],
{
    reveal_strlit("\r\n");
    reveal_strlit(": ");
    reveal_strlit("\r\n--");
    reveal_strlit("--\r\n");
    assert("\r\n"@ =~= seq!['\r', '\n']);
    assert(": "@ =~= seq![':', ' ']);
    assert("\r\n--"@ =~= seq!['\r', '\n', '-', '-']);
    assert("--\r\n"@ =~= seq!['-', '-', '\r', '\n']);
}

/// Characters of the literals of a stream, in bytes.
proof fn lemma_pieces_of_bytes()
    ensures
        encode_utf8(seq!['\r', '\n']) == seq![13u8, 10u8],
        encode_utf8(seq![':', ' ']) == seq![58u8, 32u8],
        encode_utf8(seq!['-', '-']) == seq![45u8, 45u8],
        encode_utf8(seq!['\r', '\n', '-', '-']) == seq![13u8, 10u8, 45u8, 45u8],
        encode_utf8(seq!['-', '-', '\r', '\n']) == seq![45u8, 45u8, 13u8, 10u8],
{
    lemma_encode_ascii_pair('\r', '\n');
    lemma_encode_ascii_pair(':', ' ');
    lemma_encode_ascii_pair('-', '-');
    lemma_encode_concat(seq!['\r', '\n'], seq!['-', '-']);
    lemma_encode_concat(seq!['-', '-'], seq!['\r', '\n']);
    assert(seq!['\r', '\n'] + seq!['-', '-'] =~= seq!['\r', '\n', '-', '-']);
    assert(seq!['-', '-'] + seq!['\r', '\n'] =~= seq!['-', '-', '\r', '\n']);
    assert(seq![13u8, 10u8] + seq![45u8, 45u8] =~= seq![13u8, 10u8, 45u8, 45u8]);
    assert(seq![45u8, 45u8] + seq![13u8, 10u8] =~= seq![45u8, 45u8, 13u8, 10u8]);
}

/// What stands before the content of a section without headers: a line break, two dashes
/// and the boundary, and two line breaks.
pub proof fn law_head_without_headers(boundary: Seq<char>)
    ensures
        section_head(boundary, Seq::empty()) == seq!['\r', '\n', '-', '-'] + boundary + seq![
            '\r',
            '\n',
            '\r',
            '\n',
        ],
{
    lemma_pieces_of_text();
    assert(section_head(boundary, Seq::empty()) =~= seq!['\r', '\n', '-', '-'] + boundary + seq![
        '\r',
        '\n',
        '\r',
        '\n',
    ]);
}

/// One header more puts a line more at the end of what stands before a content, before the
/// empty line: the name, a colon and a space, and the value, character for character, and a
/// line break.
pub proof fn law_head_with_one_more_header(
    boundary: Seq<char>,
    fields: Seq<(Seq<char>, Seq<char>)>,
    name: Seq<char>,
    value: Seq<char>,
)
    ensures
        section_head(boundary, fields).len() >= 2,
        section_head(boundary, fields.push((name, value))) == section_head(boundary, fields).take(
            section_head(boundary, fields).len() - 2,
        ) + name + seq![':', ' '] + value + seq!['\r', '\n', '\r', '\n'],
{
    lemma_pieces_of_text();
    let more = fields.push((name, value));
    let start = "\r\n--"@ + boundary + "\r\n"@ + field_lines(fields);
    assert(more.drop_last() =~= fields);
    assert(section_head(boundary, fields) =~= start + seq!['\r', '\n']);
    assert(section_head(boundary, fields).take(start.len() as int) =~= start);
    assert(section_head(boundary, more) =~= start + name + seq![':', ' '] + value + seq![
        '\r',
        '\n',
        '\r',
        '\n',
    ]);
}

/// What stands before a content, in bytes: the UTF-8 forms of the boundary, and of the name
/// and the value of each header, exactly, and between them the bytes of the line breaks, of
/// the dashes, and of the colon and the space.
pub proof fn law_head_in_bytes(
    boundary: Seq<char>,
    fields: Seq<(Seq<char>, Seq<char>)>,
    name: Seq<char>,
    value: Seq<char>,
) -> (start: Seq<u8>)
    ensures
        encode_utf8(section_head(boundary, Seq::empty())) == seq![13u8, 10u8, 45u8, 45u8]
            + encode_utf8(boundary) + seq![13u8, 10u8, 13u8, 10u8],
        encode_utf8(section_head(boundary, fields)) == start + seq![13u8, 10u8],
        encode_utf8(section_head(boundary, fields.push((name, value)))) == start + encode_utf8(name)
            + seq![58u8, 32u8] + encode_utf8(value) + seq![13u8, 10u8, 13u8, 10u8],
{
    lemma_pieces_of_text();
    lemma_pieces_of_bytes();
    law_head_without_headers(boundary);
    law_head_with_one_more_header(boundary, fields, name, value);
    let twice = seq!['\r', '\n', '\r', '\n'];
    lemma_encode_concat(seq!['\r', '\n'], seq!['\r', '\n']);
    assert(seq!['\r', '\n'] + seq!['\r', '\n'] =~= twice);
    assert(encode_utf8(twice) =~= seq![13u8, 10u8, 13u8, 10u8]);
    let dashed = seq!['\r', '\n', '-', '-'];
    lemma_encode_concat(dashed, boundary);
    lemma_encode_concat(dashed + boundary, twice);
    let head = section_head(boundary, fields);
    let front = head.take(head.len() - 2);
    assert(head =~= front + seq!['\r', '\n']) by {
        assert(head =~= "\r\n--"@ + boundary + "\r\n"@ + field_lines(fields) + seq!['\r', '\n']);
    }
    lemma_encode_concat(front, seq!['\r', '\n']);
    lemma_encode_concat(front, name);
    lemma_encode_concat(front + name, seq![':', ' ']);
    lemma_encode_concat(front + name + seq![':', ' '], value);
    lemma_encode_concat(front + name + seq![':', ' '] + value, twice);
    encode_utf8(front)
}

/// What stands after the last section, in bytes: a line break, two dashes, the UTF-8 form
/// of the boundary, two dashes, and a line break.
pub proof fn law_foot_in_bytes(boundary: Seq<char>)
    ensures
        encode_utf8(stream_foot(boundary)) == seq![13u8, 10u8, 45u8, 45u8] + encode_utf8(boundary)
            + seq![45u8, 45u8, 13u8, 10u8],
{
    lemma_pieces_of_text();
    lemma_pieces_of_bytes();
    lemma_encode_concat(seq!['\r', '\n', '-', '-'], boundary);
    lemma_encode_concat(seq!['\r', '\n', '-', '-'] + boundary, seq!['-', '-', '\r', '\n']);
}

/// A stream is its sections in order, each what stands before its content and then its
/// content, byte for byte, and then what stands after the last one.
pub proof fn law_stream_is_its_sections(
    boundary: Seq<char>,
    section: SectionView,
    sections: Seq<SectionView>,
)
    ensures
        stream_bytes(boundary, Seq::empty()) == seq![13u8, 10u8, 45u8, 45u8] + encode_utf8(boundary)
            + seq![45u8, 45u8, 13u8, 10u8],
        stream_bytes(boundary, seq![section] + sections) == encode_utf8(
            section_head(boundary, fields_of(section.groups)),
        ) + section.body + stream_bytes(boundary, sections),
{
    law_foot_in_bytes(boundary);
    let all = seq![section] + sections;
    assert(all[0] == section);
    assert(all.drop_first() =~= sections);
}

/// Where no section is being written, the next one is asked for. It is written from what
/// stands before its content. Where there are no more, what stands after the last one is
/// written, and nothing else after it.
pub proof fn law_writing_goes_from_section_to_section<C>(
    boundary: Seq<char>,
    groups: Seq<(Seq<char>, Seq<Seq<char>>)>,
    content: C,
    room: nat,
)
    requires
        room > 0,
    ensures
        ({
            let waiting = BodyState { boundary, state: StateView::<C>::Waiting };
            let head = encode_utf8(section_head(boundary, fields_of(groups)));
            let foot = encode_utf8(stream_foot(boundary));
            let (next, action) = poll_step(
                waiting,
                StreamEventView::Section(groups, content),
                room,
            );
            let (ended, last) = poll_step(waiting, StreamEventView::NoMoreSections, room);
            &&& poll_step(waiting, StreamEventView::Start, room) == (
                StateView::<C>::Waiting,
                ActionView::PollSections,
            )
            &&& action matches ActionView::Ready(bytes) && next matches StateView::Header(left, kept)
                && {
                &&& bytes + left == head
                &&& kept == content
                &&& 0 < bytes.len() <= room
                &&& bytes.len() == room || left.len() == 0
            }
            &&& last matches ActionView::Ready(bytes) && ended matches StateView::Footer(left) && {
                &&& bytes + left == foot
                &&& bytes.len() <= room
                &&& bytes.len() == room || left.len() == 0
            }
        }),
{
    let head = encode_utf8(section_head(boundary, fields_of(groups)));
    let foot = encode_utf8(stream_foot(boundary));
    lemma_never_empty(boundary, fields_of(groups));
    lemma_fitting(head, room);
    lemma_fitting(foot, room);
}

/// What fits, and what is left.
proof fn lemma_fitting(bytes: Seq<u8>, room: nat)
    ensures
        ({
            let front = fitting(bytes, room);
            let left = bytes.skip(front.len() as int);
            &&& front + left == bytes
            &&& front.len() <= room
            &&& front.len() == room || left.len() == 0
        }),
{
    let front = fitting(bytes, room);
    assert(front + bytes.skip(front.len() as int) =~= bytes);
}

/// What stands before a content is handed on as far as there is room, then the rest of it,
/// and then the content is asked for. Bytes of the content that were handed on are all of
/// that call. A content that has no more is followed by the next section. What stands after
/// the last section is handed on as far as there is room, and then nothing.
pub proof fn law_writing_goes_on<C>(boundary: Seq<char>, bytes: Seq<u8>, content: C, room: nat, n: nat)
    requires
        room > 0,
        bytes.len() > 0,
        n > 0,
    ensures
        ({
            let head = BodyState { boundary, state: StateView::Header(bytes, content) };
            let done = BodyState { boundary, state: StateView::Header(Seq::empty(), content) };
            let raw = BodyState { boundary, state: StateView::Raw(content) };
            let foot = BodyState { boundary, state: StateView::<C>::Footer(bytes) };
            let end = BodyState { boundary, state: StateView::<C>::Footer(Seq::empty()) };
            let (next, action) = poll_step(head, StreamEventView::Start, room);
            let (later, last) = poll_step(foot, StreamEventView::Start, room);
            &&& action matches ActionView::Ready(front) && next matches StateView::Header(left, kept)
                && {
                &&& front + left == bytes
                &&& kept == content
                &&& 0 < front.len() <= room
                &&& front.len() == room || left.len() == 0
            }
            &&& poll_step(done, StreamEventView::Start, room) == (
                StateView::Raw(content),
                ActionView::PollContent,
            )
            &&& poll_step(raw, StreamEventView::Start, room) == (
                StateView::Raw(content),
                ActionView::PollContent,
            )
            &&& poll_step(raw, StreamEventView::ContentRead(n), room) == (
                StateView::Raw(content),
                ActionView::Ready(Seq::empty()),
            )
            &&& poll_step(raw, StreamEventView::ContentRead(0), room) == (
                StateView::<C>::Waiting,
                ActionView::PollSections,
            )
            &&& last matches ActionView::Ready(front) && later matches StateView::Footer(left) && {
                &&& front + left == bytes
                &&& 0 < front.len() <= room
                &&& front.len() == room || left.len() == 0
            }
            &&& poll_step(end, StreamEventView::Start, room).1 == ActionView::Ready(Seq::empty())
        }),
{
    lemma_fitting(bytes, room);
    lemma_fitting(Seq::empty(), room);
    let none = Seq::<u8>::empty();
    assert(fitting(none, room) =~= none);
}

/// Without room nothing is handed on. What stands before a content is given up then, and
/// the content is asked for; what stands after the last section is kept. Sections and
/// contents are asked for as ever.
pub proof fn law_writing_without_room<C>(
    boundary: Seq<char>,
    bytes: Seq<u8>,
    groups: Seq<(Seq<char>, Seq<Seq<char>>)>,
    content: C,
    n: nat,
)
    requires
        n > 0,
    ensures
        ({
            let waiting = BodyState { boundary, state: StateView::<C>::Waiting };
            let head = BodyState { boundary, state: StateView::Header(bytes, content) };
            let raw = BodyState { boundary, state: StateView::Raw(content) };
            let foot = BodyState { boundary, state: StateView::<C>::Footer(bytes) };
            let asked = (StateView::Raw(content), ActionView::PollContent);
            &&& poll_step(waiting, StreamEventView::Start, 0) == (
                StateView::<C>::Waiting,
                ActionView::PollSections,
            )
            &&& poll_step(waiting, StreamEventView::Section(groups, content), 0) == asked
            &&& poll_step(waiting, StreamEventView::NoMoreSections, 0) == (
                StateView::<C>::Footer(encode_utf8(stream_foot(boundary))),
                ActionView::Ready(Seq::empty()),
            )
            &&& poll_step(head, StreamEventView::Start, 0) == asked
            &&& poll_step(raw, StreamEventView::Start, 0) == asked
            &&& poll_step(raw, StreamEventView::ContentRead(n), 0) == (
                StateView::Raw(content),
                ActionView::Ready(Seq::empty()),
            )
            &&& poll_step(raw, StreamEventView::ContentRead(0), 0) == (
                StateView::<C>::Waiting,
                ActionView::PollSections,
            )
            &&& poll_step(foot, StreamEventView::Start, 0) == (
                StateView::<C>::Footer(bytes),
                ActionView::Ready(Seq::empty()),
            )
        }),
{
    let foot = encode_utf8(stream_foot(boundary));
    lemma_fitting(bytes, 0);
    lemma_fitting(foot, 0);
    assert(fitting(bytes, 0) =~= Seq::empty());
    assert(fitting(foot, 0) =~= Seq::empty());
    assert(bytes.skip(0) =~= bytes);
    assert(foot.skip(0) =~= foot);
}

/// A section can come only where none is being written, and bytes of a content only where
/// one is. A body can be asked anew at any time.
pub proof fn law_events_that_can_come<C>(
    state: StateView<C>,
    groups: Seq<(Seq<char>, Seq<Seq<char>>)>,
    content: C,
    n: nat,
)
    ensures
        event_fits(state, StreamEventView::Start),
        event_fits(state, StreamEventView::Section(groups, content)) <==> state is Waiting,
        event_fits(state, StreamEventView::<C>::NoMoreSections) <==> state is Waiting,
        event_fits(state, StreamEventView::<C>::ContentRead(n)) <==> state is Raw,
{
}

/// An ASCII letter or digit, by its number.
pub proof fn law_alphanumeric_by_number(c: char)
    ensures
        is_alphanumeric(c) <==> 48 <= c as u32 <= 57 || 65 <= c as u32 <= 90 || 97 <= c as u32
            <= 122,
{
}

/// The fields of a header map are those of its names in order, each name with each of its
/// values in order.
pub proof fn law_fields_of_one_more_name(
    groups: Seq<(Seq<char>, Seq<Seq<char>>)>,
    name: Seq<char>,
    values: Seq<Seq<char>>,
    value: Seq<char>,
)
    ensures
        fields_of(Seq::empty()).len() == 0,
        fields_of(groups.push((name, Seq::empty()))) == fields_of(groups),
        fields_of(groups.push((name, values.push(value)))) == fields_of(
            groups.push((name, values)),
        ).push((name, value)),
{
    let none = groups.push((name, Seq::empty()));
    let some = groups.push((name, values));
    let more = groups.push((name, values.push(value)));
    assert(none.drop_last() =~= groups);
    assert(some.drop_last() =~= groups);
    assert(more.drop_last() =~= groups);
    assert(fields_of(none) =~= fields_of(groups));
    assert(group_fields((name, values.push(value))) =~= group_fields((name, values)).push(
        (name, value),
    ));
    assert(fields_of(more) =~= fields_of(some).push((name, value)));
}

/// The values under a name are those of the first group with the name, without regard to
/// case. Adding a value puts it behind them, and replacing them leaves it alone; the name
/// stays as it was first spelled, and every other group as it is.
pub proof fn law_values_are_those_of_the_first_group(
    groups: Seq<(Seq<char>, Seq<Seq<char>>)>,
    name: Seq<char>,
    value: Seq<char>,
    i: int,
)
    requires
        0 <= i < groups.len(),
        same_ignoring_case(groups[i].0, name),
        forall|j: int| 0 <= j < i ==> !same_ignoring_case((#[trigger] groups[j]).0, name),
    ensures
        values_of(groups, name) == groups[i].1,
        with_added(groups, (name, value)) == groups.update(
            i,
            (groups[i].0, groups[i].1.push(value)),
        ),
        with_replaced(groups, (name, value)) == groups.update(i, (groups[i].0, seq![value])),
{
    lemma_group_index(groups, name);
    match group_index(groups, name) {
        Some(k) => {
            assert(!(k < i)) by {
                if k < i {
                    assert(!same_ignoring_case(groups[k].0, name));
                }
            }
            assert(!(i < k)) by {
                if i < k {
                    assert(!same_ignoring_case(groups[i].0, name));
                }
            }
        },
        None => {
            assert(!same_ignoring_case(groups[i].0, name));
        },
    }
}

/// Where no group has the name, there are no values under it, and adding or replacing a
/// value puts the name with this value behind the groups.
pub proof fn law_values_of_a_new_name(
    groups: Seq<(Seq<char>, Seq<Seq<char>>)>,
    name: Seq<char>,
    value: Seq<char>,
)
    requires
        forall|j: int| 0 <= j < groups.len() ==> !same_ignoring_case((#[trigger] groups[j]).0, name),
    ensures
        values_of(groups, name).len() == 0,
        with_added(groups, (name, value)) == groups.push((name, seq![value])),
        with_replaced(groups, (name, value)) == groups.push((name, seq![value])),
{
    lemma_group_index(groups, name);
}

} // verus!
