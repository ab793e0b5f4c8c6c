//! What the body of a response comes to, when it is asked for bytes again and again.

use vstd::prelude::*;
use vstd::utf8::encode_utf8;

use crate::content_type::param_of;
use crate::decoder::{FrameView, MultipartDecoderState};
use crate::header::fields_of;
use crate::reader::is_multipart;
use crate::reading::read_all;
use crate::round_trip::{last_is_seen, law_what_is_written_is_read, readable};
use crate::streams::{decode_run, joined, no_inner_cr, readable_body, run_complete};
use crate::text_laws::{lemma_encode_concat, lemma_encode_one};
use crate::writer::{
    after_event, event_fits, poll_step, section_bytes, section_head, stream_bytes, stream_foot,
    ActionView, BodyState, StreamEventView, SectionView, StateView,
};

verus! {

/// The bytes that a body still has to hand on, where these sections are still to
/// come. A content is taken for the bytes that are left of it.
pub open spec fn owed(body: BodyState<Seq<u8>>, sections: Seq<SectionView>) -> Seq<u8> {
    match body.state {
        StateView::Waiting => stream_bytes(body.boundary, sections),
        StateView::Header(bytes, content) => bytes + content + stream_bytes(
            body.boundary,
            sections,
        ),
        StateView::Raw(content) => content + stream_bytes(body.boundary, sections),
        StateView::Footer(bytes) => bytes,
    }
}

/// How a body is asked for bytes.
pub struct Ask {
    /// How many bytes there is room for.
    pub room: nat,
    /// How many bytes a content likes to hand on.
    pub liked: nat,
    /// How often the body gets what it asks for. After that the call ends, because
    /// there is no section or content ready, or because a content fails.
    pub answers: nat,
}

/// What came of asking a body for bytes.
pub struct Handed {
    /// The bytes that were handed on.
    pub bytes: Seq<u8>,
    /// How far the body is written now.
    pub state: StateView<Seq<u8>>,
    /// The sections that are still to come.
    pub sections: Seq<SectionView>,
    /// Whether the call ended because the body did not get what it asked for.
    pub unanswered: bool,
}

/// How many bytes a content hands on: none if none are left, and else between one
/// and as many as there is room for, as it likes.
pub open spec fn handed_on(left: nat, room: nat, liked: nat) -> nat {
    let most = if room < left {
        room
    } else {
        left
    };
    if most < liked {
        most
    } else if liked == 0 && most > 0 {
        1
    } else {
        liked
    }
}

/// Bytes of a content were handed on.
pub open spec fn content_came(event: StreamEventView<Seq<u8>>) -> bool {
    event matches StreamEventView::ContentRead(n) && n > 0
}

/// How far it is to bytes that can be handed on.
pub open spec fn distance(body: BodyState<Seq<u8>>, event: StreamEventView<Seq<u8>>) -> nat {
    if content_came(event) {
        0
    } else {
        match after_event(body, event) {
            StateView::Footer(_) => 0,
            StateView::Waiting => 1,
            StateView::Raw(_) => 2,
            StateView::Header(_, _) => 3,
        }
    }
}

/// Asks a body for bytes: does what `poll_read` says, and tells it what happened,
/// until there are bytes to hand on or none are left, or until what it says cannot be
/// done for now.
pub open spec fn ask(
    body: BodyState<Seq<u8>>,
    sections: Seq<SectionView>,
    event: StreamEventView<Seq<u8>>,
    how: Ask,
) -> Handed
    decreases sections.len(), distance(body, event),
{
    let (state, action) = poll_step(body, event, how.room);
    match action {
        ActionView::Ready(bytes) => Handed { bytes, state, sections, unanswered: false },
        _ if how.answers == 0 => Handed {
            bytes: Seq::empty(),
            state,
            sections,
            unanswered: true,
        },
        ActionView::PollSections => {
            let next = Ask { answers: (how.answers - 1) as nat, ..how };
            if sections.len() == 0 {
                ask(BodyState { state, ..body }, sections, StreamEventView::NoMoreSections, next)
            } else {
                ask(
                    BodyState { state, ..body },
                    sections.drop_first(),
                    StreamEventView::Section(sections[0].groups, sections[0].body),
                    next,
                )
            }
        },
        ActionView::PollContent => {
            let next = Ask { answers: (how.answers - 1) as nat, ..how };
            let left = state->Raw_0;
            let n = handed_on(left.len(), how.room, how.liked);
            let after = BodyState { state: StateView::Raw(left.skip(n as int)), ..body };
            let handed = ask(after, sections, StreamEventView::ContentRead(n), next);
            Handed { bytes: left.take(n as int) + handed.bytes, ..handed }
        },
    }
}

/// Nothing is to come where the last bytes are written.
pub open spec fn in_step(state: StateView<Seq<u8>>, sections: Seq<SectionView>) -> bool {
    state is Footer ==> sections.len() == 0
}

/// What stands before a content, and what stands after the last section, is never
/// empty.
pub proof fn lemma_never_empty(boundary: Seq<char>, fields: Seq<(Seq<char>, Seq<char>)>)
    ensures
        encode_utf8(section_head(boundary, fields)).len() > 0,
        encode_utf8(stream_foot(boundary)).len() > 0,
{
    reveal_strlit("\r\n--");
    let head = section_head(boundary, fields);
    let foot = stream_foot(boundary);
    lemma_encode_concat(head.take(1), head.skip(1));
    lemma_encode_concat(foot.take(1), foot.skip(1));
    assert(head =~= head.take(1) + head.skip(1));
    assert(foot =~= foot.take(1) + foot.skip(1));
    assert(head.take(1) =~= seq![head[0]]);
    assert(foot.take(1) =~= seq![foot[0]]);
    lemma_encode_one(head[0]);
    lemma_encode_one(foot[0]);
}

/// Asking a body for bytes, from any event on, loses none of what it owes.
proof fn lemma_ask(
    body: BodyState<Seq<u8>>,
    sections: Seq<SectionView>,
    event: StreamEventView<Seq<u8>>,
    how: Ask,
)
    requires
        how.room > 0,
        event_fits(body.state, event),
        in_step(after_event(body, event), sections),
        event == StreamEventView::<Seq<u8>>::ContentRead(0) ==> body.state->Raw_0.len() == 0,
    ensures
        ({
            let handed = ask(body, sections, event, how);
            let before = BodyState { state: after_event(body, event), ..body };
            let after = BodyState { state: handed.state, ..body };
            &&& owed(before, sections) == handed.bytes + owed(after, handed.sections)
            &&& in_step(handed.state, handed.sections)
            &&& handed.bytes.len() <= how.room
            &&& content_came(event) ==> handed.bytes.len() == 0 && !handed.unanswered
            &&& handed.unanswered ==> handed.bytes.len() == 0
            &&& handed.bytes.len() == 0 ==> {
                ||| handed.unanswered
                ||| content_came(event)
                ||| owed(before, sections).len() == 0
            }
        }),
    decreases sections.len(), distance(body, event),
{
    let (state, action) = poll_step(body, event, how.room);
    let handed = ask(body, sections, event, how);
    let before = BodyState { state: after_event(body, event), ..body };
    let after = BodyState { state: handed.state, ..body };
    let here = BodyState { state, ..body };
    let next = Ask { answers: (how.answers - 1) as nat, ..how };
    match action {
        ActionView::Ready(bytes) => {
            assert(owed(before, sections) =~= handed.bytes + owed(after, handed.sections));
        },
        _ if how.answers == 0 => {
            assert(owed(before, sections) =~= handed.bytes + owed(after, handed.sections));
        },
        ActionView::PollSections => {
            if sections.len() == 0 {
                lemma_never_empty(body.boundary, Seq::empty());
                lemma_ask(here, sections, StreamEventView::NoMoreSections, next);
            } else {
                let section = sections[0];
                lemma_never_empty(body.boundary, fields_of(section.groups));
                lemma_ask(
                    here,
                    sections.drop_first(),
                    StreamEventView::Section(section.groups, section.body),
                    next,
                );
                assert(section_bytes(body.boundary, section) + stream_bytes(
                    body.boundary,
                    sections.drop_first(),
                ) == stream_bytes(body.boundary, sections));
            }
        },
        ActionView::PollContent => {
            let left = state->Raw_0;
            let n = handed_on(left.len(), how.room, how.liked);
            let read = BodyState { state: StateView::Raw(left.skip(n as int)), ..body };
            lemma_ask(read, sections, StreamEventView::ContentRead(n), next);
            assert(left.take(n as int) + left.skip(n as int) =~= left);
            assert(owed(before, sections) =~= handed.bytes + owed(after, handed.sections));
        },
    }
}

/// A body that is asked for bytes, with room for some, hands on the first ones that
/// it owes, at most as many as there is room for, and owes the others from then on.
/// It hands on none only where it owes none, or where it did not get what it asked
/// for; a call that did not get that hands on none.
pub proof fn law_nothing_is_lost(
    body: BodyState<Seq<u8>>,
    sections: Seq<SectionView>,
    how: Ask,
)
    requires
        how.room > 0,
        in_step(body.state, sections),
    ensures
        ({
            let handed = ask(body, sections, StreamEventView::Start, how);
            let after = BodyState { state: handed.state, ..body };
            &&& owed(body, sections) == handed.bytes + owed(after, handed.sections)
            &&& in_step(handed.state, handed.sections)
            &&& handed.bytes.len() <= how.room
            &&& handed.unanswered ==> handed.bytes.len() == 0
            &&& handed.bytes.len() == 0 ==> handed.unanswered || owed(body, sections).len() == 0
        }),
{
    lemma_ask(body, sections, StreamEventView::Start, how);
}

/// A body never asks for more than two things in one call: where it gets as many, the
/// call comes to bytes or to the end.
pub proof fn law_two_answers_are_enough(
    body: BodyState<Seq<u8>>,
    sections: Seq<SectionView>,
    how: Ask,
)
    requires
        how.room > 0,
        how.answers >= 2,
    ensures
        !ask(body, sections, StreamEventView::Start, how).unanswered,
{
    reveal_with_fuel(ask, 4);
    lemma_never_empty(body.boundary, Seq::empty());
    if sections.len() > 0 {
        lemma_never_empty(body.boundary, fields_of(sections[0].groups));
    }
}

/// What came of asking a body for bytes again and again.
pub struct WriteRun {
    /// The bytes that were handed on, call by call.
    pub chunks: Seq<Seq<u8>>,
    /// How far the body is written now.
    pub state: StateView<Seq<u8>>,
    /// The sections that are still to come.
    pub sections: Seq<SectionView>,
    /// How many calls ended because the body did not get what it asked for.
    pub unanswered: nat,
}

/// Asks a body for bytes again and again. A call after one in which the body did not
/// get what it asked for starts anew, like every other.
pub open spec fn write_run(
    body: BodyState<Seq<u8>>,
    sections: Seq<SectionView>,
    asks: Seq<Ask>,
) -> WriteRun
    decreases asks.len(),
{
    if asks.len() == 0 {
        WriteRun { chunks: Seq::empty(), state: body.state, sections, unanswered: 0 }
    } else {
        let handed = ask(body, sections, StreamEventView::Start, asks[0]);
        let after = BodyState { state: handed.state, ..body };
        let run = write_run(after, handed.sections, asks.drop_first());
        let more: nat = if handed.unanswered {
            1
        } else {
            0
        };
        WriteRun {
            chunks: seq![handed.bytes] + run.chunks,
            unanswered: run.unanswered + more,
            ..run
        }
    }
}

/// A run hands on what the body owes, in order, a byte at least each time until
/// none are left, but for the calls in which the body did not get what it asked for.
proof fn lemma_write_run(
    body: BodyState<Seq<u8>>,
    sections: Seq<SectionView>,
    asks: Seq<Ask>,
)
    requires
        in_step(body.state, sections),
        forall|i: int| 0 <= i < asks.len() ==> (#[trigger] asks[i]).room > 0,
    ensures
        ({
            let run = write_run(body, sections, asks);
            let after = BodyState { state: run.state, ..body };
            let left = owed(after, run.sections);
            &&& owed(body, sections) == joined(run.chunks) + left
            &&& left.len() == 0 || joined(run.chunks).len() + run.unanswered >= asks.len()
        }),
    decreases asks.len(),
{
    let run = write_run(body, sections, asks);
    if asks.len() == 0 {
        assert(owed(body, sections) =~= joined(run.chunks) + owed(body, sections));
    } else {
        law_nothing_is_lost(body, sections, asks[0]);
        let handed = ask(body, sections, StreamEventView::Start, asks[0]);
        let next = BodyState { state: handed.state, ..body };
        let rest = write_run(next, handed.sections, asks.drop_first());
        lemma_write_run(next, handed.sections, asks.drop_first());
        assert(run.chunks[0] == handed.bytes);
        assert(run.chunks.drop_first() =~= rest.chunks);
        assert(owed(body, sections) =~= joined(run.chunks) + owed(
            BodyState { state: run.state, ..body },
            run.sections,
        ));
    }
}

/// The body of a response to be written.
pub open spec fn new_body(boundary: Seq<char>) -> BodyState<Seq<u8>> {
    BodyState { boundary, state: StateView::Waiting }
}

/// The body of a response is the stream of its sections: asked for bytes again and
/// again, with room for some each time, it hands on the bytes of the stream in
/// order. What was handed on, followed by what is still owed, is the stream at any
/// time, whatever the body did not get when it asked for it. All of the stream has been
/// handed on once the body got what it asked for in more calls than there are bytes.
pub proof fn law_body_is_the_stream(
    boundary: Seq<char>,
    sections: Seq<SectionView>,
    asks: Seq<Ask>,
)
    requires
        forall|i: int| 0 <= i < asks.len() ==> (#[trigger] asks[i]).room > 0,
    ensures
        ({
            let run = write_run(new_body(boundary), sections, asks);
            let stream = stream_bytes(boundary, sections);
            let left = owed(BodyState { boundary, state: run.state }, run.sections);
            &&& joined(run.chunks) + left == stream
            &&& asks.len() > stream.len() + run.unanswered ==> joined(run.chunks) == stream
        }),
{
    lemma_write_run(new_body(boundary), sections, asks);
    let run = write_run(new_body(boundary), sections, asks);
    let left = owed(BodyState { boundary, state: run.state }, run.sections);
    if left.len() == 0 {
        assert(joined(run.chunks) + left =~= joined(run.chunks));
    }
}

/// The content type of a response lets its body be read: it is `multipart`, and its
/// boundary is the one between the sections, whatever the sub type.
pub proof fn law_response_is_admitted(sub_type: Seq<char>, boundary: Seq<char>)
    ensures
        is_multipart(("multipart"@, sub_type, seq![("boundary"@, boundary)])),
        param_of(seq![("boundary"@, boundary)], "boundary"@) == Some(boundary),
{
}

/// The body of a response is read back as its sections: what it hands on, however
/// it is asked for bytes, decodes to frames from which `next` and `to_bytes` return
/// the same sections, and nothing is left over. The conditions are those under
/// which a stream is read back as it was written, whatever its chunks.
pub proof fn law_response_is_read(
    boundary: Seq<char>,
    sections: Seq<SectionView>,
    asks: Seq<Ask>,
)
    requires
        forall|i: int| 0 <= i < asks.len() ==> (#[trigger] asks[i]).room > 0,
        asks.len() > stream_bytes(boundary, sections).len() + write_run(
            new_body(boundary),
            sections,
            asks,
        ).unanswered,
        readable_body(encode_utf8(boundary), Seq::empty()),
        readable(encode_utf8(boundary), sections),
        last_is_seen(sections),
        no_inner_cr(encode_utf8(boundary)),
    ensures
        ({
            let run = decode_run(
                MultipartDecoderState::BeforeFirstBoundary,
                encode_utf8(boundary),
                Seq::empty(),
                write_run(new_body(boundary), sections, asks).chunks,
            );
            &&& run_complete(run)
            &&& read_all(FrameView::Data(Seq::empty()), run.frames) == sections
        }),
{
    law_body_is_the_stream(boundary, sections, asks);
    let chunks = write_run(new_body(boundary), sections, asks).chunks;
    law_what_is_written_is_read(boundary, sections, chunks);
}

} // verus!
