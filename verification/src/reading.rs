//! Whole sections and whole bodies, read one step at a time.

use vstd::prelude::*;

use crate::decoder::FrameView;
use crate::reader::{
    absorb_step, body_step, buffered, fill_step, next_start, next_step, smaller, without_first,
    BodyView, EventView, NextView, ProgressView,
};
use crate::streams::data_len;
use crate::writer::SectionView;

verus! {

/// The next event of a stream with these frames to come.
pub open spec fn event_of(frames: Seq<FrameView>) -> EventView {
    if frames.len() == 0 {
        EventView::Finished
    } else {
        EventView::Frame(frames[0])
    }
}

/// The frames to come after the next event.
pub open spec fn frames_after(frames: Seq<FrameView>) -> Seq<FrameView> {
    if frames.len() == 0 {
        frames
    } else {
        frames.drop_first()
    }
}

/// What comes of a search for the next section.
pub struct NextRun {
    /// The headers of the section, if there is one.
    pub section: Option<Seq<(Seq<char>, Seq<Seq<char>>)>>,
    /// The frame that was read last.
    pub buffer: FrameView,
    /// The frames to come.
    pub frames: Seq<FrameView>,
}

/// A search for the next section, with each event that it asks for.
pub open spec fn next_run(
    buffer: FrameView,
    progress: ProgressView,
    frames: Seq<FrameView>,
) -> NextRun
    decreases frames.len(),
{
    let (after, action) = next_step(buffer, progress, event_of(frames));
    match action {
        NextView::Poll(further) if frames.len() > 0 => next_run(
            after,
            further,
            frames.drop_first(),
        ),
        NextView::Section(groups) => NextRun {
            section: Some(groups),
            buffer: after,
            frames: frames_after(frames),
        },
        _ => NextRun { section: None, buffer: after, frames: frames_after(frames) },
    }
}

/// What comes of reading the body of a section.
pub struct BodyRun {
    /// The bytes of the body.
    pub bytes: Seq<u8>,
    /// The frame that was read last.
    pub buffer: FrameView,
    /// The frames to come.
    pub frames: Seq<FrameView>,
}

/// The rest of a body, with each event that is asked for.
pub open spec fn body_run(raw_data: Seq<u8>, frames: Seq<FrameView>) -> BodyRun
    decreases frames.len(),
{
    let (after, action) = body_step(raw_data, event_of(frames));
    match action {
        BodyView::Poll(more) if frames.len() > 0 => body_run(more, frames.drop_first()),
        BodyView::Done(bytes) => BodyRun { bytes, buffer: after, frames: frames_after(frames) },
        _ => BodyRun { bytes: raw_data, buffer: after, frames: frames_after(frames) },
    }
}

/// A body, with each event that is asked for.
pub open spec fn to_bytes_run(buffer: FrameView, frames: Seq<FrameView>) -> BodyRun {
    let (after, action) = absorb_step(buffer, Seq::empty());
    match action {
        BodyView::Poll(raw_data) => body_run(raw_data, frames),
        BodyView::Done(bytes) => BodyRun { bytes, buffer: after, frames },
        BodyView::Failed => BodyRun { bytes: Seq::empty(), buffer: after, frames },
    }
}

/// All sections of a stream, each with its body, read one after the other.
pub open spec fn read_all(buffer: FrameView, frames: Seq<FrameView>) -> Seq<SectionView>
    decreases frames.len(),
{
    let found = next_run(buffer, next_start(buffer), frames);
    match found.section {
        None => Seq::empty(),
        Some(groups) => {
            let body = to_bytes_run(found.buffer, found.frames);
            let others = if body.frames.len() < frames.len() {
                read_all(body.buffer, body.frames)
            } else {
                Seq::empty()
            };
            seq![SectionView { groups, body: body.bytes }] + others
        },
    }
}

/// What was read so far comes first in the body.
proof fn lemma_body_run_appends(raw_data: Seq<u8>, frames: Seq<FrameView>)
    ensures
        body_run(raw_data, frames).bytes == raw_data + body_run(Seq::empty(), frames).bytes,
        body_run(raw_data, frames).buffer == body_run(Seq::empty(), frames).buffer,
        body_run(raw_data, frames).frames == body_run(Seq::empty(), frames).frames,
    decreases frames.len(),
{
    let none = Seq::<u8>::empty();
    assert(raw_data + none =~= raw_data);
    if frames.len() > 0 {
        if let FrameView::Data(data) = frames[0] {
            lemma_body_run_appends(raw_data + data, frames.drop_first());
            lemma_body_run_appends(none + data, frames.drop_first());
            let later = body_run(none, frames.drop_first()).bytes;
            assert((raw_data + data) + later =~= raw_data + ((none + data) + later));
        }
    }
}

/// Reading the body piece by piece gives the same bytes as reading it into one
/// object: what a read returns, and then the body that is left, are the body that
/// was left before. A read fetches the next frame first where the one read last
/// has no bytes left.
pub proof fn law_read_in_pieces(buffer: FrameView, frames: Seq<FrameView>, room: nat)
    ensures
        ({
            let asks = buffer == FrameView::Data(Seq::empty());
            let filled = if asks {
                fill_step(buffer, Some(event_of(frames)))
            } else {
                fill_step(buffer, None)
            };
            let left = if asks {
                frames_after(frames)
            } else {
                frames
            };
            let n = smaller(room as int, buffered(filled).len() as int);
            to_bytes_run(buffer, frames).bytes == buffered(filled).take(n) + to_bytes_run(
                without_first(filled, n),
                left,
            ).bytes
        }),
{
    let none = Seq::<u8>::empty();
    let asks = buffer == FrameView::Data(none);
    let filled = if asks {
        fill_step(buffer, Some(event_of(frames)))
    } else {
        buffer
    };
    let left = if asks {
        frames_after(frames)
    } else {
        frames
    };
    let n = smaller(room as int, buffered(filled).len() as int);
    assert(to_bytes_run(buffer, frames).bytes == to_bytes_run(filled, left).bytes) by {
        if asks {
            assert(none + none =~= none);
            if frames.len() > 0 {
                if let FrameView::Data(data) = frames[0] {
                    assert(body_run(none, frames) == body_run(none + data, frames.drop_first()));
                }
            }
        }
    }
    match filled {
        FrameView::Data(data) => {
            lemma_body_run_appends(none + data, left);
            lemma_body_run_appends(none + data.skip(n), left);
            let later = body_run(none, left).bytes;
            assert((none + data) + later =~= data.take(n) + ((none + data.skip(n)) + later));
        },
        _ => {
            assert(buffered(filled).take(n) + none =~= none);
        },
    }
}

/// A read that has room for a byte returns none only where the body has ended.
pub proof fn law_empty_read_is_the_end(buffer: FrameView, frames: Seq<FrameView>)
    requires
        forall|i: int|
            0 <= i < frames.len() ==> (#[trigger] frames[i] matches FrameView::Data(data)
                ==> data.len() > 0),
        buffer == FrameView::Data(Seq::empty()),
        buffered(fill_step(buffer, Some(event_of(frames)))).len() == 0,
    ensures
        to_bytes_run(buffer, frames).bytes.len() == 0,
{
    let none = Seq::<u8>::empty();
    assert(none + none =~= none);
    if frames.len() > 0 {
        assert(frames[0] matches FrameView::Data(data) ==> data.len() > 0);
    }
}

/// A search for the next section passes over what is left of a body.
proof fn lemma_body_passed_over(
    raw_data: Seq<u8>,
    buffer: FrameView,
    frames: Seq<FrameView>,
)
    requires
        forall|i: int| 0 <= i < frames.len() ==> !(#[trigger] frames[i] is End),
    ensures
        ({
            let read = body_run(raw_data, frames);
            next_run(read.buffer, next_start(read.buffer), read.frames) == next_run(
                buffer,
                ProgressView::Seeking,
                frames,
            )
        }),
    decreases frames.len(),
{
    if frames.len() > 0 {
        let first = frames[0];
        let others = frames.drop_first();
        assert forall|i: int| 0 <= i < others.len() implies !(#[trigger] others[i] is End) by {
            assert(others[i] == frames[i + 1]);
        }
        if let FrameView::Data(data) = first {
            lemma_body_passed_over(raw_data + data, first, others);
        }
    }
}

/// A body that was not read, or not to its end, is passed over: the section that is
/// found next is the one that is found after the body was read. A stream has no
/// frames that say that it has ended, it just ends.
pub proof fn law_unread_body_is_passed_over(buffer: FrameView, frames: Seq<FrameView>)
    requires
        forall|i: int| 0 <= i < frames.len() ==> !(#[trigger] frames[i] is End),
    ensures
        ({
            let read = to_bytes_run(buffer, frames);
            next_run(read.buffer, next_start(read.buffer), read.frames) == next_run(
                buffer,
                next_start(buffer),
                frames,
            )
        }),
{
    if let FrameView::Data(data) = buffer {
        lemma_body_passed_over(Seq::empty() + data, buffer, frames);
    }
}

/// How many bytes the bodies of the sections have together.
pub open spec fn body_total(sections: Seq<SectionView>) -> nat
    decreases sections.len(),
{
    if sections.len() == 0 {
        0
    } else {
        sections[0].body.len() + body_total(sections.drop_first())
    }
}

/// How many bytes of bodies a reader can still come to.
spec fn within_reach(buffer: FrameView, frames: Seq<FrameView>) -> nat {
    buffered(buffer).len() + data_len(frames)
}

/// A search for the next section brings no bytes into reach.
proof fn lemma_next_reach(buffer: FrameView, progress: ProgressView, frames: Seq<FrameView>)
    ensures
        ({
            let found = next_run(buffer, progress, frames);
            within_reach(found.buffer, found.frames) <= within_reach(buffer, frames)
        }),
    decreases frames.len(),
{
    let (after, action) = next_step(buffer, progress, event_of(frames));
    if frames.len() > 0 {
        if let NextView::Poll(further) = action {
            lemma_next_reach(after, further, frames.drop_first());
        }
    }
}

/// Reading a body takes its bytes out of reach.
proof fn lemma_body_reach(raw_data: Seq<u8>, frames: Seq<FrameView>)
    ensures
        ({
            let run = body_run(raw_data, frames);
            run.bytes.len() + within_reach(run.buffer, run.frames) <= raw_data.len() + data_len(
                frames,
            )
        }),
    decreases frames.len(),
{
    if frames.len() > 0 {
        if let FrameView::Data(data) = frames[0] {
            lemma_body_reach(raw_data + data, frames.drop_first());
        }
    }
}

/// The bodies of all sections together have no more bytes than the frames that they are
/// read from.
pub proof fn law_bodies_are_of_the_frames(buffer: FrameView, frames: Seq<FrameView>)
    ensures
        body_total(read_all(buffer, frames)) <= buffered(buffer).len() + data_len(frames),
    decreases frames.len(),
{
    let found = next_run(buffer, next_start(buffer), frames);
    lemma_next_reach(buffer, next_start(buffer), frames);
    if let Some(groups) = found.section {
        let body = to_bytes_run(found.buffer, found.frames);
        if let FrameView::Data(data) = found.buffer {
            lemma_body_reach(Seq::empty() + data, found.frames);
        }
        assert(body.bytes.len() + within_reach(body.buffer, body.frames) <= within_reach(
            buffer,
            frames,
        ));
        let section = SectionView { groups, body: body.bytes };
        let all = read_all(buffer, frames);
        assert(all[0] == section);
        if body.frames.len() < frames.len() {
            law_bodies_are_of_the_frames(body.buffer, body.frames);
            assert(all.drop_first() =~= read_all(body.buffer, body.frames));
        } else {
            assert(all.drop_first() =~= Seq::empty());
        }
        assert(body_total(all) == section.body.len() + body_total(all.drop_first()));
    }
}

} // verus!
