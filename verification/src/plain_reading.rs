//! Sections and bodies read step by step, stated on the frames and the bytes.

use vstd::prelude::*;

use crate::decoder::FrameView;
use crate::header::with_added;
use crate::reader::{
    absorb_step, body_step, buffered, fill_action, fill_step, next_start, next_step, read_step,
    smaller, without_first, BodyView, EventView, NextView, ProgressView, ReadView,
};
use crate::reading::{body_run, event_of, frames_after, to_bytes_run};

verus! {

/// A read with bytes fetched returns the first of them and leaves the others. It returns as
/// many as there is room for, or else all of them.
pub proof fn law_read_takes_what_fits(bytes: Seq<u8>, room: nat)
    requires
        bytes.len() > 0,
    ensures
        ({
            let (left, read) = read_step(FrameView::Data(bytes), None, room);
            &&& read matches ReadView::Ready(got) && left matches FrameView::Data(others) && {
                &&& got + others == bytes
                &&& got.len() <= room
                &&& got.len() == room || others.len() == 0
            }
        }),
{
    let n = smaller(room as int, bytes.len() as int);
    assert(bytes.take(n) + bytes.skip(n) =~= bytes);
}

/// A read without bytes fetched asks for the next frame. It returns bytes of that frame, as
/// of bytes that were fetched before, where the frame is a part of the body. With any other
/// frame, and where there are no more, the body has ended: it returns none and keeps the
/// frame. A failure leaves things as they were.
pub proof fn law_read_fetches_a_frame(
    buffer: FrameView,
    bytes: Seq<u8>,
    frame: FrameView,
    room: nat,
)
    requires
        !(frame is Data),
    ensures
        read_step(FrameView::Data(Seq::empty()), None, room) == (
            FrameView::Data(Seq::empty()),
            ReadView::Poll,
        ),
        ({
            let event = Some(EventView::Frame(FrameView::Data(bytes)));
            let (left, read) = read_step(buffer, event, room);
            &&& read matches ReadView::Ready(got) && left matches FrameView::Data(others) && {
                &&& got + others == bytes
                &&& got.len() <= room
                &&& got.len() == room || others.len() == 0
            }
        }),
        read_step(buffer, Some(EventView::Frame(frame)), room) == (
            frame,
            ReadView::Ready(Seq::empty()),
        ),
        read_step(frame, None, room) == (frame, ReadView::Ready(Seq::empty())),
        read_step(buffer, Some(EventView::Finished), room) == (
            FrameView::End,
            ReadView::Ready(Seq::empty()),
        ),
        read_step(buffer, Some(EventView::Failed), room) == (buffer, ReadView::Failed),
{
    let n = smaller(room as int, bytes.len() as int);
    assert(bytes.take(n) + bytes.skip(n) =~= bytes);
    let none = Seq::<u8>::empty();
    assert(none.take(0) =~= none);
}

/// Fetching shows the bytes of the frame that was read last. It asks for the next frame
/// only where that has none left, and keeps what the event brings.
pub proof fn law_fetching(buffer: FrameView, bytes: Seq<u8>, frame: FrameView)
    ensures
        buffered(FrameView::Data(bytes)) == bytes,
        !(frame is Data) ==> buffered(frame).len() == 0,
        fill_action(FrameView::Data(bytes), None) is Poll <==> bytes.len() == 0,
        fill_action(FrameView::Data(bytes), None) is Ready <==> bytes.len() > 0,
        !(frame is Data) ==> fill_action(frame, None) is Ready,
        fill_step(buffer, None) == buffer,
        fill_step(buffer, Some(EventView::Frame(frame))) == frame,
        fill_action(buffer, Some(EventView::Frame(frame))) is Ready,
        fill_step(buffer, Some(EventView::Finished)) == FrameView::End,
        fill_action(buffer, Some(EventView::Finished)) is Ready,
        fill_step(buffer, Some(EventView::Failed)) == buffer,
        fill_action(buffer, Some(EventView::Failed)) is Failed,
{
    if bytes.len() == 0 {
        assert(bytes =~= Seq::empty());
    }
}

/// Passing over bytes that were fetched drops exactly as many, or all where there are
/// fewer, and touches nothing else.
pub proof fn law_consuming(bytes: Seq<u8>, frame: FrameView, amt: nat)
    ensures
        ({
            let n = smaller(amt as int, buffered(FrameView::Data(bytes)).len() as int);
            &&& amt <= bytes.len() ==> without_first(FrameView::Data(bytes), n) == FrameView::Data(
                bytes.skip(amt as int),
            )
            &&& amt > bytes.len() ==> without_first(FrameView::Data(bytes), n) == FrameView::Data(
                Seq::empty(),
            )
            &&& !(frame is Data) ==> without_first(
                frame,
                smaller(amt as int, buffered(frame).len() as int),
            ) == frame
        }),
{
    assert(bytes.skip(bytes.len() as int) =~= Seq::empty());
}

/// Reads, one after the other, until one returns no bytes: the bytes that they return, and
/// whether one returned none. For each read there is how many bytes there is room for.
pub open spec fn reads(buffer: FrameView, frames: Seq<FrameView>, rooms: Seq<nat>) -> (
    Seq<u8>,
    bool,
)
    decreases rooms.len(),
{
    if rooms.len() == 0 {
        (Seq::empty(), false)
    } else {
        let asks = read_step(buffer, None, rooms[0]).1 is Poll;
        let (left, read) = if asks {
            read_step(buffer, Some(event_of(frames)), rooms[0])
        } else {
            read_step(buffer, None, rooms[0])
        };
        let to_come = if asks {
            frames_after(frames)
        } else {
            frames
        };
        match read {
            ReadView::Ready(got) => if got.len() == 0 {
                (Seq::empty(), true)
            } else {
                let others = reads(left, to_come, rooms.drop_first());
                (got + others.0, others.1)
            },
            _ => (Seq::empty(), false),
        }
    }
}

/// The bytes of a body are those of the frame read last and of the parts of the body that
/// come next, all of them, in order.
pub proof fn law_body_is_its_parts(bytes: Seq<u8>, frame: FrameView, frames: Seq<FrameView>)
    ensures
        to_bytes_run(FrameView::Data(bytes), Seq::empty()).bytes == bytes,
        match frame {
            FrameView::Data(more) => to_bytes_run(
                FrameView::Data(bytes),
                seq![frame] + frames,
            ) == to_bytes_run(FrameView::Data(bytes + more), frames),
            _ => {
                let run = to_bytes_run(FrameView::Data(bytes), seq![frame] + frames);
                &&& run.bytes == bytes
                &&& run.buffer == frame
                &&& run.frames == frames
                &&& to_bytes_run(frame, frames).bytes.len() == 0
            },
        },
{
    let none = Seq::<u8>::empty();
    let all = seq![frame] + frames;
    assert(none + bytes =~= bytes);
    assert(all[0] == frame);
    assert(all.drop_first() =~= frames);
    if let FrameView::Data(more) = frame {
        assert(none + (bytes + more) =~= (none + bytes) + more);
    }
}

/// What a body that is put together has read so far comes first in it.
proof fn lemma_parts_so_far(raw_data: Seq<u8>, frames: Seq<FrameView>)
    ensures
        body_run(raw_data, frames).bytes == raw_data + body_run(Seq::empty(), frames).bytes,
    decreases frames.len(),
{
    let none = Seq::<u8>::empty();
    assert(raw_data + none =~= raw_data);
    if frames.len() > 0 {
        if let FrameView::Data(data) = frames[0] {
            lemma_parts_so_far(raw_data + data, frames.drop_first());
            lemma_parts_so_far(none + data, frames.drop_first());
            let later = body_run(none, frames.drop_first()).bytes;
            assert((raw_data + data) + later =~= raw_data + ((none + data) + later));
        }
    }
}

/// Reading on until a read returns no bytes gives the bytes of the body, all of them and in
/// order, whatever room there is each time, if there is any. It takes at most one read more
/// than the body has bytes.
pub proof fn law_reads_give_the_body(
    buffer: FrameView,
    frames: Seq<FrameView>,
    rooms: Seq<nat>,
)
    requires
        forall|i: int|
            0 <= i < frames.len() ==> (#[trigger] frames[i] matches FrameView::Data(data)
                ==> data.len() > 0),
        forall|i: int| 0 <= i < rooms.len() ==> #[trigger] rooms[i] > 0,
    ensures
        reads(buffer, frames, rooms).0.is_prefix_of(to_bytes_run(buffer, frames).bytes),
        reads(buffer, frames, rooms).1 ==> reads(buffer, frames, rooms).0 == to_bytes_run(
            buffer,
            frames,
        ).bytes,
        rooms.len() > to_bytes_run(buffer, frames).bytes.len() ==> reads(buffer, frames, rooms).1,
    decreases rooms.len(),
{
    let none = Seq::<u8>::empty();
    let body = to_bytes_run(buffer, frames).bytes;
    if rooms.len() > 0 {
        assert(rooms[0] > 0);
        let asks = buffer == FrameView::Data(none);
        let filled = if asks {
            fill_step(buffer, Some(event_of(frames)))
        } else {
            buffer
        };
        let to_come = if asks {
            frames_after(frames)
        } else {
            frames
        };
        assert(none + none =~= none);
        assert forall|i: int| 0 <= i < to_come.len() implies (
        #[trigger] to_come[i] matches FrameView::Data(data) ==> data.len() > 0) by {
            if asks {
                assert(to_come[i] == frames[i + 1]);
            }
        }
        if asks && frames.len() > 0 {
            assert(frames[0] matches FrameView::Data(data) ==> data.len() > 0);
        }
        match filled {
            FrameView::Data(data) => {
                if data.len() == 0 {
                    assert(data =~= none);
                }
                assert(data.len() > 0);
                let n = smaller(rooms[0] as int, data.len() as int);
                let left = FrameView::Data(data.skip(n));
                let others = reads(left, to_come, rooms.drop_first());
                assert forall|i: int|
                    0 <= i < rooms.drop_first().len() implies #[trigger] rooms.drop_first()[i]
                    > 0 by {
                    assert(rooms.drop_first()[i] == rooms[i + 1]);
                }
                law_reads_give_the_body(left, to_come, rooms.drop_first());
                lemma_parts_so_far(none + data, to_come);
                lemma_parts_so_far(none + data.skip(n), to_come);
                let later = body_run(none, to_come).bytes;
                assert(body == (none + data) + later);
                let rest = to_bytes_run(left, to_come).bytes;
                assert(body =~= data.take(n) + rest);
                assert(reads(buffer, frames, rooms).0 == data.take(n) + others.0);
                assert(data.take(n) + others.0 =~= body.take(n + others.0.len()));
            },
            _ => {
                assert(body =~= none);
                assert(reads(buffer, frames, rooms) == (none, true));
            },
        }
    }
}

/// While a section is looked for, every frame before a boundary is passed over. At a
/// boundary its headers start, none so far. Where the frames end there is no section.
pub proof fn law_search_for_a_boundary(buffer: FrameView, frame: FrameView)
    ensures
        next_start(FrameView::Boundary) == ProgressView::Collecting(Seq::empty()),
        !(frame is Boundary) ==> next_start(frame) == ProgressView::Seeking,
        next_step(buffer, ProgressView::Seeking, EventView::Frame(FrameView::Boundary)) == (
            FrameView::Boundary,
            NextView::Poll(ProgressView::Collecting(Seq::empty())),
        ),
        !(frame is Boundary) && !(frame is End) ==> next_step(
            buffer,
            ProgressView::Seeking,
            EventView::Frame(frame),
        ) == (frame, NextView::Poll(ProgressView::Seeking)),
        next_step(buffer, ProgressView::Seeking, EventView::Frame(FrameView::End)) == (
            FrameView::End,
            NextView::NoSection,
        ),
        next_step(buffer, ProgressView::Seeking, EventView::Finished) == (
            FrameView::End,
            NextView::NoSection,
        ),
{
}

/// After a boundary each header is added to those of the section. The first frame that is
/// no header, a part of a body or the next boundary, is kept, and the section is found.
/// Where the frames end, the section is found only if it has a header. A failure ends the
/// search and changes nothing.
pub proof fn law_search_for_the_headers(
    buffer: FrameView,
    groups: Seq<(Seq<char>, Seq<Seq<char>>)>,
    progress: ProgressView,
    name: Seq<char>,
    value: Seq<char>,
    bytes: Seq<u8>,
)
    ensures
        next_step(
            buffer,
            ProgressView::Collecting(groups),
            EventView::Frame(FrameView::Header(name, value)),
        ) == (
            buffer,
            NextView::Poll(ProgressView::Collecting(with_added(groups, (name, value)))),
        ),
        next_step(
            buffer,
            ProgressView::Collecting(groups),
            EventView::Frame(FrameView::Data(bytes)),
        ) == (FrameView::Data(bytes), NextView::Section(groups)),
        next_step(
            buffer,
            ProgressView::Collecting(groups),
            EventView::Frame(FrameView::Boundary),
        ) == (FrameView::Boundary, NextView::Section(groups)),
        groups.len() > 0 ==> next_step(
            buffer,
            ProgressView::Collecting(groups),
            EventView::Finished,
        ) == (FrameView::End, NextView::Section(groups)),
        groups.len() == 0 ==> next_step(
            buffer,
            ProgressView::Collecting(groups),
            EventView::Finished,
        ) == (FrameView::End, NextView::NoSection),
        next_step(buffer, ProgressView::Collecting(groups), EventView::Frame(FrameView::End))
            == next_step(buffer, ProgressView::Collecting(groups), EventView::Finished),
        next_step(buffer, progress, EventView::Failed) == (buffer, NextView::Failed),
{
}

/// A body is put together of the bytes of the frame read last and of every part that comes
/// after it, in order. It is complete at the first other frame, which is kept, and where
/// there are no more frames. A failure loses it, and the stream counts as ended.
pub proof fn law_putting_a_body_together(raw_data: Seq<u8>, bytes: Seq<u8>, frame: FrameView)
    requires
        !(frame is Data),
    ensures
        absorb_step(FrameView::Data(bytes), raw_data) == (
            FrameView::Data(Seq::empty()),
            BodyView::Poll(raw_data + bytes),
        ),
        absorb_step(frame, raw_data) == (frame, BodyView::Done(raw_data)),
        body_step(raw_data, EventView::Frame(FrameView::Data(bytes))) == (
            FrameView::Data(Seq::empty()),
            BodyView::Poll(raw_data + bytes),
        ),
        body_step(raw_data, EventView::Frame(frame)) == (frame, BodyView::Done(raw_data)),
        body_step(raw_data, EventView::Finished) == (FrameView::End, BodyView::Done(raw_data)),
        body_step(raw_data, EventView::Failed) == (FrameView::End, BodyView::Failed),
{
}

} // verus!
