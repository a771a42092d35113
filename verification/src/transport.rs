//! What a frame from the other side means.

use vstd::prelude::*;

use crate::protocol::GameEvent;

verus! {

/// What comes from a connection.
#[derive(Debug)]
pub enum Incoming {
    /// A binary frame, and the event that it decodes to, if it does.
    Binary(Option<GameEvent>),
    /// The other side closes the connection.
    Close,
    /// A frame of another sort.
    Other,
    /// The connection has ended.
    End,
    /// Reading failed.
    Error,
}

/// What is to be done with it.
#[derive(Debug)]
pub enum Received {
    /// An event was received.
    Event(GameEvent),
    /// The connection was closed.
    Closed,
    /// Reading failed.
    Failed,
    /// To be skipped: the next frame is read.
    Skipped,
}

/// What a frame means. Binary frames that do not decode, which may come from a later version, and
/// frames of other sorts are skipped.
pub open spec fn meaning(incoming: Incoming) -> Received {
    match incoming {
        Incoming::Binary(Some(event)) => Received::Event(event),
        Incoming::Binary(None) => Received::Skipped,
        Incoming::Close => Received::Closed,
        Incoming::End => Received::Closed,
        Incoming::Error => Received::Failed,
        Incoming::Other => Received::Skipped,
    }
}

/// What a frame means.
pub fn recv_event(incoming: Incoming) -> (r: Received)
    ensures
        r == meaning(incoming),
{
    match incoming {
        Incoming::Binary(Some(event)) => Received::Event(event),
        Incoming::Binary(None) => Received::Skipped,
        Incoming::Close => Received::Closed,
        Incoming::End => Received::Closed,
        Incoming::Error => Received::Failed,
        Incoming::Other => Received::Skipped,
    }
}

/// What repeated reading gives: an event from each frame that holds one, until the connection is
/// closed or reading fails.
pub open spec fn events_read(stream: Seq<Incoming>) -> Seq<GameEvent>
    decreases stream.len(),
{
    if stream.len() == 0 {
        Seq::empty()
    } else {
        match meaning(stream[0]) {
            Received::Event(event) => seq![event] + events_read(stream.drop_first()),
            Received::Skipped => events_read(stream.drop_first()),
            Received::Closed => Seq::empty(),
            Received::Failed => Seq::empty(),
        }
    }
}

/// A frame on the wire.
pub enum Frame {
    Binary(Seq<u8>),
    /// A frame that carries no event, such as a ping.
    Other,
}

/// What comes of a frame, by what its bytes decode to.
pub open spec fn arrival(frame: Frame, decode: spec_fn(Seq<u8>) -> Option<GameEvent>) -> Incoming {
    match frame {
        Frame::Binary(bytes) => Incoming::Binary(decode(bytes)),
        Frame::Other => Incoming::Other,
    }
}

/// What comes of some frames.
pub open spec fn arrivals(
    frames: Seq<Frame>,
    decode: spec_fn(Seq<u8>) -> Option<GameEvent>,
) -> Seq<Incoming> {
    frames.map_values(|f: Frame| arrival(f, decode))
}

/// Whether some frames carry some events, in this order and no others: each event in a frame of its
/// own, with frames of other sorts in between.
pub open spec fn carries(
    frames: Seq<Frame>,
    sent: Seq<GameEvent>,
    encode: spec_fn(GameEvent) -> Seq<u8>,
) -> bool
    decreases frames.len(),
{
    if frames.len() == 0 {
        sent.len() == 0
    } else {
        match frames[0] {
            Frame::Other => carries(frames.drop_first(), sent, encode),
            Frame::Binary(bytes) => {
                &&& sent.len() > 0
                &&& bytes == encode(sent[0])
                &&& carries(frames.drop_first(), sent.drop_first(), encode)
            },
        }
    }
}

/// What was sent is read, whole and in the order in which it was sent, none lost and none twice,
/// wherever decoding undoes encoding. Frames of other sorts make no difference.
pub proof fn lemma_read_as_sent(
    encode: spec_fn(GameEvent) -> Seq<u8>,
    decode: spec_fn(Seq<u8>) -> Option<GameEvent>,
    frames: Seq<Frame>,
    sent: Seq<GameEvent>,
)
    requires
        carries(frames, sent, encode),
        forall|i: int|
            0 <= i < sent.len() ==> decode(encode(#[trigger] sent[i])) == Some(sent[i]),
    ensures
        events_read(arrivals(frames, decode)) == sent,
    decreases frames.len(),
{
    let stream = arrivals(frames, decode);
    if frames.len() > 0 {
        let rest = frames.drop_first();
        assert(stream.drop_first() =~= arrivals(rest, decode));
        match frames[0] {
            Frame::Other => {
                lemma_read_as_sent(encode, decode, rest, sent);
            },
            Frame::Binary(bytes) => {
                let later = sent.drop_first();
                assert forall|i: int| 0 <= i < later.len() implies decode(
                    encode(#[trigger] later[i]),
                ) == Some(later[i]) by {
                    assert(later[i] == sent[i + 1]);
                }
                lemma_read_as_sent(encode, decode, rest, later);
                assert(decode(encode(sent[0])) == Some(sent[0]));
                assert(seq![sent[0]] + later =~= sent);
            },
        }
    } else {
        assert(events_read(stream) =~= sent);
    }
}

/// A frame that does not decode is passed over like one of another sort: what follows it is read
/// as if it had not been there.
pub proof fn lemma_unknown_frames_are_skipped(before: Seq<Incoming>, unknown: Incoming, after: Seq<
    Incoming,
>)
    requires
        unknown is Other || unknown == Incoming::Binary(None),
    ensures
        events_read(before + seq![unknown] + after) == events_read(before + after),
    decreases before.len(),
{
    let with = before + seq![unknown] + after;
    let without = before + after;
    if before.len() == 0 {
        assert(with.drop_first() =~= after);
        assert(without =~= after);
    } else {
        let rest = before.drop_first();
        assert(with.drop_first() =~= rest + seq![unknown] + after);
        assert(without.drop_first() =~= rest + after);
        assert(with[0] == without[0]);
        lemma_unknown_frames_are_skipped(rest, unknown, after);
    }
}

/// Reading fails only where the connection itself does, and ends cleanly only where it is closed.
pub proof fn lemma_how_reading_ends(incoming: Incoming)
    ensures
        meaning(incoming) is Failed <==> incoming is Error,
        meaning(incoming) is Closed <==> incoming is Close || incoming is End,
{
}

} // verus!
