//! Frames: messages behind a two-byte length, as every socket carries them.
use crate::wire::{le_bytes, lemma_le_bytes_len, lemma_prefix_rest};
use bytes::{Bytes, BytesMut};
use tokio_util::codec::{Decoder, Encoder, LengthDelimitedCodec};
use vstd::arithmetic::power::pow;
use vstd::prelude::*;
use vstd::slice::{slice_subrange, slice_to_vec};

verus! {

/// How many bytes of a frame hold its length.
pub const LENGTH_FIELD: usize = 2;

/// What input and output report when they fail.
#[verifier::external_type_specification]
#[verifier::external_body]
pub struct ExIoError(std::io::Error);

/// The longest message whose frame has a length field of `width` bytes.
pub open spec fn longest_message(width: nat) -> int {
    if pow(256, width) - 1 < 8 * 1024 * 1024 {
        pow(256, width) - 1
    } else {
        8int * 1024 * 1024
    }
}

/// `message` behind its length in `width` bytes, least significant first.
pub open spec fn frame_bytes(message: Seq<u8>, width: nat) -> Seq<u8> {
    le_bytes(message.len(), width) + message
}

/// `encode` of a `tokio_util` `LengthDelimitedCodec` that has a little-endian
/// length field of `width` bytes and is otherwise left at its defaults, into an
/// empty buffer.
///
/// Claims that the buffer then holds the message behind its length, and that it
/// fails only for a message longer than the field can tell or than eight
/// mebibytes, the codec's own limit.
#[verifier::external_body]
fn codec_encode(message: Vec<u8>, width: usize) -> (frame: Result<Vec<u8>, std::io::Error>)
    requires
        1 <= width <= 8,
    ensures
        match frame {
            Ok(frame) => message@.len() <= longest_message(width as nat) && frame@ == frame_bytes(
                message@,
                width as nat,
            ),
            Err(_) => message@.len() > longest_message(width as nat),
        },
{
    let mut codec = LengthDelimitedCodec::builder().length_field_length(width).little_endian().new_codec();
    let mut frame = BytesMut::new();
    match codec.encode(Bytes::from(message), &mut frame) {
        Ok(()) => Ok(frame.to_vec()),
        Err(error) => Err(error),
    }
}

/// The frame of a message, or nothing for a message too long for one.
pub fn frame(message: Vec<u8>) -> (frame: Option<Vec<u8>>)
    ensures
        match frame {
            Some(frame) => message@.len() <= u16::MAX && frame@ == frame_bytes(message@, 2),
            None => message@.len() > u16::MAX,
        },
{
    proof {
        reveal_with_fuel(pow, 3);
        assert(longest_message(2) == u16::MAX);
    }
    match codec_encode(message, LENGTH_FIELD) {
        Ok(frame) => Some(frame),
        Err(_) => None,
    }
}

/// `decode` of a new `tokio_util` `LengthDelimitedCodec` that has a little-endian
/// length field of `width` bytes and is otherwise left at its defaults, on the bytes
/// of `stream`.
///
/// Claims that it gives the message whose frame the stream starts with, nothing where
/// no whole frame is there yet, and that it fails only for a length beyond eight
/// mebibytes, the codec's own limit.
#[verifier::external_body]
fn codec_decode(stream: &[u8], width: usize) -> (decoded: Result<Option<Vec<u8>>, std::io::Error>)
    requires
        1 <= width <= 8,
    ensures
        match decoded {
            Ok(Some(message)) => message@.len() <= longest_message(width as nat) && frame_bytes(
                message@,
                width as nat,
            ).is_prefix_of(stream@),
            Ok(None) => forall|message: Seq<u8>|
                message.len() <= longest_message(width as nat) ==> !(#[trigger] frame_bytes(
                    message,
                    width as nat,
                )).is_prefix_of(stream@),
            Err(_) => exists|length: nat|
                longest_message(width as nat) < length < pow(256, width as nat) && (
                #[trigger] le_bytes(length, width as nat)).is_prefix_of(stream@),
        },
{
    let mut codec = LengthDelimitedCodec::builder().length_field_length(width).little_endian().new_codec();
    match codec.decode(&mut BytesMut::from(stream)) {
        Ok(Some(message)) => Ok(Some(message.to_vec())),
        Ok(None) => Ok(None),
        Err(error) => Err(error),
    }
}

/// The messages in a stream of frames, each frame taken where the one before it
/// ends. What is left over at the end is no whole frame.
pub open spec fn messages_in(stream: Seq<u8>) -> Seq<Seq<u8>>
    decreases stream.len(),
{
    if stream.len() < LENGTH_FIELD {
        Seq::empty()
    } else {
        let end = LENGTH_FIELD + stream[0] + 256 * stream[1];
        if stream.len() < end {
            Seq::empty()
        } else {
            seq![stream.subrange(LENGTH_FIELD as int, end)] + messages_in(stream.skip(end))
        }
    }
}

proof fn lemma_length_field(message: Seq<u8>)
    requires
        message.len() <= u16::MAX,
    ensures
        frame_bytes(message, 2).len() == LENGTH_FIELD + message.len(),
        frame_bytes(message, 2)[0] + 256 * frame_bytes(message, 2)[1] == message.len(),
{
    reveal_with_fuel(le_bytes, 3);
}

/// Messages that are sent one behind the other, each in its frame, are the messages
/// that arrive, in their order. What follows them is read as it would be alone.
pub proof fn law_frames_arrive(messages: Seq<Seq<u8>>, rest: Seq<u8>)
    requires
        forall|i: int| 0 <= i < messages.len() ==> (#[trigger] messages[i]).len() <= u16::MAX,
    ensures
        messages_in(
            messages.map_values(|message: Seq<u8>| frame_bytes(message, 2)).flatten() + rest,
        ) == messages + messages_in(rest),
        left_over(
            messages.map_values(|message: Seq<u8>| frame_bytes(message, 2)).flatten() + rest,
        ) == left_over(rest),
    decreases messages.len(),
{
    let frames = messages.map_values(|message: Seq<u8>| frame_bytes(message, 2));
    let stream = frames.flatten() + rest;
    if messages.len() == 0 {
        assert(stream =~= rest);
        assert(messages + messages_in(rest) =~= messages_in(rest));
    } else {
        let (first, others) = (messages.first(), messages.drop_first());
        assert(first.len() <= u16::MAX);
        assert(frames.drop_first() =~= others.map_values(
            |message: Seq<u8>| frame_bytes(message, 2),
        ));
        assert forall|i: int| 0 <= i < others.len() implies (#[trigger] others[i]).len() <= u16::MAX by {
            assert(others[i] == messages[i + 1]);
        }
        let behind = frames.drop_first().flatten() + rest;
        assert(stream =~= frame_bytes(first, 2) + behind);
        lemma_length_field(first);
        let end = LENGTH_FIELD + first.len();
        assert(stream.subrange(LENGTH_FIELD as int, end) =~= first);
        assert(stream.skip(end) =~= behind);
        law_frames_arrive(others, rest);
        assert(messages + messages_in(rest) =~= seq![first] + (others + messages_in(rest)));
    }
}

/// What is left of a stream once its whole frames are taken.
pub open spec fn left_over(stream: Seq<u8>) -> Seq<u8>
    decreases stream.len(),
{
    if stream.len() < LENGTH_FIELD {
        stream
    } else {
        let end = LENGTH_FIELD + stream[0] + 256 * stream[1];
        if stream.len() < end {
            stream
        } else {
            left_over(stream.skip(end))
        }
    }
}

/// A stream that starts with a frame holds its message, then what follows the frame.
proof fn lemma_first_message(message: Seq<u8>, stream: Seq<u8>)
    requires
        message.len() <= u16::MAX,
        frame_bytes(message, 2).is_prefix_of(stream),
    ensures
        LENGTH_FIELD + message.len() <= stream.len(),
        messages_in(stream) == seq![message] + messages_in(stream.skip(LENGTH_FIELD + message.len())),
        left_over(stream) == left_over(stream.skip(LENGTH_FIELD + message.len())),
{
    lemma_length_field(message);
    lemma_prefix_rest(frame_bytes(message, 2), stream);
    let end = LENGTH_FIELD + message.len();
    assert(stream.subrange(LENGTH_FIELD as int, end) =~= message);
}

/// A stream that starts with no whole frame holds no message.
proof fn lemma_no_message(stream: Seq<u8>)
    requires
        forall|message: Seq<u8>|
            message.len() <= u16::MAX ==> !(#[trigger] frame_bytes(message, 2)).is_prefix_of(stream),
    ensures
        messages_in(stream) == Seq::<Seq<u8>>::empty(),
        left_over(stream) == stream,
{
    if stream.len() >= LENGTH_FIELD {
        let end = LENGTH_FIELD + stream[0] + 256 * stream[1];
        if stream.len() >= end {
            let message = stream.subrange(LENGTH_FIELD as int, end);
            reveal_with_fuel(le_bytes, 3);
            assert(frame_bytes(message, 2) =~= stream.subrange(0, end));
            assert(frame_bytes(message, 2).is_prefix_of(stream));
        }
    }
}

/// The frames of one connection, as its bytes come in.
#[derive(Debug)]
pub struct FrameReader {
    pending: Vec<u8>,
}

impl View for FrameReader {
    type V = Seq<u8>;

    /// The bytes that came in and belong to no whole frame yet.
    closed spec fn view(&self) -> Seq<u8> {
        self.pending@
    }
}

impl FrameReader {
    /// A connection that nothing has come in on.
    pub fn new() -> (reader: FrameReader)
        ensures
            reader@ == Seq::<u8>::empty(),
    {
        FrameReader { pending: Vec::new() }
    }

    /// Takes bytes that came in, and gives the messages that are complete with them.
    pub fn receive(&mut self, bytes: &[u8]) -> (messages: Vec<Vec<u8>>)
        ensures
            messages@.map_values(|message: Vec<u8>| message@) == messages_in(old(self)@ + bytes@),
            final(self)@ == left_over(old(self)@ + bytes@),
    {
        self.pending.extend_from_slice(bytes);
        let ghost stream = self.pending@;
        assert(stream =~= old(self)@ + bytes@);
        let mut messages: Vec<Vec<u8>> = Vec::new();
        let mut rest = self.pending.as_slice();
        let mut more = true;
        let ghost mut taken = Seq::<Seq<u8>>::empty();
        assert(taken + messages_in(rest@) =~= messages_in(stream));
        while more
            invariant
                taken + messages_in(rest@) == messages_in(stream),
                left_over(rest@) == left_over(stream),
                messages@.map_values(|message: Vec<u8>| message@) == taken,
                !more ==> messages_in(rest@).len() == 0 && left_over(rest@) == rest@,
            decreases rest@.len() + (if more { 1int } else { 0 }),
        {
            proof {
                reveal_with_fuel(pow, 3);
                assert(longest_message(2) == u16::MAX);
                assert(rest@.len() == rest.len());
            }
            match codec_decode(rest, LENGTH_FIELD) {
                Ok(Some(message)) => {
                    proof {
                        lemma_first_message(message@, rest@);
                    }
                    let end = LENGTH_FIELD + message.len();
                    assert(taken.push(message@) + messages_in(rest@.skip(end as int)) =~= taken
                        + messages_in(rest@));
                    rest = slice_subrange(rest, end, rest.len());
                    proof {
                        taken = taken.push(message@);
                    }
                    let ghost before = messages@;
                    messages.push(message);
                    assert(messages@.map_values(|message: Vec<u8>| message@) =~= before.map_values(
                        |message: Vec<u8>| message@,
                    ).push(message@));
                },
                Ok(None) => {
                    proof {
                        lemma_no_message(rest@);
                    }
                    more = false;
                },
                Err(_) => {
                    more = false;
                },
            }
        }
        assert(taken =~= messages_in(stream));
        self.pending = slice_to_vec(rest);
        messages
    }
}

/// What comes in next is read behind what was left over.
proof fn lemma_stream_goes_on(stream: Seq<u8>, more: Seq<u8>)
    ensures
        messages_in(stream + more) == messages_in(stream) + messages_in(left_over(stream) + more),
        left_over(stream + more) == left_over(left_over(stream) + more),
    decreases stream.len(),
{
    let whole = stream + more;
    let end = LENGTH_FIELD + stream[0] + 256 * stream[1];
    if stream.len() < LENGTH_FIELD || stream.len() < end {
        assert(messages_in(stream) + messages_in(whole) =~= messages_in(whole));
    } else {
        let rest = stream.skip(end);
        assert(whole.skip(end) =~= rest + more);
        assert(whole.subrange(LENGTH_FIELD as int, end) =~= stream.subrange(LENGTH_FIELD as int, end));
        lemma_stream_goes_on(rest, more);
        let first = seq![stream.subrange(LENGTH_FIELD as int, end)];
        assert(messages_in(stream) + messages_in(left_over(stream) + more) =~= first + (messages_in(
            rest,
        ) + messages_in(left_over(rest) + more)));
    }
}

/// What a reader hands out that has `pending` and receives `chunks` one after the other.
pub open spec fn handed_out(pending: Seq<u8>, chunks: Seq<Seq<u8>>) -> Seq<Seq<u8>>
    decreases chunks.len(),
{
    if chunks.len() == 0 {
        Seq::empty()
    } else {
        let stream = pending + chunks.first();
        messages_in(stream) + handed_out(left_over(stream), chunks.drop_first())
    }
}

/// What a reader has pending that had `pending` and received `chunks`.
pub open spec fn pending_after(pending: Seq<u8>, chunks: Seq<Seq<u8>>) -> Seq<u8>
    decreases chunks.len(),
{
    if chunks.len() == 0 {
        pending
    } else {
        pending_after(left_over(pending + chunks.first()), chunks.drop_first())
    }
}

proof fn lemma_nothing_left_over(stream: Seq<u8>)
    ensures
        left_over(left_over(stream)) == left_over(stream),
        messages_in(left_over(stream)) == Seq::<Seq<u8>>::empty(),
    decreases stream.len(),
{
    if stream.len() >= LENGTH_FIELD {
        let end = LENGTH_FIELD + stream[0] + 256 * stream[1];
        if stream.len() >= end {
            lemma_nothing_left_over(stream.skip(end));
        }
    }
}

/// It makes no difference in which pieces a stream comes in: a reader hands out the
/// messages of all the bytes that it received.
pub proof fn law_pieces_do_not_matter(pending: Seq<u8>, chunks: Seq<Seq<u8>>)
    requires
        left_over(pending) == pending,
    ensures
        handed_out(pending, chunks) == messages_in(pending + chunks.flatten()),
        pending_after(pending, chunks) == left_over(pending + chunks.flatten()),
    decreases chunks.len(),
{
    lemma_nothing_left_over(pending);
    if chunks.len() == 0 {
        assert(pending + chunks.flatten() =~= pending);
    } else {
        let stream = pending + chunks.first();
        let behind = chunks.drop_first().flatten();
        lemma_nothing_left_over(stream);
        law_pieces_do_not_matter(left_over(stream), chunks.drop_first());
        lemma_stream_goes_on(stream, behind);
        assert(pending + chunks.flatten() =~= stream + behind);
    }
}

/// What is sent arrives: of messages that were sent one behind the other, each in its
/// frame, a reader at the other end hands out exactly these, in their order and in
/// whatever pieces the bytes come in, and has nothing pending in the end.
pub proof fn law_sent_messages_are_received(messages: Seq<Seq<u8>>, chunks: Seq<Seq<u8>>)
    requires
        forall|i: int| 0 <= i < messages.len() ==> (#[trigger] messages[i]).len() <= u16::MAX,
        chunks.flatten() == messages.map_values(|message: Seq<u8>| frame_bytes(message, 2)).flatten(),
    ensures
        handed_out(Seq::empty(), chunks) == messages,
        pending_after(Seq::empty(), chunks) == Seq::<u8>::empty(),
{
    let nothing = Seq::<u8>::empty();
    law_pieces_do_not_matter(nothing, chunks);
    assert(nothing + chunks.flatten() =~= chunks.flatten() + nothing);
    law_frames_arrive(messages, nothing);
    assert(messages + messages_in(nothing) =~= messages);
}

/// A frame of which the end has not arrived is not read as anything.
pub proof fn law_cut_frame_waits(message: Seq<u8>, kept: int)
    requires
        message.len() <= u16::MAX,
        0 <= kept < frame_bytes(message, 2).len(),
    ensures
        messages_in(frame_bytes(message, 2).take(kept)) == Seq::<Seq<u8>>::empty(),
        left_over(frame_bytes(message, 2).take(kept)) == frame_bytes(message, 2).take(kept),
{
    lemma_length_field(message);
}

/// The frame of a message, byte by byte.
pub proof fn lemma_frame_layout(message: Seq<u8>)
    requires
        message.len() <= 65535,
    ensures
        frame_bytes(message, 2) == seq![(message.len() % 256) as u8, (message.len() / 256) as u8]
            + message,
{
    reveal_with_fuel(le_bytes, 3);
    assert(le_bytes(message.len(), 2) =~= seq![
        (message.len() % 256) as u8,
        (message.len() / 256) as u8,
    ]);
}

/// Every message of up to 65535 bytes has a frame, and no longer one has: its length in
/// two bytes, the low one first, then the message itself.
pub proof fn law_messages_are_framed(message: Vec<u8>, framed: Option<Vec<u8>>)
    requires
        call_ensures(frame, (message,), framed),
    ensures
        message@.len() <= 65535 ==> (framed matches Some(framed) && framed@ == seq![
            (message@.len() % 256) as u8,
            (message@.len() / 256) as u8,
        ] + message@),
        message@.len() > 65535 ==> framed is None,
        call_requires(frame, (message,)),
{
    if message@.len() <= 65535 {
        lemma_frame_layout(message@);
    }
}

proof fn lemma_stream_taken_apart(stream: Seq<u8>)
    ensures
        stream == messages_in(stream).map_values(
            |message: Seq<u8>|
                seq![(message.len() % 256) as u8, (message.len() / 256) as u8] + message,
        ).flatten() + left_over(stream),
        forall|i: int| 0 <= i < messages_in(stream).len() ==> (#[trigger] messages_in(stream)[i]).len() <= 65535,
        left_over(stream).len() < 2 || left_over(stream).len() < 2 + left_over(stream)[0] + 256
            * left_over(stream)[1],
    decreases stream.len(),
{
    let framed = |message: Seq<u8>|
        seq![(message.len() % 256) as u8, (message.len() / 256) as u8] + message;
    let messages = messages_in(stream);
    let end = 2 + stream[0] + 256 * stream[1];
    if stream.len() < 2 || stream.len() < end {
        assert(messages.map_values(framed) =~= Seq::empty());
        assert(stream =~= messages.map_values(framed).flatten() + left_over(stream));
    } else {
        let (first, rest) = (stream.subrange(2, end), stream.skip(end));
        lemma_stream_taken_apart(rest);
        assert(messages =~= seq![first] + messages_in(rest));
        assert(messages.map_values(framed).drop_first() =~= messages_in(rest).map_values(framed));
        assert(framed(first) =~= stream.take(end));
        assert(stream =~= framed(first) + rest);
        assert(messages.map_values(framed).flatten() =~= framed(first) + messages_in(rest).map_values(
            framed,
        ).flatten());
        assert(stream =~= messages.map_values(framed).flatten() + left_over(stream));
        assert forall|i: int| 0 <= i < messages.len() implies (#[trigger] messages[i]).len() <= 65535 by {
            if i > 0 {
                assert(messages[i] == messages_in(rest)[i - 1]);
            }
        }
    }
}

/// Nothing that comes in is lost, changed or held back: the bytes that were pending and
/// those received are the frames of the messages handed out, one behind the other, and
/// what is then pending, which starts with no whole frame.
pub proof fn law_reader_takes_the_stream_apart(
    reader: &mut FrameReader,
    bytes: &[u8],
    messages: Vec<Vec<u8>>,
)
    requires
        call_ensures(FrameReader::receive, (reader, bytes), messages),
    ensures
        old(reader)@ + bytes@ == messages@.map_values(
            |message: Vec<u8>|
                seq![(message@.len() % 256) as u8, (message@.len() / 256) as u8] + message@,
        ).flatten() + final(reader)@,
        forall|i: int| 0 <= i < messages@.len() ==> (#[trigger] messages@[i])@.len() <= 65535,
        final(reader)@.len() < 2 || final(reader)@.len() < 2 + final(reader)@[0] + 256
            * final(reader)@[1],
        call_requires(FrameReader::receive, (reader, bytes)),
{
    let stream = old(reader)@ + bytes@;
    lemma_stream_taken_apart(stream);
    let views = messages@.map_values(|message: Vec<u8>| message@);
    assert(views.map_values(
        |message: Seq<u8>| seq![(message.len() % 256) as u8, (message.len() / 256) as u8] + message,
    ) =~= messages@.map_values(
        |message: Vec<u8>| seq![(message@.len() % 256) as u8, (message@.len() / 256) as u8] + message@,
    ));
    assert forall|i: int| 0 <= i < messages@.len() implies (#[trigger] messages@[i])@.len() <= 65535 by {
        assert(views[i] == messages@[i]@);
    }
}

/// A new reader has nothing pending.
pub proof fn law_reader_starts_with_nothing(reader: FrameReader)
    requires
        call_ensures(FrameReader::new, (), reader),
    ensures
        reader@.len() == 0,
        call_requires(FrameReader::new, ()),
{
}

} // verus!
