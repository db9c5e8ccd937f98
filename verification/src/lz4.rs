//! Compressed shards: the LZ4 frame format, as an in-memory writer and an in-memory reader.

use lz4_flex::frame::{FrameDecoder, FrameEncoder};
use std::io::{Cursor, ErrorKind, Read, Write};
use vstd::prelude::*;

verus! {

/// An outside type: the error of the frame encoder.
#[verifier::external_type_specification]
#[verifier::external_body]
pub struct ExFrameError(lz4_flex::frame::Error);

/// What a text in the LZ4 frame format decompresses to, and whether it does so without an error:
/// the bytes that come out of a decoder before it reports the end, or else before it fails.
pub uninterp spec fn lz4_decoded(compressed: Seq<u8>) -> (Seq<u8>, bool);

/// A frame encoder from `lz4_flex` that writes to memory. It is opaque: the four names below say
/// what there is to know of it.
#[verifier::external_body]
pub struct FrameWriter {
    inner: FrameEncoder<Vec<u8>>,
}

/// All bytes that an encoder has been given.
pub uninterp spec fn frame_input(writer: FrameWriter) -> Seq<u8>;

/// All bytes that an encoder has put out.
pub uninterp spec fn frame_emitted(writer: FrameWriter) -> Seq<u8>;

/// The bytes that an encoder has put out and that have not been taken away.
pub uninterp spec fn frame_buffer(writer: FrameWriter) -> Seq<u8>;

/// Whether an encoder has put out everything that it has been given, as whole blocks.
pub uninterp spec fn frame_flushed(writer: FrameWriter) -> bool;

/// The bytes that end a frame.
pub open spec fn end_mark() -> Seq<u8> {
    seq![0u8, 0u8, 0u8, 0u8]
}

/// Whether some bytes end a frame.
pub open spec fn ends_frame(bytes: Seq<u8>) -> bool {
    bytes.len() >= 4 && bytes.skip(bytes.len() - 4) == end_mark()
}

/// Whether an encoder has put out more, and nothing was taken away.
pub open spec fn frame_grown(before: FrameWriter, after: FrameWriter) -> bool {
    exists|more: Seq<u8>|
        frame_emitted(after) == frame_emitted(before) + more && frame_buffer(after)
            == #[trigger] (frame_buffer(before) + more)
}

/// Calls `FrameEncoder::new` on an empty vector. Trusted: nothing has been put in or out yet.
#[verifier::external_body]
pub(crate) fn frame_writer() -> (writer: FrameWriter)
    ensures
        frame_input(writer) == Seq::<u8>::empty(),
        frame_emitted(writer) == Seq::<u8>::empty(),
        frame_buffer(writer) == Seq::<u8>::empty(),
        frame_flushed(writer),
{
    FrameWriter { inner: FrameEncoder::new(Vec::new()) }
}

/// Calls `FrameEncoder::write_all`, and says whether it succeeded. Trusted: it does, exactly these
/// bytes are put in, and output is at most added. The encoder fails only where its sink does, where
/// the room for a compressed block is too small or where a block is empty or too large for its
/// header; a vector takes everything, the encoder makes room for the worst case, and it writes no
/// block that is empty or exceeds the largest block size.
#[verifier::external_body]
pub(crate) fn frame_write_all(writer: &mut FrameWriter, bytes: &[u8]) -> (ok: bool)
    ensures
        ok,
        frame_input(*final(writer)) == frame_input(*old(writer)) + bytes@,
        frame_grown(*old(writer), *final(writer)),
{
    writer.inner.write_all(bytes).is_ok()
}

/// Calls `FrameEncoder::flush`, and says whether it succeeded. Trusted: it does, for the reasons
/// for which [`frame_write_all`] does; output is at most added, and everything that was put in has
/// been put out as whole blocks, so that a decoder gives back the input from the output. A decoder
/// takes the end of its source between two blocks for the end of the frame. Where everything had
/// been put out before, nothing is added.
#[verifier::external_body]
pub(crate) fn frame_flush(writer: &mut FrameWriter) -> (ok: bool)
    ensures
        ok,
        frame_input(*final(writer)) == frame_input(*old(writer)),
        frame_grown(*old(writer), *final(writer)),
        lz4_decoded(frame_emitted(*final(writer))) == (frame_input(*final(writer)), true),
        frame_flushed(*final(writer)),
        frame_flushed(*old(writer)) ==> frame_emitted(*final(writer)) == frame_emitted(*old(writer))
            && frame_buffer(*final(writer)) == frame_buffer(*old(writer)),
{
    writer.inner.flush().is_ok()
}

/// Calls `FrameEncoder::get_ref`. Trusted: the vector it gives holds what has not been taken away.
#[verifier::external_body]
pub(crate) fn frame_buffered(writer: &FrameWriter) -> (buffer: &Vec<u8>)
    ensures
        buffer@ == frame_buffer(*writer),
{
    writer.inner.get_ref()
}

/// Calls `FrameEncoder::get_mut`, and takes the bytes out of the vector it gives. Trusted: what had
/// not been taken away is now, and nothing else has changed.
#[verifier::external_body]
pub(crate) fn frame_take_buffer(writer: &mut FrameWriter) -> (bytes: Vec<u8>)
    ensures
        bytes@ == frame_buffer(*old(writer)),
        frame_buffer(*final(writer)) == Seq::<u8>::empty(),
        frame_input(*final(writer)) == frame_input(*old(writer)),
        frame_emitted(*final(writer)) == frame_emitted(*old(writer)),
        frame_flushed(*final(writer)) == frame_flushed(*old(writer)),
{
    std::mem::take(writer.inner.get_mut())
}

/// Calls `FrameEncoder::finish`. Trusted: it succeeds, for beyond what [`frame_flush`] does it only
/// writes the end mark, and before that the header if nothing was put in, and it compares sizes
/// only where one was announced, which is not the case here. It gives what had not been taken away
/// and more, which ends with the end mark and is nothing else where something was put in and all of
/// it had been put out. A decoder gives back the input from the output with that.
#[verifier::external_body]
pub(crate) fn frame_finish(writer: FrameWriter) -> (r: Result<Vec<u8>, lz4_flex::frame::Error>)
    ensures
        r is Ok,
        r matches Ok(bytes) ==> exists|more: Seq<u8>|
            {
                &&& bytes@ == frame_buffer(writer) + more
                &&& lz4_decoded(#[trigger] (frame_emitted(writer) + more)) == (
                    frame_input(writer),
                    true,
                )
                &&& ends_frame(more)
                &&& frame_flushed(writer) && frame_input(writer).len() > 0 ==> more == end_mark()
            },
{
    writer.inner.finish()
}

/// A frame decoder from `lz4_flex` that reads from memory. It is opaque: the three names below say
/// what there is to know of it.
#[verifier::external_body]
pub struct FrameReader {
    inner: FrameDecoder<Cursor<Vec<u8>>>,
}

/// The bytes that are still to come out of a decoder.
pub uninterp spec fn frame_rest(reader: FrameReader) -> Seq<u8>;

/// Whether a decoder will report the end rather than an error after them.
pub uninterp spec fn frame_intact(reader: FrameReader) -> bool;

/// Whether a decoder has reported its end or an error.
pub uninterp spec fn frame_ended(reader: FrameReader) -> bool;

/// Calls `FrameDecoder::new` on a cursor over `compressed`. Trusted: what comes out of the decoder
/// is what `compressed` decompresses to, and nothing has been reported yet.
#[verifier::external_body]
pub(crate) fn frame_reader(compressed: Vec<u8>) -> (reader: FrameReader)
    ensures
        (frame_rest(reader), frame_intact(reader)) == lz4_decoded(compressed@),
        !frame_ended(reader),
{
    FrameReader { inner: FrameDecoder::new(Cursor::new(compressed)) }
}

/// Calls `FrameDecoder::read`, and says of an error whether it is an interruption. Trusted: the
/// next bytes, and as many as it says, come out; none come out only at the end; an error comes
/// only when no bytes are left, and is no interruption, for reading from memory is never
/// interrupted. A decoder that has reported its end or an error is not to be read again: it would
/// go on to a next frame with buffers that were made for the last one.
#[verifier::external_body]
pub(crate) fn frame_read(reader: &mut FrameReader, buffer: &mut Vec<u8>) -> (r: Result<usize, bool>)
    requires
        old(buffer)@.len() > 0,
        !frame_ended(*old(reader)),
    ensures
        final(buffer)@.len() == old(buffer)@.len(),
        match r {
            Ok(n) => {
                &&& n <= final(buffer)@.len()
                &&& n <= frame_rest(*old(reader)).len()
                &&& final(buffer)@.take(n as int) == frame_rest(*old(reader)).take(n as int)
                &&& n == 0 ==> frame_rest(*old(reader)).len() == 0 && frame_intact(*old(reader))
                &&& n > 0 ==> frame_rest(*final(reader)) == frame_rest(*old(reader)).skip(n as int)
                &&& n > 0 ==> frame_intact(*final(reader)) == frame_intact(*old(reader))
                &&& n > 0 ==> !frame_ended(*final(reader))
            },
            Err(interrupted) => {
                &&& !interrupted
                &&& frame_rest(*old(reader)).len() == 0
                &&& !frame_intact(*old(reader))
            },
        },
{
    reader.inner.read(buffer).map_err(|e| e.kind() == ErrorKind::Interrupted)
}

} // verus!
