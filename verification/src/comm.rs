//! Moving shards between pipes and compressed objects, on disk or in a bucket.

use crate::lz4::{
    end_mark, ends_frame, frame_buffer, frame_buffered, frame_emitted, frame_ended, frame_finish,
    frame_flush, frame_flushed, frame_grown, frame_input, frame_intact, frame_read, frame_reader,
    frame_rest, frame_take_buffer, frame_write_all, frame_writer, lz4_decoded, FrameReader,
    FrameWriter,
};
use crate::reassembly::joined;
use crate::text::{append_decimal, decimal, lemma_decimal_injective};
use vstd::prelude::*;

verus! {

/// How much is read at a time from a compressed object, in bytes.
pub const READ_SIZE: usize = 1048576;

/// The least size of all parts of an upload but the last, in bytes.
pub const MIN_PART_SIZE: usize = 5242880;

/// The name of the object that holds a shard.
pub open spec fn shard_name(shard: nat) -> Seq<char> {
    "img-"@ + decimal(shard) + ".lz4"@
}

/// Names the object that holds a shard.
pub fn shard_file_name(shard: usize) -> (name: String)
    ensures
        name@ == shard_name(shard as nat),
{
    let mut name = "img-".to_owned();
    append_decimal(&mut name, shard as u64);
    name.append(".lz4");
    name
}

/// Different shards are in different objects.
pub proof fn law_shard_names_differ(a: nat, b: nat)
    requires
        a != b,
    ensures
        shard_name(a) != shard_name(b),
{
    if shard_name(a) == shard_name(b) {
        let prefix = "img-"@;
        let suffix = ".lz4"@;
        let n = prefix.len() as int;
        assert(shard_name(a).len() == shard_name(b).len());
        assert(decimal(a) =~= shard_name(a).subrange(n, n + decimal(a).len()));
        assert(decimal(b) =~= shard_name(b).subrange(n, n + decimal(b).len()));
        lemma_decimal_injective(a, b);
    }
}

/// What came of an attempt to read.
#[derive(Debug, Clone, Copy, PartialEq, Eq, Structural)]
pub enum ReadOutcome {
    /// This many bytes, which is none at the end.
    Read(usize),
    /// An interruption.
    Interrupted,
    /// Any other error.
    Failed,
}

/// What a copy loop does next.
#[derive(Debug, Clone, Copy, PartialEq, Eq, Structural)]
pub enum CopyStep {
    /// Write this many bytes of the buffer, then read again.
    Write(usize),
    /// Finish: everything has been copied.
    Finish,
    /// Read again.
    Retry,
    /// Give up.
    Abort,
}

/// Decides how a copy loop goes on after an attempt to read.
pub fn copy_step(outcome: ReadOutcome) -> (step: CopyStep)
    ensures
        step == match outcome {
            ReadOutcome::Read(n) => if n == 0 {
                CopyStep::Finish
            } else {
                CopyStep::Write(n)
            },
            ReadOutcome::Interrupted => CopyStep::Retry,
            ReadOutcome::Failed => CopyStep::Abort,
        },
{
    match outcome {
        ReadOutcome::Read(n) => {
            if n == 0 {
                CopyStep::Finish
            } else {
                CopyStep::Write(n)
            }
        },
        ReadOutcome::Interrupted => CopyStep::Retry,
        ReadOutcome::Failed => CopyStep::Abort,
    }
}

/// Why an upload cannot go on.
#[derive(Debug, Clone, Copy, PartialEq, Eq, Structural)]
pub enum UploadError {
    /// The encoder took no more bytes.
    Write,
    /// The encoder could not put out what it had taken.
    Flush,
}

impl UploadError {
    /// The text shown to the user.
    pub open spec fn text(self) -> Seq<char> {
        match self {
            UploadError::Write => "Unable to write bytes"@,
            UploadError::Flush => "Failed to flush encoder"@,
        }
    }

    /// Says in words what went wrong.
    pub fn message(&self) -> (s: &'static str)
        ensures
            s@ == self.text(),
    {
        match self {
            UploadError::Write => "Unable to write bytes",
            UploadError::Flush => "Failed to flush encoder",
        }
    }
}

/// Whether an object decompresses to a shard.
pub open spec fn holds_shard(object: Seq<u8>, shard: Seq<u8>) -> bool {
    lz4_decoded(object) == (shard, true)
}

/// One part of an upload.
#[derive(Debug)]
pub struct Part {
    /// The place of the part in the object, counted from 1.
    pub number: i32,
    /// The bytes of the part.
    pub data: Vec<u8>,
}

/// The mathematical state of a [`PartUpload`].
#[verifier::ext_equal]
pub struct UploadView {
    /// All bytes of the shard so far.
    pub input: Seq<u8>,
    /// All bytes of the compressed object so far.
    pub emitted: Seq<u8>,
    /// The bytes of the compressed object that are in no part yet.
    pub buffered: Seq<u8>,
    /// The parts so far.
    pub parts: Seq<Seq<u8>>,
    /// The number of the next part.
    pub part_number: i32,
    /// The number of bytes of the shard so far.
    pub total_bytes_read: u64,
    /// Whether the compressed object so far holds all bytes of the shard so far.
    pub flushed: bool,
}

impl UploadView {
    /// Whether the state is one that can come up: the parts and what is in no part yet make up
    /// the object, nothing is missing from it, parts are counted from 1, and each has at least the
    /// least size.
    pub open spec fn wf(self) -> bool {
        &&& self.flushed
        &&& self.emitted == joined(self.parts) + self.buffered
        &&& self.part_number == self.parts.len() + 1
        &&& self.total_bytes_read == self.input.len()
        &&& forall|i: int|
            0 <= i < self.parts.len() ==> (#[trigger] self.parts[i]).len() >= MIN_PART_SIZE
    }
}

/// Compresses a shard, and cuts the compressed object into parts.
pub struct PartUpload {
    encoder: FrameWriter,
    part_number: i32,
    total_bytes_read: u64,
    parts: Ghost<Seq<Seq<u8>>>,
}

impl View for PartUpload {
    type V = UploadView;

    closed spec fn view(&self) -> UploadView {
        UploadView {
            input: frame_input(self.encoder),
            emitted: frame_emitted(self.encoder),
            buffered: frame_buffer(self.encoder),
            parts: self.parts@,
            part_number: self.part_number,
            total_bytes_read: self.total_bytes_read,
            flushed: frame_flushed(self.encoder),
        }
    }
}

/// One more chunk.
proof fn lemma_joined_push(chunks: Seq<Seq<u8>>, chunk: Seq<u8>)
    ensures
        joined(chunks.push(chunk)) == joined(chunks) + chunk,
{
    assert(chunks.push(chunk).drop_last() =~= chunks);
}

/// Has an encoder take in more bytes of a shard, and put out everything it has taken in. An encoder
/// that writes to memory does not fail.
fn encode(encoder: &mut FrameWriter, bytes: &[u8]) -> (r: Result<(), UploadError>)
    ensures
        r == Ok::<(), UploadError>(()),
        frame_input(*final(encoder)) == frame_input(*old(encoder)) + bytes@,
        frame_grown(*old(encoder), *final(encoder)),
        frame_flushed(*final(encoder)),
        holds_shard(frame_emitted(*final(encoder)), frame_input(*final(encoder))),
{
    let ghost start = *encoder;
    if !frame_write_all(encoder, bytes) {
        return Err(UploadError::Write);
    }
    let ghost middle = *encoder;
    if !frame_flush(encoder) {
        return Err(UploadError::Flush);
    }
    proof {
        let a = choose|a: Seq<u8>|
            frame_emitted(middle) == frame_emitted(start) + a && frame_buffer(middle)
                == #[trigger] (frame_buffer(start) + a);
        let b = choose|b: Seq<u8>|
            frame_emitted(*encoder) == frame_emitted(middle) + b && frame_buffer(*encoder)
                == #[trigger] (frame_buffer(middle) + b);
        assert(frame_emitted(*encoder) =~= frame_emitted(start) + (a + b));
        assert(frame_buffer(*encoder) =~= frame_buffer(start) + (a + b));
    }
    Ok(())
}

/// More output keeps an upload well-formed.
proof fn lemma_grown(before: UploadView, after: UploadView, more: Seq<u8>)
    requires
        before.emitted == joined(before.parts) + before.buffered,
        after.emitted == before.emitted + more,
        after.buffered == before.buffered + more,
        after.parts == before.parts,
    ensures
        after.emitted == joined(after.parts) + after.buffered,
{
    assert(after.emitted =~= joined(after.parts) + after.buffered);
}

/// Whether a last part completes an upload: the object that all parts make up then holds the
/// shard.
pub open spec fn completes(upload: UploadView, last: Seq<u8>) -> bool {
    holds_shard(joined(upload.parts.push(last)), upload.input)
}

/// Decides what the last part of an upload is: what is left, if the encoder could be finished.
pub fn last_part(number: i32, data: Vec<u8>, finished: bool) -> (r: Option<Part>)
    ensures
        r == if finished {
            Some(Part { number, data })
        } else {
            None
        },
{
    if finished {
        Some(Part { number, data })
    } else {
        None
    }
}

impl PartUpload {
    /// An upload of a shard of which nothing has been read.
    pub fn new() -> (u: PartUpload)
        ensures
            u@.wf(),
            u@.input == Seq::<u8>::empty(),
            u@.emitted == Seq::<u8>::empty(),
            u@.parts == Seq::<Seq<u8>>::empty(),
            u@.buffered == Seq::<u8>::empty(),
            u@.part_number == 1,
            u@.total_bytes_read == 0,
    {
        let u = PartUpload {
            encoder: frame_writer(),
            part_number: 1,
            total_bytes_read: 0,
            parts: Ghost(Seq::empty()),
        };
        assert(u@.emitted =~= joined(u@.parts) + u@.buffered);
        u
    }

    /// The number of the next part.
    pub fn part_number(&self) -> (n: i32)
        ensures
            n == self@.part_number,
    {
        self.part_number
    }

    /// How many bytes of the shard have been read.
    pub fn total_bytes_read(&self) -> (n: u64)
        ensures
            n == self@.total_bytes_read,
    {
        self.total_bytes_read
    }

    /// Cuts off a part, if there is enough for one.
    pub fn take_full_part(&mut self) -> (r: Option<Part>)
        requires
            old(self)@.wf(),
            old(self)@.part_number < i32::MAX,
        ensures
            final(self)@.wf(),
            if old(self)@.buffered.len() >= MIN_PART_SIZE {
                &&& r matches Some(part) && part.number == old(self)@.part_number && part.data@
                    == old(self)@.buffered
                &&& final(self)@ == (UploadView {
                    buffered: Seq::empty(),
                    parts: old(self)@.parts.push(old(self)@.buffered),
                    part_number: (old(self)@.part_number + 1) as i32,
                    ..old(self)@
                })
            } else {
                r is None && final(self)@ == old(self)@
            },
            r is Some <==> old(self)@.buffered.len() >= 5 * 1024 * 1024,
    {
        if frame_buffered(&self.encoder).len() < MIN_PART_SIZE {
            return None;
        }
        let data = frame_take_buffer(&mut self.encoder);
        let number: i32 = self.part_number;
        self.part_number = number + 1;
        self.parts = Ghost(self.parts@.push(data@));
        proof {
            lemma_joined_push(old(self)@.parts, data@);
            assert(self@.emitted =~= joined(self@.parts) + self@.buffered);
        }
        Some(Part { number, data })
    }

    /// Takes in more bytes of the shard, and cuts off a part if there is then enough for one. What
    /// has been put out then holds the shard so far.
    pub fn push(&mut self, bytes: &[u8]) -> (r: Result<Option<Part>, UploadError>)
        requires
            old(self)@.wf(),
            old(self)@.part_number < i32::MAX,
            old(self)@.total_bytes_read + bytes@.len() <= u64::MAX,
        ensures
            final(self)@.wf(),
            final(self)@.input == old(self)@.input + bytes@,
            final(self)@.total_bytes_read == old(self)@.total_bytes_read + bytes@.len(),
            old(self)@.emitted.is_prefix_of(final(self)@.emitted),
            holds_shard(final(self)@.emitted, final(self)@.input),
            r matches Ok(cut) && match cut {
                Some(part) => {
                    &&& final(self)@.part_number == old(self)@.part_number + 1
                    &&& part.number == old(self)@.part_number
                    &&& part.data@.len() >= MIN_PART_SIZE
                    &&& old(self)@.buffered.is_prefix_of(part.data@)
                    &&& final(self)@.parts == old(self)@.parts.push(part.data@)
                    &&& final(self)@.buffered == Seq::<u8>::empty()
                },
                None => {
                    &&& final(self)@.part_number == old(self)@.part_number
                    &&& final(self)@.parts == old(self)@.parts
                    &&& old(self)@.buffered.is_prefix_of(final(self)@.buffered)
                    &&& final(self)@.buffered.len() < MIN_PART_SIZE
                    &&& final(self)@.buffered.len() < 5 * 1024 * 1024
                },
            },
    {
        let ghost v0 = self@;
        self.total_bytes_read = self.total_bytes_read + bytes.len() as u64;
        encode(&mut self.encoder, bytes)?;
        proof {
            let v1 = self@;
            let more = choose|more: Seq<u8>|
                v1.emitted == v0.emitted + more && v1.buffered == #[trigger] (v0.buffered + more);
            lemma_grown(v0, v1, more);
        }
        Ok(self.take_full_part())
    }

    /// Ends the upload: exactly what is left makes up the last part, with which the object holds the
    /// shard.
    ///
    /// The end mark of the frame is not part of the object; decoders do without it.
    pub fn finish(self) -> (r: Result<Option<Part>, UploadError>)
        requires
            self@.wf(),
        ensures
            r matches Ok(Some(part)) && {
                &&& part.number == self@.part_number
                &&& part.data@ == self@.buffered
                &&& completes(self@, part.data@)
            },
    {
        let mut this = self;
        let ghost v0 = this@;
        if !frame_flush(&mut this.encoder) {
            return Err(UploadError::Flush);
        }
        let ghost v1 = this@;
        proof {
            let more = choose|more: Seq<u8>|
                v1.emitted == v0.emitted + more && v1.buffered == #[trigger] (v0.buffered + more);
            lemma_grown(v0, v1, more);
        }
        let data = frame_take_buffer(&mut this.encoder);
        proof {
            lemma_joined_push(v0.parts, data@);
        }
        let number: i32 = this.part_number;
        let finished = match frame_finish(this.encoder) {
            Ok(_) => true,
            Err(_) => false,
        };
        Ok(last_part(number, data, finished))
    }
}

/// The mathematical state of a [`ShardWriter`].
#[verifier::ext_equal]
pub struct WriterView {
    /// All bytes of the shard so far.
    pub input: Seq<u8>,
    /// All bytes of the compressed object so far.
    pub written: Seq<u8>,
}

/// Compresses a shard, piece by piece.
pub struct ShardWriter {
    encoder: FrameWriter,
}

impl View for ShardWriter {
    type V = WriterView;

    closed spec fn view(&self) -> WriterView {
        WriterView { input: frame_input(self.encoder), written: frame_emitted(self.encoder) }
    }
}

impl ShardWriter {
    /// Whether everything that was taken in has been put out, and that has been handed over.
    pub closed spec fn wf(self) -> bool {
        frame_flushed(self.encoder) && frame_buffer(self.encoder) == Seq::<u8>::empty()
    }

    /// A writer for a shard of which nothing has been read.
    pub fn new() -> (w: ShardWriter)
        ensures
            w.wf(),
            w@ == (WriterView { input: Seq::empty(), written: Seq::empty() }),
    {
        ShardWriter { encoder: frame_writer() }
    }

    /// Takes in more bytes of the shard, and gives what is to be added to the object, which then
    /// holds the shard so far.
    pub fn push(&mut self, bytes: &[u8]) -> (r: Result<Vec<u8>, UploadError>)
        requires
            old(self).wf(),
        ensures
            final(self).wf(),
            final(self)@.input == old(self)@.input + bytes@,
            r matches Ok(more) && final(self)@.written == old(self)@.written + more@,
            holds_shard(final(self)@.written, final(self)@.input),
    {
        let ghost start = self.encoder;
        encode(&mut self.encoder, bytes)?;
        let ghost middle = self.encoder;
        let more = frame_take_buffer(&mut self.encoder);
        proof {
            let a = choose|a: Seq<u8>|
                frame_emitted(middle) == frame_emitted(start) + a && frame_buffer(middle)
                    == #[trigger] (frame_buffer(start) + a);
            assert(frame_buffer(start) + a =~= a);
        }
        Ok(more)
    }

    /// Ends the object: gives what is to be added to it, with which it still holds the shard. That
    /// is the end mark of the frame, with the header before it if the shard is empty.
    pub fn finish(self) -> (r: Option<Vec<u8>>)
        requires
            self.wf(),
        ensures
            r matches Some(more) && {
                &&& holds_shard(self@.written + more@, self@.input)
                &&& ends_frame(more@)
                &&& self@.input.len() > 0 ==> more@ == end_mark()
            },
    {
        match frame_finish(self.encoder) {
            Ok(more) => {
                proof {
                    let a = choose|a: Seq<u8>|
                        {
                            &&& more@ == frame_buffer(self.encoder) + a
                            &&& lz4_decoded(#[trigger] (frame_emitted(self.encoder) + a)) == (
                                frame_input(self.encoder),
                                true,
                            )
                            &&& ends_frame(a)
                            &&& frame_flushed(self.encoder) && frame_input(self.encoder).len() > 0
                                ==> a == end_mark()
                        };
                    assert(frame_buffer(self.encoder) + a =~= a);
                }
                Some(more)
            },
            Err(_) => None,
        }
    }
}

/// The mathematical state of a [`ShardReader`].
#[verifier::ext_equal]
pub struct ReaderView {
    /// The bytes of the shard that are still to come.
    pub rest: Seq<u8>,
    /// Whether the object is intact to its end.
    pub intact: bool,
    /// Whether the end, or an error, has been reported.
    pub done: bool,
    /// What the buffer holds.
    pub buffer: Seq<u8>,
}

/// A reader at the beginning of an object.
pub open spec fn opened(object: Seq<u8>) -> ReaderView {
    ReaderView {
        rest: lz4_decoded(object).0,
        intact: lz4_decoded(object).1,
        done: false,
        buffer: Seq::new(READ_SIZE as nat, |i: int| 0u8),
    }
}

/// Decompresses the object that holds a shard, piece by piece.
pub struct ShardReader {
    decoder: FrameReader,
    buffer: Vec<u8>,
    done: bool,
}

impl View for ShardReader {
    type V = ReaderView;

    closed spec fn view(&self) -> ReaderView {
        ReaderView {
            rest: frame_rest(self.decoder),
            intact: frame_intact(self.decoder),
            done: self.done,
            buffer: self.buffer@,
        }
    }
}

impl ShardReader {
    /// Whether the buffer has its size, and the decoder has reported no end that the reader has
    /// not.
    pub closed spec fn wf(self) -> bool {
        &&& self.buffer@.len() == READ_SIZE
        &&& !self.done ==> !frame_ended(self.decoder)
    }

    /// A reader at the beginning of an object.
    pub fn new(object: Vec<u8>) -> (r: ShardReader)
        ensures
            r.wf(),
            r@ == opened(object@),
    {
        let r = ShardReader {
            decoder: frame_reader(object),
            buffer: vec![0u8; READ_SIZE],
            done: false,
        };
        assert(r@.buffer =~= Seq::new(READ_SIZE as nat, |i: int| 0u8));
        r
    }

    /// Decompresses the next piece of the shard into the buffer, and says what to do with it.
    /// After the end, or an error, there is no next piece.
    pub fn read_next(&mut self) -> (step: CopyStep)
        requires
            old(self).wf(),
            !old(self)@.done,
        ensures
            final(self).wf(),
            final(self)@.buffer.len() == READ_SIZE,
            match step {
                CopyStep::Write(n) => {
                    &&& 0 < n <= READ_SIZE
                    &&& n <= old(self)@.rest.len()
                    &&& final(self)@.buffer.take(n as int) == old(self)@.rest.take(n as int)
                    &&& final(self)@ == (ReaderView {
                        rest: old(self)@.rest.skip(n as int),
                        buffer: final(self)@.buffer,
                        ..old(self)@
                    })
                },
                CopyStep::Finish => {
                    &&& old(self)@.rest.len() == 0 && old(self)@.intact
                    &&& final(self)@.done
                },
                CopyStep::Abort => {
                    &&& old(self)@.rest.len() == 0 && !old(self)@.intact
                    &&& final(self)@.done
                },
                CopyStep::Retry => false,
            },
    {
        let outcome = match frame_read(&mut self.decoder, &mut self.buffer) {
            Ok(n) => ReadOutcome::Read(n),
            Err(interrupted) => {
                if interrupted {
                    ReadOutcome::Interrupted
                } else {
                    ReadOutcome::Failed
                }
            },
        };
        let step = copy_step(outcome);
        match step {
            CopyStep::Finish | CopyStep::Abort => {
                self.done = true;
            },
            _ => {},
        }
        step
    }

    /// The first `n` bytes of the buffer.
    pub fn piece(&self, n: usize) -> (bytes: &[u8])
        requires
            n <= self@.buffer.len(),
        ensures
            bytes@ == self@.buffer.take(n as int),
    {
        vstd::slice::slice_subrange(self.buffer.as_slice(), 0, n)
    }
}

/// The pieces that are read when each has the size that `sizes` gives.
pub open spec fn pieces(rest: Seq<u8>, sizes: Seq<int>) -> Seq<Seq<u8>>
    decreases sizes.len(),
{
    if sizes.len() == 0 {
        Seq::empty()
    } else {
        let before = pieces(rest, sizes.drop_last());
        before.push(rest.skip(joined(before).len() as int).take(sizes.last()))
    }
}

/// Whether pieces of these sizes can be read.
pub open spec fn readable(rest: Seq<u8>, sizes: Seq<int>) -> bool
    decreases sizes.len(),
{
    sizes.len() > 0 ==> {
        &&& readable(rest, sizes.drop_last())
        &&& 0 <= sizes.last() <= rest.len() - joined(pieces(rest, sizes.drop_last())).len()
    }
}

/// Whatever the sizes of the pieces in which a shard is read, they make up its beginning, and all
/// of it once nothing is left.
pub proof fn law_pieces_make_up_the_shard(rest: Seq<u8>, sizes: Seq<int>)
    requires
        readable(rest, sizes),
    ensures
        joined(pieces(rest, sizes)).is_prefix_of(rest),
        joined(pieces(rest, sizes)).len() == rest.len() ==> joined(pieces(rest, sizes)) == rest,
    decreases sizes.len(),
{
    if sizes.len() > 0 {
        let before = pieces(rest, sizes.drop_last());
        law_pieces_make_up_the_shard(rest, sizes.drop_last());
        let n = joined(before).len() as int;
        let piece = rest.skip(n).take(sizes.last());
        lemma_joined_push(before, piece);
        assert(joined(before) =~= rest.take(n));
        assert(joined(before) + piece =~= rest.take(n + sizes.last()));
    }
    assert(joined(pieces(rest, sizes)).len() == rest.len() ==> joined(pieces(rest, sizes)) =~= rest);
}

/// A shard that is read back is the shard that was stored: where an object holds a shard, the pieces
/// that a reader gives until none is left are all of the shard, and then the reader comes to the
/// end, not to an error.
pub proof fn law_stored_shard_comes_back(object: Seq<u8>, shard: Seq<u8>, sizes: Seq<int>)
    requires
        holds_shard(object, shard),
        readable(opened(object).rest, sizes),
        joined(pieces(opened(object).rest, sizes)).len() == opened(object).rest.len(),
    ensures
        joined(pieces(opened(object).rest, sizes)) == shard,
        opened(object).intact,
{
    law_pieces_make_up_the_shard(opened(object).rest, sizes);
}

/// An object is named by the number of its shard, in decimal, between `img-` and `.lz4`.
pub proof fn law_objects_are_named_by_their_shard(shard: nat)
    ensures
        shard_name(shard) == "img-"@ + decimal(shard) + ".lz4"@,
{
}

/// At any time, the parts of an upload, one after the other, and what is in no part yet make up the
/// compressed object; all parts so far have at least five megabytes, the next one is counted from one, and
/// every byte of the shard has been counted.
pub proof fn law_parts_make_up_the_object(u: UploadView, i: int)
    requires
        u.wf(),
    ensures
        MIN_PART_SIZE == 5 * 1024 * 1024,
        joined(u.parts) + u.buffered == u.emitted,
        0 <= i < u.parts.len() ==> u.parts[i].len() >= 5 * 1024 * 1024,
        u.part_number == u.parts.len() + 1,
        u.total_bytes_read == u.input.len(),
        u.flushed,
{
}

/// The object that a complete upload makes up decompresses, without an error, to the shard and to nothing
/// else.
pub proof fn law_complete_uploads_hold_the_shard(u: UploadView, last: Seq<u8>)
    requires
        completes(u, last),
    ensures
        lz4_decoded(joined(u.parts) + last).0 == u.input,
        lz4_decoded(joined(u.parts) + last).1,
{
    lemma_joined_push(u.parts, last);
}

/// A reader begins with all that its object decompresses to, and reads a megabyte at a time.
pub proof fn law_readers_begin_at_the_beginning(object: Seq<u8>)
    ensures
        opened(object).rest == lz4_decoded(object).0,
        opened(object).intact == lz4_decoded(object).1,
        !opened(object).done,
        opened(object).buffer.len() == 1024 * 1024,
{
}

/// Every failure says what went wrong.
pub proof fn law_failures_say_what_went_wrong()
    ensures
        UploadError::Write.text() == "Unable to write bytes"@,
        UploadError::Flush.text() == "Failed to flush encoder"@,
{
}

} // verus!
