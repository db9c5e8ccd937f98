//! An image store that hands the files of an image on, chunk by chunk, while they are still
//! being received.

use crate::reassembly::joined;
use vstd::prelude::*;

verus! {

/// The largest chunk in which file contents are handed on, in bytes.
pub const CHUNK_SIZE: usize = 10485760;

/// What is handed on of a file.
#[derive(Debug)]
pub enum FileContent {
    /// The file is complete.
    Eof,
    /// The next bytes of the file.
    Content(Vec<u8>),
}

/// The mathematical counterpart of [`FileContent`].
pub enum ContentView {
    Eof,
    Content(Seq<u8>),
}

impl View for FileContent {
    type V = ContentView;

    open spec fn view(&self) -> ContentView {
        match *self {
            FileContent::Eof => ContentView::Eof,
            FileContent::Content(bytes) => ContentView::Content(bytes@),
        }
    }
}

/// Hands the files of an image on through two channels: one for small files, which all come
/// first, and one for all others. `S` is the sending end of a channel, `M` a handle on the
/// memory budget.
#[derive(Debug)]
pub struct FileSender<S, M> {
    sender: Option<S>,
    small_file_sender: Option<S>,
    semaphore: M,
}

/// The mathematical state of a [`FileSender`].
pub struct FileSenderView<S, M> {
    /// The channel for large files, unless it is closed.
    pub sender: Option<S>,
    /// The channel for small files, unless it is closed.
    pub small_file_sender: Option<S>,
    /// The handle on the memory budget.
    pub semaphore: M,
}

impl<S, M> View for FileSender<S, M> {
    type V = FileSenderView<S, M>;

    closed spec fn view(&self) -> FileSenderView<S, M> {
        FileSenderView {
            sender: self.sender,
            small_file_sender: self.small_file_sender,
            semaphore: self.semaphore,
        }
    }
}

impl<S, M> FileSenderView<S, M> {
    /// The channel that a file goes through, unless it is closed.
    pub open spec fn channel(self, is_small: bool) -> Option<S> {
        if is_small {
            self.small_file_sender
        } else {
            self.sender
        }
    }
}

/// A file that is being handed on.
#[derive(Debug)]
pub struct File<S, M> {
    pub filename: String,
    pub semaphore: M,
    pub sender: S,
    pub is_small: bool,
}

impl<S: Clone, M: Clone> FileSender<S, M> {
    /// A sender with both channels open.
    pub fn new(sender: S, small_file_sender: S, semaphore: M) -> (f: FileSender<S, M>)
        ensures
            f@ == (FileSenderView {
                sender: Some(sender),
                small_file_sender: Some(small_file_sender),
                semaphore,
            }),
    {
        FileSender { sender: Some(sender), small_file_sender: Some(small_file_sender), semaphore }
    }

    /// Whether the channel for small files, or that for large ones, is open.
    pub fn is_open(&self, is_small: bool) -> (b: bool)
        ensures
            b == (self@.channel(is_small) is Some),
    {
        if is_small {
            self.small_file_sender.is_some()
        } else {
            self.sender.is_some()
        }
    }

    /// Closes this end of the channel for small files.
    pub fn close_small_file_sender(&mut self)
        ensures
            final(self)@ == (FileSenderView { small_file_sender: None, ..old(self)@ }),
    {
        self.small_file_sender = None;
    }

    /// Closes this end of both channels.
    pub fn close_senders(&mut self)
        ensures
            final(self)@ == (FileSenderView {
                small_file_sender: None,
                sender: None,
                ..old(self)@
            }),
    {
        self.small_file_sender = None;
        self.sender = None;
    }

    /// Begins a file, which goes through the channel that its size calls for.
    ///
    /// By the time of the first large file all small files have come, so that the channel for
    /// small files is closed then.
    pub fn create(&mut self, filename: &str, is_small: bool) -> (file: File<S, M>)
        requires
            old(self)@.channel(is_small) is Some,
        ensures
            file.filename@ == filename@,
            file.is_small == is_small,
            cloned(old(self)@.semaphore, file.semaphore),
            cloned(old(self)@.channel(is_small)->0, file.sender),
            final(self)@ == if is_small {
                old(self)@
            } else {
                FileSenderView { small_file_sender: None, ..old(self)@ }
            },
    {
        let chosen = if is_small {
            &self.small_file_sender
        } else {
            &self.sender
        };
        let sender = match chosen {
            Some(sender) => sender.clone(),
            None => vstd::pervasive::unreached(),
        };
        if !is_small && self.small_file_sender.is_some() {
            self.close_small_file_sender();
        }
        File::new(filename.to_owned(), self.semaphore.clone(), sender, is_small)
    }

    /// Ends a file: what is to be sent, and through which channel.
    ///
    /// When a large file ends, the channel for small files must have been closed.
    pub fn insert(&self, filename: String, is_small: bool) -> (r: (&S, (String, FileContent)))
        requires
            self@.channel(is_small) is Some,
            !is_small ==> self@.small_file_sender is None,
        ensures
            *r.0 == self@.channel(is_small)->0,
            r.1.0@ == filename@,
            r.1.1@ == ContentView::Eof,
    {
        let chosen = if is_small {
            &self.small_file_sender
        } else {
            &self.sender
        };
        match chosen {
            Some(sender) => (sender, (filename, FileContent::Eof)),
            None => vstd::pervasive::unreached(),
        }
    }
}

/// One chunk of a transfer.
#[derive(Debug, Clone, Copy, PartialEq, Eq, Structural)]
pub struct ChunkStep {
    /// How many bytes to read.
    pub size: usize,
    /// How much of the memory budget to take first.
    pub acquire: Option<isize>,
}

/// How many chunks `size` bytes make up.
pub open spec fn chunk_count(size: int) -> int {
    (size + CHUNK_SIZE - 1) / CHUNK_SIZE as int
}

/// The size of the `i`-th chunk of `size` bytes: all are full but the last.
pub open spec fn chunk_size(size: int, i: int) -> int {
    if (i + 1) * CHUNK_SIZE <= size {
        CHUNK_SIZE as int
    } else {
        size - i * CHUNK_SIZE
    }
}

/// The transfer of `size` bytes. Only large files count against the memory budget.
pub open spec fn chunk_plan(size: int, is_small: bool) -> Seq<ChunkStep> {
    Seq::new(
        chunk_count(size) as nat,
        |i: int|
            ChunkStep {
                size: chunk_size(size, i) as usize,
                acquire: if is_small {
                    None
                } else {
                    Some(chunk_size(size, i) as isize)
                },
            },
    )
}

/// Every chunk holds something, and no chunk too much.
proof fn lemma_chunk_size(size: int, i: int)
    requires
        0 <= i < chunk_count(size),
    ensures
        0 < chunk_size(size, i) <= CHUNK_SIZE,
        i * CHUNK_SIZE + chunk_size(size, i) <= size,
        i + 1 < chunk_count(size) ==> chunk_size(size, i) == CHUNK_SIZE,
        i + 1 == chunk_count(size) ==> i * CHUNK_SIZE + chunk_size(size, i) == size,
{
}

impl<S, M> File<S, M> {
    /// A file that has just been begun.
    pub fn new(filename: String, semaphore: M, sender: S, is_small: bool) -> (file: File<S, M>)
        ensures
            file == (File { filename, semaphore, sender, is_small }),
    {
        File { filename, semaphore, sender, is_small }
    }

    /// How `size` bytes of the file are transferred: for every chunk, how much of the memory
    /// budget to take, and then how many bytes to read and hand on.
    pub fn write_all_from_pipe(&self, size: usize) -> (steps: Vec<ChunkStep>)
        ensures
            steps@ == chunk_plan(size as int, self.is_small),
    {
        let mut steps: Vec<ChunkStep> = Vec::new();
        let mut to_send: usize = size;
        while to_send > 0
            invariant
                to_send <= size,
                steps@.len() <= chunk_count(size as int),
                to_send > 0 ==> steps@.len() < chunk_count(size as int) && size - to_send
                    == steps@.len() * CHUNK_SIZE,
                to_send == 0 ==> steps@.len() == chunk_count(size as int),
                steps@ == chunk_plan(size as int, self.is_small).take(steps@.len() as int),
            decreases to_send,
        {
            let size_now: usize = if to_send < CHUNK_SIZE {
                to_send
            } else {
                CHUNK_SIZE
            };
            let ghost i = steps@.len() as int;
            proof {
                lemma_chunk_size(size as int, i);
            }
            let step = ChunkStep {
                size: size_now,
                acquire: if self.is_small {
                    None
                } else {
                    Some(size_now as isize)
                },
            };
            assert(step == chunk_plan(size as int, self.is_small)[i]);
            steps.push(step);
            assert(steps@ =~= chunk_plan(size as int, self.is_small).take(i + 1));
            to_send = to_send - size_now;
        }
        assert(chunk_plan(size as int, self.is_small).take(chunk_count(size as int))
            =~= chunk_plan(size as int, self.is_small));
        steps
    }

    /// What is to be sent for a chunk that has been read.
    pub fn chunk_message(&self, chunk: Vec<u8>) -> (r: (String, FileContent))
        ensures
            r.0@ == self.filename@,
            r.1@ == ContentView::Content(chunk@),
    {
        (self.filename.clone(), FileContent::Content(chunk))
    }
}

/// The chunks in which `data` is transferred.
pub open spec fn chunks_of(data: Seq<u8>) -> Seq<Seq<u8>> {
    Seq::new(
        chunk_count(data.len() as int) as nat,
        |i: int|
            data.subrange(
                i * CHUNK_SIZE,
                i * CHUNK_SIZE + chunk_size(data.len() as int, i),
            ),
    )
}

/// The chunks of a transfer make up exactly what was transferred: nothing is lost, doubled or
/// moved, every chunk has the size that was planned for it, and none exceeds the largest size.
pub proof fn law_chunks_make_up_the_data(data: Seq<u8>, is_small: bool)
    requires
        data.len() <= usize::MAX,
    ensures
        joined(chunks_of(data)) == data,
        chunks_of(data).len() == chunk_plan(data.len() as int, is_small).len(),
        forall|i: int|
            #![trigger chunks_of(data)[i]]
            0 <= i < chunks_of(data).len() ==> {
                &&& 0 < chunks_of(data)[i].len() <= CHUNK_SIZE
                &&& chunk_plan(data.len() as int, is_small)[i].size == chunks_of(data)[i].len()
            },
{
    let n = chunk_count(data.len() as int);
    assert forall|i: int| #![trigger chunks_of(data)[i]]
        0 <= i < chunks_of(data).len() implies 0 < chunks_of(data)[i].len() <= CHUNK_SIZE
        && chunk_plan(data.len() as int, is_small)[i].size == chunks_of(data)[i].len() by {
        lemma_chunk_size(data.len() as int, i);
    }
    lemma_joined_chunks(data, n);
    assert(chunks_of(data).take(n) =~= chunks_of(data));
    if n > 0 {
        lemma_chunk_size(data.len() as int, n - 1);
        assert(data.take(data.len() as int) =~= data);
    } else {
        assert(data =~= Seq::empty());
    }
}

/// The first `n` chunks make up a prefix of the data.
proof fn lemma_joined_chunks(data: Seq<u8>, n: int)
    requires
        0 <= n <= chunk_count(data.len() as int),
    ensures
        joined(chunks_of(data).take(n)) == data.take(
            if n == 0 {
                0
            } else {
                (n - 1) * CHUNK_SIZE + chunk_size(data.len() as int, n - 1)
            },
        ),
    decreases n,
{
    let chunks = chunks_of(data);
    if n == 0 {
        assert(joined(chunks.take(0)) =~= data.take(0));
    } else {
        lemma_joined_chunks(data, n - 1);
        lemma_chunk_size(data.len() as int, n - 1);
        if n > 1 {
            lemma_chunk_size(data.len() as int, n - 2);
        }
        assert(chunks.take(n).drop_last() =~= chunks.take(n - 1));
        assert(chunks.take(n).last() == chunks[n - 1]);
        assert(joined(chunks.take(n)) =~= data.take(
            (n - 1) * CHUNK_SIZE + chunk_size(data.len() as int, n - 1),
        ));
    }
}

/// All chunks of a transfer but the last are of ten megabytes, and the last one is what is left. A chunk of
/// a large file has as much of the memory budget taken for it as it has bytes, and one of a small file has
/// nothing taken for it.
pub proof fn law_chunks_are_full_but_for_the_last(size: int, is_small: bool, i: int)
    requires
        0 <= size <= usize::MAX,
    ensures
        ({
            let plan = chunk_plan(size, is_small);
            &&& size == 0 <==> plan.len() == 0
            &&& 0 <= i < plan.len() - 1 ==> plan[i].size == 10 * 1024 * 1024
            &&& plan.len() > 0 ==> 0 < plan[plan.len() - 1].size <= 10 * 1024 * 1024
            &&& plan.len() > 0 ==> (plan.len() - 1) * (10 * 1024 * 1024) + plan[plan.len() - 1].size
                == size
            &&& 0 <= i < plan.len() && is_small ==> plan[i].acquire is None
            &&& 0 <= i < plan.len() && !is_small ==> plan[i].acquire is Some && plan[i].acquire->0
                == plan[i].size
        }),
{
    let n = chunk_count(size);
    if n > 0 {
        lemma_chunk_size(size, n - 1);
    }
    if 0 <= i < n {
        lemma_chunk_size(size, i);
    }
}

/// Small files and all others have a channel each.
pub proof fn law_small_files_have_their_own_channel<S, M>(v: FileSenderView<S, M>)
    ensures
        v.channel(true) == v.small_file_sender,
        v.channel(false) == v.sender,
{
}

} // verus!
