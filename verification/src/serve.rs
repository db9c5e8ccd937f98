//! Serving the files of an image to clients while the image is still being received.
//!
//! [`ImageServer`] keeps what has been received and not yet been served, and decides how
//! requests are answered; its caller talks to the clients and fills their pipes.

use crate::image_store::fs_parallel::{ContentView, FileContent};
use crate::metadata::name_views;
use crate::pattern::{filter_files, selected};
use crate::semaphore::Semaphore;
use std::collections::VecDeque;
use vstd::prelude::*;

verus! {

/// What a client is told about a file.
#[derive(Debug, Clone, Copy, PartialEq, Eq, Structural)]
pub enum FileStatus {
    /// The image holds no such file.
    DoesNotExist,
    /// The image holds the file, and nothing of it has been received yet.
    NotReady,
    /// The contents follow.
    Ready,
}

/// What a client must not ask for.
#[derive(Debug)]
pub enum ServeError {
    /// The file of this name, for a second time.
    RequestedTwice(String),
}

impl ServeError {
    /// The text shown to the user.
    pub open spec fn text(self) -> Seq<char> {
        match self {
            ServeError::RequestedTwice(name) => "Client is requesting the image file `"@ + name@
                + "` multiple times. This is not allowed to keep the memory usage low"@,
        }
    }

    /// Says in words what went wrong.
    pub fn message(&self) -> (s: String)
        ensures
            s@ == self.text(),
    {
        match self {
            ServeError::RequestedTwice(name) => {
                let mut s = "Client is requesting the image file `".to_owned();
                s.append(name.as_str());
                s.append("` multiple times. This is not allowed to keep the memory usage low");
                s
            },
        }
    }
}

/// File contents that go to a client.
#[derive(Debug)]
pub struct Transfer {
    /// The chunks to write, in order.
    pub data: Vec<Vec<u8>>,
    /// Whether the file is complete with them.
    pub done: bool,
}

/// The mathematical counterpart of [`Transfer`].
#[verifier::ext_equal]
pub struct TransferView {
    pub data: Seq<Seq<u8>>,
    pub done: bool,
}

/// The bytes of a list of chunks, as plain values.
pub open spec fn byte_views(chunks: Seq<Vec<u8>>) -> Seq<Seq<u8>> {
    Seq::new(chunks.len(), |i: int| chunks[i]@)
}

impl View for Transfer {
    type V = TransferView;

    open spec fn view(&self) -> TransferView {
        TransferView { data: byte_views(self.data@), done: self.done }
    }
}

/// How the sending of a transfer goes on.
#[derive(Debug, Clone, Copy, PartialEq, Eq, Structural)]
pub enum SendStep {
    /// By writing this chunk.
    Write(usize),
    /// Not at all: everything has been sent, and the file is complete.
    Complete,
    /// Not at all: everything has been sent, and more of the file is to come.
    Open,
    /// Not at all: a chunk could not be written.
    Failed,
}

impl TransferView {
    /// How the sending goes on once the first `n` chunks have been written.
    pub open spec fn step_at(self, n: int) -> SendStep {
        if n < self.data.len() {
            SendStep::Write(n as usize)
        } else if self.done {
            SendStep::Complete
        } else {
            SendStep::Open
        }
    }
}

impl Transfer {
    /// How the sending begins.
    pub fn first_step(&self) -> (step: SendStep)
        ensures
            step == self@.step_at(0),
            self@.data.len() > 0 ==> step == SendStep::Write(0),
            self@.data.len() == 0 ==> step == if self@.done {
                SendStep::Complete
            } else {
                SendStep::Open
            },
    {
        self.step_with(self.data.len())
    }

    /// How the sending goes on with `left` chunks left to write.
    fn step_with(&self, left: usize) -> (step: SendStep)
        requires
            left <= self@.data.len(),
        ensures
            step == self@.step_at(self@.data.len() - left),
    {
        if left > 0 {
            SendStep::Write(self.data.len() - left)
        } else if self.done {
            SendStep::Complete
        } else {
            SendStep::Open
        }
    }

    /// Takes in whether a chunk could be written: gives its memory back to the budget if it could,
    /// and says how the sending goes on.
    pub fn after_write(&self, i: usize, written: bool, semaphore: &mut Semaphore) -> (step:
        SendStep)
        requires
            i < self@.data.len(),
            self@.data[i as int].len() <= isize::MAX,
            written ==> old(semaphore)@.count + self@.data[i as int].len() <= isize::MAX,
        ensures
            if written {
                &&& step == self@.step_at(i + 1)
                &&& i + 1 < self@.data.len() ==> step == SendStep::Write((i + 1) as usize)
                &&& i + 1 == self@.data.len() ==> step == if self@.done {
                    SendStep::Complete
                } else {
                    SendStep::Open
                }
                &&& final(semaphore)@ == old(semaphore)@.released(self@.data[i as int].len() as int)
            } else {
                &&& step == SendStep::Failed
                &&& final(semaphore)@ == old(semaphore)@
            },
    {
        assert(self@.data[i as int] == self.data@[i as int]@);
        if !written {
            return SendStep::Failed;
        }
        semaphore.release(self.data[i].len() as isize);
        self.step_with(self.data.len() - i - 1)
    }
}

/// What has been received of a file, as plain values.
pub open spec fn content_views(queue: Seq<FileContent>) -> Seq<ContentView> {
    Seq::new(queue.len(), |i: int| queue[i]@)
}

/// The transfer of what has been received of a file: all chunks before the end of the file, and
/// whether that end has come.
pub open spec fn transfer_of(queue: Seq<ContentView>) -> TransferView
    decreases queue.len(),
{
    if queue.len() == 0 {
        TransferView { data: Seq::empty(), done: false }
    } else {
        let before = transfer_of(queue.drop_last());
        if before.done {
            before
        } else {
            match queue.last() {
                ContentView::Eof => TransferView { data: before.data, done: true },
                ContentView::Content(bytes) => TransferView {
                    data: before.data.push(bytes),
                    done: false,
                },
            }
        }
    }
}

/// Nothing counts after the end of a file.
proof fn lemma_transfer_done(queue: Seq<ContentView>, n: int)
    requires
        0 <= n <= queue.len(),
        transfer_of(queue.take(n)).done,
    ensures
        transfer_of(queue) == transfer_of(queue.take(n)),
    decreases queue.len(),
{
    if n == queue.len() {
        assert(queue.take(n) =~= queue);
    } else {
        assert(queue.drop_last().take(n) =~= queue.take(n));
        lemma_transfer_done(queue.drop_last(), n);
    }
}

/// Cuts what has been received of a file down to what goes to the client: everything before the
/// end of the file. [`Transfer::first_step`] and [`Transfer::after_write`] then say, chunk by chunk,
/// what to write and what memory that gives back.
pub fn send_over_chunks(queue: VecDeque<FileContent>) -> (t: Transfer)
    ensures
        t@ == transfer_of(content_views(queue@)),
{
    let ghost all = content_views(queue@);
    let mut chunks = queue;
    let mut data: Vec<Vec<u8>> = Vec::new();
    let ghost mut n: int = 0;
    loop
        invariant
            0 <= n <= all.len(),
            all == content_views(queue@),
            content_views(chunks@) == all.skip(n),
            transfer_of(all.take(n)) == (TransferView { data: byte_views(data@), done: false }),
        decreases chunks@.len(),
    {
        let ghost before = chunks@;
        match chunks.pop_front() {
            Some(content) => {
                proof {
                    assert(content_views(before).len() > 0);
                    assert(content@ == content_views(before)[0]);
                    assert(content@ == all.skip(n)[0]);
                    assert(all.take(n + 1).drop_last() =~= all.take(n));
                    assert forall|i: int| 0 <= i < chunks@.len() implies #[trigger] content_views(
                        chunks@,
                    )[i] == all.skip(n + 1)[i] by {
                        assert(content_views(before)[i + 1] == before[i + 1]@);
                        assert(all.skip(n)[i + 1] == all[n + 1 + i]);
                    }
                    assert(content_views(chunks@) =~= all.skip(n + 1));
                }
                match content {
                    FileContent::Eof => {
                        proof {
                            lemma_transfer_done(all, n + 1);
                        }
                        return Transfer { data, done: true };
                    },
                    FileContent::Content(chunk) => {
                        let ghost so_far = byte_views(data@);
                        let ghost bytes = chunk@;
                        data.push(chunk);
                        proof {
                            assert(byte_views(data@) =~= so_far.push(bytes));
                            n = n + 1;
                        }
                    },
                }
            },
            None => {
                assert(content_views(chunks@).len() == 0);
                assert(all.take(n) =~= all);
                return Transfer { data, done: false };
            },
        }
    }
}

/// What comes out of the channel of received chunks.
#[derive(Debug)]
pub enum ReceiverEvent {
    /// More of the file of this name.
    Chunk(String, FileContent),
    /// Nothing for now.
    Empty,
    /// Nothing ever again.
    Disconnected,
}

/// How a request is answered.
#[derive(Debug)]
pub enum Reply {
    /// Not at all: the client is gone.
    Ignore,
    /// By accepting no further clients.
    StopListener,
    /// With these names of files.
    FileList(Vec<String>),
    /// With whether the file exists and how far it has come, and then with its contents.
    File { exists: bool, status: FileStatus, transfer: Option<Transfer> },
}

/// The mathematical counterpart of [`Reply`].
pub enum ReplyView {
    Ignore,
    StopListener,
    FileList(Seq<Seq<char>>),
    File { exists: bool, status: FileStatus, transfer: Option<TransferView> },
}

impl View for Reply {
    type V = ReplyView;

    open spec fn view(&self) -> ReplyView {
        match *self {
            Reply::Ignore => ReplyView::Ignore,
            Reply::StopListener => ReplyView::StopListener,
            Reply::FileList(names) => ReplyView::FileList(name_views(names@)),
            Reply::File { exists, status, transfer } => ReplyView::File {
                exists,
                status,
                transfer: match transfer {
                    Some(t) => Some(t@),
                    None => None,
                },
            },
        }
    }
}

/// The request after which no further clients are accepted.
pub open spec fn stop_request() -> Seq<char> {
    "stop-listener"@
}

/// Whether a request asks for a list of files rather than for a file.
pub open spec fn is_pattern(request: Seq<char>) -> bool {
    request.len() == 0 || request.contains('*')
}

/// The mathematical state of an [`ImageServer`].
#[verifier::ext_equal]
pub struct ServerView {
    /// What has been received of each file and not been served.
    pub store: Map<Seq<char>, Seq<ContentView>>,
    /// The names of all files of the image.
    pub file_list: Seq<Seq<char>>,
    /// The files that have been promised to a client.
    pub sent: Set<Seq<char>>,
    /// The files of which a client has got a part, in the order of the requests.
    pub open_files: Seq<Seq<char>>,
    /// Whether all chunks have been received.
    pub receiver_eof: bool,
}

/// The open files that are still open after some transfers.
pub open spec fn still_open(
    open_files: Seq<Seq<char>>,
    transfers: Seq<Option<TransferView>>,
) -> Seq<Seq<char>>
    decreases open_files.len(),
{
    if open_files.len() == 0 {
        Seq::empty()
    } else {
        let before = still_open(open_files.drop_last(), transfers);
        if transfers[open_files.len() - 1] matches Some(t) && t.done {
            before
        } else {
            before.push(open_files.last())
        }
    }
}

impl ServerView {
    /// The state before anything has been received.
    pub open spec fn initial(file_list: Seq<Seq<char>>) -> ServerView {
        ServerView {
            store: Map::empty(),
            file_list,
            sent: Set::empty(),
            open_files: Seq::empty(),
            receiver_eof: false,
        }
    }

    /// What is waiting of a file.
    pub open spec fn queue(self, name: Seq<char>) -> Seq<ContentView> {
        if self.store.dom().contains(name) {
            self.store[name]
        } else {
            Seq::empty()
        }
    }

    /// The state after more of a file has been received.
    pub open spec fn stored(self, name: Seq<char>, content: ContentView) -> ServerView {
        ServerView { store: self.store.insert(name, self.queue(name).push(content)), ..self }
    }

    /// What goes to the clients of the open files: what is waiting of each, once.
    pub open spec fn feeds(self) -> Seq<Option<TransferView>> {
        Seq::new(
            self.open_files.len(),
            |i: int|
                if self.store.dom().contains(self.open_files[i]) && !self.open_files.take(
                    i,
                ).contains(self.open_files[i]) {
                    Some(transfer_of(self.store[self.open_files[i]]))
                } else {
                    None
                },
        )
    }

    /// The state after everything that is waiting of open files has gone to their clients.
    pub open spec fn fed(self) -> ServerView {
        ServerView {
            store: self.store.remove_keys(self.open_files.to_set()),
            open_files: still_open(self.open_files, self.feeds()),
            ..self
        }
    }

    /// The state after a request, and how it is answered; `Err` names a file that was requested
    /// twice.
    pub open spec fn requested(self, request: Option<Seq<char>>) -> (
        ServerView,
        Result<ReplyView, Seq<char>>,
    ) {
        match request {
            None => (self, Ok(ReplyView::Ignore)),
            Some(name) => if name == stop_request() {
                (self, Ok(ReplyView::StopListener))
            } else if is_pattern(name) {
                (self, Ok(ReplyView::FileList(selected(self.file_list, name))))
            } else if !self.file_list.contains(name) {
                (
                    self,
                    Ok(
                        ReplyView::File {
                            exists: false,
                            status: FileStatus::DoesNotExist,
                            transfer: None,
                        },
                    ),
                )
            } else if self.store.dom().contains(name) {
                let transfer = transfer_of(self.store[name]);
                (
                    ServerView {
                        store: self.store.remove(name),
                        sent: self.sent.insert(name),
                        open_files: if transfer.done {
                            self.open_files
                        } else {
                            self.open_files.push(name)
                        },
                        ..self
                    },
                    Ok(
                        ReplyView::File {
                            exists: true,
                            status: FileStatus::Ready,
                            transfer: Some(transfer),
                        },
                    ),
                )
            } else if !self.sent.contains(name) {
                (
                    self,
                    Ok(
                        ReplyView::File {
                            exists: true,
                            status: FileStatus::NotReady,
                            transfer: None,
                        },
                    ),
                )
            } else {
                (self, Err(name))
            },
        }
    }
}

/// Whether entry `i` of the store is that of `name`.
spec fn holds(
    store: Seq<(String, VecDeque<FileContent>)>,
    i: int,
    name: Seq<char>,
) -> bool {
    0 <= i < store.len() && store[i].0@ == name
}

/// The entry of `name`.
spec fn slot(store: Seq<(String, VecDeque<FileContent>)>, name: Seq<char>) -> int {
    choose|i: int| holds(store, i, name)
}

/// The map that the entries of the store make up.
spec fn store_map(store: Seq<(String, VecDeque<FileContent>)>) -> Map<
    Seq<char>,
    Seq<ContentView>,
> {
    Map::new(
        |name: Seq<char>| exists|i: int| holds(store, i, name),
        |name: Seq<char>| content_views(store[slot(store, name)].1@),
    )
}

/// Whether no file has two entries.
spec fn distinct_entries(store: Seq<(String, VecDeque<FileContent>)>) -> bool {
    forall|i: int, j: int|
        0 <= i < j < store.len() ==> (#[trigger] store[i]).0@ != (#[trigger] store[j]).0@
}

/// Where there is only one entry, that is the one.
proof fn lemma_slot(store: Seq<(String, VecDeque<FileContent>)>, i: int, name: Seq<char>)
    requires
        distinct_entries(store),
        holds(store, i, name),
    ensures
        slot(store, name) == i,
        store_map(store).dom().contains(name),
        store_map(store)[name] == content_views(store[i].1@),
{
    let k = slot(store, name);
    assert(holds(store, k, name));
    if k < i {
        assert(store[k].0@ != store[i].0@);
    } else if i < k {
        assert(store[i].0@ != store[k].0@);
    }
}

/// Taking out an entry takes out its file.
proof fn lemma_remove_entry(store: Seq<(String, VecDeque<FileContent>)>, i: int)
    requires
        distinct_entries(store),
        0 <= i < store.len(),
    ensures
        distinct_entries(store.remove(i)),
        store_map(store.remove(i)) == store_map(store).remove(store[i].0@),
{
    let after = store.remove(i);
    let name = store[i].0@;
    let from = |k: int| if k < i { k } else { k + 1 };
    assert forall|k: int| 0 <= k < after.len() implies #[trigger] after[k] == store[from(k)] by {}
    assert forall|a: int, b: int| 0 <= a < b < after.len() implies (#[trigger] after[a]).0@ != (
    #[trigger] after[b]).0@ by {
        assert(store[from(a)].0@ != store[from(b)].0@);
    }
    assert forall|n: Seq<char>| store_map(after).dom().contains(n) <==> store_map(store).remove(
        name,
    ).dom().contains(n) by {
        if exists|k: int| holds(after, k, n) {
            let k = choose|k: int| holds(after, k, n);
            assert(holds(store, from(k), n));
            if n == name {
                if from(k) < i {
                    assert(store[from(k)].0@ != store[i].0@);
                } else {
                    assert(store[i].0@ != store[from(k)].0@);
                }
            }
        }
        if n != name && exists|k: int| holds(store, k, n) {
            let k = choose|k: int| holds(store, k, n);
            let to = if k < i { k } else { k - 1 };
            assert(after[to] == store[from(to)]);
            assert(holds(after, to, n));
        }
    }
    assert forall|n: Seq<char>| store_map(after).dom().contains(n) implies store_map(after)[n]
        == store_map(store)[n] by {
        let k = choose|k: int| holds(after, k, n);
        lemma_slot(after, k, n);
        assert(holds(store, from(k), n));
        lemma_slot(store, from(k), n);
    }
    assert(store_map(after) =~= store_map(store).remove(name));
}

/// Adding an entry for a file that has none adds the file.
proof fn lemma_push_entry(
    store: Seq<(String, VecDeque<FileContent>)>,
    entry: (String, VecDeque<FileContent>),
)
    requires
        distinct_entries(store),
        !store_map(store).dom().contains(entry.0@),
    ensures
        distinct_entries(store.push(entry)),
        store_map(store.push(entry)) == store_map(store).insert(
            entry.0@,
            content_views(entry.1@),
        ),
{
    let after = store.push(entry);
    let name = entry.0@;
    let last = store.len() as int;
    assert forall|a: int, b: int| 0 <= a < b < after.len() implies (#[trigger] after[a]).0@ != (
    #[trigger] after[b]).0@ by {
        if b == last {
            if after[a].0@ == name {
                assert(holds(store, a, name));
            }
        } else {
            assert(store[a].0@ != store[b].0@);
        }
    }
    assert(holds(after, last, name));
    lemma_slot(after, last, name);
    assert forall|n: Seq<char>| n != name implies (store_map(after).dom().contains(n) <==> store_map(
        store,
    ).dom().contains(n)) by {
        if exists|k: int| holds(after, k, n) {
            let k = choose|k: int| holds(after, k, n);
            assert(holds(store, k, n));
        }
        if exists|k: int| holds(store, k, n) {
            let k = choose|k: int| holds(store, k, n);
            assert(holds(after, k, n));
        }
    }
    assert forall|n: Seq<char>|
        n != name && store_map(after).dom().contains(n) implies store_map(after)[n]
        == store_map(store)[n] by {
        let k = choose|k: int| holds(after, k, n);
        lemma_slot(after, k, n);
        assert(holds(store, k, n));
        lemma_slot(store, k, n);
    }
    assert(store_map(after) =~= store_map(store).insert(name, content_views(entry.1@)));
}

/// One more member.
proof fn lemma_push_to_set(s: Seq<Seq<char>>, x: Seq<char>)
    ensures
        s.push(x).to_set() == s.to_set().insert(x),
{
    assert forall|n: Seq<char>| s.push(x).to_set().contains(n) <==> s.to_set().insert(x).contains(
        n,
    ) by {
        if s.contains(n) {
            let k = choose|k: int| 0 <= k < s.len() && s[k] == n;
            assert(s.push(x)[k] == n);
        }
        if n == x {
            assert(s.push(x)[s.len() as int] == n);
        }
    }
    assert(s.push(x).to_set() =~= s.to_set().insert(x));
}

/// Whether a list of names holds `name`.
fn lists(names: &Vec<String>, name: &String) -> (b: bool)
    ensures
        b == name_views(names@).contains(name@),
{
    let ghost views = name_views(names@);
    let mut i: usize = 0;
    while i < names.len()
        invariant
            i <= names@.len(),
            views == name_views(names@),
            forall|j: int| 0 <= j < i ==> views[j] != name@,
        decreases names@.len() - i,
    {
        assert(views[i as int] == names@[i as int]@);
        if names[i] == *name {
            return true;
        }
        i = i + 1;
    }
    false
}

/// Whether a text holds an asterisk.
fn has_asterisk(s: &str) -> (b: bool)
    ensures
        b == s@.contains('*'),
{
    let chars = crate::text::chars_of(s);
    let mut i: usize = 0;
    while i < chars.len()
        invariant
            i <= chars@.len(),
            chars@ == s@,
            forall|j: int| 0 <= j < i ==> chars@[j] != '*',
        decreases chars@.len() - i,
    {
        if chars[i] == '*' {
            assert(s@[i as int] == '*');
            return true;
        }
        i = i + 1;
    }
    false
}

/// Serves the files of an image.
#[derive(Debug)]
pub struct ImageServer {
    store: Vec<(String, VecDeque<FileContent>)>,
    file_list: Vec<String>,
    sent: Vec<String>,
    open_files: Vec<String>,
    receiver_eof: bool,
}

impl View for ImageServer {
    type V = ServerView;

    closed spec fn view(&self) -> ServerView {
        ServerView {
            store: store_map(self.store@),
            file_list: name_views(self.file_list@),
            sent: name_views(self.sent@).to_set(),
            open_files: name_views(self.open_files@),
            receiver_eof: self.receiver_eof,
        }
    }
}

impl ImageServer {
    /// Whether every file has its contents in one place.
    pub closed spec fn wf(self) -> bool {
        distinct_entries(self.store@)
    }

    /// A server for an image with the given files, of which nothing has been received.
    pub fn new(file_list: Vec<String>) -> (s: ImageServer)
        ensures
            s.wf(),
            s@ == ServerView::initial(name_views(file_list@)),
    {
        let s = ImageServer {
            store: Vec::new(),
            file_list,
            sent: Vec::new(),
            open_files: Vec::new(),
            receiver_eof: false,
        };
        assert(s@ =~= ServerView::initial(name_views(file_list@)));
        s
    }

    /// Whether more chunks can be received.
    pub fn receiver_is_open(&self) -> (b: bool)
        ensures
            b == !self@.receiver_eof,
    {
        !self.receiver_eof
    }

    /// Whether there is nobody left to serve: no clients can come, none are there, and no file that
    /// a client has a part of can grow any more.
    pub fn is_done(&self, listening: bool, clients: usize) -> (b: bool)
        ensures
            b == (!listening && clients == 0 && (self@.open_files.len() == 0
                || self@.receiver_eof)),
    {
        !listening && clients == 0 && (self.open_files.len() == 0 || self.receiver_eof)
    }

    /// Finds the entry of a file.
    fn find(&self, name: &String) -> (r: Option<usize>)
        requires
            self.wf(),
        ensures
            match r {
                Some(i) => holds(self.store@, i as int, name@),
                None => !self@.store.dom().contains(name@),
            },
    {
        let mut i: usize = 0;
        while i < self.store.len()
            invariant
                i <= self.store@.len(),
                forall|j: int| 0 <= j < i ==> !holds(self.store@, j, name@),
            decreases self.store@.len() - i,
        {
            if self.store[i].0 == *name {
                return Some(i);
            }
            i = i + 1;
        }
        None
    }

    /// Takes what is waiting of a file out of the store.
    fn take(&mut self, name: &String) -> (r: Option<VecDeque<FileContent>>)
        requires
            old(self).wf(),
        ensures
            final(self).wf(),
            match r {
                Some(queue) => {
                    &&& old(self)@.store.dom().contains(name@)
                    &&& content_views(queue@) == old(self)@.store[name@]
                },
                None => !old(self)@.store.dom().contains(name@),
            },
            final(self)@ == (ServerView { store: old(self)@.store.remove(name@), ..old(self)@ }),
    {
        match self.find(name) {
            Some(i) => {
                proof {
                    lemma_slot(self.store@, i as int, name@);
                    lemma_remove_entry(self.store@, i as int);
                }
                let (_, queue) = self.store.remove(i);
                Some(queue)
            },
            None => {
                assert(self@.store.remove(name@) =~= self@.store);
                None
            },
        }
    }

    /// Keeps what has been received of a file, behind what is already waiting of it.
    pub fn store_chunk(&mut self, filename: String, content: FileContent)
        requires
            old(self).wf(),
        ensures
            final(self).wf(),
            final(self)@ == old(self)@.stored(filename@, content@),
    {
        let ghost name = filename@;
        let ghost view = content@;
        let taken = self.take(&filename);
        let mut queue = match taken {
            Some(queue) => queue,
            None => VecDeque::new(),
        };
        let ghost before = content_views(queue@);
        proof {
            assert(before =~= old(self)@.queue(name));
        }
        queue.push_back(content);
        proof {
            assert(content_views(queue@) =~= before.push(view));
            lemma_push_entry(self.store@, (filename, queue));
        }
        self.store.push((filename, queue));
        assert(self@.store =~= old(self)@.stored(name, view).store);
    }

    /// Takes in what came out of the channel of received chunks, and says whether to look again
    /// before turning to the clients.
    pub fn receive(&mut self, event: ReceiverEvent) -> (again: bool)
        requires
            old(self).wf(),
        ensures
            final(self).wf(),
            match event {
                ReceiverEvent::Chunk(filename, content) => again && final(self)@ == old(
                    self,
                )@.stored(filename@, content@),
                ReceiverEvent::Empty => !again && final(self)@ == old(self)@,
                ReceiverEvent::Disconnected => !again && final(self)@ == (ServerView {
                    receiver_eof: true,
                    ..old(self)@
                }),
            },
    {
        match event {
            ReceiverEvent::Chunk(filename, content) => {
                self.store_chunk(filename, content);
                true
            },
            ReceiverEvent::Empty => false,
            ReceiverEvent::Disconnected => {
                self.receiver_eof = true;
                false
            },
        }
    }

    /// Takes out everything that is waiting of the open files: what is to be written to the pipe
    /// of each of them, in the order of the requests. Files that are complete with it are no
    /// longer open afterwards.
    pub fn feed_open_files(&mut self) -> (transfers: Vec<Option<Transfer>>)
        requires
            old(self).wf(),
        ensures
            final(self).wf(),
            transfer_views(transfers@) == old(self)@.feeds(),
            final(self)@ == old(self)@.fed(),
    {
        let mut transfers: Vec<Option<Transfer>> = Vec::new();
        let mut open_files: Vec<String> = Vec::new();
        let mut i: usize = 0;
        let ghost start = self@;
        while i < self.open_files.len()
            invariant
                i <= self.open_files@.len(),
                self.wf(),
                start == old(self)@,
                self@ == (ServerView {
                    store: start.store.remove_keys(start.open_files.take(i as int).to_set()),
                    ..start
                }),
                transfer_views(transfers@) == start.feeds().take(i as int),
                name_views(open_files@) == still_open(
                    start.open_files.take(i as int),
                    start.feeds(),
                ),
            decreases self.open_files@.len() - i,
        {
            let ghost names = start.open_files.take(i as int);
            let ghost views = transfer_views(transfers@);
            let ghost kept = name_views(open_files@);
            let name = self.open_files[i].clone();
            proof {
                assert(name_views(self.open_files@)[i as int] == name@);
                assert(start.open_files[i as int] == name@);
                assert(start.open_files.take(i + 1) =~= names.push(name@));
                assert(names.push(name@).drop_last() =~= names);
                assert(names.to_set().contains(name@) <==> names.contains(name@));
            }
            let transfer = match self.take(&name) {
                Some(chunks) => Some(send_over_chunks(chunks)),
                None => None,
            };
            proof {
                lemma_push_to_set(names, name@);
                assert(self@.store =~= start.store.remove_keys(names.push(name@).to_set()));
            }
            let done = match &transfer {
                Some(t) => t.done,
                None => false,
            };
            let ghost view = transfer_view(transfer);
            assert(view == start.feeds()[i as int]);
            if !done {
                open_files.push(name);
                assert(name_views(open_files@) =~= kept.push(name@));
            }
            transfers.push(transfer);
            proof {
                assert(transfer_views(transfers@) =~= views.push(view));
                assert(start.feeds().take(i + 1) =~= start.feeds().take(i as int).push(view));
            }
            i = i + 1;
        }
        self.open_files = open_files;
        proof {
            assert(start.open_files.take(i as int) =~= start.open_files);
            assert(start.feeds().take(i as int) =~= start.feeds());
            assert(self@ =~= start.fed());
        }
        transfers
    }

    /// Decides how the request of a client is answered; no request means that the client is
    /// gone.
    ///
    /// A file goes to one client only, once, so that it need not be kept.
    pub fn request(&mut self, request: Option<String>) -> (r: Result<Reply, ServeError>)
        requires
            old(self).wf(),
        ensures
            final(self).wf(),
            final(self)@ == old(self)@.requested(request_view(request)).0,
            match old(self)@.requested(request_view(request)).1 {
                Ok(reply) => r matches Ok(x) && x@ == reply,
                Err(name) => r matches Err(ServeError::RequestedTwice(x)) && x@ == name,
            },
            r matches Ok(Reply::FileList(_)) <==> (request matches Some(name) && name@
                != "stop-listener"@ && (name@.len() == 0 || name@.contains('*'))),
    {
        let filename = match request {
            Some(filename) => filename,
            None => {
                return Ok(Reply::Ignore);
            },
        };
        if filename == "stop-listener".to_owned() {
            return Ok(Reply::StopListener);
        }
        if filename.as_str().is_empty() || has_asterisk(filename.as_str()) {
            return Ok(Reply::FileList(filter_files(&self.file_list, filename.as_str())));
        }
        if !lists(&self.file_list, &filename) {
            return Ok(
                Reply::File { exists: false, status: FileStatus::DoesNotExist, transfer: None },
            );
        }
        match self.take(&filename) {
            Some(chunks) => {
                let transfer = send_over_chunks(chunks);
                let ghost sent = name_views(self.sent@);
                let ghost open = name_views(self.open_files@);
                self.sent.push(filename.clone());
                proof {
                    assert(name_views(self.sent@) =~= sent.push(filename@));
                    lemma_push_to_set(sent, filename@);
                    assert(sent.to_set() == old(self)@.sent);
                    assert(self@.sent == sent.push(filename@).to_set());
                }
                if !transfer.done {
                    self.open_files.push(filename);
                    assert(name_views(self.open_files@) =~= open.push(filename@));
                }
                Ok(
                    Reply::File {
                        exists: true,
                        status: FileStatus::Ready,
                        transfer: Some(transfer),
                    },
                )
            },
            None => {
                assert(self@ =~= old(self)@);
                assert(name_views(self.sent@).to_set().contains(filename@) <==> name_views(
                    self.sent@,
                ).contains(filename@));
                if !lists(&self.sent, &filename) {
                    Ok(
                        Reply::File {
                            exists: true,
                            status: FileStatus::NotReady,
                            transfer: None,
                        },
                    )
                } else {
                    Err(ServeError::RequestedTwice(filename))
                }
            },
        }
    }
}

/// A request as a plain value.
pub open spec fn request_view(request: Option<String>) -> Option<Seq<char>> {
    match request {
        Some(name) => Some(name@),
        None => None,
    }
}

/// A transfer, or none, as a plain value.
pub open spec fn transfer_view(transfer: Option<Transfer>) -> Option<TransferView> {
    match transfer {
        Some(t) => Some(t@),
        None => None,
    }
}

/// Transfers as plain values.
pub open spec fn transfer_views(transfers: Seq<Option<Transfer>>) -> Seq<Option<TransferView>> {
    Seq::new(transfers.len(), |i: int| transfer_view(transfers[i]))
}

} // verus!
