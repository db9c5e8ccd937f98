//! What serving an image promises as a whole.

use crate::image_store::fs_parallel::{
    chunk_plan, chunks_of, law_chunks_make_up_the_data, ChunkStep, ContentView, FileContent,
    CHUNK_SIZE,
};
use crate::pattern::selected;
use crate::reassembly::joined;
use crate::semaphore::SemaphoreView;
use crate::serve::{
    content_views, is_pattern, request_view, still_open, stop_request, transfer_of, transfer_views,
    FileStatus, Reply, ReplyView, SendStep, ServeError, ServerView, Transfer, TransferView,
};
use crate::steps::are_places_of;
use vstd::prelude::*;

verus! {

/// What happens to a server.
pub enum ServeEvent {
    /// More of a file was received.
    Received(Seq<char>, ContentView),
    /// Everything that was waiting of open files went to their clients.
    Fed,
    /// A client made a request, or went away.
    Requested(Option<Seq<char>>),
    /// The last file had been received.
    Disconnected,
}

/// The state of a server for the given files after all of `events`.
pub open spec fn server_after(file_list: Seq<Seq<char>>, events: Seq<ServeEvent>) -> ServerView
    decreases events.len(),
{
    if events.len() == 0 {
        ServerView::initial(file_list)
    } else {
        let before = server_after(file_list, events.drop_last());
        match events.last() {
            ServeEvent::Received(name, content) => before.stored(name, content),
            ServeEvent::Fed => before.fed(),
            ServeEvent::Requested(request) => before.requested(request).0,
            ServeEvent::Disconnected => ServerView { receiver_eof: true, ..before },
        }
    }
}

/// What was received of a file in the course of `events`.
pub open spec fn received(events: Seq<ServeEvent>, file: Seq<char>) -> Seq<ContentView>
    decreases events.len(),
{
    if events.len() == 0 {
        Seq::empty()
    } else {
        let before = received(events.drop_last(), file);
        match events.last() {
            ServeEvent::Received(name, content) => if name == file {
                before.push(content)
            } else {
                before
            },
            _ => before,
        }
    }
}

/// The bytes that go to the clients of a file when the first `n` open files are fed.
pub open spec fn fed_bytes(v: ServerView, file: Seq<char>, n: int) -> Seq<u8>
    decreases n,
{
    if n <= 0 {
        Seq::empty()
    } else {
        let before = fed_bytes(v, file, n - 1);
        match v.feeds()[n - 1] {
            Some(t) => if v.open_files[n - 1] == file {
                before + joined(t.data)
            } else {
                before
            },
            None => before,
        }
    }
}

/// The bytes of a file that went to its clients in the course of `events`.
pub open spec fn delivered(
    file_list: Seq<Seq<char>>,
    events: Seq<ServeEvent>,
    file: Seq<char>,
) -> Seq<u8>
    decreases events.len(),
{
    if events.len() == 0 {
        Seq::empty()
    } else {
        let before = delivered(file_list, events.drop_last(), file);
        let v = server_after(file_list, events.drop_last());
        match events.last() {
            ServeEvent::Received(_, _) => before,
            ServeEvent::Fed => before + fed_bytes(v, file, v.open_files.len() as int),
            ServeEvent::Requested(request) => match v.requested(request).1 {
                Ok(ReplyView::File { transfer: Some(t), .. }) => if request == Some(file) {
                    before + joined(t.data)
                } else {
                    before
                },
                _ => before,
            },
            ServeEvent::Disconnected => before,
        }
    }
}

/// How many requests for a file were answered with its contents in the course of `events`.
pub open spec fn times_served(
    file_list: Seq<Seq<char>>,
    events: Seq<ServeEvent>,
    file: Seq<char>,
) -> int
    decreases events.len(),
{
    if events.len() == 0 {
        0
    } else {
        let before = times_served(file_list, events.drop_last(), file);
        let v = server_after(file_list, events.drop_last());
        match events.last() {
            ServeEvent::Requested(request) => match v.requested(request).1 {
                Ok(ReplyView::File { transfer: Some(_), .. }) => if request == Some(file) {
                    before + 1
                } else {
                    before
                },
                _ => before,
            },
            _ => before,
        }
    }
}

/// Whether nothing comes after the end of a file.
pub open spec fn well_ended(queue: Seq<ContentView>) -> bool {
    forall|i: int| 0 <= i < queue.len() - 1 ==> #[trigger] queue[i] is Content
}

/// The bytes that a queue carries up to the end of its file.
pub open spec fn content_bytes(queue: Seq<ContentView>) -> Seq<u8> {
    joined(transfer_of(queue).data)
}

/// Whether open files are fed right before every request.
pub open spec fn prompt(events: Seq<ServeEvent>) -> bool {
    forall|i: int|
        0 <= i < events.len() && (#[trigger] events[i] is Requested) ==> 0 < i && events[i
            - 1] is Fed
}

/// Contents without an end lead to an unfinished transfer.
proof fn lemma_unfinished(queue: Seq<ContentView>)
    ensures
        transfer_of(queue).done <==> exists|i: int| 0 <= i < queue.len() && #[trigger] queue[i] is Eof,
    decreases queue.len(),
{
    if queue.len() > 0 {
        let rest = queue.drop_last();
        lemma_unfinished(rest);
        if exists|i: int| 0 <= i < queue.len() && #[trigger] queue[i] is Eof {
            let i = choose|i: int| 0 <= i < queue.len() && #[trigger] queue[i] is Eof;
            if i < rest.len() {
                assert(rest[i] is Eof);
            }
        }
        if exists|i: int| 0 <= i < rest.len() && #[trigger] rest[i] is Eof {
            let i = choose|i: int| 0 <= i < rest.len() && #[trigger] rest[i] is Eof;
            assert(queue[i] is Eof);
        }
        if queue.last() is Eof {
            assert(queue[queue.len() - 1] is Eof);
        }
    }
}

/// The bytes of a well-ended queue are those of its two parts.
proof fn lemma_bytes_in_two_parts(queue: Seq<ContentView>, p: int)
    requires
        well_ended(queue),
        0 <= p <= queue.len(),
    ensures
        content_bytes(queue) == content_bytes(queue.take(p)) + content_bytes(queue.skip(p)),
    decreases queue.len(),
{
    if p == queue.len() {
        assert(queue.take(p) =~= queue);
        assert(queue.skip(p) =~= Seq::empty());
        assert(content_bytes(queue) =~= content_bytes(queue) + Seq::<u8>::empty());
    } else {
        let rest = queue.drop_last();
        assert(well_ended(rest)) by {
            assert forall|i: int| 0 <= i < rest.len() - 1 implies #[trigger] rest[i] is Content by {
                assert(queue[i] is Content);
            }
        }
        lemma_bytes_in_two_parts(rest, p);
        assert(rest.take(p) =~= queue.take(p));
        assert(queue.skip(p).drop_last() =~= rest.skip(p));
        assert(queue.skip(p).last() == queue.last());
        lemma_unfinished(rest);
        lemma_unfinished(rest.skip(p));
        assert(!transfer_of(rest).done) by {
            if exists|i: int| 0 <= i < rest.len() && #[trigger] rest[i] is Eof {
                let i = choose|i: int| 0 <= i < rest.len() && #[trigger] rest[i] is Eof;
                assert(queue[i] is Content);
            }
        }
        assert(!transfer_of(rest.skip(p)).done) by {
            if exists|i: int| 0 <= i < rest.skip(p).len() && #[trigger] rest.skip(p)[i] is Eof {
                let i = choose|i: int|
                    0 <= i < rest.skip(p).len() && #[trigger] rest.skip(p)[i] is Eof;
                assert(rest[i + p] is Eof);
            }
        }
        match queue.last() {
            ContentView::Eof => {},
            ContentView::Content(bytes) => {
                let all = transfer_of(rest).data;
                let part = transfer_of(rest.skip(p)).data;
                assert(all.push(bytes).drop_last() =~= all);
                assert(part.push(bytes).drop_last() =~= part);
                assert(content_bytes(queue) =~= content_bytes(queue.take(p)) + content_bytes(
                    queue.skip(p),
                ));
            },
        }
    }
}

/// Only what was open can still be open, and a file that is fed for good is not, if it was open
/// once.
proof fn lemma_still_open(open: Seq<Seq<char>>, transfers: Seq<Option<TransferView>>, file: Seq<char>)
    ensures
        still_open(open, transfers).contains(file) ==> open.contains(file),
        open.contains(file) && !still_open(open, transfers).contains(file) ==> exists|i: int|
            0 <= i < open.len() && open[i] == file && (#[trigger] transfers[i] matches Some(t)
                && t.done),
    decreases open.len(),
{
    if open.len() > 0 {
        let rest = open.drop_last();
        let before = still_open(rest, transfers);
        let now = still_open(open, transfers);
        lemma_still_open(rest, transfers, file);
        if now.contains(file) {
            let k = choose|k: int| 0 <= k < now.len() && now[k] == file;
            if k < before.len() {
                assert(before[k] == file);
                assert(before.contains(file));
                let j = choose|j: int| 0 <= j < rest.len() && rest[j] == file;
                assert(open[j] == file);
            } else {
                assert(open[open.len() - 1] == file);
            }
        } else if open.contains(file) {
            let j = choose|j: int| 0 <= j < open.len() && open[j] == file;
            if j < rest.len() {
                assert(rest[j] == file);
                assert(rest.contains(file));
                if before.contains(file) {
                    let k = choose|k: int| 0 <= k < before.len() && before[k] == file;
                    assert(now[k] == file);
                }
            } else {
                if !(transfers[open.len() - 1] matches Some(t) && t.done) {
                    assert(now[now.len() - 1] == file);
                }
                assert(transfers[open.len() - 1] matches Some(t) && t.done);
            }
        }
    }
}

/// An open file is fed exactly what is waiting of it, and no other file is fed.
proof fn lemma_fed_bytes(v: ServerView, file: Seq<char>, n: int)
    requires
        0 <= n <= v.open_files.len(),
    ensures
        fed_bytes(v, file, n) == if v.open_files.take(n).contains(file) {
            content_bytes(v.queue(file))
        } else {
            Seq::empty()
        },
    decreases n,
{
    if n > 0 {
        lemma_fed_bytes(v, file, n - 1);
        let before = v.open_files.take(n - 1);
        let name = v.open_files[n - 1];
        assert(v.open_files.take(n) =~= before.push(name));
        if before.contains(file) {
            let k = choose|k: int| 0 <= k < before.len() && before[k] == file;
            assert(before.push(name)[k] == file);
        }
        if name == file {
            assert(before.push(name)[n - 1] == file);
        }
        if before.push(name).contains(file) && !before.contains(file) {
            let k = choose|k: int| 0 <= k < before.push(name).len() && before.push(name)[k] == file;
            if k < before.len() {
                assert(before[k] == file);
            }
        }
        assert(Seq::<u8>::empty() + content_bytes(v.queue(file)) =~= content_bytes(v.queue(file)));
        assert(content_bytes(Seq::<ContentView>::empty()) =~= Seq::empty());
    } else {
        assert(v.open_files.take(n) =~= Seq::empty());
    }
}

/// What is waiting of a file is the end of what was received of it, from `p` on.
spec fn waiting_from(
    file_list: Seq<Seq<char>>,
    events: Seq<ServeEvent>,
    file: Seq<char>,
    p: int,
) -> bool {
    &&& 0 <= p <= received(events, file).len()
    &&& server_after(file_list, events).queue(file) == received(events, file).skip(p)
    &&& delivered(file_list, events, file) == content_bytes(received(events, file).take(p))
    &&& server_after(file_list, events).store.dom().contains(file) ==> p < received(
        events,
        file,
    ).len()
}

/// A beginning of a well-ended queue is well-ended.
proof fn lemma_well_ended_prefix(queue: Seq<ContentView>, content: ContentView)
    requires
        well_ended(queue.push(content)),
    ensures
        well_ended(queue),
        forall|i: int| 0 <= i < queue.len() ==> #[trigger] queue[i] is Content,
{
    assert forall|i: int| 0 <= i < queue.len() implies #[trigger] queue[i] is Content by {
        assert(queue.push(content)[i] is Content);
    }
}

/// At any time, what has been delivered and what is waiting make up what was received.
proof fn lemma_waiting(file_list: Seq<Seq<char>>, events: Seq<ServeEvent>, file: Seq<char>) -> (p:
    int)
    requires
        well_ended(received(events, file)),
    ensures
        waiting_from(file_list, events, file, p),
    decreases events.len(),
{
    if events.len() == 0 {
        assert(received(events, file).skip(0) =~= Seq::empty());
        assert(received(events, file).take(0) =~= Seq::empty());
        assert(content_bytes(Seq::<ContentView>::empty()) =~= Seq::empty());
        0
    } else {
        let earlier = events.drop_last();
        let before = server_after(file_list, earlier);
        let after = server_after(file_list, events);
        let old_all = received(earlier, file);
        let all = received(events, file);
        if let ServeEvent::Received(name, content) = events.last() {
            if name == file {
                lemma_well_ended_prefix(old_all, content);
            }
        }
        let p = lemma_waiting(file_list, earlier, file);
        lemma_bytes_in_two_parts(old_all, p);
        assert(old_all.take(old_all.len() as int) =~= old_all);
        assert(old_all.skip(old_all.len() as int) =~= Seq::empty());
        match events.last() {
            ServeEvent::Received(name, content) => {
                if name == file {
                    assert(all.skip(p) =~= old_all.skip(p).push(content));
                    assert(all.take(p) =~= old_all.take(p));
                }
                p
            },
            ServeEvent::Fed => {
                lemma_fed_bytes(before, file, before.open_files.len() as int);
                assert(before.open_files.take(before.open_files.len() as int)
                    =~= before.open_files);
                assert(before.open_files.to_set().contains(file) <==> before.open_files.contains(
                    file,
                ));
                if before.open_files.contains(file) {
                    old_all.len() as int
                } else {
                    assert(delivered(file_list, events, file) =~= delivered(
                        file_list,
                        earlier,
                        file,
                    ));
                    p
                }
            },
            ServeEvent::Requested(request) => {
                if request == Some(file) && before.requested(request).1 matches Ok(
                    ReplyView::File { transfer: Some(_), .. },
                ) {
                    old_all.len() as int
                } else {
                    p
                }
            },
            ServeEvent::Disconnected => p,
        }
    }
}

/// Clients get what was received: at any time, the bytes of a file that have gone to its clients,
/// followed by those that are waiting, are exactly the bytes that were received of it, in order,
/// provided that nothing is received of a file after its end.
pub proof fn law_clients_get_what_was_received(
    file_list: Seq<Seq<char>>,
    events: Seq<ServeEvent>,
    file: Seq<char>,
)
    requires
        well_ended(received(events, file)),
    ensures
        delivered(file_list, events, file) + content_bytes(
            server_after(file_list, events).queue(file),
        ) == content_bytes(received(events, file)),
{
    let p = lemma_waiting(file_list, events, file);
    lemma_bytes_in_two_parts(received(events, file), p);
}

/// Once open files have been fed, nothing of them is held back.
pub proof fn law_open_files_are_up_to_date(v: ServerView, file: Seq<char>)
    requires
        v.open_files.contains(file),
    ensures
        v.fed().queue(file).len() == 0,
{
    assert(v.open_files.to_set().contains(file));
}

/// What is known of a file that has been promised: either it is open, or all of it has been
/// delivered.
spec fn accounted_for(
    file_list: Seq<Seq<char>>,
    events: Seq<ServeEvent>,
    file: Seq<char>,
) -> bool {
    let v = server_after(file_list, events);
    &&& v.sent.contains(file) ==> times_served(file_list, events, file) == 1
    &&& !v.sent.contains(file) ==> times_served(file_list, events, file) == 0
    &&& v.sent.contains(file) && !v.open_files.contains(file) ==> {
        &&& !v.store.dom().contains(file)
        &&& received(events, file).len() > 0
        &&& received(events, file).last() is Eof
    }
}

/// A queue that ends a file is the end of a well-ended whole.
proof fn lemma_ends_with_eof(all: Seq<ContentView>, p: int)
    requires
        well_ended(all),
        0 <= p <= all.len(),
        transfer_of(all.skip(p)).done,
    ensures
        all.len() > 0,
        all.last() is Eof,
{
    lemma_unfinished(all.skip(p));
    let i = choose|i: int| 0 <= i < all.skip(p).len() && #[trigger] all.skip(p)[i] is Eof;
    assert(all[i + p] is Eof);
}

/// When a request is made, nothing is waiting of the files that are open.
proof fn lemma_fed_before_request(
    file_list: Seq<Seq<char>>,
    events: Seq<ServeEvent>,
    file: Seq<char>,
)
    requires
        prompt(events),
        events.len() > 0,
        events.last() is Requested,
    ensures
        server_after(file_list, events.drop_last()).open_files.contains(file) ==> !server_after(
            file_list,
            events.drop_last(),
        ).store.dom().contains(file),
{
    let earlier = events.drop_last();
    assert(events[events.len() - 1] is Requested);
    assert(earlier.last() is Fed);
    let fed_from = server_after(file_list, earlier.drop_last());
    lemma_still_open(fed_from.open_files, fed_from.feeds(), file);
    assert(fed_from.open_files.to_set().contains(file) <==> fed_from.open_files.contains(file));
}

/// Every file that has been promised is accounted for.
proof fn lemma_accounted_for(
    file_list: Seq<Seq<char>>,
    events: Seq<ServeEvent>,
    file: Seq<char>,
)
    requires
        well_ended(received(events, file)),
        prompt(events),
    ensures
        accounted_for(file_list, events, file),
    decreases events.len(),
{
    if events.len() > 0 {
        let earlier = events.drop_last();
        let before = server_after(file_list, earlier);
        let after = server_after(file_list, events);
        lemma_prompt_earlier(events);
        if let ServeEvent::Received(name, content) = events.last() {
            if name == file {
                lemma_well_ended_prefix(received(earlier, file), content);
            }
        }
        lemma_accounted_for(file_list, earlier, file);
        let p = lemma_waiting(file_list, earlier, file);
        match events.last() {
            ServeEvent::Received(name, content) => {
                if name == file && before.sent.contains(file) && !before.open_files.contains(file) {
                    let all = received(earlier, file);
                    assert(all[all.len() - 1] is Eof);
                    assert(false);
                }
            },
            ServeEvent::Fed => {
                lemma_still_open(before.open_files, before.feeds(), file);
                assert(before.open_files.to_set().contains(file) <==> before.open_files.contains(
                    file,
                ));
                if before.open_files.contains(file) && !after.open_files.contains(file) {
                    let i = choose|i: int|
                        0 <= i < before.open_files.len() && before.open_files[i] == file && (
                        #[trigger] before.feeds()[i] matches Some(t) && t.done);
                    lemma_ends_with_eof(received(earlier, file), p);
                }
            },
            ServeEvent::Requested(request) => {
                lemma_fed_before_request(file_list, events, file);
                if request == Some(file) && before.requested(request).1 matches Ok(
                    ReplyView::File { transfer: Some(_), .. },
                ) {
                    let t = transfer_of(before.store[file]);
                    if t.done {
                        lemma_ends_with_eof(received(earlier, file), p);
                    } else {
                        assert(after.open_files[after.open_files.len() - 1] == file);
                    }
                } else {
                    lemma_other_request(before, request, file);
                }
            },
            ServeEvent::Disconnected => {},
        }
    }
}

/// A request that is not answered with a file leaves what is known of that file alone.
proof fn lemma_other_request(v: ServerView, request: Option<Seq<char>>, file: Seq<char>)
    requires
        !(request == Some(file) && v.requested(request).1 matches Ok(
            ReplyView::File { transfer: Some(_), .. },
        )),
    ensures
        v.requested(request).0.sent.contains(file) == v.sent.contains(file),
        v.open_files.contains(file) ==> v.requested(request).0.open_files.contains(file),
        v.requested(request).0.open_files.contains(file) ==> v.open_files.contains(file),
        v.requested(request).0.store.dom().contains(file) == v.store.dom().contains(file),
{
    let after = v.requested(request).0;
    if v.open_files.contains(file) {
        let k = choose|k: int| 0 <= k < v.open_files.len() && v.open_files[k] == file;
        assert(after.open_files[k] == file);
    }
    if after.open_files.contains(file) {
        let k = choose|k: int| 0 <= k < after.open_files.len() && after.open_files[k] == file;
        if k < v.open_files.len() {
            assert(v.open_files[k] == file);
        }
    }
}

/// Every file is served at most once, provided that open files are fed before every request and
/// that nothing is received of a file after its end.
pub proof fn law_files_are_served_at_most_once(
    file_list: Seq<Seq<char>>,
    events: Seq<ServeEvent>,
    file: Seq<char>,
)
    requires
        well_ended(received(events, file)),
        prompt(events),
    ensures
        0 <= times_served(file_list, events, file) <= 1,
        times_served(file_list, events, file) == 1 <==> server_after(
            file_list,
            events,
        ).sent.contains(file),
{
    lemma_accounted_for(file_list, events, file);
}

/// A file that has been promised and of which nothing is waiting cannot be requested again.
pub proof fn law_second_request_is_refused(v: ServerView, file: Seq<char>)
    requires
        v.file_list.contains(file),
        v.sent.contains(file),
        !v.store.dom().contains(file),
        file != stop_request(),
        !is_pattern(file),
    ensures
        v.requested(Some(file)) == (v, Err::<ReplyView, Seq<char>>(file)),
{
}

/// A client is told that a file does not exist exactly where the image does not list it.
pub proof fn law_only_unlisted_files_do_not_exist(v: ServerView, file: Seq<char>)
    requires
        file != stop_request(),
        !is_pattern(file),
    ensures
        v.requested(Some(file)).1 matches Ok(
            ReplyView::File { status: FileStatus::DoesNotExist, .. },
        ) <==> !v.file_list.contains(file),
{
}

/// What is handed on for some chunks.
pub open spec fn contents_of(chunks: Seq<Seq<u8>>) -> Seq<ContentView> {
    Seq::new(chunks.len(), |i: int| ContentView::Content(chunks[i]))
}

/// What is handed on of a file of which the image brings the given pieces, without its end.
pub open spec fn piece_messages(pieces: Seq<Seq<u8>>) -> Seq<ContentView>
    decreases pieces.len(),
{
    if pieces.len() == 0 {
        Seq::empty()
    } else {
        piece_messages(pieces.drop_last()) + contents_of(chunks_of(pieces.last()))
    }
}

/// What is handed on of a file of which the image brings the given pieces.
pub open spec fn file_messages(pieces: Seq<Seq<u8>>) -> Seq<ContentView> {
    piece_messages(pieces).push(ContentView::Eof)
}

/// Two lists of chunks in a row.
proof fn lemma_joined_concat(a: Seq<Seq<u8>>, b: Seq<Seq<u8>>)
    ensures
        joined(a + b) == joined(a) + joined(b),
    decreases b.len(),
{
    if b.len() == 0 {
        assert(a + b =~= a);
        assert(joined(a) + joined(b) =~= joined(a));
    } else {
        assert((a + b).drop_last() =~= a + b.drop_last());
        lemma_joined_concat(a, b.drop_last());
        assert(joined(a + b) =~= joined(a) + joined(b));
    }
}

/// Chunks that are received are added to the transfer.
proof fn lemma_transfer_grows(queue: Seq<ContentView>, chunks: Seq<Seq<u8>>)
    requires
        !transfer_of(queue).done,
    ensures
        transfer_of(queue + contents_of(chunks)) == (TransferView {
            data: transfer_of(queue).data + chunks,
            done: false,
        }),
    decreases chunks.len(),
{
    let longer = queue + contents_of(chunks);
    if chunks.len() == 0 {
        assert(longer =~= queue);
        assert(transfer_of(queue).data + chunks =~= transfer_of(queue).data);
    } else {
        let fewer = chunks.drop_last();
        lemma_transfer_grows(queue, fewer);
        assert(longer.drop_last() =~= queue + contents_of(fewer));
        assert(longer.last() == ContentView::Content(chunks.last()));
        assert((transfer_of(queue).data + fewer).push(chunks.last()) =~= transfer_of(queue).data
            + chunks);
    }
}

/// What is handed on of the pieces of a file.
proof fn lemma_piece_messages(pieces: Seq<Seq<u8>>)
    requires
        forall|i: int| 0 <= i < pieces.len() ==> (#[trigger] pieces[i]).len() <= usize::MAX,
    ensures
        forall|i: int|
            0 <= i < piece_messages(pieces).len() ==> #[trigger] piece_messages(
                pieces,
            )[i] is Content,
        !transfer_of(piece_messages(pieces)).done,
        content_bytes(piece_messages(pieces)) == joined(pieces),
    decreases pieces.len(),
{
    if pieces.len() > 0 {
        let fewer = pieces.drop_last();
        assert forall|i: int| 0 <= i < fewer.len() implies (#[trigger] fewer[i]).len()
            <= usize::MAX by {
            assert(fewer[i] == pieces[i]);
        }
        lemma_piece_messages(fewer);
        let last = pieces[pieces.len() - 1];
        law_chunks_make_up_the_data(last, true);
        lemma_transfer_grows(piece_messages(fewer), chunks_of(last));
        lemma_joined_concat(transfer_of(piece_messages(fewer)).data, chunks_of(last));
    }
}

/// A file is handed on whole: the messages about a file carry exactly the bytes that the image
/// brings of it, in order, then its end, and nothing after that.
pub proof fn law_files_are_handed_on_whole(pieces: Seq<Seq<u8>>)
    requires
        forall|i: int| 0 <= i < pieces.len() ==> (#[trigger] pieces[i]).len() <= usize::MAX,
    ensures
        well_ended(file_messages(pieces)),
        transfer_of(file_messages(pieces)).done,
        content_bytes(file_messages(pieces)) == joined(pieces),
{
    lemma_piece_messages(pieces);
    let messages = piece_messages(pieces);
    assert(messages.push(ContentView::Eof).drop_last() =~= messages);
    assert forall|i: int| 0 <= i < file_messages(pieces).len() - 1 implies #[trigger] file_messages(
        pieces,
    )[i] is Content by {
        assert(messages[i] is Content);
    }
}

/// Whether a file is open at most once.
spec fn open_once(open: Seq<Seq<char>>, file: Seq<char>) -> bool {
    forall|i: int, j: int|
        0 <= i < j < open.len() ==> !(#[trigger] open[i] == file && #[trigger] open[j] == file)
}

/// What is open once stays so, and is no longer open if it is fed for good.
proof fn lemma_still_open_once(
    open: Seq<Seq<char>>,
    transfers: Seq<Option<TransferView>>,
    file: Seq<char>,
)
    requires
        open_once(open, file),
    ensures
        open_once(still_open(open, transfers), file),
        forall|i: int|
            0 <= i < open.len() && open[i] == file && (#[trigger] transfers[i] matches Some(t)
                && t.done) ==> !still_open(open, transfers).contains(file),
    decreases open.len(),
{
    if open.len() > 0 {
        let rest = open.drop_last();
        let last = open.last();
        let before = still_open(rest, transfers);
        let now = still_open(open, transfers);
        assert(open_once(rest, file)) by {
            assert forall|i: int, j: int| 0 <= i < j < rest.len() implies !(#[trigger] rest[i]
                == file && #[trigger] rest[j] == file) by {
                assert(!(open[i] == file && open[j] == file));
            }
        }
        lemma_still_open_once(rest, transfers, file);
        lemma_still_open(rest, transfers, file);
        if last == file && before.contains(file) {
            let k = choose|k: int| 0 <= k < rest.len() && rest[k] == file;
            assert(!(open[k] == file && open[open.len() - 1] == file));
        }
        assert forall|i: int, j: int| 0 <= i < j < now.len() implies !(#[trigger] now[i] == file
            && #[trigger] now[j] == file) by {
            if j < before.len() {
                assert(!(before[i] == file && before[j] == file));
            } else if now[i] == file {
                assert(before[i] == file);
                assert(before.contains(file));
            }
        }
        assert forall|i: int|
            0 <= i < open.len() && open[i] == file && (#[trigger] transfers[i] matches Some(t)
                && t.done) implies !now.contains(file) by {
            if now.contains(file) {
                let k = choose|k: int| 0 <= k < now.len() && now[k] == file;
                if k < before.len() {
                    assert(before[k] == file);
                    assert(before.contains(file));
                    if i < rest.len() {
                        assert(rest[i] == file);
                        assert(transfers[i] matches Some(t) && t.done);
                    }
                } else if i < rest.len() {
                    assert(!(open[i] == file && open[open.len() - 1] == file));
                }
            }
        }
    }
}

/// What is known of an open file: it is open once, and its end has not been delivered.
spec fn awaits_its_end(file_list: Seq<Seq<char>>, events: Seq<ServeEvent>, file: Seq<char>) -> bool {
    let v = server_after(file_list, events);
    let all = received(events, file);
    &&& open_once(v.open_files, file)
    &&& v.open_files.contains(file) && all.len() > 0 && all.last() is Eof
        ==> v.store.dom().contains(file)
}

/// Every open file awaits its end.
proof fn lemma_awaits_its_end(file_list: Seq<Seq<char>>, events: Seq<ServeEvent>, file: Seq<char>)
    requires
        well_ended(received(events, file)),
        prompt(events),
    ensures
        awaits_its_end(file_list, events, file),
    decreases events.len(),
{
    if events.len() > 0 {
        let earlier = events.drop_last();
        let before = server_after(file_list, earlier);
        let after = server_after(file_list, events);
        let all = received(earlier, file);
        lemma_prompt_earlier(events);
        if let ServeEvent::Received(name, content) = events.last() {
            if name == file {
                lemma_well_ended_prefix(all, content);
            }
        }
        lemma_awaits_its_end(file_list, earlier, file);
        let p = lemma_waiting(file_list, earlier, file);
        if before.store.dom().contains(file) && all.len() > 0 && all.last() is Eof {
            let queue = before.store[file];
            lemma_unfinished(queue);
            assert(queue[queue.len() - 1] is Eof);
            assert(transfer_of(queue).done);
        }
        match events.last() {
            ServeEvent::Received(name, content) => {},
            ServeEvent::Fed => {
                lemma_still_open(before.open_files, before.feeds(), file);
                lemma_still_open_once(before.open_files, before.feeds(), file);
                if after.open_files.contains(file) && all.len() > 0 && all.last() is Eof {
                    let i = choose|i: int|
                        0 <= i < before.open_files.len() && before.open_files[i] == file;
                    let first = before.open_files.take(i);
                    if first.contains(file) {
                        let k = choose|k: int| 0 <= k < first.len() && first[k] == file;
                        assert(!(before.open_files[k] == file && before.open_files[i] == file));
                    }
                    assert(before.feeds()[i] matches Some(t) && t.done);
                }
            },
            ServeEvent::Requested(request) => {
                lemma_fed_before_request(file_list, events, file);
                let now = after.open_files;
                assert forall|i: int, j: int| 0 <= i < j < now.len() implies !(#[trigger] now[i]
                    == file && #[trigger] now[j] == file) by {
                    if j < before.open_files.len() {
                        assert(!(before.open_files[i] == file && before.open_files[j] == file));
                    } else if now[i] == file {
                        assert(before.open_files[i] == file);
                        assert(before.open_files.contains(file));
                    }
                }
                if !(request == Some(file) && before.requested(request).1 matches Ok(
                    ReplyView::File { transfer: Some(_), .. },
                )) {
                    lemma_other_request(before, request, file);
                }
            },
            ServeEvent::Disconnected => {},
        }
    }
}

/// What is prompt was prompt before its last event.
proof fn lemma_prompt_earlier(events: Seq<ServeEvent>)
    requires
        prompt(events),
        events.len() > 0,
    ensures
        prompt(events.drop_last()),
{
    let earlier = events.drop_last();
    assert forall|i: int| 0 <= i < earlier.len() && (#[trigger] earlier[i] is Requested) implies 0
        < i && earlier[i - 1] is Fed by {
        assert(events[i] is Requested);
    }
}

/// A client that was promised a file gets all of it: once the whole file has been handed on and
/// open files have then been fed, exactly the bytes that the image brings of it have gone to its
/// client, nothing of it is left, and it is no longer open.
pub proof fn law_client_gets_the_whole_file(
    file_list: Seq<Seq<char>>,
    events: Seq<ServeEvent>,
    file: Seq<char>,
    pieces: Seq<Seq<u8>>,
)
    requires
        forall|i: int| 0 <= i < pieces.len() ==> (#[trigger] pieces[i]).len() <= usize::MAX,
        received(events, file) == file_messages(pieces),
        prompt(events),
        events.len() > 0,
        events.last() is Fed,
        server_after(file_list, events).sent.contains(file),
    ensures
        delivered(file_list, events, file) == joined(pieces),
        server_after(file_list, events).queue(file).len() == 0,
        !server_after(file_list, events).open_files.contains(file),
{
    law_files_are_handed_on_whole(pieces);
    let earlier = events.drop_last();
    let before = server_after(file_list, earlier);
    let after = server_after(file_list, events);
    lemma_prompt_earlier(events);
    lemma_accounted_for(file_list, earlier, file);
    lemma_awaits_its_end(file_list, events, file);
    law_clients_get_what_was_received(file_list, events, file);
    assert(before.open_files.to_set().contains(file) <==> before.open_files.contains(file));
    lemma_still_open(before.open_files, before.feeds(), file);
    if before.open_files.contains(file) {
        law_open_files_are_up_to_date(before, file);
        assert(!after.store.dom().contains(file));
    }
    let waiting = after.queue(file);
    assert(waiting =~= Seq::empty());
    assert(content_bytes(waiting) =~= Seq::empty());
    assert(delivered(file_list, events, file) + content_bytes(waiting) =~= delivered(
        file_list,
        events,
        file,
    ));
}

/// Only files that the image lists, and that can be asked for, are promised.
proof fn lemma_promised(file_list: Seq<Seq<char>>, events: Seq<ServeEvent>, file: Seq<char>)
    ensures
        server_after(file_list, events).file_list == file_list,
        server_after(file_list, events).sent.contains(file) ==> file_list.contains(file) && file
            != stop_request() && !is_pattern(file),
    decreases events.len(),
{
    if events.len() > 0 {
        lemma_promised(file_list, events.drop_last(), file);
    }
}

/// A file that has been served is refused ever after, provided that open files are fed before every
/// request and that nothing is received of a file after its end.
pub proof fn law_served_files_are_refused(
    file_list: Seq<Seq<char>>,
    events: Seq<ServeEvent>,
    file: Seq<char>,
)
    requires
        well_ended(received(events, file)),
        prompt(events),
        events.len() > 0,
        events.last() is Fed,
        times_served(file_list, events, file) > 0,
    ensures
        server_after(file_list, events).requested(Some(file)) == (
            server_after(file_list, events),
            Err::<ReplyView, Seq<char>>(file),
        ),
{
    let before = server_after(file_list, events.drop_last());
    lemma_promised(file_list, events, file);
    lemma_prompt_earlier(events);
    lemma_accounted_for(file_list, events, file);
    lemma_accounted_for(file_list, events.drop_last(), file);
    assert(before.open_files.to_set().contains(file) <==> before.open_files.contains(file));
    law_second_request_is_refused(server_after(file_list, events), file);
}

/// The sending of a transfer so far.
#[verifier::ext_equal]
pub struct Sending {
    /// How it goes on.
    pub step: SendStep,
    /// The memory budget.
    pub budget: SemaphoreView,
    /// What the pipe has got.
    pub sent: Seq<u8>,
}

/// The sending of a transfer after some attempts to write, each of which succeeded or failed.
pub open spec fn sending(t: TransferView, budget: SemaphoreView, written: Seq<bool>) -> Sending
    decreases written.len(),
{
    if written.len() == 0 {
        Sending { step: t.step_at(0), budget, sent: Seq::empty() }
    } else {
        let before = sending(t, budget, written.drop_last());
        match before.step {
            SendStep::Write(i) => if written.last() {
                Sending {
                    step: t.step_at(i + 1),
                    budget: before.budget.released(t.data[i as int].len() as int),
                    sent: before.sent + t.data[i as int],
                }
            } else {
                Sending { step: SendStep::Failed, ..before }
            },
            _ => before,
        }
    }
}

/// The memory budget after the memory of some chunks has been given back, chunk by chunk.
pub open spec fn given_back(budget: SemaphoreView, chunks: Seq<Seq<u8>>) -> SemaphoreView
    decreases chunks.len(),
{
    if chunks.len() == 0 {
        budget
    } else {
        given_back(budget, chunks.drop_last()).released(chunks.last().len() as int)
    }
}

/// Attempts to write of which the first `n` succeed.
pub open spec fn succeeding(n: int) -> Seq<bool> {
    Seq::new(n as nat, |i: int| true)
}

/// Each chunk that is written is given back once, after it has been written: once the first `n` chunks
/// have been, the pipe has got exactly these, their memory and no other has been given back, and the
/// sending goes on with the next or is over. Where the next one cannot be written, neither its memory
/// nor that of a later one is given back.
pub proof fn law_sent_chunks_are_given_back_once(t: TransferView, budget: SemaphoreView, n: int)
    requires
        0 <= n <= t.data.len() <= usize::MAX,
    ensures
        sending(t, budget, succeeding(n)) == (Sending {
            step: t.step_at(n),
            budget: given_back(budget, t.data.take(n)),
            sent: joined(t.data.take(n)),
        }),
        n < t.data.len() ==> sending(t, budget, succeeding(n).push(false)) == (Sending {
            step: SendStep::Failed,
            budget: given_back(budget, t.data.take(n)),
            sent: joined(t.data.take(n)),
        }),
    decreases n,
{
    if n == 0 {
        assert(t.data.take(0) =~= Seq::empty());
        assert(joined(t.data.take(0)) =~= Seq::empty());
    } else {
        law_sent_chunks_are_given_back_once(t, budget, n - 1);
        assert(succeeding(n).drop_last() =~= succeeding(n - 1));
        assert(t.data.take(n).drop_last() =~= t.data.take(n - 1));
        assert(t.data.take(n).last() == t.data[n - 1]);
    }
    assert(succeeding(n).push(false).drop_last() =~= succeeding(n));
}

/// How much of the memory budget the transfer of some chunks takes.
pub open spec fn acquired_by(plan: Seq<ChunkStep>) -> int
    decreases plan.len(),
{
    if plan.len() == 0 {
        0
    } else {
        acquired_by(plan.drop_last()) + match plan.last().acquire {
            Some(n) => n as int,
            None => 0,
        }
    }
}

/// How much of the memory budget is taken for a file of which the image brings the given pieces.
pub open spec fn taken(pieces: Seq<Seq<u8>>, is_small: bool) -> int
    decreases pieces.len(),
{
    if pieces.len() == 0 {
        0
    } else {
        taken(pieces.drop_last(), is_small) + acquired_by(
            chunk_plan(pieces.last().len() as int, is_small),
        )
    }
}

/// The plan for a piece of a large file takes as much as its chunks hold.
proof fn lemma_acquired(chunks: Seq<Seq<u8>>, plan: Seq<ChunkStep>)
    requires
        plan.len() == chunks.len(),
        forall|i: int|
            0 <= i < plan.len() ==> (#[trigger] plan[i]).acquire == Some(chunks[i].len() as isize),
        forall|i: int| 0 <= i < chunks.len() ==> (#[trigger] chunks[i]).len() <= CHUNK_SIZE,
    ensures
        acquired_by(plan) == joined(chunks).len(),
    decreases plan.len(),
{
    if plan.len() > 0 {
        let fewer = plan.drop_last();
        assert forall|i: int| 0 <= i < fewer.len() implies (#[trigger] fewer[i]).acquire == Some(
            chunks.drop_last()[i].len() as isize,
        ) by {
            assert(fewer[i] == plan[i]);
        }
        assert forall|i: int| 0 <= i < chunks.drop_last().len() implies (
        #[trigger] chunks.drop_last()[i]).len() <= CHUNK_SIZE by {
            assert(chunks.drop_last()[i] == chunks[i]);
        }
        lemma_acquired(chunks.drop_last(), fewer);
        assert(plan[plan.len() - 1].acquire == Some(chunks[plan.len() - 1].len() as isize));
        assert(chunks[plan.len() - 1].len() <= CHUNK_SIZE);
    }
}

/// A plan for a small file takes nothing.
proof fn lemma_nothing_acquired(plan: Seq<ChunkStep>)
    requires
        forall|i: int| 0 <= i < plan.len() ==> (#[trigger] plan[i]).acquire is None,
    ensures
        acquired_by(plan) == 0,
    decreases plan.len(),
{
    if plan.len() > 0 {
        let fewer = plan.drop_last();
        assert forall|i: int| 0 <= i < fewer.len() implies (
        #[trigger] fewer[i]).acquire is None by {
            assert(fewer[i] == plan[i]);
        }
        lemma_nothing_acquired(fewer);
        assert(plan[plan.len() - 1].acquire is None);
    }
}

/// A large file takes as much as the image brings of it, and a small one takes nothing.
proof fn lemma_taken(pieces: Seq<Seq<u8>>)
    requires
        forall|i: int| 0 <= i < pieces.len() ==> (#[trigger] pieces[i]).len() <= usize::MAX,
    ensures
        taken(pieces, false) == joined(pieces).len(),
        taken(pieces, true) == 0,
    decreases pieces.len(),
{
    if pieces.len() > 0 {
        let fewer = pieces.drop_last();
        assert forall|i: int| 0 <= i < fewer.len() implies (#[trigger] fewer[i]).len()
            <= usize::MAX by {
            assert(fewer[i] == pieces[i]);
        }
        lemma_taken(fewer);
        let last = pieces[pieces.len() - 1];
        law_chunks_make_up_the_data(last, false);
        let plan = chunk_plan(last.len() as int, false);
        assert forall|i: int| 0 <= i < plan.len() implies (#[trigger] plan[i]).acquire == Some(
            chunks_of(last)[i].len() as isize,
        ) by {
            assert(0 < chunks_of(last)[i].len() <= CHUNK_SIZE);
        }
        lemma_acquired(chunks_of(last), plan);
        lemma_nothing_acquired(chunk_plan(last.len() as int, true));
    }
}

/// Giving back no more than was taken adds up.
proof fn lemma_given_back(budget: SemaphoreView, chunks: Seq<Seq<u8>>)
    requires
        budget.count + joined(chunks).len() <= budget.start_val,
    ensures
        given_back(budget, chunks) == (SemaphoreView {
            count: budget.count + joined(chunks).len(),
            ..budget
        }),
    decreases chunks.len(),
{
    if chunks.len() > 0 {
        lemma_given_back(budget, chunks.drop_last());
    }
}

/// What a large file takes of the memory budget is what its sending gives back: once all of it has been
/// received and sent, the budget is what it was. A small file takes nothing.
pub proof fn law_large_files_give_back_what_they_take(budget: SemaphoreView, pieces: Seq<Seq<u8>>)
    requires
        forall|i: int| 0 <= i < pieces.len() ==> (#[trigger] pieces[i]).len() <= usize::MAX,
        budget.count <= budget.start_val,
    ensures
        given_back(
            budget.acquired(taken(pieces, false)),
            transfer_of(file_messages(pieces)).data,
        ) == budget,
        taken(pieces, true) == 0,
{
    law_files_are_handed_on_whole(pieces);
    lemma_taken(pieces);
    lemma_given_back(
        budget.acquired(taken(pieces, false)),
        transfer_of(file_messages(pieces)).data,
    );
}

/// A transfer carries exactly the contents that come before the end of the file, in order, and says
/// whether that end has come; what comes behind it does not count.
pub proof fn law_transfer_carries_what_comes_before_the_end(
    chunks: Seq<Seq<u8>>,
    rest: Seq<ContentView>,
)
    ensures
        transfer_of(contents_of(chunks)).data == chunks,
        !transfer_of(contents_of(chunks)).done,
        transfer_of(contents_of(chunks).push(ContentView::Eof) + rest).data == chunks,
        transfer_of(contents_of(chunks).push(ContentView::Eof) + rest).done,
{
    let empty = Seq::<ContentView>::empty();
    lemma_transfer_grows(empty, chunks);
    assert(empty + contents_of(chunks) =~= contents_of(chunks));
    assert(Seq::<Seq<u8>>::empty() + chunks =~= chunks);
    let ended = contents_of(chunks).push(ContentView::Eof);
    assert(ended.drop_last() =~= contents_of(chunks));
    lemma_behind_the_end(ended, rest);
}

/// What comes behind the end of a file does not count.
proof fn lemma_behind_the_end(queue: Seq<ContentView>, rest: Seq<ContentView>)
    requires
        transfer_of(queue).done,
    ensures
        transfer_of(queue + rest) == transfer_of(queue),
    decreases rest.len(),
{
    if rest.len() == 0 {
        assert(queue + rest =~= queue);
    } else {
        assert((queue + rest).drop_last() =~= queue + rest.drop_last());
        lemma_behind_the_end(queue, rest.drop_last());
    }
}

/// Sending a transfer goes through its chunks one by one. Once all of them have been written, the file
/// is complete exactly if its end was among what had been received, however many chunks there were;
/// otherwise it stays open for what is still to come.
pub proof fn law_sending_ends_as_the_file_does(
    queue: Seq<ContentView>,
    budget: SemaphoreView,
    n: int,
)
    requires
        0 <= n <= transfer_of(queue).data.len() <= usize::MAX,
    ensures
        n < transfer_of(queue).data.len() ==> sending(
            transfer_of(queue),
            budget,
            succeeding(n),
        ).step == SendStep::Write(n as usize),
        n == transfer_of(queue).data.len() ==> sending(
            transfer_of(queue),
            budget,
            succeeding(n),
        ).step == if queue.contains(ContentView::Eof) {
            SendStep::Complete
        } else {
            SendStep::Open
        },
        n < transfer_of(queue).data.len() ==> transfer_of(queue).step_at(n) == SendStep::Write(
            n as usize,
        ),
        n == transfer_of(queue).data.len() ==> transfer_of(queue).step_at(n) == if queue.contains(
            ContentView::Eof,
        ) {
            SendStep::Complete
        } else {
            SendStep::Open
        },
{
    law_sent_chunks_are_given_back_once(transfer_of(queue), budget, n);
    lemma_unfinished(queue);
    if queue.contains(ContentView::Eof) {
        let i = choose|i: int| 0 <= i < queue.len() && queue[i] == ContentView::Eof;
        assert(queue[i] is Eof);
    }
    if transfer_of(queue).done {
        let i = choose|i: int| 0 <= i < queue.len() && #[trigger] queue[i] is Eof;
        assert(queue[i] == ContentView::Eof);
    }
}

/// A request that is neither empty, nor holds an asterisk, nor is the word that stops the listener asks
/// for a file, and is answered by what there is of that file: if something of it is stored, with all of
/// that, whatever its name; if it is listed and neither stored nor sent, by telling the client to wait;
/// if it has been sent, with a refusal; and if it is not listed, by saying that it does not exist.
pub proof fn law_requests_for_files_get_the_file(
    v: ServerView,
    name: Seq<char>,
    chunks: Seq<Seq<u8>>,
    rest: Seq<ContentView>,
)
    requires
        name.len() > 0,
        forall|i: int| 0 <= i < name.len() ==> #[trigger] name[i] != '*',
        name != "stop-listener"@,
    ensures
        v.file_list.contains(name) && v.store.dom().contains(name) && v.store[name] == contents_of(
            chunks,
        ) ==> v.requested(Some(name)) == (
            ServerView {
                store: v.store.remove(name),
                sent: v.sent.insert(name),
                open_files: v.open_files.push(name),
                ..v
            },
            Ok::<ReplyView, Seq<char>>(
                ReplyView::File {
                    exists: true,
                    status: FileStatus::Ready,
                    transfer: Some(TransferView { data: chunks, done: false }),
                },
            ),
        ),
        v.file_list.contains(name) && v.store.dom().contains(name) && v.store[name] == contents_of(
            chunks,
        ).push(ContentView::Eof) + rest ==> v.requested(Some(name)) == (
            ServerView { store: v.store.remove(name), sent: v.sent.insert(name), ..v },
            Ok::<ReplyView, Seq<char>>(
                ReplyView::File {
                    exists: true,
                    status: FileStatus::Ready,
                    transfer: Some(TransferView { data: chunks, done: true }),
                },
            ),
        ),
        v.file_list.contains(name) && !v.store.dom().contains(name) && !v.sent.contains(name)
            ==> v.requested(Some(name)) == (
            v,
            Ok::<ReplyView, Seq<char>>(
                ReplyView::File { exists: true, status: FileStatus::NotReady, transfer: None },
            ),
        ),
        v.file_list.contains(name) && !v.store.dom().contains(name) && v.sent.contains(name)
            ==> v.requested(Some(name)) == (v, Err::<ReplyView, Seq<char>>(name)),
        !v.file_list.contains(name) ==> v.requested(Some(name)) == (
            v,
            Ok::<ReplyView, Seq<char>>(
                ReplyView::File { exists: false, status: FileStatus::DoesNotExist, transfer: None },
            ),
        ),
{
    law_transfer_carries_what_comes_before_the_end(chunks, rest);
    assert(!name.contains('*'));
}

/// What is received of a file is stored behind what is stored of it already, and serving is fed from
/// nothing else: so every queue that [`law_requests_for_files_get_the_file`] speaks of comes about, and
/// storing changes nothing else.
pub proof fn law_what_is_received_is_stored(v: ServerView, name: Seq<char>, content: ContentView)
    ensures
        v.stored(name, content).store.dom() == v.store.dom().insert(name),
        v.stored(name, content).store[name] == (if v.store.dom().contains(name) {
            v.store[name].push(content)
        } else {
            seq![content]
        }),
        forall|other: Seq<char>| #[trigger]
            v.store.dom().contains(other) && other != name ==> v.stored(name, content).store[other]
                == v.store[other],
        v.stored(name, content).file_list == v.file_list,
        v.stored(name, content).sent == v.sent,
        v.stored(name, content).open_files == v.open_files,
        v.stored(name, content).receiver_eof == v.receiver_eof,
{
    assert(v.stored(name, content).store.dom() =~= v.store.dom().insert(name));
    assert(Seq::<ContentView>::empty().push(content) =~= seq![content]);
}

/// Every other request is told apart by its characters alone: a list of names comes exactly where the
/// request is empty or holds an asterisk, the listener stops exactly at the word for it, and only a
/// client that is gone is ignored. None of these changes anything.
pub proof fn law_other_requests_are_told_apart(v: ServerView, request: Option<Seq<char>>)
    ensures
        v.requested(request).1 matches Ok(ReplyView::FileList(_)) <==> (request matches Some(name)
            && name != "stop-listener"@ && (name.len() == 0 || name.contains('*'))),
        v.requested(request).1 == Ok::<ReplyView, Seq<char>>(ReplyView::StopListener) <==> request
            == Some("stop-listener"@),
        v.requested(request).1 == Ok::<ReplyView, Seq<char>>(ReplyView::Ignore) <==> request is None,
        v.requested(request).1 matches Ok(ReplyView::FileList(names)) ==> names == selected(
            v.file_list,
            request->0,
        ),
        !(v.requested(request).1 matches Ok(ReplyView::File { transfer: Some(_), .. }))
            ==> v.requested(request).0 == v,
{
}

/// Feeding gives every open file all that is stored of it, once, leaves alone what is stored of other
/// files, and closes exactly the files whose end it brings.
pub proof fn law_feeding_gives_all_that_is_stored(v: ServerView, i: int, file: Seq<char>)
    requires
        0 <= i < v.open_files.len(),
        forall|a: int, b: int|
            0 <= a < b < v.open_files.len() ==> #[trigger] v.open_files[a] != #[trigger]
                v.open_files[b],
    ensures
        v.feeds().len() == v.open_files.len(),
        v.store.dom().contains(v.open_files[i]) ==> v.feeds()[i] == Some(
            transfer_of(v.store[v.open_files[i]]),
        ),
        !v.store.dom().contains(v.open_files[i]) ==> v.feeds()[i] is None,
        !v.fed().store.dom().contains(v.open_files[i]),
        !v.open_files.contains(file) && v.store.dom().contains(file)
            ==> v.fed().store.dom().contains(file) && v.fed().store[file] == v.store[file],
        v.fed().open_files.contains(v.open_files[i]) <==> !(v.store.dom().contains(v.open_files[i])
            && v.store[v.open_files[i]].contains(ContentView::Eof)),
        v.fed().open_files.contains(file) ==> v.open_files.contains(file),
        v.fed().file_list == v.file_list && v.fed().sent == v.sent && v.fed().receiver_eof
            == v.receiver_eof,
{
    let name = v.open_files[i];
    let before = v.open_files.take(i);
    if before.contains(name) {
        let k = choose|k: int| 0 <= k < before.len() && before[k] == name;
        assert(v.open_files[k] != v.open_files[i]);
    }
    assert(v.open_files.contains(name));
    assert(v.open_files.to_set().contains(name));
    assert(v.open_files.to_set().contains(file) <==> v.open_files.contains(file));
    lemma_still_open(v.open_files, v.feeds(), file);
    lemma_still_open(v.open_files, v.feeds(), name);
    assert(open_once(v.open_files, name));
    lemma_still_open_once(v.open_files, v.feeds(), name);
    if v.store.dom().contains(name) {
        let queue = v.store[name];
        lemma_unfinished(queue);
        if queue.contains(ContentView::Eof) {
            let k = choose|k: int| 0 <= k < queue.len() && queue[k] == ContentView::Eof;
            assert(queue[k] is Eof);
        }
        if transfer_of(queue).done {
            let k = choose|k: int| 0 <= k < queue.len() && #[trigger] queue[k] is Eof;
            assert(queue[k] == ContentView::Eof);
        }
    }
    if !v.fed().open_files.contains(name) {
        let k = choose|k: int|
            0 <= k < v.open_files.len() && v.open_files[k] == name && (
            #[trigger] v.feeds()[k] matches Some(t) && t.done);
        if k < i {
            assert(v.open_files[k] != v.open_files[i]);
        } else if i < k {
            assert(v.open_files[i] != v.open_files[k]);
        }
    } else {
        assert(!(v.feeds()[i] matches Some(t) && t.done));
    }
}

/// The refusal of a second request names the file.
pub proof fn law_refusal_names_the_file(name: String)
    ensures
        ServeError::RequestedTwice(name).text() == "Client is requesting the image file `"@ + name@
            + "` multiple times. This is not allowed to keep the memory usage low"@,
{
}

/// Whether a reply says this: the same kind of reply, the same names, the same answer and the same
/// bytes.
pub open spec fn says(reply: Reply, seen: ReplyView) -> bool {
    match (reply, seen) {
        (Reply::Ignore, ReplyView::Ignore) => true,
        (Reply::StopListener, ReplyView::StopListener) => true,
        (Reply::FileList(names), ReplyView::FileList(listed)) => {
            &&& names@.len() == listed.len()
            &&& forall|i: int| 0 <= i < listed.len() ==> names@[i]@ == #[trigger] listed[i]
        },
        (
            Reply::File { exists: a, status: s, transfer: t },
            ReplyView::File { exists: b, status: r, transfer: u },
        ) => a == b && s == r && match (t, u) {
            (Some(t), Some(u)) => {
                &&& t.done == u.done
                &&& t.data@.len() == u.data.len()
                &&& forall|i: int| 0 <= i < u.data.len() ==> t.data@[i]@ == #[trigger] u.data[i]
            },
            (None, None) => true,
            _ => false,
        },
        _ => false,
    }
}

/// Replies and contents are what the contracts say of them, down to the last byte.
pub proof fn law_replies_are_seen_as_they_are(reply: Reply, content: FileContent)
    ensures
        says(reply, reply@),
        content matches FileContent::Content(bytes) ==> content@ == ContentView::Content(bytes@),
        content is Eof ==> content@ == ContentView::Eof,
{
}

/// For each open file, whether feeding brings its end.
pub open spec fn brings_end(v: ServerView) -> Seq<bool> {
    Seq::new(
        v.open_files.len(),
        |i: int|
            v.store.dom().contains(v.open_files[i]) && !v.open_files.take(i).contains(
                v.open_files[i],
            ) && v.store[v.open_files[i]].contains(ContentView::Eof),
    )
}

/// The places of the files that are still open.
proof fn lemma_still_open_places(
    open: Seq<Seq<char>>,
    transfers: Seq<Option<TransferView>>,
    ends: Seq<bool>,
) -> (places: Seq<int>)
    requires
        open.len() <= ends.len(),
        forall|i: int|
            0 <= i < open.len() ==> (#[trigger] ends[i] <==> (transfers[i] matches Some(t)
                && t.done)),
    ensures
        are_places_of(places, ends, open.len() as int, false),
        still_open(open, transfers) == Seq::new(places.len(), |k: int| open[places[k]]),
    decreases open.len(),
{
    if open.len() == 0 {
        let places = Seq::<int>::empty();
        assert(still_open(open, transfers) =~= Seq::new(places.len(), |k: int| open[places[k]]));
        places
    } else {
        let last = open.len() - 1;
        let before = lemma_still_open_places(open.drop_last(), transfers, ends);
        let places = if ends[last] {
            before
        } else {
            before.push(last)
        };
        assert forall|k: int| 0 <= k < places.len() implies 0 <= #[trigger] places[k] < open.len()
            && ends[places[k]] == false by {
            if k < before.len() {
                assert(0 <= before[k] < last);
            }
        }
        assert forall|k: int, m: int| 0 <= k < m < places.len() implies #[trigger] places[k]
            < #[trigger] places[m] by {
            assert(0 <= before[k] < last);
            if m < before.len() {
                assert(before[k] < before[m]);
            }
        }
        assert forall|i: int| 0 <= i < open.len() && #[trigger] ends[i] == false implies places.contains(
            i,
        ) by {
            if i < last {
                assert(before.contains(i));
                let k = choose|k: int| 0 <= k < before.len() && before[k] == i;
                assert(places[k] == i);
            } else {
                assert(places[before.len() as int] == i);
            }
        }
        assert forall|k: int| 0 <= k < before.len() implies open.drop_last()[before[k]]
            == #[trigger] open[before[k]] by {
            assert(0 <= before[k] < last);
        }
        assert(still_open(open, transfers) =~= Seq::new(places.len(), |k: int| open[places[k]]));
        places
    }
}

/// Feeding closes exactly the files whose end it brings; all others stay open, in the order in which they
/// were requested.
pub proof fn law_files_stay_open_in_their_order(v: ServerView) -> (places: Seq<int>)
    ensures
        are_places_of(places, brings_end(v), v.open_files.len() as int, false),
        v.fed().open_files == Seq::new(places.len(), |k: int| v.open_files[places[k]]),
{
    let ends = brings_end(v);
    assert forall|i: int| 0 <= i < v.open_files.len() implies (#[trigger] ends[i] <==> (
    v.feeds()[i] matches Some(t) && t.done)) by {
        let queue = v.store[v.open_files[i]];
        lemma_unfinished(queue);
        if queue.contains(ContentView::Eof) {
            let k = choose|k: int| 0 <= k < queue.len() && queue[k] == ContentView::Eof;
            assert(queue[k] is Eof);
        }
        if transfer_of(queue).done {
            let k = choose|k: int| 0 <= k < queue.len() && #[trigger] queue[k] is Eof;
            assert(queue[k] == ContentView::Eof);
        }
    }
    lemma_still_open_places(v.open_files, v.feeds(), ends)
}

/// In the beginning nothing has been received of any file, none has been sent and none is open, and the list
/// of files is the one that was given.
pub proof fn law_nothing_is_stored_in_the_beginning(file_list: Seq<Seq<char>>, name: Seq<char>)
    ensures
        ({
            let v = ServerView::initial(file_list);
            &&& v.file_list == file_list
            &&& !v.store.dom().contains(name)
            &&& !v.sent.contains(name)
            &&& v.open_files.len() == 0
            &&& !v.receiver_eof
        }),
{
}

/// What has been received of a file is taken for what it is, in its order, and so are transfers.
pub proof fn law_queues_are_seen_as_they_are(
    queue: Seq<FileContent>,
    transfers: Seq<Option<Transfer>>,
    i: int,
)
    ensures
        content_views(queue).len() == queue.len(),
        0 <= i < queue.len() ==> content_views(queue)[i] == queue[i]@,
        transfer_views(transfers).len() == transfers.len(),
        0 <= i < transfers.len() ==> (transfer_views(transfers)[i] is Some <==> transfers[i] is Some),
        0 <= i < transfers.len() && transfers[i] is Some ==> transfer_views(transfers)[i]
            == Some(transfers[i]->0@),
{
}

/// What is stored of an open file goes to the first of those who have it open, all of it, and nothing goes to
/// the others.
pub proof fn law_every_open_file_is_fed_once(v: ServerView, i: int)
    requires
        0 <= i < v.open_files.len(),
    ensures
        v.feeds().len() == v.open_files.len(),
        !v.store.dom().contains(v.open_files[i]) ==> v.feeds()[i] is None,
        (exists|j: int| 0 <= j < i && #[trigger] v.open_files[j] == v.open_files[i])
            ==> v.feeds()[i] is None,
        v.store.dom().contains(v.open_files[i]) && (forall|j: int|
            0 <= j < i ==> #[trigger] v.open_files[j] != v.open_files[i]) ==> v.feeds()[i] == Some(
            transfer_of(v.store[v.open_files[i]]),
        ),
{
    let before = v.open_files.take(i);
    if exists|j: int| 0 <= j < i && #[trigger] v.open_files[j] == v.open_files[i] {
        let j = choose|j: int| 0 <= j < i && #[trigger] v.open_files[j] == v.open_files[i];
        assert(before[j] == v.open_files[i]);
    }
    if before.contains(v.open_files[i]) {
        let j = choose|j: int| 0 <= j < before.len() && before[j] == v.open_files[i];
        assert(v.open_files[j] == v.open_files[i]);
    }
}

/// A request is taken for what it is.
pub proof fn law_requests_are_seen_as_they_are(request: Option<String>)
    ensures
        request is None <==> request_view(request) is None,
        request matches Some(name) ==> request_view(request) == Some(name@),
{
}

} // verus!
