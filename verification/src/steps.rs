//! What single steps of the reassembly do, told by what goes in and what comes out.

use crate::deserializer::{
    pick, Action, ActionView, DeserializerView, DrainStep, DrainStepView, ExtractError,
    NextShard,
};
use crate::marker::{
    insert_pending, pending_views, sorted_by_seq, Body, BodyView, Marker, MarkerView, PendingMarker,
    PendingView,
};
use vstd::prelude::*;

verus! {

/// Whether two states differ at most in the file that is being received, in whether the image is
/// complete, and in what remains to be noted.
pub open spec fn same_but_for_the_file(v: DeserializerView, w: DeserializerView) -> bool {
    &&& w.small_file_seq == v.small_file_seq
    &&& w.metadata == v.metadata
    &&& w.shards == v.shards
    &&& w.readable_shards == v.readable_shards
    &&& w.pending_markers == v.pending_markers
    &&& w.seq == v.seq
    &&& w.stats == v.stats
}

/// Whether what remains to be noted is this: the file that is then being received, if a new one is, and
/// how many bytes have then come over which shard.
pub open spec fn remains(v: DeserializerView, name: Option<Seq<char>>, size: int, shard: usize) -> bool {
    &&& v.performing is Some
    &&& v.performing->0.opened == name
    &&& v.performing->0.size == size
    &&& v.performing->0.shard == shard
}

/// Whether a marker is refused for this reason, and nothing changes.
pub open spec fn refused(
    v: DeserializerView,
    outcome: (DeserializerView, Result<ActionView, ExtractError>),
    reason: ExtractError,
) -> bool {
    outcome.0 == v && outcome.1 is Err && outcome.1->Err_0 == reason
}

/// Whether this action is to be performed for a marker.
pub open spec fn asks_for(
    outcome: (DeserializerView, Result<ActionView, ExtractError>),
    action: ActionView,
) -> bool {
    outcome.1 is Ok && outcome.1->Ok_0 == action
}

/// A marker that announces nothing is refused, whatever the state; so is one that says that a file or
/// the image is not at its end.
pub proof fn law_malformed_markers_are_refused(v: DeserializerView, marker: MarkerView, shard: usize)
    requires
        marker.body is None || marker.body == Some(BodyView::FileEof(false)) || marker.body == Some(
            BodyView::ImageEof(false),
        ),
    ensures
        refused(v, v.processed(marker, shard), ExtractError::MalformedMarker),
        refused(v, v.small_processed(marker), ExtractError::MalformedMarker),
{
}

/// The name of a file has a file of that name created, which is then being received.
pub proof fn law_names_begin_files(v: DeserializerView, seq: u64, name: Seq<char>, shard: usize)
    ensures
        ({
            let marker = MarkerView { seq, body: Some(BodyView::Filename(name)) };
            &&& asks_for(v.processed(marker, shard), ActionView::CreateFile(name))
            &&& same_but_for_the_file(v, v.processed(marker, shard).0)
            &&& v.processed(marker, shard).0.current_img_file == v.current_img_file
            &&& v.processed(marker, shard).0.image_eof == v.image_eof
            &&& remains(v.processed(marker, shard).0, Some(name), 0, shard)
            &&& asks_for(v.small_processed(marker), ActionView::CreateFile(name))
            &&& same_but_for_the_file(v, v.small_processed(marker).0)
            &&& v.small_processed(marker).0.current_img_file == v.current_img_file
            &&& v.small_processed(marker).0.image_eof == v.image_eof
            &&& remains(v.small_processed(marker).0, Some(name), 0, 0)
        }),
{
}

/// File contents go to the file that is being received, all of them, from the shard that brings them,
/// and are refused where there is none. Only what the shard of small files brings for the list of files
/// is read instead.
pub proof fn law_contents_go_to_the_open_file(
    v: DeserializerView,
    seq: u64,
    size: u32,
    shard: usize,
)
    ensures
        ({
            let marker = MarkerView { seq, body: Some(BodyView::FileData(size)) };
            &&& v.current_img_file is None ==> refused(
                v,
                v.processed(marker, shard),
                ExtractError::UnexpectedFileData,
            ) && refused(v, v.small_processed(marker), ExtractError::UnexpectedFileData)
            &&& v.current_img_file is Some ==> {
                &&& asks_for(v.processed(marker, shard), ActionView::CopyData { shard, size })
                &&& same_but_for_the_file(v, v.processed(marker, shard).0)
                &&& v.processed(marker, shard).0.current_img_file == v.current_img_file
                &&& v.processed(marker, shard).0.image_eof == v.image_eof
                &&& remains(v.processed(marker, shard).0, None, size as int, shard)
                &&& v.current_img_file->0 != "metadata.json"@ ==> asks_for(
                    v.small_processed(marker),
                    ActionView::CopyData { shard: 0, size },
                )
                &&& v.current_img_file->0 == "metadata.json"@ ==> asks_for(
                    v.small_processed(marker),
                    ActionView::ReadMetadata { size },
                )
                &&& same_but_for_the_file(v, v.small_processed(marker).0)
                &&& v.small_processed(marker).0.current_img_file == v.current_img_file
                &&& v.small_processed(marker).0.image_eof == v.image_eof
                &&& remains(v.small_processed(marker).0, None, size as int, 0)
            }
        }),
{
}

/// The end of a file has that file, under its own name, put into the image store, after which none is
/// being received, and is refused where there is none. Only the list of files, on the shard of small
/// files, is let go of instead.
pub proof fn law_ends_complete_the_open_file(v: DeserializerView, seq: u64, shard: usize)
    ensures
        ({
            let marker = MarkerView { seq, body: Some(BodyView::FileEof(true)) };
            &&& v.current_img_file is None ==> refused(
                v,
                v.processed(marker, shard),
                ExtractError::UnexpectedFileEof,
            ) && refused(v, v.small_processed(marker), ExtractError::UnexpectedFileEof)
            &&& v.current_img_file is Some ==> {
                &&& asks_for(
                    v.processed(marker, shard),
                    ActionView::InsertFile(v.current_img_file->0),
                )
                &&& same_but_for_the_file(v, v.processed(marker, shard).0)
                &&& v.processed(marker, shard).0.current_img_file is None
                &&& v.processed(marker, shard).0.image_eof == v.image_eof
                &&& remains(v.processed(marker, shard).0, None, 0, shard)
                &&& v.current_img_file->0 != "metadata.json"@ ==> asks_for(
                    v.small_processed(marker),
                    ActionView::InsertFile(v.current_img_file->0),
                )
                &&& v.current_img_file->0 == "metadata.json"@ ==> asks_for(
                    v.small_processed(marker),
                    ActionView::DropFile(v.current_img_file->0),
                )
                &&& same_but_for_the_file(v, v.small_processed(marker).0)
                &&& v.small_processed(marker).0.current_img_file is None
                &&& v.small_processed(marker).0.image_eof == v.image_eof
                &&& remains(v.small_processed(marker).0, None, 0, 0)
            }
        }),
{
}

/// The end of the image completes it exactly if no file is being received and no other marker waits, and
/// is refused otherwise; on the shard of small files it always is.
pub proof fn law_end_of_image_comes_last(v: DeserializerView, seq: u64, shard: usize)
    ensures
        ({
            let marker = MarkerView { seq, body: Some(BodyView::ImageEof(true)) };
            &&& v.current_img_file is Some || v.pending_markers.len() > 0 ==> refused(
                v,
                v.processed(marker, shard),
                ExtractError::UnexpectedImageEof,
            )
            &&& v.current_img_file is None && v.pending_markers.len() == 0 ==> {
                &&& asks_for(v.processed(marker, shard), ActionView::ImageComplete)
                &&& same_but_for_the_file(v, v.processed(marker, shard).0)
                &&& v.processed(marker, shard).0.current_img_file is None
                &&& v.processed(marker, shard).0.image_eof
                &&& remains(v.processed(marker, shard).0, None, 0, shard)
            }
            &&& refused(v, v.small_processed(marker), ExtractError::MalformedMarker)
        }),
{
}

/// Once an action has been performed, exactly its bytes are counted for exactly its shard, a file that it
/// opened is being received, and it is the turn of the next marker: on the shard of small files, or else
/// in the image, where the shard then waits behind all others. Nothing else changes.
pub proof fn law_performed_actions_are_noted(v: DeserializerView, other: int)
    requires
        v.performing is Some,
        v.performing->0.shard < v.stats.len(),
        v.stats[v.performing->0.shard as int].bytes_read + v.performing->0.size <= u64::MAX,
        v.seq < u64::MAX,
        v.small_file_seq < u64::MAX,
    ensures
        ({
            let p = v.performing->0;
            let after = v.performed();
            &&& after.performing is None
            &&& after.stats.len() == v.stats.len()
            &&& after.stats[p.shard as int].bytes_read == v.stats[p.shard as int].bytes_read + p.size
            &&& after.stats[p.shard as int].transfer_duration_millis
                == v.stats[p.shard as int].transfer_duration_millis
            &&& 0 <= other < v.stats.len() && other != p.shard ==> after.stats[other]
                == v.stats[other]
            &&& p.opened is Some ==> after.current_img_file == p.opened
            &&& p.opened is None ==> after.current_img_file == v.current_img_file
            &&& after.small_file_seq == v.small_file_seq + (if p.shard == 0 {
                1int
            } else {
                0
            })
            &&& after.seq == v.seq + (if p.shard == 0 {
                0int
            } else {
                1
            })
            &&& p.shard == 0 ==> after.shards == v.shards
            &&& p.shard != 0 ==> after.shards == v.shards.push(p.shard)
            &&& after.readable_shards == v.readable_shards
            &&& after.pending_markers == v.pending_markers
            &&& after.image_eof == v.image_eof
            &&& after.metadata == v.metadata
        }),
        v.applied().performing is None,
        v.applied().current_img_file == v.performed().current_img_file,
        v.applied().stats == v.performed().stats,
        v.applied().seq == v.seq,
        v.applied().small_file_seq == v.small_file_seq,
        v.applied().shards == v.shards,
{
}

/// The main loop processes a marker exactly if the first that waits has the number whose turn it is. A
/// marker that is refused is gone; and whatever happens to it, the others wait as before.
pub proof fn law_markers_wait_for_their_turn(v: DeserializerView)
    ensures
        (v.drain_step().1 matches Ok(DrainStepView::Perform(_))) ==> v.pending_markers.len() > 0
            && v.pending_markers[0].marker.seq == v.seq,
        v.pending_markers.len() > 0 && v.pending_markers[0].marker.seq == v.seq ==> {
            let first = v.pending_markers[0];
            let rest = DeserializerView { pending_markers: v.pending_markers.drop_first(), ..v };
            &&& v.begun() == rest.processed(first.marker, first.shard).0
            &&& rest.processed(first.marker, first.shard).1 matches Ok(action) ==> v.drain_step() == (
                v.begun().performed(),
                Ok::<DrainStepView, ExtractError>(DrainStepView::Perform(action)),
            )
            &&& rest.processed(first.marker, first.shard).1 matches Err(reason) ==> v.drain_step()
                == (rest, Err::<DrainStepView, ExtractError>(reason))
        },
{
}

/// Where no marker's turn has come, a shard that is known to be readable is read, the one found last
/// first; without one, the only shard that waits is read, several are polled, and with none the loop is
/// over: it succeeds exactly if the image is complete. What is not handed out stays where it is.
pub proof fn law_shards_are_read_in_turn(v: DeserializerView)
    requires
        v.pending_markers.len() == 0 || v.pending_markers[0].marker.seq != v.seq,
    ensures
        v.readable_shards.len() > 0 ==> {
            let shard = v.readable_shards[v.readable_shards.len() - 1];
            let after = DeserializerView {
                readable_shards: v.readable_shards.take(v.readable_shards.len() - 1),
                ..v
            };
            &&& v.drain_step() == (
                after,
                Ok::<DrainStepView, ExtractError>(DrainStepView::Read(shard)),
            )
            &&& v.begun() == after
            &&& v.next_shard() == (after, NextShard::Shard(shard))
        },
        v.readable_shards.len() == 0 && v.shards.len() == 1 ==> {
            let after = DeserializerView { shards: Seq::empty(), ..v };
            &&& v.drain_step() == (
                after,
                Ok::<DrainStepView, ExtractError>(DrainStepView::Read(v.shards[0])),
            )
            &&& v.begun() == after
            &&& v.next_shard() == (after, NextShard::Shard(v.shards[0]))
        },
        v.readable_shards.len() == 0 && v.shards.len() > 1 ==> {
            &&& v.drain_step() == (v, Ok::<DrainStepView, ExtractError>(DrainStepView::Poll))
            &&& v.begun() == v
            &&& v.next_shard() == (v, NextShard::Poll)
        },
        v.readable_shards.len() == 0 && v.shards.len() == 0 ==> {
            &&& v.begun() == v
            &&& v.next_shard() == (v, NextShard::Exhausted)
            &&& v.image_eof ==> v.drain_step() == (
                v,
                Ok::<DrainStepView, ExtractError>(DrainStepView::Complete),
            )
            &&& !v.image_eof ==> v.drain_step() == (
                v,
                Err::<DrainStepView, ExtractError>(ExtractError::NoShards),
            )
        },
{
    if v.readable_shards.len() > 0 {
        assert(v.readable_shards.drop_last() =~= v.readable_shards.take(
            v.readable_shards.len() - 1,
        ));
    }
}

/// The main loop can take its next step unless an action is still being performed, the marker whose turn
/// has come begins a file inside another one, or a counter has no room.
pub proof fn law_main_loop_can_go_on(v: DeserializerView)
    ensures
        v.performing is Some ==> !v.can_step(),
        v.performing is None && (v.pending_markers.len() == 0 || v.pending_markers[0].marker.seq
            != v.seq) ==> v.can_step(),
        v.performing is None && v.pending_markers.len() > 0 && v.pending_markers[0].marker.seq
            == v.seq && v.seq < u64::MAX ==> {
            let body = v.pending_markers[0].marker.body;
            let bytes_read = v.stats[v.pending_markers[0].shard as int].bytes_read;
            &&& body is Some && body->0 is Filename ==> (v.can_step()
                <==> v.current_img_file is None)
            &&& body is Some && body->0 is FileData ==> (v.can_step()
                <==> v.current_img_file is None || bytes_read + body->0->FileData_0 <= u64::MAX)
            &&& !(body is Some && (body->0 is Filename || body->0 is FileData)) ==> v.can_step()
        },
{
}

/// A marker that has been read has its own bytes counted for its shard, and for no other, and waits with
/// its shard; nothing else changes. The end of a shard has its time noted, for no other shard.
pub proof fn law_reading_a_shard(
    v: DeserializerView,
    shard: usize,
    marker: MarkerView,
    size: int,
    elapsed_millis: u128,
    other: int,
)
    requires
        shard < v.stats.len(),
        0 <= size,
        v.stats[shard as int].bytes_read + size <= u64::MAX,
        0 <= other < v.stats.len(),
        other != shard,
    ensures
        ({
            let after = v.received(shard, marker, size);
            &&& after.stats.len() == v.stats.len()
            &&& after.stats[shard as int].bytes_read == v.stats[shard as int].bytes_read + size
            &&& after.stats[shard as int].transfer_duration_millis
                == v.stats[shard as int].transfer_duration_millis
            &&& after.stats[other] == v.stats[other]
            &&& after.pending_markers == insert_pending(
                v.pending_markers,
                PendingView { marker, shard },
            )
            &&& after == DeserializerView {
                stats: after.stats,
                pending_markers: after.pending_markers,
                ..v
            }
        }),
        ({
            let after = v.ended(shard, elapsed_millis);
            &&& after.stats.len() == v.stats.len()
            &&& after.stats[shard as int].bytes_read == v.stats[shard as int].bytes_read
            &&& after.stats[shard as int].transfer_duration_millis == elapsed_millis
            &&& after.stats[other] == v.stats[other]
            &&& after == DeserializerView { stats: after.stats, ..v }
        }),
{
}

/// A marker that comes in waits behind all that have its number or a lower one, and before all that have
/// a higher one; the others keep their order.
pub proof fn law_waiting_markers_are_in_order(queue: Seq<PendingView>, p: PendingView)
    requires
        sorted_by_seq(queue),
    ensures
        exists|at: int|
            0 <= at <= queue.len() && #[trigger] queue.insert(at, p) == insert_pending(queue, p) && (
            forall|i: int| 0 <= i < at ==> (#[trigger] queue[i]).marker.seq <= p.marker.seq) && (
            forall|i: int|
                at <= i < queue.len() ==> p.marker.seq < (#[trigger] queue[i]).marker.seq),
    decreases queue.len(),
{
    let n = queue.len() as int;
    if n == 0 || queue.last().marker.seq <= p.marker.seq {
        assert(queue.insert(n, p) =~= queue.push(p));
    } else {
        let rest = queue.drop_last();
        law_waiting_markers_are_in_order(rest, p);
        let at = choose|at: int|
            0 <= at <= rest.len() && #[trigger] rest.insert(at, p) == insert_pending(rest, p) && (
            forall|i: int| 0 <= i < at ==> (#[trigger] rest[i]).marker.seq <= p.marker.seq) && (
            forall|i: int|
                at <= i < rest.len() ==> p.marker.seq < (#[trigger] rest[i]).marker.seq);
        assert(rest.insert(at, p).push(queue.last()) =~= queue.insert(at, p));
        assert forall|i: int| 0 <= i < at implies (#[trigger] queue[i]).marker.seq
            <= p.marker.seq by {
            assert(rest[i].marker.seq <= p.marker.seq);
        }
        assert forall|i: int| at <= i < queue.len() implies p.marker.seq < (
        #[trigger] queue[i]).marker.seq by {
            if i < rest.len() {
                assert(p.marker.seq < rest[i].marker.seq);
            }
        }
    }
}

/// Whether `places` are the places, in order, at which `flags` has `flag`.
pub open spec fn are_places_of(places: Seq<int>, flags: Seq<bool>, n: int, flag: bool) -> bool {
    &&& forall|k: int|
        0 <= k < places.len() ==> 0 <= #[trigger] places[k] < n && flags[places[k]] == flag
    &&& forall|k: int, m: int|
        0 <= k < m < places.len() ==> #[trigger] places[k] < #[trigger] places[m]
    &&& forall|i: int| 0 <= i < n && #[trigger] flags[i] == flag ==> places.contains(i)
}

/// The places that are picked.
proof fn lemma_pick_places(s: Seq<usize>, flags: Seq<bool>, flag: bool) -> (places: Seq<int>)
    requires
        s.len() <= flags.len(),
    ensures
        are_places_of(places, flags, s.len() as int, flag),
        places.len() == pick(s, flags, flag).len(),
        forall|k: int|
            0 <= k < places.len() ==> pick(s, flags, flag)[k] == s[#[trigger] places[k]],
    decreases s.len(),
{
    if s.len() == 0 {
        Seq::empty()
    } else {
        let last = s.len() - 1;
        let before = lemma_pick_places(s.drop_last(), flags, flag);
        let places = if flags[last] == flag {
            before.push(last)
        } else {
            before
        };
        assert forall|k: int| 0 <= k < places.len() implies 0 <= #[trigger] places[k] < s.len()
            && flags[places[k]] == flag by {
            if k < before.len() {
                assert(0 <= before[k] < last);
            }
        }
        assert forall|k: int, m: int| 0 <= k < m < places.len() implies #[trigger] places[k]
            < #[trigger] places[m] by {
            assert(0 <= before[k] < last);
            if m < before.len() {
                assert(before[k] < before[m]);
            }
        }
        assert forall|i: int| 0 <= i < s.len() && #[trigger] flags[i] == flag implies places.contains(
            i,
        ) by {
            if i < last {
                assert(before.contains(i));
                let k = choose|k: int| 0 <= k < before.len() && before[k] == i;
                assert(places[k] == i);
            } else {
                assert(places[before.len() as int] == i);
            }
        }
        assert forall|k: int| 0 <= k < places.len() implies pick(s, flags, flag)[k]
            == s[#[trigger] places[k]] by {
            if k < before.len() {
                assert(pick(s.drop_last(), flags, flag)[k] == s.drop_last()[before[k]]);
            }
        }
        places
    }
}

/// Polling parts the shards that wait: exactly those that are readable join those known to be, behind
/// them, and the others go on waiting, both in the order in which they waited. Nothing else changes.
pub proof fn law_polling_finds_the_readable_shards(v: DeserializerView, ready: Seq<bool>) -> (r: (
    Seq<int>,
    Seq<int>,
))
    requires
        ready.len() == v.shards.len(),
    ensures
        are_places_of(r.0, ready, ready.len() as int, true),
        are_places_of(r.1, ready, ready.len() as int, false),
        v.polled(ready) == (DeserializerView {
            readable_shards: v.readable_shards + Seq::new(
                r.0.len(),
                |k: int| v.shards[r.0[k]],
            ),
            shards: Seq::new(r.1.len(), |k: int| v.shards[r.1[k]]),
            ..v
        }),
{
    let yes = lemma_pick_places(v.shards, ready, true);
    let no = lemma_pick_places(v.shards, ready, false);
    assert(pick(v.shards, ready, true) =~= Seq::new(yes.len(), |k: int| v.shards[yes[k]]));
    assert(pick(v.shards, ready, false) =~= Seq::new(no.len(), |k: int| v.shards[no[k]]));
    (yes, no)
}

/// In the beginning all shards but that of small files wait, in order, and nothing has come of any.
pub proof fn law_nothing_has_come_in_the_beginning(num_shards: int, i: int)
    requires
        2 <= num_shards <= usize::MAX,
    ensures
        ({
            let v = DeserializerView::initial(num_shards);
            &&& v.small_file_seq == 0 && v.seq == 0
            &&& v.metadata is None
            &&& v.shards.len() == num_shards - 1
            &&& 0 < i < num_shards ==> v.shards[i - 1] == i
            &&& v.readable_shards.len() == 0
            &&& v.pending_markers.len() == 0
            &&& v.current_img_file is None
            &&& !v.image_eof
            &&& v.stats.len() == num_shards
            &&& 0 <= i < num_shards ==> v.stats[i].bytes_read == 0
                && v.stats[i].transfer_duration_millis == 0
            &&& v.performing is None
        }),
{
}

/// Markers are taken for what they are.
pub proof fn law_markers_are_seen_as_they_are(marker: Marker, queue: Seq<PendingMarker>, i: int)
    ensures
        marker@.seq == marker.seq,
        marker.body is None <==> marker@.body is None,
        marker.body matches Some(Body::Filename(name)) ==> marker@.body == Some(
            BodyView::Filename(name@),
        ),
        marker.body matches Some(Body::FileData(size)) ==> marker@.body == Some(
            BodyView::FileData(size),
        ),
        marker.body matches Some(Body::FileEof(flag)) ==> marker@.body == Some(
            BodyView::FileEof(flag),
        ),
        marker.body matches Some(Body::ImageEof(flag)) ==> marker@.body == Some(
            BodyView::ImageEof(flag),
        ),
        pending_views(queue).len() == queue.len(),
        0 <= i < queue.len() ==> pending_views(queue)[i].marker == queue[i].marker@
            && pending_views(queue)[i].shard == queue[i].shard,
{
}

/// Actions and steps are taken for what they are.
pub proof fn law_actions_are_seen_as_they_are(action: Action, step: DrainStep)
    ensures
        action matches Action::CreateFile(name) ==> action@ == ActionView::CreateFile(name@),
        action matches Action::CopyData { shard: s, size: n } ==> (action@ matches ActionView::CopyData {
            shard,
            size,
        } && shard == s && size == n),
        action matches Action::ReadMetadata { size: n } ==> (action@ matches ActionView::ReadMetadata {
            size,
        } && size == n),
        action matches Action::InsertFile(name) ==> action@ == ActionView::InsertFile(name@),
        action matches Action::DropFile(name) ==> action@ == ActionView::DropFile(name@),
        action is ImageComplete ==> action@ is ImageComplete,
        step matches DrainStep::Read(shard) ==> step@ == DrainStepView::Read(shard),
        step is Poll ==> step@ is Poll,
        step matches DrainStep::Perform(a) ==> step@ == DrainStepView::Perform(a@),
        step is Complete ==> step@ is Complete,
{
}

/// Every refusal says what was wrong.
pub proof fn law_refusals_say_what_was_wrong()
    ensures
        ExtractError::UnexpectedImageEof.text() == "Image EOF marker came unexpectedly"@,
        ExtractError::UnexpectedFileData.text() == "Unexpected FileData marker"@,
        ExtractError::UnexpectedFileEof.text() == "Unexpected FileEof marker"@,
        ExtractError::MalformedMarker.text() == "Malformed image marker"@,
        ExtractError::DataAfterImageEof.text() == "Unexpected data after image EOF"@,
        ExtractError::NoShards.text() == "No shards to read from"@,
{
}

/// Which shard is handed out depends on nothing but the shards that are known to be readable and those
/// that wait, and only that shard is taken out.
pub proof fn law_next_shard_depends_on_shards_alone(v: DeserializerView)
    ensures
        v.readable_shards.len() > 0 ==> v.next_shard() == (
            DeserializerView {
                readable_shards: v.readable_shards.take(v.readable_shards.len() - 1),
                ..v
            },
            NextShard::Shard(v.readable_shards[v.readable_shards.len() - 1]),
        ),
        v.readable_shards.len() == 0 && v.shards.len() == 1 ==> v.next_shard() == (
            DeserializerView { shards: Seq::empty(), ..v },
            NextShard::Shard(v.shards[0]),
        ),
        v.readable_shards.len() == 0 && v.shards.len() > 1 ==> v.next_shard() == (
            v,
            NextShard::Poll,
        ),
        v.readable_shards.len() == 0 && v.shards.len() == 0 ==> v.next_shard() == (
            v,
            NextShard::Exhausted,
        ),
{
    if v.readable_shards.len() > 0 {
        assert(v.readable_shards.drop_last() =~= v.readable_shards.take(
            v.readable_shards.len() - 1,
        ));
    }
}

/// A marker of the shard of small files has its own bytes counted before it is processed, whether or not
/// it is then refused, and for no other shard.
pub proof fn law_small_file_markers_are_counted(
    v: DeserializerView,
    marker: MarkerView,
    size: int,
    other: int,
)
    requires
        0 < v.stats.len(),
        0 <= size,
        v.stats[0].bytes_read + size <= u64::MAX,
        0 < other < v.stats.len(),
    ensures
        ({
            let begun = v.small_begun(marker, size);
            let uncounted = v.small_processed(marker).0;
            &&& begun.stats.len() == v.stats.len()
            &&& begun.stats[0].bytes_read == v.stats[0].bytes_read + size
            &&& begun.stats[0].transfer_duration_millis == v.stats[0].transfer_duration_millis
            &&& begun.stats[other] == v.stats[other]
            &&& begun == DeserializerView { stats: begun.stats, ..uncounted }
            &&& v.small_step(marker, size).1 == v.small_processed(marker).1
            &&& v.small_processed(marker).1 is Ok ==> v.small_step(marker, size).0
                == begun.performed()
            &&& v.small_processed(marker).1 is Err ==> v.small_step(marker, size).0 == begun
        }),
{
}

} // verus!
