//! What the main loop of the reassembly promises, from its first step to its last.

use crate::deserializer::{
    law_no_shard_is_lost, lemma_drain_step_tidy, lemma_next_shard_tidy, lemma_pick_some,
    lemma_polled_tidy, lemma_received_tidy, payload, pick, DeserializerView, DrainStepView,
    ExtractError, NextShard, Shard,
};
use crate::marker::{insert_pending, lemma_insert_pending, BodyView, PendingView};
use crate::reassembly::{
    announceable, contents, files_calls, files_records, image_records, lemma_replayed_files,
    lemma_replayed_prefix, lemma_replayed_push, no_output, numbered, perform, replayed,
    small_files_after, Output, Record, SourceFile,
};
use vstd::prelude::*;

verus! {

/// An image that comes in over shards.
pub struct Image {
    /// Its markers, in order, each with its payload.
    pub records: Seq<Record>,
    /// How many bytes each marker takes up.
    pub sizes: Seq<int>,
    /// The places in the image of the markers that each shard carries.
    pub lanes: Seq<Seq<int>>,
}

impl Image {
    /// Whether the marker that a shard carries as its `j`-th is that at `place`.
    pub open spec fn at(self, shard: int, j: int, place: int) -> bool {
        0 <= shard < self.lanes.len() && 0 <= j < self.lanes[shard].len() && self.lanes[shard][j]
            == place
    }

    /// Whether some shard carries the marker at `place`.
    pub open spec fn carried(self, place: int) -> bool {
        exists|shard: int, j: int| self.at(shard, j, place)
    }

    /// Whether the markers, but for that at `gap`, are split over the shards: each is on exactly one
    /// shard other than that of small files, and each shard carries its markers in their order.
    pub open spec fn split_but_for(self, gap: int) -> bool {
        &&& 2 <= self.lanes.len() <= usize::MAX
        &&& self.lanes[0].len() == 0
        &&& forall|shard: int, j: int, place: int| #[trigger]
            self.at(shard, j, place) ==> 0 <= place < self.records.len()
        &&& forall|shard: int, i: int, j: int|
            0 <= shard < self.lanes.len() && 0 <= i < j < self.lanes[shard].len() ==> (
            #[trigger] self.lanes[shard][i]) < #[trigger] self.lanes[shard][j]
        &&& forall|s: int, i: int, t: int, j: int, place: int| #[trigger]
            self.at(s, i, place) && #[trigger] self.at(t, j, place) ==> s == t && i == j
        &&& forall|place: int| #[trigger]
            self.carried(place) <==> 0 <= place < self.records.len() && place != gap
    }

    /// Whether all markers are split over the shards.
    pub open spec fn split(self) -> bool {
        self.split_but_for(self.records.len() as int)
    }

    /// The number of bytes that a marker and its payload take up on a shard.
    pub open spec fn cost(self) -> spec_fn(int) -> int {
        |place: int| self.sizes[place] + payload(Some(self.records[place].body))
    }

    /// The number of bytes that all markers and payloads take up.
    pub open spec fn total(self) -> int {
        unread(self.lanes, self.nothing_read(), self.lanes.len() as int, self.cost())
    }

    /// The number of bytes that a shard carries: those of its markers and of their payloads.
    pub open spec fn carries(self, shard: int) -> int {
        lane_weight(self.lanes[shard], 0, self.cost())
    }

    /// How much has been read of each shard before anything has.
    pub open spec fn nothing_read(self) -> Seq<int> {
        Seq::new(self.lanes.len(), |i: int| 0)
    }

    /// Whether all numbers that occur are within the limits of the machine.
    pub open spec fn fits(self) -> bool {
        &&& self.records.len() <= u64::MAX
        &&& forall|place: int| 0 <= place < self.records.len() ==> 0 <= #[trigger] self.sizes[place]
        &&& self.total() <= u64::MAX
    }
}

/// The weight of the markers of a shard from the `from`-th on.
pub open spec fn lane_weight(lane: Seq<int>, from: int, weight: spec_fn(int) -> int) -> int
    decreases lane.len() - from,
{
    if 0 <= from < lane.len() {
        weight(lane[from]) + lane_weight(lane, from + 1, weight)
    } else {
        0
    }
}

/// The weight of the markers of the first `n` shards that have not been read.
pub open spec fn unread(
    lanes: Seq<Seq<int>>,
    read: Seq<int>,
    n: int,
    weight: spec_fn(int) -> int,
) -> int
    decreases n,
{
    if n <= 0 {
        0
    } else {
        unread(lanes, read, n - 1, weight) + lane_weight(lanes[n - 1], read[n - 1], weight)
    }
}

/// The weight that counts markers.
pub open spec fn each() -> spec_fn(int) -> int {
    |place: int| 1
}

/// The main loop between two steps.
pub struct Loop {
    /// The state of the deserializer.
    pub v: DeserializerView,
    /// What the image store has received.
    pub out: Output,
    /// How many markers have been read of each shard.
    pub read: Seq<int>,
    /// How the loop ended, if it has.
    pub end: Option<Result<(), ExtractError>>,
}

/// What happens outside while a step is taken.
pub struct Turn {
    /// The shards that are readable, if they are polled.
    pub readable: Set<usize>,
    /// How long ago the loop began.
    pub elapsed_millis: u128,
}

/// Which of some shards are readable.
pub open spec fn flags(shards: Seq<usize>, turn: Turn) -> Seq<bool> {
    Seq::new(shards.len(), |i: int| turn.readable.contains(shards[i]))
}

/// One step of the main loop; nothing if the deserializer cannot take it.
pub open spec fn stepped(image: Image, l: Loop, turn: Turn) -> Option<Loop> {
    if l.end is Some {
        Some(l)
    } else if !l.v.can_step() {
        None
    } else {
        let (after, step) = l.v.drain_step();
        match step {
            Err(e) => Some(Loop { v: after, end: Some(Err(e)), ..l }),
            Ok(DrainStepView::Perform(action)) => Some(
                Loop {
                    v: after,
                    out: perform(l.out, action, image.records[l.v.seq as int].data),
                    ..l
                },
            ),
            Ok(DrainStepView::Read(shard)) => {
                let lane = image.lanes[shard as int];
                let j = l.read[shard as int];
                if j < lane.len() {
                    if after.image_eof {
                        Some(
                            Loop {
                                v: after,
                                read: l.read.update(shard as int, j + 1),
                                end: Some(Err(ExtractError::DataAfterImageEof)),
                                ..l
                            },
                        )
                    } else if !after.has_room(shard, image.sizes[lane[j]]) {
                        None
                    } else {
                        Some(
                            Loop {
                                v: after.received(
                                    shard,
                                    numbered(image.records, lane[j]),
                                    image.sizes[lane[j]],
                                ),
                                read: l.read.update(shard as int, j + 1),
                                ..l
                            },
                        )
                    }
                } else {
                    Some(Loop { v: after.ended(shard, turn.elapsed_millis), ..l })
                }
            },
            Ok(DrainStepView::Poll) => Some(
                Loop { v: after.polled(flags(after.shards, turn)), ..l },
            ),
            Ok(DrainStepView::Complete) => Some(Loop { v: after, end: Some(Ok(())), ..l }),
        }
    }
}

/// The main loop after as many steps as there are turns.
pub open spec fn run(image: Image, start: DeserializerView, turns: Seq<Turn>) -> Option<Loop>
    decreases turns.len(),
{
    if turns.len() == 0 {
        Some(Loop { v: start, out: no_output(), read: image.nothing_read(), end: None })
    } else {
        match run(image, start, turns.drop_last()) {
            Some(l) => stepped(image, l, turns.last()),
            None => None,
        }
    }
}

/// Whether a poll, if the next step is one, finds a shard that is readable.
pub open spec fn answered(l: Loop, turn: Turn) -> bool {
    l.end is None && l.v.drain_step().1 == Ok::<DrainStepView, ExtractError>(
        DrainStepView::Poll,
    ) ==> flags(l.v.shards, turn).contains(true)
}

/// Whether every poll finds a shard that is readable.
pub open spec fn possible(image: Image, start: DeserializerView, turns: Seq<Turn>) -> bool
    decreases turns.len(),
{
    turns.len() > 0 ==> {
        &&& possible(image, start, turns.drop_last())
        &&& run(image, start, turns.drop_last()) matches Some(l) ==> answered(l, turns.last())
    }
}

/// Whether nothing has been read of any shard but that of small files, and all of them wait.
pub open spec fn fresh(image: Image, v: DeserializerView) -> bool {
    &&& v.tidy()
    &&& v.performing is None
    &&& v.seq == 0
    &&& v.readable_shards.len() == 0
    &&& v.pending_markers.len() == 0
    &&& v.current_img_file is None
    &&& !v.image_eof
    &&& v.stats.len() == image.lanes.len()
    &&& forall|shard: int|
        0 < shard < image.lanes.len() ==> (#[trigger] v.stats[shard]).bytes_read == 0
            && v.shards.contains(shard as usize)
}

/// How many more steps the loop takes at the most.
pub open spec fn steps_left(image: Image, l: Loop) -> int {
    10 * unread(image.lanes, l.read, image.lanes.len() as int, each()) + 4
        * l.v.pending_markers.len() + 3 * l.v.shards.len() + 2 * l.v.readable_shards.len() + if l.end is Some {
        0int
    } else {
        1
    }
}

/// Whether the marker at `place` has been read.
spec fn has_come(image: Image, read: Seq<int>, place: int) -> bool {
    exists|shard: int, j: int| #[trigger] image.at(shard, j, place) && j < read[shard]
}

/// Whether the marker at `place` waits for its turn.
spec fn is_pending(v: DeserializerView, place: int) -> bool {
    exists|i: int|
        0 <= i < v.pending_markers.len() && (#[trigger] v.pending_markers[i]).marker.seq == place
}

/// Whether a waiting marker is the last one that was read of its shard.
spec fn is_last_read(image: Image, read: Seq<int>, p: PendingView) -> bool {
    &&& 0 < p.shard < image.lanes.len()
    &&& image.at(p.shard as int, read[p.shard as int] - 1, p.marker.seq as int)
    &&& p.marker == numbered(image.records, p.marker.seq as int)
}

/// What is known of the order of the markers: those before the current number have been processed
/// one after the other, and those at or after it that have been read are waiting.
spec fn on_track(image: Image, v: DeserializerView, out: Output, read: Seq<int>) -> bool {
    &&& v.seq <= image.records.len()
    &&& forall|i: int|
        #![trigger v.pending_markers[i]]
        0 <= i < v.pending_markers.len() ==> v.seq <= v.pending_markers[i].marker.seq
            && is_last_read(image, read, v.pending_markers[i])
    &&& forall|place: int| #[trigger]
        has_come(image, read, place) && v.seq <= place ==> is_pending(v, place)
    &&& forall|place: int| 0 <= place < v.seq ==> #[trigger] has_come(image, read, place)
    &&& replayed(image.records.take(v.seq as int)) == Some((v.current_img_file, out, v.image_eof))
}

/// What is known of the shards: each has been read in part, and is in some collection unless it has
/// been read to its end.
spec fn in_place(image: Image, v: DeserializerView, read: Seq<int>) -> bool {
    &&& v.tidy()
    &&& v.performing is None
    &&& v.stats.len() == image.lanes.len()
    &&& read.len() == image.lanes.len()
    &&& forall|shard: int|
        0 <= shard < read.len() ==> 0 <= #[trigger] read[shard] <= image.lanes[shard].len()
    &&& forall|shard: int|
        0 < shard < read.len() && #[trigger] read[shard] < image.lanes[shard].len()
            ==> v.held().contains(shard as usize)
}

/// What is left to read, in bytes.
spec fn bytes_left(image: Image, read: Seq<int>) -> int {
    unread(image.lanes, read, image.lanes.len() as int, image.cost())
}

/// What is known of the counters: with all that is still to come they stay within bounds.
spec fn within_bounds(image: Image, v: DeserializerView, read: Seq<int>) -> bool {
    &&& bytes_left(image, read) >= 0
    &&& forall|shard: int|
        0 < shard < v.stats.len() ==> (#[trigger] v.stats[shard]).bytes_read + bytes_left(
            image,
            read,
        ) <= image.total()
    &&& forall|i: int|
        #![trigger v.pending_markers[i]]
        0 <= i < v.pending_markers.len() ==> v.stats[v.pending_markers[i].shard as int].bytes_read
            + payload(v.pending_markers[i].marker.body) + bytes_left(image, read) <= image.total()
}

/// What is known of the counters: each holds exactly what has been read of its shard, but for a payload
/// that a waiting marker has announced.
spec fn exact(image: Image, v: DeserializerView, read: Seq<int>) -> bool {
    &&& forall|shard: int|
        0 < shard < v.stats.len() && !is_waited_for(v, shard) ==> (
        #[trigger] v.stats[shard]).bytes_read == read_of(image, read, shard)
    &&& forall|i: int|
        #![trigger v.pending_markers[i]]
        0 <= i < v.pending_markers.len() ==> v.stats[v.pending_markers[i].shard as int].bytes_read
            + payload(v.pending_markers[i].marker.body) == read_of(
            image,
            read,
            v.pending_markers[i].shard as int,
        )
}

/// Whether a marker of a shard waits.
spec fn is_waited_for(v: DeserializerView, shard: int) -> bool {
    exists|i: int|
        0 <= i < v.pending_markers.len() && (#[trigger] v.pending_markers[i]).shard == shard
}

/// How many bytes the markers that have been read of a shard take up, with their payloads.
spec fn read_of(image: Image, read: Seq<int>, shard: int) -> int {
    image.carries(shard) - lane_weight(image.lanes[shard], read[shard], image.cost())
}

/// How the loop ends: it succeeds unless a marker is missing.
pub open spec fn outcome(image: Image, gap: int) -> Result<(), ExtractError> {
    if gap == image.records.len() {
        Ok(())
    } else {
        Err(ExtractError::NoShards)
    }
}

/// What is known between two steps.
spec fn sound(image: Image, gap: int, l: Loop) -> bool {
    &&& on_track(image, l.v, l.out, l.read)
    &&& in_place(image, l.v, l.read)
    &&& within_bounds(image, l.v, l.read)
    &&& exact(image, l.v, l.read)
    &&& l.end matches Some(end) ==> end == outcome(image, gap) && l.v.seq == gap
}

/// What is required of an image for its main loop to come to the marker at `gap`.
spec fn sendable(image: Image, gap: int) -> bool {
    &&& 0 <= gap <= image.records.len()
    &&& image.split_but_for(gap)
    &&& image.fits()
    &&& replayed(image.records) matches Some((_, _, eof)) && eof
}

/// The weight of what is left of a shard is not negative.
proof fn lemma_lane_weight(lane: Seq<int>, from: int, weight: spec_fn(int) -> int)
    requires
        forall|i: int| 0 <= i < lane.len() ==> 0 <= #[trigger] weight(lane[i]),
    ensures
        0 <= lane_weight(lane, from, weight),
    decreases lane.len() - from,
{
    if 0 <= from < lane.len() {
        lemma_lane_weight(lane, from + 1, weight);
    }
}

/// The weight of what is left is not negative.
proof fn lemma_unread(lanes: Seq<Seq<int>>, read: Seq<int>, n: int, weight: spec_fn(int) -> int)
    requires
        n <= lanes.len(),
        forall|s: int, i: int|
            0 <= s < lanes.len() && 0 <= i < lanes[s].len() ==> 0 <= #[trigger] weight(lanes[s][i]),
    ensures
        0 <= unread(lanes, read, n, weight),
    decreases n,
{
    if n > 0 {
        lemma_unread(lanes, read, n - 1, weight);
        lemma_lane_weight(lanes[n - 1], read[n - 1], weight);
    }
}

/// Reading one more marker takes away its weight.
proof fn lemma_read_one(
    lanes: Seq<Seq<int>>,
    read: Seq<int>,
    shard: int,
    n: int,
    weight: spec_fn(int) -> int,
)
    requires
        0 <= shard < lanes.len() == read.len(),
        0 <= read[shard] < lanes[shard].len(),
        n <= lanes.len(),
    ensures
        unread(lanes, read.update(shard, read[shard] + 1), n, weight) == unread(
            lanes,
            read,
            n,
            weight,
        ) - if shard < n {
            weight(lanes[shard][read[shard]])
        } else {
            0
        },
    decreases n,
{
    if n > 0 {
        lemma_read_one(lanes, read, shard, n - 1, weight);
    }
}

/// What is picked and what is not make up the whole.
proof fn lemma_pick_len(s: Seq<usize>, chosen: Seq<bool>)
    requires
        s.len() <= chosen.len(),
    ensures
        pick(s, chosen, true).len() + pick(s, chosen, false).len() == s.len(),
    decreases s.len(),
{
    if s.len() > 0 {
        lemma_pick_len(s.drop_last(), chosen);
    }
}

/// Which shards are in some collection.
proof fn lemma_held_contains(v: DeserializerView, shard: usize)
    ensures
        v.held().contains(shard) <==> v.shards.contains(shard) || v.readable_shards.contains(shard)
            || exists|i: int|
            0 <= i < v.pending_markers.len() && (#[trigger] v.pending_markers[i]).shard == shard,
{
    let a = v.shards.len() as int;
    let b = a + v.readable_shards.len();
    if v.held().contains(shard) {
        let k = choose|k: int| 0 <= k < v.held().len() && v.held()[k] == shard;
        if k < a {
            assert(v.shards[k] == shard);
        } else if k < b {
            assert(v.readable_shards[k - a] == shard);
        } else {
            assert(v.pending_markers[k - b].shard == shard);
        }
    }
    if v.shards.contains(shard) {
        let k = choose|k: int| 0 <= k < v.shards.len() && v.shards[k] == shard;
        assert(v.held()[k] == shard);
    }
    if v.readable_shards.contains(shard) {
        let k = choose|k: int| 0 <= k < v.readable_shards.len() && v.readable_shards[k] == shard;
        assert(v.held()[a + k] == shard);
    }
    if exists|i: int|
        0 <= i < v.pending_markers.len() && (#[trigger] v.pending_markers[i]).shard == shard {
        let i = choose|i: int|
            0 <= i < v.pending_markers.len() && (#[trigger] v.pending_markers[i]).shard == shard;
        assert(v.held()[b + i] == shard);
    }
}

/// Collections with the same members hold the same shards.
proof fn lemma_same_held(v: DeserializerView, w: DeserializerView, shard: usize)
    requires
        v.held().to_multiset() == w.held().to_multiset(),
    ensures
        v.held().contains(shard) == w.held().contains(shard),
{
    broadcast use vstd::seq_lib::group_to_multiset_ensures;

    assert(v.held().contains(shard) <==> v.held().to_multiset().count(shard) > 0);
    assert(w.held().contains(shard) <==> w.held().to_multiset().count(shard) > 0);
}

/// Waiting markers that came over different shards have different numbers, so that the first is
/// before all others.
proof fn lemma_first_is_lowest(image: Image, gap: int, v: DeserializerView, read: Seq<int>, i: int)
    requires
        image.split_but_for(gap),
        v.tidy(),
        0 < i < v.pending_markers.len(),
        is_last_read(image, read, v.pending_markers[0]),
        is_last_read(image, read, v.pending_markers[i]),
    ensures
        v.pending_markers[0].marker.seq < v.pending_markers[i].marker.seq,
{
    let p = v.pending_markers[0];
    let q = v.pending_markers[i];
    assert(p.marker.seq <= q.marker.seq);
    if p.marker.seq == q.marker.seq {
        assert(image.at(p.shard as int, read[p.shard as int] - 1, p.marker.seq as int));
        assert(image.at(q.shard as int, read[q.shard as int] - 1, p.marker.seq as int));
        let k = (v.shards + v.readable_shards).len() as int;
        assert(v.held()[k] == p.shard);
        assert(v.held()[k + i] == q.shard);
    }
}

/// Where the end of the image has come, all markers have been processed.
proof fn lemma_eof_is_last(image: Image, gap: int, v: DeserializerView, out: Output, read: Seq<int>)
    requires
        sendable(image, gap),
        on_track(image, v, out, read),
    ensures
        v.image_eof <==> v.seq == image.records.len(),
        v.image_eof ==> v.pending_markers.len() == 0,
        v.seq <= gap,
{
    if gap < v.seq {
        assert(has_come(image, read, gap));
        let (s, j) = choose|s: int, j: int| #[trigger] image.at(s, j, gap) && j < read[s];
        assert(image.at(s, j, gap));
        assert(image.carried(gap));
    }
    lemma_replayed_prefix(image.records, v.seq as int);
    assert(image.records.take(image.records.len() as int) =~= image.records);
    if v.image_eof && v.pending_markers.len() > 0 {
        let p = v.pending_markers[0];
        assert(is_last_read(image, read, p));
        assert(image.at(p.shard as int, read[p.shard as int] - 1, p.marker.seq as int));
    }
}

/// The marker whose turn it is can be processed, and the order of the markers stays as it should be.
proof fn lemma_perform_on_track(image: Image, gap: int, l: Loop)
    requires
        sendable(image, gap),
        sound(image, gap, l),
        l.v.in_order(),
    ensures
        l.v.can_step(),
        l.v.drain_step().1 matches Ok(DrainStepView::Perform(action)) && on_track(
            image,
            l.v.drain_step().0,
            perform(l.out, action, image.records[l.v.seq as int].data),
            l.read,
        ),
{
    let v = l.v;
    let records = image.records;
    let m = v.seq as int;
    let first = v.pending_markers[0];
    assert(is_last_read(image, l.read, first));
    assert(image.at(first.shard as int, l.read[first.shard as int] - 1, m));
    assert(first.marker == numbered(records, m));
    lemma_replayed_prefix(records, m);
    lemma_replayed_prefix(records, m + 1);
    assert(records.take(m + 1).drop_last() =~= records.take(m));
    assert(records.take(m + 1).last() == records[m]);
    let rest = v.popped();
    let after = v.drain_step().0;
    assert forall|i: int| 0 <= i < rest.pending_markers.len() implies (
    #[trigger] rest.pending_markers[i]) == v.pending_markers[i + 1] && m
        < rest.pending_markers[i].marker.seq by {
        lemma_first_is_lowest(image, gap, v, l.read, i + 1);
    }
    if records[m].body is ImageEof && rest.pending_markers.len() > 0 {
        let p = rest.pending_markers[0];
        assert(p == v.pending_markers[1]);
        assert(is_last_read(image, l.read, p));
        assert(image.at(p.shard as int, l.read[p.shard as int] - 1, p.marker.seq as int));
        assert(m < p.marker.seq < records.len());
        assert(false);
    }
    assert(v.drain_step().1 matches Ok(DrainStepView::Perform(_)));
    assert forall|i: int| #![trigger after.pending_markers[i]]
        0 <= i < after.pending_markers.len() implies after.seq
        <= after.pending_markers[i].marker.seq && is_last_read(
        image,
        l.read,
        after.pending_markers[i],
    ) by {
        assert(after.pending_markers[i] == rest.pending_markers[i]);
        assert(is_last_read(image, l.read, v.pending_markers[i + 1]));
    }
    assert forall|place: int| #[trigger]
        has_come(image, l.read, place) && after.seq <= place implies is_pending(after, place) by {
        assert(is_pending(v, place));
        let i = choose|i: int|
            0 <= i < v.pending_markers.len() && (#[trigger] v.pending_markers[i]).marker.seq
                == place;
        assert(after.pending_markers[i - 1] == v.pending_markers[i]);
    }
    assert forall|place: int| 0 <= place < after.seq implies #[trigger] has_come(
        image,
        l.read,
        place,
    ) by {
        if place == m {
            assert(image.at(first.shard as int, l.read[first.shard as int] - 1, m));
        }
    }
}

/// A marker that is read keeps the order of the markers as it should be.
proof fn lemma_read_on_track(
    image: Image,
    gap: int,
    v: DeserializerView,
    out: Output,
    read: Seq<int>,
    shard: usize,
)
    requires
        sendable(image, gap),
        on_track(image, v, out, read),
        v.tidy(),
        read.len() == image.lanes.len(),
        0 < shard < image.lanes.len(),
        0 <= read[shard as int] < image.lanes[shard as int].len(),
        !v.held().contains(shard),
    ensures
        !v.image_eof,
        on_track(
            image,
            v.received(
                shard,
                numbered(image.records, image.lanes[shard as int][read[shard as int]]),
                image.sizes[image.lanes[shard as int][read[shard as int]]],
            ),
            out,
            read.update(shard as int, read[shard as int] + 1),
        ),
{
    let s = shard as int;
    let j = read[s];
    let place = image.lanes[s][j];
    let now = read.update(s, j + 1);
    let p = PendingView { marker: numbered(image.records, place), shard };
    let after = v.received(shard, p.marker, image.sizes[place]);
    assert(image.at(s, j, place));
    if has_come(image, read, place) {
        let (t, i) = choose|t: int, i: int| #[trigger] image.at(t, i, place) && i < read[t];
        assert(image.at(t, i, place));
    }
    assert(v.seq <= place);
    lemma_eof_is_last(image, gap, v, out, read);
    lemma_insert_pending(v.pending_markers, p);
    let at = choose|at: int|
        0 <= at <= v.pending_markers.len() && insert_pending(v.pending_markers, p)
            == v.pending_markers.insert(at, p);
    assert(after.pending_markers[at] == p);
    assert forall|i: int| #![trigger after.pending_markers[i]]
        0 <= i < after.pending_markers.len() implies after.seq
        <= after.pending_markers[i].marker.seq && is_last_read(
        image,
        now,
        after.pending_markers[i],
    ) by {
        if i == at {
            assert(image.at(s, now[s] - 1, place));
        } else {
            let k = if i < at { i } else { i - 1 };
            let q = v.pending_markers[k];
            assert(after.pending_markers[i] == q);
            assert(is_last_read(image, read, q));
            lemma_held_contains(v, q.shard);
            assert(q.shard != shard);
        }
    }
    assert forall|other: int| #[trigger]
        has_come(image, now, other) && after.seq <= other implies is_pending(after, other) by {
        let (t, i) = choose|t: int, i: int| #[trigger] image.at(t, i, other) && i < now[t];
        assert(image.at(t, i, other));
        if t == s && i == j {
            assert(after.pending_markers[at].marker.seq == other);
        } else {
            assert(has_come(image, read, other));
            let k = choose|k: int|
                0 <= k < v.pending_markers.len() && (#[trigger] v.pending_markers[k]).marker.seq
                    == other;
            let n = if k < at { k } else { k + 1 };
            assert(after.pending_markers[n] == v.pending_markers[k]);
        }
    }
    assert forall|earlier: int| 0 <= earlier < after.seq implies #[trigger] has_come(
        image,
        now,
        earlier,
    ) by {
        assert(has_come(image, read, earlier));
        let (t, i) = choose|t: int, i: int| #[trigger] image.at(t, i, earlier) && i < read[t];
        assert(image.at(t, i, earlier) && i < now[t]);
    }
}

/// Up to the marker that is missing, or the end, there is a marker to process or a shard to read.
proof fn lemma_something_to_do(image: Image, gap: int, l: Loop)
    requires
        sendable(image, gap),
        sound(image, gap, l),
        !l.v.in_order(),
        l.v.next_shard().1 is Exhausted,
    ensures
        l.v.seq == gap,
        l.v.image_eof <==> gap == image.records.len(),
{
    let v = l.v;
    lemma_eof_is_last(image, gap, v, l.out, l.read);
    if v.seq < gap {
        let m = v.seq as int;
        assert(image.carried(m));
        let (s, j) = choose|s: int, j: int| image.at(s, j, m);
        assert(image.at(s, j, m));
        if j < l.read[s] {
            assert(has_come(image, l.read, m));
            assert(is_pending(v, m));
            let i = choose|i: int|
                0 <= i < v.pending_markers.len() && (#[trigger] v.pending_markers[i]).marker.seq
                    == m;
            assert(v.pending_markers[0].marker.seq <= v.pending_markers[i].marker.seq);
            assert(v.pending_markers[0].marker.seq >= v.seq);
            assert(false);
        }
        assert(0 < s);
        assert(v.held().contains(s as usize));
        lemma_held_contains(v, s as usize);
        let i = choose|i: int|
            0 <= i < v.pending_markers.len() && (#[trigger] v.pending_markers[i]).shard == s;
        let p = v.pending_markers[i];
        assert(is_last_read(image, l.read, p));
        let last = l.read[s] - 1;
        assert(image.at(s, last, p.marker.seq as int));
        assert(image.lanes[s][last] < image.lanes[s][j]);
        assert(false);
    }
}

/// What a step needs, and what it leaves, where it processes a marker.
proof fn lemma_perform_step(image: Image, gap: int, l: Loop, turn: Turn)
    requires
        sendable(image, gap),
        sound(image, gap, l),
        l.end is None,
        l.v.in_order(),
    ensures
        stepped(image, l, turn) matches Some(next) && sound(image, gap, next) && steps_left(image, next)
            < steps_left(image, l),
{
    let v = l.v;
    lemma_perform_on_track(image, gap, l);
    lemma_drain_step_tidy(v);
    law_no_shard_is_lost(v, flags(v.shards, turn), 1, v.pending_markers[0].marker, 0);
    let after = v.drain_step().0;
    let first = v.pending_markers[0];
    assert(is_last_read(image, l.read, first));
    assert forall|shard: int|
        0 < shard < l.read.len() && #[trigger] l.read[shard]
            < image.lanes[shard].len() implies after.held().contains(shard as usize) by {
        lemma_same_held(v, after, shard as usize);
    }
    assert forall|i: int| #![trigger after.pending_markers[i]]
        0 <= i < after.pending_markers.len() implies after.stats[after.pending_markers[i].shard as int].bytes_read
        + payload(after.pending_markers[i].marker.body) + bytes_left(image, l.read)
        <= image.total() by {
        let q = v.pending_markers[i + 1];
        assert(after.pending_markers[i] == q);
        assert(is_last_read(image, l.read, q));
        let k = (v.shards + v.readable_shards).len() as int;
        assert(v.held()[k] == first.shard);
        assert(v.held()[k + i + 1] == q.shard);
    }
    assert(exact(image, after, l.read)) by {
        lemma_perform_exact(image, gap, l);
    }
}

/// Processing a marker leaves the counters exact.
proof fn lemma_perform_exact(image: Image, gap: int, l: Loop)
    requires
        sendable(image, gap),
        sound(image, gap, l),
        l.v.in_order(),
    ensures
        exact(image, l.v.drain_step().0, l.read),
{
    let v = l.v;
    lemma_perform_on_track(image, gap, l);
    let after = v.drain_step().0;
    let first = v.pending_markers[0];
    assert(is_last_read(image, l.read, first));
    let k = (v.shards + v.readable_shards).len() as int;
    assert(v.held()[k] == first.shard);
    assert forall|i: int| 0 <= i < after.pending_markers.len() implies (
    #[trigger] after.pending_markers[i]) == v.pending_markers[i + 1]
        && after.pending_markers[i].shard != first.shard by {
        assert(v.held()[k + i + 1] == v.pending_markers[i + 1].shard);
    }
    assert forall|shard: int|
        0 < shard < after.stats.len() && !is_waited_for(after, shard) implies (
    #[trigger] after.stats[shard]).bytes_read == read_of(image, l.read, shard) by {
        if shard != first.shard {
            assert(after.stats[shard] == v.stats[shard]);
            if is_waited_for(v, shard) {
                let i = choose|i: int|
                    0 <= i < v.pending_markers.len() && (#[trigger] v.pending_markers[i]).shard
                        == shard;
                assert(after.pending_markers[i - 1] == v.pending_markers[i]);
            }
        }
    }
    assert forall|i: int| #![trigger after.pending_markers[i]]
        0 <= i < after.pending_markers.len() implies after.stats[after.pending_markers[i].shard as int].bytes_read
        + payload(after.pending_markers[i].marker.body) == read_of(
        image,
        l.read,
        after.pending_markers[i].shard as int,
    ) by {
        let q = v.pending_markers[i + 1];
        assert(after.pending_markers[i] == q);
        assert(is_last_read(image, l.read, q));
        assert(after.stats[q.shard as int] == v.stats[q.shard as int]);
    }
}

/// What a step needs, and what it leaves, where it reads a shard.
proof fn lemma_read_step(image: Image, gap: int, l: Loop, turn: Turn)
    requires
        sendable(image, gap),
        sound(image, gap, l),
        l.end is None,
        !l.v.in_order(),
        l.v.next_shard().1 is Shard,
    ensures
        stepped(image, l, turn) matches Some(next) && sound(image, gap, next) && steps_left(image, next)
            < steps_left(image, l),
{
    let v = l.v;
    let shard = v.next_shard().1->Shard_0;
    let s = shard as int;
    let after = v.next_shard().0;
    lemma_next_shard_tidy(v);
    law_no_shard_is_lost(v, flags(v.shards, turn), shard, numbered(image.records, 0), 0);
    broadcast use vstd::seq_lib::group_to_multiset_ensures;

    assert forall|other: usize| other != shard && v.held().contains(other) implies after.held().contains(
        other,
    ) by {
        assert(v.held().to_multiset().count(other) > 0);
        assert(after.held().to_multiset().count(other) > 0);
    }
    assert(on_track(image, after, l.out, l.read));
    let j = l.read[s];
    if j < image.lanes[s].len() {
        let place = image.lanes[s][j];
        let now = l.read.update(s, j + 1);
        let next = after.received(shard, numbered(image.records, place), image.sizes[place]);
        assert(image.at(s, j, place));
        lemma_read_on_track(image, gap, after, l.out, l.read, shard);
        lemma_read_one(image.lanes, l.read, s, image.lanes.len() as int, image.cost());
        lemma_read_one(image.lanes, l.read, s, image.lanes.len() as int, each());
        assert forall|t: int, i: int|
            0 <= t < image.lanes.len() && 0 <= i < image.lanes[t].len() implies 0
            <= #[trigger] image.cost()(image.lanes[t][i]) by {
            assert(image.at(t, i, image.lanes[t][i]));
        }
        lemma_unread(image.lanes, now, image.lanes.len() as int, image.cost());
        lemma_received_tidy(after, shard, numbered(image.records, place), image.sizes[place]);
        assert(image.cost()(place) == image.sizes[place] + payload(
            Some(image.records[place].body),
        ));
        assert(v.stats[s].bytes_read + bytes_left(image, l.read) <= image.total());
        let p = PendingView { marker: numbered(image.records, place), shard };
        lemma_insert_pending(after.pending_markers, p);
        let at = choose|at: int|
            0 <= at <= after.pending_markers.len() && insert_pending(after.pending_markers, p)
                == after.pending_markers.insert(at, p);
        assert forall|i: int| #![trigger next.pending_markers[i]]
            0 <= i < next.pending_markers.len() implies next.stats[next.pending_markers[i].shard as int].bytes_read
            + payload(next.pending_markers[i].marker.body) + bytes_left(image, now)
            <= image.total() by {
            if i == at {
                assert(next.pending_markers[i] == p);
            } else {
                let k = if i < at { i } else { i - 1 };
                let q = after.pending_markers[k];
                assert(next.pending_markers[i] == q);
                assert(v.pending_markers[k] == q);
                lemma_held_contains(after, q.shard);
                assert(is_last_read(image, l.read, q));
            }
        }
        assert forall|t: int|
            0 < t < now.len() && #[trigger] now[t]
                < image.lanes[t].len() implies next.held().contains(t as usize) by {
            lemma_held_contains(next, t as usize);
            lemma_held_contains(after, t as usize);
            if t == s {
                assert(next.pending_markers[at] == p);
            } else {
                assert(l.read[t] < image.lanes[t].len());
                assert(after.held().contains(t as usize));
                if exists|k: int|
                    0 <= k < after.pending_markers.len() && (
                    #[trigger] after.pending_markers[k]).shard == t as usize {
                    let k = choose|k: int|
                        0 <= k < after.pending_markers.len() && (
                        #[trigger] after.pending_markers[k]).shard == t as usize;
                    let n = if k < at { k } else { k + 1 };
                    assert(next.pending_markers[n] == after.pending_markers[k]);
                }
            }
        }
        assert forall|t: int| 0 <= t < now.len() implies 0 <= #[trigger] now[t]
            <= image.lanes[t].len() by {
            assert(0 <= l.read[t] <= image.lanes[t].len());
        }
        assert(exact(image, next, now)) by {
            assert(exact(image, after, l.read));
            lemma_read_exact(image, after, l.read, shard);
        }
    } else {
        let next = after.ended(shard, turn.elapsed_millis);
        assert(next.held() =~= after.held());
        assert forall|t: int|
            0 < t < l.read.len() && #[trigger] l.read[t]
                < image.lanes[t].len() implies next.held().contains(t as usize) by {
            assert(v.held().contains(t as usize));
        }
        assert(exact(image, next, l.read)) by {
            assert forall|t: int| 0 < t < next.stats.len() && !is_waited_for(next, t) implies (
            #[trigger] next.stats[t]).bytes_read == read_of(image, l.read, t) by {
                assert(next.stats[t].bytes_read == v.stats[t].bytes_read);
                if is_waited_for(v, t) {
                    let i = choose|i: int|
                        0 <= i < v.pending_markers.len() && (
                        #[trigger] v.pending_markers[i]).shard == t;
                    assert(next.pending_markers[i].shard == t);
                }
            }
            assert forall|i: int| #![trigger next.pending_markers[i]]
                0 <= i < next.pending_markers.len() implies next.stats[next.pending_markers[i].shard as int].bytes_read
                + payload(next.pending_markers[i].marker.body) == read_of(
                image,
                l.read,
                next.pending_markers[i].shard as int,
            ) by {
                assert(next.pending_markers[i] == v.pending_markers[i]);
                assert(is_last_read(image, l.read, v.pending_markers[i]));
            }
        }
    }
}

/// Reading a marker leaves the counters exact.
proof fn lemma_read_exact(image: Image, v: DeserializerView, read: Seq<int>, shard: usize)
    requires
        exact(image, v, read),
        v.tidy(),
        v.stats.len() == image.lanes.len() == read.len(),
        0 < shard < v.stats.len(),
        !v.held().contains(shard),
        0 <= read[shard as int] < image.lanes[shard as int].len(),
        ({
            let place = image.lanes[shard as int][read[shard as int]];
            0 <= image.sizes[place] && v.stats[shard as int].bytes_read + image.sizes[place]
                <= u64::MAX && 0 <= place < image.records.len() <= u64::MAX
        }),
        forall|i: int|
            0 <= i < v.pending_markers.len() ==> 0 < (#[trigger] v.pending_markers[i]).shard
                < v.stats.len(),
    ensures
        exact(
            image,
            v.received(
                shard,
                numbered(image.records, image.lanes[shard as int][read[shard as int]]),
                image.sizes[image.lanes[shard as int][read[shard as int]]],
            ),
            read.update(shard as int, read[shard as int] + 1),
        ),
{
    let s = shard as int;
    let j = read[s];
    let place = image.lanes[s][j];
    let now = read.update(s, j + 1);
    let p = PendingView { marker: numbered(image.records, place), shard };
    let next = v.received(shard, p.marker, image.sizes[place]);
    lemma_insert_pending(v.pending_markers, p);
    let at = choose|at: int|
        0 <= at <= v.pending_markers.len() && insert_pending(v.pending_markers, p)
            == v.pending_markers.insert(at, p);
    assert(next.pending_markers[at] == p);
    lemma_held_contains(v, shard);
    assert(!is_waited_for(v, s));
    assert(v.stats[s].bytes_read == read_of(image, read, s));
    assert(lane_weight(image.lanes[s], j, image.cost()) == image.cost()(place) + lane_weight(
        image.lanes[s],
        j + 1,
        image.cost(),
    ));
    assert forall|t: int| 0 < t < next.stats.len() && !is_waited_for(next, t) implies (
    #[trigger] next.stats[t]).bytes_read == read_of(image, now, t) by {
        if t == s {
            assert(next.pending_markers[at].shard == t);
        } else {
            assert(next.stats[t] == v.stats[t]);
            if is_waited_for(v, t) {
                let k = choose|k: int|
                    0 <= k < v.pending_markers.len() && (#[trigger] v.pending_markers[k]).shard
                        == t;
                let n = if k < at { k } else { k + 1 };
                assert(next.pending_markers[n] == v.pending_markers[k]);
            }
        }
    }
    assert forall|i: int| #![trigger next.pending_markers[i]]
        0 <= i < next.pending_markers.len() implies next.stats[next.pending_markers[i].shard as int].bytes_read
        + payload(next.pending_markers[i].marker.body) == read_of(
        image,
        now,
        next.pending_markers[i].shard as int,
    ) by {
        if i != at {
            let k = if i < at { i } else { i - 1 };
            let q = v.pending_markers[k];
            assert(next.pending_markers[i] == q);
            assert(q.shard != shard);
            assert(next.stats[q.shard as int] == v.stats[q.shard as int]);
        }
    }
}

/// What a step needs, and what it leaves, where it polls shards.
proof fn lemma_poll_step(image: Image, gap: int, l: Loop, turn: Turn)
    requires
        sendable(image, gap),
        sound(image, gap, l),
        l.end is None,
        !l.v.in_order(),
        l.v.next_shard().1 is Poll,
        answered(l, turn),
    ensures
        stepped(image, l, turn) matches Some(next) && sound(image, gap, next) && steps_left(image, next)
            < steps_left(image, l),
{
    let v = l.v;
    let ready = flags(v.shards, turn);
    lemma_polled_tidy(v, ready);
    law_no_shard_is_lost(v, ready, 1, numbered(image.records, 0), 0);
    let next = v.polled(ready);
    assert forall|shard: int|
        0 < shard < l.read.len() && #[trigger] l.read[shard]
            < image.lanes[shard].len() implies next.held().contains(shard as usize) by {
        lemma_same_held(v, next, shard as usize);
    }
    let k = choose|k: int| 0 <= k < ready.len() && ready[k];
    lemma_pick_some(v.shards, ready, k);
    lemma_pick_len(v.shards, ready);
    assert(exact(image, next, l.read)) by {
        assert forall|t: int| 0 < t < next.stats.len() && !is_waited_for(next, t) implies (
        #[trigger] next.stats[t]).bytes_read == read_of(image, l.read, t) by {
            assert(next.stats[t] == v.stats[t]);
            if is_waited_for(v, t) {
                let i = choose|i: int|
                    0 <= i < v.pending_markers.len() && (#[trigger] v.pending_markers[i]).shard
                        == t;
                assert(next.pending_markers[i].shard == t);
            }
        }
        assert forall|i: int| #![trigger next.pending_markers[i]]
            0 <= i < next.pending_markers.len() implies next.stats[next.pending_markers[i].shard as int].bytes_read
            + payload(next.pending_markers[i].marker.body) == read_of(
            image,
            l.read,
            next.pending_markers[i].shard as int,
        ) by {
            assert(next.pending_markers[i] == v.pending_markers[i]);
        }
    }
}

/// Every step of the main loop brings it nearer to its end.
proof fn lemma_step(image: Image, gap: int, l: Loop, turn: Turn)
    requires
        sendable(image, gap),
        sound(image, gap, l),
        answered(l, turn),
    ensures
        stepped(image, l, turn) matches Some(next) && sound(image, gap, next) && (
        l.end is Some ==> next == l) && (l.end is None ==> steps_left(image, next) < steps_left(
            image,
            l,
        )),
{
    if l.end is None {
        if l.v.in_order() {
            lemma_perform_step(image, gap, l, turn);
        } else {
            match l.v.next_shard().1 {
                NextShard::Shard(_) => {
                    lemma_read_step(image, gap, l, turn);
                },
                NextShard::Poll => {
                    lemma_poll_step(image, gap, l, turn);
                },
                NextShard::Exhausted => {
                    lemma_something_to_do(image, gap, l);
                },
            }
        }
    }
}

/// The beginning of the main loop.
spec fn beginning(image: Image, start: DeserializerView) -> Loop {
    Loop { v: start, out: no_output(), read: image.nothing_read(), end: None }
}

/// At the beginning everything is as it should be.
proof fn lemma_beginning(image: Image, gap: int, start: DeserializerView)
    requires
        sendable(image, gap),
        fresh(image, start),
    ensures
        sound(image, gap, beginning(image, start)),
{
    let l = beginning(image, start);
    assert(image.records.take(0) =~= Seq::empty());
    assert forall|place: int| !has_come(image, l.read, place) by {
        if has_come(image, l.read, place) {
            let (s, j) = choose|s: int, j: int| #[trigger]
                image.at(s, j, place) && j < l.read[s];
            assert(image.at(s, j, place) && j < 0);
        }
    }
    assert forall|shard: int| 0 < shard < l.read.len() && #[trigger] l.read[shard]
        < image.lanes[shard].len() implies start.held().contains(shard as usize) by {
        assert(start.stats[shard].bytes_read == 0);
        lemma_held_contains(start, shard as usize);
    }
    assert forall|t: int, i: int|
        0 <= t < image.lanes.len() && 0 <= i < image.lanes[t].len() implies 0
        <= #[trigger] image.cost()(image.lanes[t][i]) by {
        assert(image.at(t, i, image.lanes[t][i]));
    }
    lemma_unread(image.lanes, l.read, image.lanes.len() as int, image.cost());
}

/// The main loop ends as it should, and in time.
proof fn lemma_run(image: Image, gap: int, start: DeserializerView, turns: Seq<Turn>)
    requires
        sendable(image, gap),
        fresh(image, start),
        possible(image, start, turns),
    ensures
        run(image, start, turns) matches Some(l) && sound(image, gap, l) && (l.end is Some || steps_left(
            image,
            l,
        ) + turns.len() <= steps_left(image, beginning(image, start))),
    decreases turns.len(),
{
    if turns.len() == 0 {
        lemma_beginning(image, gap, start);
    } else {
        lemma_run(image, gap, start, turns.drop_last());
        if let Some(l) = run(image, start, turns.drop_last()) {
            lemma_step(image, gap, l, turns.last());
        }
    }
}

/// A loop that is not over has a step left.
proof fn lemma_steps_left(image: Image, l: Loop)
    ensures
        l.end is None ==> 1 <= steps_left(image, l),
{
    lemma_unread(image.lanes, l.read, image.lanes.len() as int, each());
}

/// How many steps the main loop takes at the most.
pub open spec fn most_steps(image: Image, start: DeserializerView) -> int {
    10 * unread(image.lanes, image.nothing_read(), image.lanes.len() as int, each()) + 3
        * start.shards.len() + 1
}

/// How the main loop goes, whether or not a marker is missing.
proof fn lemma_main_loop(image: Image, gap: int, start: DeserializerView, turns: Seq<Turn>)
    requires
        sendable(image, gap),
        fresh(image, start),
        possible(image, start, turns),
    ensures
        run(image, start, turns) matches Some(l) && (turns.len() >= most_steps(image, start)
            ==> l.end is Some) && (l.end matches Some(end) ==> {
            &&& end == outcome(image, gap)
            &&& l.v.seq == gap
            &&& replayed(image.records.take(gap)) == Some(
                (l.v.current_img_file, l.out, l.v.image_eof),
            )
            &&& l.v.image_eof <==> gap == image.records.len()
            &&& l.v.image_eof ==> l.v.pending_markers.len() == 0
            &&& l.v.image_eof ==> forall|shard: int|
                0 < shard < image.lanes.len() ==> (#[trigger] l.v.stats[shard]).bytes_read
                    == image.carries(shard)
        }),
{
    lemma_run(image, gap, start, turns);
    if let Some(l) = run(image, start, turns) {
        lemma_steps_left(image, l);
        lemma_eof_is_last(image, gap, l.v, l.out, l.read);
        if l.v.image_eof {
            lemma_all_counted(image, gap, l);
        }
    }
}

/// Once the image is complete, all bytes of every shard have been counted.
proof fn lemma_all_counted(image: Image, gap: int, l: Loop)
    requires
        sendable(image, gap),
        sound(image, gap, l),
        l.v.seq == image.records.len(),
        l.v.pending_markers.len() == 0,
    ensures
        forall|shard: int|
            0 < shard < image.lanes.len() ==> (#[trigger] l.v.stats[shard]).bytes_read
                == image.carries(shard),
{
    assert forall|shard: int| 0 < shard < image.lanes.len() implies (
    #[trigger] l.v.stats[shard]).bytes_read == image.carries(shard) by {
        let lane = image.lanes[shard];
        assert(!is_waited_for(l.v, shard));
        assert(0 <= l.read[shard] <= lane.len());
        if lane.len() > 0 {
            let j = lane.len() - 1;
            let place = lane[j];
            assert(image.at(shard, j, place));
            assert(has_come(image, l.read, place));
            let (t, i) = choose|t: int, i: int| #[trigger] image.at(t, i, place) && i < l.read[t];
            assert(image.at(t, i, place));
            assert(t == shard && i == j);
        }
    }
}

/// The main loop does what processing the markers one after the other does. Whatever the way in which
/// the markers are split over the shards, and whatever the order in which shards become readable, no
/// step fails, the loop is over after a bounded number of steps, and the image store has then
/// received the same calls, with the same bytes, in the same order. By then each shard has had exactly
/// the bytes counted that it carries.
pub proof fn law_main_loop_goes_by_sequence_numbers(
    image: Image,
    start: DeserializerView,
    turns: Seq<Turn>,
)
    requires
        image.split(),
        image.fits(),
        replayed(image.records) matches Some((_, _, eof)) && eof,
        fresh(image, start),
        possible(image, start, turns),
    ensures
        run(image, start, turns) matches Some(l) && (turns.len() >= most_steps(image, start)
            ==> l.end is Some) && (l.end matches Some(end) ==> {
            &&& end == Ok::<(), ExtractError>(())
            &&& replayed(image.records) == Some((l.v.current_img_file, l.out, l.v.image_eof))
            &&& l.v.image_eof
            &&& l.v.pending_markers.len() == 0
            &&& l.v.seq == image.records.len()
            &&& forall|shard: int|
                0 < shard < image.lanes.len() ==> (#[trigger] l.v.stats[shard]).bytes_read
                    == image.carries(shard)
        }),
{
    lemma_main_loop(image, image.records.len() as int, start, turns);
    assert(image.records.take(image.records.len() as int) =~= image.records);
}

/// A marker that is on no shard is noticed: the main loop is over after a bounded number of steps, and
/// then says that no shard is left to read from. By then the image store has received exactly the calls
/// of the markers before the missing one, and the image is not complete.
pub proof fn law_missing_marker_is_noticed(
    image: Image,
    gap: int,
    start: DeserializerView,
    turns: Seq<Turn>,
)
    requires
        0 <= gap < image.records.len(),
        image.split_but_for(gap),
        image.fits(),
        replayed(image.records) matches Some((_, _, eof)) && eof,
        fresh(image, start),
        possible(image, start, turns),
    ensures
        run(image, start, turns) matches Some(l) && (turns.len() >= most_steps(image, start)
            ==> l.end is Some) && (l.end matches Some(end) ==> {
            &&& end == Err::<(), ExtractError>(ExtractError::NoShards)
            &&& replayed(image.records.take(gap)) == Some((l.v.current_img_file, l.out, false))
            &&& !l.v.image_eof
            &&& l.v.seq == gap
        }),
{
    lemma_main_loop(image, gap, start, turns);
}

/// The outcome depends neither on the way in which the markers are split over the shards nor on the
/// order in which shards become readable: whoever completes the same image has made the same calls of
/// the image store, with the same bytes, in the same order.
pub proof fn law_split_does_not_matter(
    a: Image,
    b: Image,
    start_a: DeserializerView,
    start_b: DeserializerView,
    turns_a: Seq<Turn>,
    turns_b: Seq<Turn>,
)
    requires
        a.records == b.records,
        a.split() && b.split(),
        a.fits() && b.fits(),
        replayed(a.records) matches Some((_, _, eof)) && eof,
        fresh(a, start_a) && fresh(b, start_b),
        possible(a, start_a, turns_a) && possible(b, start_b, turns_b),
    ensures
        run(a, start_a, turns_a) matches Some(l) && run(b, start_b, turns_b) matches Some(m) && (
        l.end is Some && m.end is Some ==> l.end == m.end && l.out == m.out),
{
    law_main_loop_goes_by_sequence_numbers(a, start_a, turns_a);
    law_main_loop_goes_by_sequence_numbers(b, start_b, turns_b);
}

/// Reassembling the stream of markers provides the image files: whatever the way in which the markers
/// of an image are split over the shards, and whatever the order in which shards become readable, no
/// step of the main loop fails, the loop is over after a bounded number of steps, and the image store
/// has then received exactly the files that were serialized, with their contents, in their order.
pub proof fn law_image_comes_back(
    image: Image,
    files: Seq<SourceFile>,
    start: DeserializerView,
    turns: Seq<Turn>,
)
    requires
        announceable(files),
        image.records == image_records(files),
        image.split(),
        image.fits(),
        fresh(image, start),
        possible(image, start, turns),
    ensures
        run(image, start, turns) matches Some(l) && (turns.len() >= most_steps(image, start)
            ==> l.end is Some) && (l.end matches Some(end) ==> {
            &&& end == Ok::<(), ExtractError>(())
            &&& l.out.files == contents(files)
            &&& l.out.calls == files_calls(files)
            &&& l.v.image_eof
            &&& l.v.current_img_file is None
            &&& l.v.pending_markers.len() == 0
        }),
{
    lemma_replayed_files(files);
    let end = Record { body: BodyView::ImageEof(true), data: Seq::empty() };
    lemma_replayed_push(files_records(files), end);
    law_main_loop_goes_by_sequence_numbers(image, start, turns);
}

/// Before anything has been read, a deserializer is fresh.
proof fn lemma_initial_is_fresh(image: Image)
    requires
        2 <= image.lanes.len() <= usize::MAX,
    ensures
        fresh(image, DeserializerView::initial(image.lanes.len() as int)),
{
    let v = DeserializerView::initial(image.lanes.len() as int);
    assert(v.held() =~= v.shards);
    assert forall|i: int| 0 <= i < v.held().len() implies 0 < #[trigger] v.held()[i]
        < v.stats.len() by {
        assert(v.held()[i] == (i + 1) as usize);
    }
    assert(v.tidy());
    assert forall|shard: int| 0 < shard < image.lanes.len() implies (
    #[trigger] v.stats[shard]).bytes_read == 0 && v.shards.contains(shard as usize) by {
        assert(v.stats[shard] == Shard { bytes_read: 0, transfer_duration_millis: 0 });
        assert(v.shards[shard - 1] == shard as usize);
    }
    assert(v.stats.len() == image.lanes.len());
    assert(fresh(image, v));
}

/// Whether two states agree on everything that the main loop goes by, but for the shard of small
/// files.
spec fn same_main(v: DeserializerView, w: DeserializerView) -> bool {
    &&& v.shards == w.shards
    &&& v.readable_shards == w.readable_shards
    &&& v.pending_markers == w.pending_markers
    &&& v.seq == w.seq
    &&& v.image_eof == w.image_eof
    &&& v.stats.len() == w.stats.len()
    &&& forall|shard: int| 0 < shard < v.stats.len() ==> #[trigger] v.stats[shard] == w.stats[shard]
}

/// Small files leave alone what the main loop goes by.
proof fn lemma_small_files_same_main(
    start: DeserializerView,
    records: Seq<Record>,
    sizes: Seq<int>,
    k: int,
)
    requires
        start.performing is None,
        start.stats.len() > 0,
    ensures
        small_files_after(start, records, sizes, k) matches Some((v, _)) ==> same_main(start, v)
            && v.performing is None,
    decreases k,
{
    if k > 0 {
        lemma_small_files_same_main(start, records, sizes, k - 1);
    }
}

/// A deserializer is fresh before anything has been read, and still is once the small files have all
/// come: the main loop then has the whole image before it.
pub proof fn law_small_files_come_before_the_main_loop(
    image: Image,
    records: Seq<Record>,
    sizes: Seq<int>,
    k: int,
)
    requires
        2 <= image.lanes.len() <= usize::MAX,
    ensures
        fresh(image, DeserializerView::initial(image.lanes.len() as int)),
        small_files_after(
            DeserializerView::initial(image.lanes.len() as int),
            records,
            sizes,
            k,
        ) matches Some((v, _)) ==> (v.current_img_file is None ==> fresh(image, v)),
{
    let start = DeserializerView::initial(image.lanes.len() as int);
    lemma_initial_is_fresh(image);
    lemma_small_files_same_main(start, records, sizes, k);
    if let Some((v, _)) = small_files_after(start, records, sizes, k) {
        assert(v.held() =~= start.held());
        assert forall|shard: int| 0 < shard < image.lanes.len() implies (
        #[trigger] v.stats[shard]).bytes_read == 0 && v.shards.contains(shard as usize) by {
            assert(start.stats[shard].bytes_read == 0);
            assert(start.stats[shard] == v.stats[shard]);
        }
        assert(v.tidy());
    }
}

} // verus!
