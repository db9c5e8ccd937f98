//! The markers of a serialized image.
//!
//! Every shard carries a stream of markers, each of which may be followed by a payload. The
//! sequence number of a marker gives its place in the image, whichever shard brought it.

use vstd::prelude::*;

verus! {

/// What a marker announces.
#[derive(Debug)]
pub enum Body {
    /// A new image file begins.
    Filename(String),
    /// This many bytes of the current image file follow on the same shard.
    FileData(u32),
    /// The current image file is complete.
    FileEof(bool),
    /// The image is complete.
    ImageEof(bool),
}

/// The mathematical counterpart of [`Body`].
pub enum BodyView {
    Filename(Seq<char>),
    FileData(u32),
    FileEof(bool),
    ImageEof(bool),
}

impl View for Body {
    type V = BodyView;

    open spec fn view(&self) -> BodyView {
        match *self {
            Body::Filename(name) => BodyView::Filename(name@),
            Body::FileData(size) => BodyView::FileData(size),
            Body::FileEof(flag) => BodyView::FileEof(flag),
            Body::ImageEof(flag) => BodyView::ImageEof(flag),
        }
    }
}

/// A marker as it is read from a shard.
#[derive(Debug)]
pub struct Marker {
    /// The place of the marker in the image.
    pub seq: u64,
    /// What the marker announces, if it announces anything.
    pub body: Option<Body>,
}

/// The mathematical counterpart of [`Marker`].
pub struct MarkerView {
    pub seq: u64,
    pub body: Option<BodyView>,
}

impl View for Marker {
    type V = MarkerView;

    open spec fn view(&self) -> MarkerView {
        MarkerView {
            seq: self.seq,
            body: match self.body {
                Some(body) => Some(body@),
                None => None,
            },
        }
    }
}

/// A marker that waits for its turn, together with the shard it came from.
#[derive(Debug)]
pub struct PendingMarker {
    pub marker: Marker,
    pub shard: usize,
}

/// The mathematical counterpart of [`PendingMarker`].
pub struct PendingView {
    pub marker: MarkerView,
    pub shard: usize,
}

impl View for PendingMarker {
    type V = PendingView;

    open spec fn view(&self) -> PendingView {
        PendingView { marker: self.marker@, shard: self.shard }
    }
}

/// The pending markers as plain values.
pub open spec fn pending_views(s: Seq<PendingMarker>) -> Seq<PendingView> {
    Seq::new(s.len(), |i: int| s[i]@)
}

/// Whether lower sequence numbers come first.
pub open spec fn sorted_by_seq(s: Seq<PendingView>) -> bool {
    forall|i: int, j: int| 0 <= i <= j < s.len() ==> s[i].marker.seq <= s[j].marker.seq
}

/// The queue `s` with `p` in its place: before every higher sequence number, and behind those
/// that came earlier with the same one.
pub open spec fn insert_pending(s: Seq<PendingView>, p: PendingView) -> Seq<PendingView>
    decreases s.len(),
{
    if s.len() == 0 || s.last().marker.seq <= p.marker.seq {
        s.push(p)
    } else {
        insert_pending(s.drop_last(), p).push(s.last())
    }
}

/// Where a queue entry goes when everything from `at` on is behind it.
proof fn lemma_insert_at(s: Seq<PendingView>, p: PendingView, at: int)
    requires
        0 <= at <= s.len(),
        at == 0 || s[at - 1].marker.seq <= p.marker.seq,
        forall|j: int| at <= j < s.len() ==> p.marker.seq < (#[trigger] s[j]).marker.seq,
    ensures
        insert_pending(s, p) == s.insert(at, p),
    decreases s.len(),
{
    if s.len() == 0 || s.last().marker.seq <= p.marker.seq {
        assert(at == s.len());
        assert(s.insert(at, p) =~= s.push(p));
    } else {
        assert(at < s.len());
        lemma_insert_at(s.drop_last(), p, at);
        assert(s.drop_last().insert(at, p).push(s.last()) =~= s.insert(at, p));
    }
}

/// Inserting keeps a queue sorted, and adds exactly the new entry.
pub proof fn lemma_insert_pending(s: Seq<PendingView>, p: PendingView)
    requires
        sorted_by_seq(s),
    ensures
        sorted_by_seq(insert_pending(s, p)),
        insert_pending(s, p).len() == s.len() + 1,
        exists|at: int| 0 <= at <= s.len() && insert_pending(s, p) == s.insert(at, p),
    decreases s.len(),
{
    if s.len() == 0 || s.last().marker.seq <= p.marker.seq {
        assert(s.insert(s.len() as int, p) =~= s.push(p));
    } else {
        lemma_insert_pending(s.drop_last(), p);
        let inner = insert_pending(s.drop_last(), p);
        let at = choose|at: int|
            0 <= at <= s.drop_last().len() && inner == s.drop_last().insert(at, p);
        assert(inner.push(s.last()) =~= s.insert(at, p));
        assert forall|i: int, j: int|
            0 <= i <= j < inner.push(s.last()).len() implies inner.push(
            s.last(),
        )[i].marker.seq <= inner.push(s.last())[j].marker.seq by {
            if i < inner.len() && j == inner.len() {
                if i != at {
                    let k = if i < at { i } else { i - 1 };
                    assert(inner[i] == s[k]);
                }
            }
        }
    }
}

/// Adds a marker to the sorted queue.
pub fn push_pending(queue: &mut Vec<PendingMarker>, p: PendingMarker)
    requires
        sorted_by_seq(pending_views(old(queue)@)),
    ensures
        pending_views(final(queue)@) == insert_pending(pending_views(old(queue)@), p@),
        final(queue)@.len() == old(queue)@.len() + 1,
{
    let ghost before = pending_views(queue@);
    let ghost entry = p@;
    let mut at: usize = queue.len();
    while at > 0 && queue[at - 1].marker.seq > p.marker.seq
        invariant
            at <= queue@.len(),
            before == pending_views(queue@),
            entry == p@,
            forall|j: int|
                at <= j < before.len() ==> entry.marker.seq < (#[trigger] before[j]).marker.seq,
        decreases at,
    {
        assert(before[at - 1].marker.seq == queue@[at - 1].marker.seq);
        at = at - 1;
    }
    proof {
        if at > 0 {
            assert(before[at - 1].marker.seq == queue@[at - 1].marker.seq);
        }
        lemma_insert_at(before, entry, at as int);
    }
    queue.insert(at, p);
    assert(pending_views(queue@) =~= before.insert(at as int, entry));
}

} // verus!
