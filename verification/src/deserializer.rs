//! Reassembly of an image from its shards.
//!
//! Shards are read in whatever order they become readable, and the markers they carry are
//! processed in the order of their sequence numbers. [`ImageDeserializer`] takes all decisions;
//! its caller reads the markers, polls the shards, moves the file contents, and reports when that
//! is done. What a marker changes comes into force only then.

use crate::marker::{
    insert_pending, lemma_insert_pending, pending_views, push_pending, sorted_by_seq, Body,
    BodyView, Marker, MarkerView, PendingMarker, PendingView,
};
use crate::metadata::{json_sizes, Metadata};
use vstd::prelude::*;

verus! {

/// Why an image cannot be reassembled.
#[derive(Debug, Clone, Copy, PartialEq, Eq, Structural)]
pub enum ExtractError {
    /// The image ended while a file was open or markers were waiting.
    UnexpectedImageEof,
    /// File contents came while no file was open.
    UnexpectedFileData,
    /// A file ended while none was open.
    UnexpectedFileEof,
    /// A marker announced nothing that can be understood.
    MalformedMarker,
    /// A marker came after the end of the image.
    DataAfterImageEof,
    /// All shards ended before the image did.
    NoShards,
}

impl ExtractError {
    /// The text shown to the user.
    pub open spec fn text(self) -> Seq<char> {
        match self {
            ExtractError::UnexpectedImageEof => "Image EOF marker came unexpectedly"@,
            ExtractError::UnexpectedFileData => "Unexpected FileData marker"@,
            ExtractError::UnexpectedFileEof => "Unexpected FileEof marker"@,
            ExtractError::MalformedMarker => "Malformed image marker"@,
            ExtractError::DataAfterImageEof => "Unexpected data after image EOF"@,
            ExtractError::NoShards => "No shards to read from"@,
        }
    }

    /// Says in words what went wrong.
    pub fn message(&self) -> (s: &'static str)
        ensures
            s@ == self.text(),
    {
        match self {
            ExtractError::UnexpectedImageEof => "Image EOF marker came unexpectedly",
            ExtractError::UnexpectedFileData => "Unexpected FileData marker",
            ExtractError::UnexpectedFileEof => "Unexpected FileEof marker",
            ExtractError::MalformedMarker => "Malformed image marker",
            ExtractError::DataAfterImageEof => "Unexpected data after image EOF",
            ExtractError::NoShards => "No shards to read from",
        }
    }
}

/// What has been transferred over one shard.
#[derive(Debug, Clone, Copy, PartialEq, Eq, Structural)]
pub struct Shard {
    /// Bytes of markers and payloads read so far.
    pub bytes_read: u64,
    /// How long the shard was in use, once it has ended.
    pub transfer_duration_millis: u128,
}

impl Shard {
    /// A shard from which nothing has been read.
    pub fn new() -> (shard: Shard)
        ensures
            shard == (Shard { bytes_read: 0, transfer_duration_millis: 0 }),
    {
        Shard { bytes_read: 0, transfer_duration_millis: 0 }
    }
}

/// What has to be done for a marker.
#[derive(Debug)]
pub enum Action {
    /// Create the image file of this name in the image store.
    CreateFile(String),
    /// Move this many bytes from the shard to the current image file.
    CopyData { shard: usize, size: u32 },
    /// Read up to this many bytes of file list from the shard of small files.
    ReadMetadata { size: u32 },
    /// Put the current image file, which has this name, into the image store.
    InsertFile(String),
    /// Let go of the current image file, which has this name.
    DropFile(String),
    /// The image is complete.
    ImageComplete,
}

/// The mathematical counterpart of [`Action`].
pub enum ActionView {
    CreateFile(Seq<char>),
    CopyData { shard: usize, size: u32 },
    ReadMetadata { size: u32 },
    InsertFile(Seq<char>),
    DropFile(Seq<char>),
    ImageComplete,
}

impl View for Action {
    type V = ActionView;

    open spec fn view(&self) -> ActionView {
        match *self {
            Action::CreateFile(name) => ActionView::CreateFile(name@),
            Action::CopyData { shard, size } => ActionView::CopyData { shard, size },
            Action::ReadMetadata { size } => ActionView::ReadMetadata { size },
            Action::InsertFile(name) => ActionView::InsertFile(name@),
            Action::DropFile(name) => ActionView::DropFile(name@),
            Action::ImageComplete => ActionView::ImageComplete,
        }
    }
}

/// Where the next marker is to be read from.
#[derive(Debug, Clone, Copy, PartialEq, Eq, Structural)]
pub enum NextShard {
    /// From this shard.
    Shard(usize),
    /// From one of the waiting shards, once it is known which of them are readable.
    Poll,
    /// From nowhere: no shard is left.
    Exhausted,
}

/// What the main loop has to do next.
#[derive(Debug)]
pub enum DrainStep {
    /// Read the next marker of this shard.
    Read(usize),
    /// Find out which of the waiting shards are readable.
    Poll,
    /// Do what a marker asks for.
    Perform(Action),
    /// Nothing: the image has been reassembled.
    Complete,
}

/// The mathematical counterpart of [`DrainStep`].
pub enum DrainStepView {
    Read(usize),
    Poll,
    Perform(ActionView),
    Complete,
}

impl View for DrainStep {
    type V = DrainStepView;

    open spec fn view(&self) -> DrainStepView {
        match *self {
            DrainStep::Read(shard) => DrainStepView::Read(shard),
            DrainStep::Poll => DrainStepView::Poll,
            DrainStep::Perform(action) => DrainStepView::Perform(action@),
            DrainStep::Complete => DrainStepView::Complete,
        }
    }
}

/// What the loop over the shard of small files has to do next.
#[derive(Debug)]
pub enum SmallFileStep {
    /// Do what a marker asks for, then read the next marker.
    Perform(Action),
    /// Nothing: the shard has ended, and this is the list of files that it brought.
    Complete(Metadata),
}

/// What was read from a shard.
#[derive(Debug)]
pub enum ShardEvent {
    /// The shard has ended, this long after the start.
    Eof { elapsed_millis: u128 },
    /// The next marker, which took up `size` bytes.
    Marker { marker: Marker, size: usize },
}

/// What remains to be noted once an action has been performed.
#[derive(Debug)]
struct Performing {
    opened: Option<String>,
    size: u32,
    shard: usize,
}

/// The mathematical counterpart of what remains to be noted once an action has been performed.
pub struct PerformingView {
    /// The name of the image file that is then being received, if a new one is.
    pub opened: Option<Seq<char>>,
    /// How many payload bytes have then been read from the shard.
    pub size: u32,
    /// The shard whose marker asked for the action.
    pub shard: usize,
}

impl View for Performing {
    type V = PerformingView;

    closed spec fn view(&self) -> PerformingView {
        PerformingView {
            opened: match self.opened {
                Some(name) => Some(name@),
                None => None,
            },
            size: self.size,
            shard: self.shard,
        }
    }
}

/// The mathematical state of an [`ImageDeserializer`].
#[verifier::ext_equal]
pub struct DeserializerView {
    /// The sequence number that the next marker of the shard of small files must have.
    pub small_file_seq: u64,
    /// The list of files, once it has come.
    pub metadata: Option<Map<Seq<char>, u64>>,
    /// The shards that may not be readable yet.
    pub shards: Seq<usize>,
    /// The shards that are known to be readable.
    pub readable_shards: Seq<usize>,
    /// The markers that wait for their turn, lowest sequence number first.
    pub pending_markers: Seq<PendingView>,
    /// The sequence number whose turn it is.
    pub seq: u64,
    /// The name of the image file that is being received.
    pub current_img_file: Option<Seq<char>>,
    /// Whether the end of the image has come.
    pub image_eof: bool,
    /// What has been transferred over each shard.
    pub stats: Seq<Shard>,
    /// What remains to be noted once the action that was handed out has been performed.
    pub performing: Option<PerformingView>,
}

/// The shards that the given markers came from.
pub open spec fn pending_shards(s: Seq<PendingView>) -> Seq<usize> {
    Seq::new(s.len(), |i: int| s[i].shard)
}

/// The name under which the list of files comes.
pub open spec fn metadata_name() -> Seq<char> {
    "metadata.json"@
}

/// What a marker does while the file `current` is open: the file that is open afterwards and
/// what is to be done, or why the marker is refused.
pub open spec fn marker_effect(
    current: Option<Seq<char>>,
    others_pending: bool,
    shard: usize,
    body: Option<BodyView>,
) -> Result<(Option<Seq<char>>, ActionView), ExtractError> {
    match body {
        Some(BodyView::Filename(name)) => Ok((Some(name), ActionView::CreateFile(name))),
        Some(BodyView::FileData(size)) => match current {
            Some(_) => Ok((current, ActionView::CopyData { shard, size })),
            None => Err(ExtractError::UnexpectedFileData),
        },
        Some(BodyView::FileEof(flag)) => if flag {
            match current {
                Some(name) => Ok((None, ActionView::InsertFile(name))),
                None => Err(ExtractError::UnexpectedFileEof),
            }
        } else {
            Err(ExtractError::MalformedMarker)
        },
        Some(BodyView::ImageEof(flag)) => if !flag {
            Err(ExtractError::MalformedMarker)
        } else if current is None && !others_pending {
            Ok((None, ActionView::ImageComplete))
        } else {
            Err(ExtractError::UnexpectedImageEof)
        },
        None => Err(ExtractError::MalformedMarker),
    }
}

/// What a marker on the shard of small files does while the file `current` is open.
pub open spec fn small_file_effect(
    current: Option<Seq<char>>,
    body: Option<BodyView>,
) -> Result<(Option<Seq<char>>, ActionView), ExtractError> {
    match body {
        Some(BodyView::Filename(name)) => Ok((Some(name), ActionView::CreateFile(name))),
        Some(BodyView::FileData(size)) => match current {
            Some(name) => if name == metadata_name() {
                Ok((current, ActionView::ReadMetadata { size }))
            } else {
                Ok((current, ActionView::CopyData { shard: 0, size }))
            },
            None => Err(ExtractError::UnexpectedFileData),
        },
        Some(BodyView::FileEof(flag)) => if flag {
            match current {
                Some(name) => if name == metadata_name() {
                    Ok((None, ActionView::DropFile(name)))
                } else {
                    Ok((None, ActionView::InsertFile(name)))
                },
                None => Err(ExtractError::UnexpectedFileEof),
            }
        } else {
            Err(ExtractError::MalformedMarker)
        },
        _ => Err(ExtractError::MalformedMarker),
    }
}

/// How many payload bytes a marker is followed by.
pub open spec fn payload(body: Option<BodyView>) -> int {
    match body {
        Some(BodyView::FileData(size)) => size as int,
        _ => 0,
    }
}

/// The name of the file that a marker begins.
pub open spec fn opened(body: Option<BodyView>) -> Option<Seq<char>> {
    match body {
        Some(BodyView::Filename(name)) => Some(name),
        _ => None,
    }
}

/// The members of `s` whose flag is `flag`, in order.
pub open spec fn pick(s: Seq<usize>, flags: Seq<bool>, flag: bool) -> Seq<usize>
    decreases s.len(),
{
    if s.len() == 0 {
        Seq::empty()
    } else {
        let rest = pick(s.drop_last(), flags, flag);
        if flags[s.len() - 1] == flag {
            rest.push(s.last())
        } else {
            rest
        }
    }
}

impl DeserializerView {
    /// The shards in all three collections.
    pub open spec fn held(self) -> Seq<usize> {
        self.shards + self.readable_shards + pending_shards(self.pending_markers)
    }

    /// Whether every shard but that of small files is in at most one place, and waiting markers
    /// are in order.
    pub open spec fn tidy(self) -> bool {
        &&& self.stats.len() >= 2
        &&& self.held().no_duplicates()
        &&& forall|i: int|
            0 <= i < self.held().len() ==> 0 < #[trigger] self.held()[i] < self.stats.len()
        &&& sorted_by_seq(self.pending_markers)
    }

    /// Whether the state is one that can come up: it is tidy, and what remains to be noted of an
    /// action can be.
    pub open spec fn wf(self) -> bool {
        &&& self.tidy()
        &&& self.performing matches Some(p) ==> {
            &&& p.shard < self.stats.len()
            &&& !self.held().contains(p.shard)
            &&& self.has_room(p.shard, p.size as int)
            &&& if p.shard == 0 {
                self.small_file_seq < u64::MAX
            } else {
                self.seq < u64::MAX
            }
        }
    }

    /// The state before anything has been read from `num_shards` shards.
    pub open spec fn initial(num_shards: int) -> DeserializerView {
        DeserializerView {
            small_file_seq: 0,
            metadata: None,
            shards: Seq::new((num_shards - 1) as nat, |i: int| (i + 1) as usize),
            readable_shards: Seq::empty(),
            pending_markers: Seq::empty(),
            seq: 0,
            current_img_file: None,
            image_eof: false,
            stats: Seq::new(
                num_shards as nat,
                |i: int| Shard { bytes_read: 0, transfer_duration_millis: 0 },
            ),
            performing: None,
        }
    }

    /// Whether the marker whose turn it is has come.
    pub open spec fn in_order(self) -> bool {
        self.pending_markers.len() > 0 && self.pending_markers[0].marker.seq == self.seq
    }

    /// The state with `n` more bytes counted for a shard.
    pub open spec fn counted(self, shard: usize, n: int) -> DeserializerView {
        DeserializerView {
            stats: self.stats.update(
                shard as int,
                Shard {
                    bytes_read: (self.stats[shard as int].bytes_read + n) as u64,
                    transfer_duration_millis: self.stats[shard as int].transfer_duration_millis,
                },
            ),
            ..self
        }
    }

    /// Whether the counter of a shard has room for `n` more bytes.
    pub open spec fn has_room(self, shard: usize, n: int) -> bool {
        self.stats[shard as int].bytes_read + n <= u64::MAX
    }

    /// Whether a file would begin while another one is open.
    pub open spec fn overlaps(self, body: Option<BodyView>) -> bool {
        self.current_img_file is Some && body matches Some(BodyView::Filename(_))
    }

    /// Whether a marker that came over `shard` can be processed.
    pub open spec fn accepts(self, marker: MarkerView, shard: usize) -> bool {
        &&& !self.overlaps(marker.body)
        &&& self.current_img_file is Some ==> self.has_room(shard, payload(marker.body))
    }

    /// The state once an action has been handed out for a marker.
    pub open spec fn handed_out(
        self,
        marker: MarkerView,
        shard: usize,
        action: ActionView,
    ) -> DeserializerView {
        DeserializerView {
            current_img_file: if action is InsertFile || action is DropFile {
                None
            } else {
                self.current_img_file
            },
            image_eof: self.image_eof || action is ImageComplete,
            performing: Some(
                PerformingView {
                    opened: opened(marker.body),
                    size: payload(marker.body) as u32,
                    shard,
                },
            ),
            ..self
        }
    }

    /// The state once the action that was handed out for a marker has been performed.
    pub open spec fn applied(self) -> DeserializerView {
        match self.performing {
            Some(p) => DeserializerView {
                current_img_file: if p.opened is Some {
                    p.opened
                } else {
                    self.current_img_file
                },
                performing: None,
                ..self.counted(p.shard, p.size as int)
            },
            None => self,
        }
    }

    /// The state once the marker for which an action was handed out is done with: it is the turn of
    /// the next one, and the shard waits again.
    pub open spec fn performed(self) -> DeserializerView {
        match self.performing {
            Some(p) => if p.shard == 0 {
                DeserializerView {
                    small_file_seq: (self.small_file_seq + 1) as u64,
                    ..self.applied()
                }
            } else {
                DeserializerView {
                    seq: (self.seq + 1) as u64,
                    shards: self.shards.push(p.shard),
                    ..self.applied()
                }
            },
            None => self,
        }
    }

    /// The state after a marker, and what is to be done for it.
    pub open spec fn processed(self, marker: MarkerView, shard: usize) -> (
        DeserializerView,
        Result<ActionView, ExtractError>,
    ) {
        match marker_effect(
            self.current_img_file,
            self.pending_markers.len() > 0,
            shard,
            marker.body,
        ) {
            Ok((_, action)) => (self.handed_out(marker, shard, action), Ok(action)),
            Err(e) => (self, Err(e)),
        }
    }

    /// The state without its first waiting marker.
    pub open spec fn popped(self) -> DeserializerView {
        DeserializerView { pending_markers: self.pending_markers.drop_first(), ..self }
    }

    /// Whether the main loop can take its next step.
    pub open spec fn can_step(self) -> bool {
        &&& self.performing is None
        &&& self.in_order() ==> {
            let next = self.pending_markers[0];
            self.accepts(next.marker, next.shard) && self.seq < u64::MAX
        }
    }

    /// The state after a marker of the shard of small files, and what is to be done for it.
    pub open spec fn small_processed(self, marker: MarkerView) -> (
        DeserializerView,
        Result<ActionView, ExtractError>,
    ) {
        match small_file_effect(self.current_img_file, marker.body) {
            Ok((_, action)) => (self.handed_out(marker, 0, action), Ok(action)),
            Err(e) => (self, Err(e)),
        }
    }

    /// Whether a marker of the shard of small files, which took up `size` bytes, can be taken
    /// in.
    pub open spec fn accepts_small(self, marker: MarkerView, size: int) -> bool {
        &&& self.performing is None
        &&& marker.seq == self.small_file_seq
        &&& self.small_file_seq < u64::MAX
        &&& !self.overlaps(marker.body)
        &&& self.has_room(
            0,
            size + if self.current_img_file is Some {
                payload(marker.body)
            } else {
                0
            },
        )
    }

    /// The state right after a marker of `size` bytes has been read from the shard of small files,
    /// before what is to be done for it has been.
    pub open spec fn small_begun(self, marker: MarkerView, size: int) -> DeserializerView {
        self.counted(0, size).small_processed(marker).0
    }

    /// The state after a marker of `size` bytes has been read from the shard of small files, and
    /// what is to be done for it has been.
    pub open spec fn small_step(self, marker: MarkerView, size: int) -> (
        DeserializerView,
        Result<ActionView, ExtractError>,
    ) {
        let (begun, result) = self.counted(0, size).small_processed(marker);
        match result {
            Ok(action) => (begun.performed(), Ok(action)),
            Err(e) => (begun, Err(e)),
        }
    }

    /// The state after a shard has ended.
    pub open spec fn ended(self, shard: usize, elapsed_millis: u128) -> DeserializerView {
        DeserializerView {
            stats: self.stats.update(
                shard as int,
                Shard {
                    bytes_read: self.stats[shard as int].bytes_read,
                    transfer_duration_millis: elapsed_millis,
                },
            ),
            ..self
        }
    }

    /// The state after a marker of `size` bytes has been read from a shard.
    pub open spec fn received(self, shard: usize, marker: MarkerView, size: int) -> DeserializerView {
        DeserializerView {
            pending_markers: insert_pending(
                self.pending_markers,
                PendingView { marker, shard },
            ),
            ..self.counted(shard, size)
        }
    }

    /// The state after the waiting shards have been polled.
    pub open spec fn polled(self, ready: Seq<bool>) -> DeserializerView {
        DeserializerView {
            shards: pick(self.shards, ready, false),
            readable_shards: self.readable_shards + pick(self.shards, ready, true),
            ..self
        }
    }

    /// The next shard to read from, and the state in which it is out of the collections.
    pub open spec fn next_shard(self) -> (DeserializerView, NextShard) {
        if self.readable_shards.len() > 0 {
            (
                DeserializerView { readable_shards: self.readable_shards.drop_last(), ..self },
                NextShard::Shard(self.readable_shards.last()),
            )
        } else if self.shards.len() == 0 {
            (self, NextShard::Exhausted)
        } else if self.shards.len() == 1 {
            (
                DeserializerView { shards: Seq::empty(), ..self },
                NextShard::Shard(self.shards[0]),
            )
        } else {
            (self, NextShard::Poll)
        }
    }

    /// The state right after a step of the main loop has been handed out, before what is to be
    /// done for a marker has been.
    pub open spec fn begun(self) -> DeserializerView {
        if self.in_order() {
            let next = self.pending_markers[0];
            self.popped().processed(next.marker, next.shard).0
        } else {
            self.next_shard().0
        }
    }

    /// One step of the main loop, with what is to be done for a marker: markers whose turn it is
    /// come first, then the next shard.
    pub open spec fn drain_step(self) -> (DeserializerView, Result<DrainStepView, ExtractError>) {
        if self.in_order() {
            let next = self.pending_markers[0];
            match self.popped().processed(next.marker, next.shard).1 {
                Ok(action) => (self.begun().performed(), Ok(DrainStepView::Perform(action))),
                Err(e) => (self.begun(), Err(e)),
            }
        } else {
            let (after, next) = self.next_shard();
            match next {
                NextShard::Shard(shard) => (after, Ok(DrainStepView::Read(shard))),
                NextShard::Poll => (after, Ok(DrainStepView::Poll)),
                NextShard::Exhausted => if self.image_eof {
                    (after, Ok(DrainStepView::Complete))
                } else {
                    (after, Err(ExtractError::NoShards))
                },
            }
        }
    }
}

/// Whether every member names a shard other than that of small files.
spec fn in_range(s: Seq<usize>, num_shards: nat) -> bool {
    forall|i: int| 0 <= i < s.len() ==> 0 < #[trigger] s[i] < num_shards
}

/// What holds of the members of a sequence holds of any selection from it.
proof fn lemma_selection(a: Seq<usize>, b: Seq<usize>, num_shards: nat)
    requires
        a.no_duplicates(),
        in_range(a, num_shards),
        b.to_multiset().subset_of(a.to_multiset()),
    ensures
        b.no_duplicates(),
        in_range(b, num_shards),
{
    broadcast use vstd::seq_lib::group_to_multiset_ensures;

    a.lemma_multiset_has_no_duplicates();
    assert forall|x: usize| b.to_multiset().contains(x) implies b.to_multiset().count(x) == 1 by {
        assert(a.to_multiset().contains(x));
    }
    b.lemma_multiset_has_no_duplicates_conv();
    assert forall|i: int| 0 <= i < b.len() implies 0 < #[trigger] b[i] < num_shards by {
        assert(b.contains(b[i]));
        assert(b.to_multiset().count(b[i]) > 0);
        assert(a.to_multiset().count(b[i]) > 0);
        assert(a.contains(b[i]));
        let j = choose|j: int| 0 <= j < a.len() && a[j] == b[i];
        assert(0 < a[j] < num_shards);
    }
}

/// The members of three sequences in a row.
proof fn lemma_held_multiset(v: DeserializerView)
    ensures
        v.held().to_multiset() == v.shards.to_multiset().add(v.readable_shards.to_multiset()).add(
            pending_shards(v.pending_markers).to_multiset(),
        ),
{
    vstd::seq_lib::lemma_multiset_commutative(
        v.shards + v.readable_shards,
        pending_shards(v.pending_markers),
    );
    vstd::seq_lib::lemma_multiset_commutative(v.shards, v.readable_shards);
}

/// The first waiting marker came over a shard that exists.
proof fn lemma_first_pending_in_range(v: DeserializerView)
    requires
        v.tidy(),
        v.pending_markers.len() > 0,
    ensures
        0 < v.pending_markers[0].shard < v.stats.len(),
{
    let k = (v.shards + v.readable_shards).len() as int;
    assert(v.held()[k] == v.pending_markers[0].shard);
}

/// A marker that comes in keeps the state tidy.
pub proof fn lemma_received_tidy(v: DeserializerView, shard: usize, marker: MarkerView, size: int)
    requires
        v.tidy(),
        0 < shard < v.stats.len(),
        !v.held().contains(shard),
    ensures
        v.received(shard, marker, size).tidy(),
{
    let p = PendingView { marker, shard };
    let after = v.received(shard, marker, size);
    lemma_insert_pending(v.pending_markers, p);
    let at = choose|at: int|
        0 <= at <= v.pending_markers.len() && insert_pending(v.pending_markers, p)
            == v.pending_markers.insert(at, p);
    let k = (v.shards + v.readable_shards).len() + at;
    assert(after.held() =~= v.held().insert(k, shard));
    assert forall|i: int, j: int|
        0 <= i < after.held().len() && 0 <= j < after.held().len() && i != j implies after.held()[i]
        != after.held()[j] by {
        let f = |n: int| if n < k { n } else { n - 1 };
        if i != k {
            assert(after.held()[i] == v.held()[f(i)]);
        }
        if j != k {
            assert(after.held()[j] == v.held()[f(j)]);
        }
    }
    assert forall|i: int| 0 <= i < after.held().len() implies 0 < #[trigger] after.held()[i]
        < after.stats.len() by {
        if i != k {
            let n = if i < k { i } else { i - 1 };
            assert(after.held()[i] == v.held()[n]);
        }
    }
}

/// Handing out a shard keeps the state tidy, and the shard is then in no collection.
pub proof fn lemma_next_shard_tidy(v: DeserializerView)
    requires
        v.tidy(),
    ensures
        v.next_shard().0.tidy(),
        v.next_shard().1 matches NextShard::Shard(shard) ==> 0 < shard < v.stats.len()
            && !v.next_shard().0.held().contains(shard),
{
    let after = v.next_shard().0;
    if let NextShard::Shard(shard) = v.next_shard().1 {
        let k: int = if v.readable_shards.len() > 0 {
            v.shards.len() + v.readable_shards.len() - 1
        } else {
            0
        };
        assert(v.held()[k] == shard);
        assert(after.held() =~= v.held().remove(k));
        assert forall|i: int| 0 <= i < after.held().len() implies #[trigger] after.held()[i]
            == v.held()[if i < k { i } else { i + 1 }] by {}
    }
}

/// Whoever is ready is picked.
pub proof fn lemma_pick_some(s: Seq<usize>, flags: Seq<bool>, k: int)
    requires
        0 <= k < s.len() <= flags.len(),
        flags[k],
    ensures
        pick(s, flags, true).len() > 0,
    decreases s.len(),
{
    if k < s.len() - 1 {
        lemma_pick_some(s.drop_last(), flags, k);
    }
}

/// Picking by a flag and by its opposite parts a sequence in two.
proof fn lemma_pick_parts(s: Seq<usize>, flags: Seq<bool>)
    requires
        s.len() <= flags.len(),
    ensures
        pick(s, flags, true).to_multiset().add(pick(s, flags, false).to_multiset())
            == s.to_multiset(),
    decreases s.len(),
{
    broadcast use vstd::seq_lib::group_to_multiset_ensures;

    if s.len() == 0 {
        assert(s.to_multiset() =~= vstd::multiset::Multiset::empty());
        assert(Seq::<usize>::empty() =~= s);
    } else {
        lemma_pick_parts(s.drop_last(), flags);
        assert(s.drop_last().push(s.last()) =~= s);
        assert(pick(s, flags, true).to_multiset().add(pick(s, flags, false).to_multiset())
            =~= s.to_multiset());
    }
}

/// Polling moves shards within the collections.
proof fn lemma_polled_held(v: DeserializerView, ready: Seq<bool>)
    requires
        ready.len() == v.shards.len(),
    ensures
        v.polled(ready).held().to_multiset() == v.held().to_multiset(),
{
    let after = v.polled(ready);
    lemma_held_multiset(v);
    lemma_held_multiset(after);
    lemma_pick_parts(v.shards, ready);
    vstd::seq_lib::lemma_multiset_commutative(v.readable_shards, pick(v.shards, ready, true));
    assert(after.held().to_multiset() =~= v.held().to_multiset());
}

/// Polling keeps the state tidy.
pub proof fn lemma_polled_tidy(v: DeserializerView, ready: Seq<bool>)
    requires
        v.tidy(),
        ready.len() == v.shards.len(),
    ensures
        v.polled(ready).tidy(),
{
    lemma_polled_held(v, ready);
    lemma_selection(v.held(), v.polled(ready).held(), v.stats.len());
}

/// Taking out the first waiting marker keeps the state tidy, and its shard is then in no collection.
proof fn lemma_popped_tidy(v: DeserializerView)
    requires
        v.tidy(),
        v.pending_markers.len() > 0,
    ensures
        v.popped().tidy(),
        0 < v.pending_markers[0].shard < v.stats.len(),
        !v.popped().held().contains(v.pending_markers[0].shard),
{
    let after = v.popped();
    let k = (v.shards + v.readable_shards).len() as int;
    assert(v.held()[k] == v.pending_markers[0].shard);
    assert(after.held() =~= v.held().remove(k));
    assert forall|i: int| 0 <= i < after.held().len() implies #[trigger] after.held()[i]
        == v.held()[if i < k { i } else { i + 1 }] by {}
    assert forall|i: int, j: int|
        0 <= i <= j < after.pending_markers.len() implies after.pending_markers[i].marker.seq
        <= after.pending_markers[j].marker.seq by {
        assert(v.pending_markers[i + 1].marker.seq <= v.pending_markers[j + 1].marker.seq);
    }
}

/// Being done with a marker keeps the state tidy.
proof fn lemma_performed_tidy(v: DeserializerView)
    requires
        v.tidy(),
        v.performing matches Some(p) ==> p.shard < v.stats.len() && !v.held().contains(p.shard),
    ensures
        v.performed().tidy(),
{
    if let Some(p) = v.performing {
        let after = v.performed();
        if p.shard == 0 {
            assert(after.held() =~= v.held());
        } else {
            let k = v.shards.len() as int;
            assert(after.held() =~= v.held().insert(k, p.shard));
            assert forall|i: int| 0 <= i < after.held().len() && i != k implies #[trigger]
                after.held()[i] == v.held()[if i < k { i } else { i - 1 }] by {}
            assert(after.held()[k] == p.shard);
            assert forall|i: int, j: int|
                0 <= i < after.held().len() && 0 <= j < after.held().len() && i
                    != j implies after.held()[i] != after.held()[j] by {
                if i != k {
                    assert(v.held().contains(v.held()[if i < k { i } else { i - 1 }]));
                }
                if j != k {
                    assert(v.held().contains(v.held()[if j < k { j } else { j - 1 }]));
                }
            }
        }
    }
}

/// Every step of the main loop keeps the state tidy, and a shard that is to be read is in no
/// collection.
proof fn lemma_begun_tidy(v: DeserializerView)
    requires
        v.tidy(),
    ensures
        v.begun().tidy(),
        v.in_order() ==> 0 < v.pending_markers[0].shard < v.stats.len() && !v.begun().held().contains(
            v.pending_markers[0].shard,
        ),
        v.drain_step().1 matches Ok(DrainStepView::Read(shard)) ==> 0 < shard < v.stats.len()
            && !v.begun().held().contains(shard),
{
    if v.in_order() {
        lemma_popped_tidy(v);
        assert(v.begun().held() =~= v.popped().held());
    } else {
        lemma_next_shard_tidy(v);
    }
}

/// Every step of the main loop keeps the state tidy once it has been carried out.
pub proof fn lemma_drain_step_tidy(v: DeserializerView)
    requires
        v.tidy(),
        v.performing is None,
    ensures
        v.drain_step().0.tidy(),
        v.drain_step().1 matches Ok(DrainStepView::Read(shard)) ==> 0 < shard < v.stats.len()
            && !v.drain_step().0.held().contains(shard),
{
    lemma_begun_tidy(v);
    lemma_performed_tidy(v.begun());
}

/// Reassembles an image from its shards.
///
/// Shard 0 carries the small files. Each of the other shards is in one of three places, or with
/// the caller, who is reading from it:
/// 1. `shards` holds those that may not be readable yet;
/// 2. `readable_shards` holds those that are;
/// 3. `pending_markers` holds those whose last marker waits for its turn.
#[derive(Debug)]
pub struct ImageDeserializer {
    small_file_seq: u64,
    metadata: Option<Metadata>,
    shards: Vec<usize>,
    readable_shards: Vec<usize>,
    pending_markers: Vec<PendingMarker>,
    seq: u64,
    current_img_file: Option<String>,
    image_eof: bool,
    stats: Vec<Shard>,
    performing: Option<Performing>,
}

impl View for ImageDeserializer {
    type V = DeserializerView;

    closed spec fn view(&self) -> DeserializerView {
        DeserializerView {
            small_file_seq: self.small_file_seq,
            metadata: match self.metadata {
                Some(metadata) => Some(metadata@),
                None => None,
            },
            shards: self.shards@,
            readable_shards: self.readable_shards@,
            pending_markers: pending_views(self.pending_markers@),
            seq: self.seq,
            current_img_file: match self.current_img_file {
                Some(name) => Some(name@),
                None => None,
            },
            image_eof: self.image_eof,
            stats: self.stats@,
            performing: match self.performing {
                Some(p) => Some(p@),
                None => None,
            },
        }
    }
}

impl ImageDeserializer {
    /// A deserializer for `num_shards` shards, the first of which carries the small files.
    pub fn new(num_shards: usize) -> (d: ImageDeserializer)
        requires
            num_shards >= 2,
        ensures
            d@ == DeserializerView::initial(num_shards as int),
            d@.wf(),
    {
        let mut shards: Vec<usize> = Vec::new();
        let mut stats: Vec<Shard> = Vec::new();
        stats.push(Shard::new());
        let mut i: usize = 1;
        while i < num_shards
            invariant
                1 <= i <= num_shards,
                shards@ == Seq::new((i - 1) as nat, |k: int| (k + 1) as usize),
                stats@ == Seq::new(
                    i as nat,
                    |k: int| Shard { bytes_read: 0, transfer_duration_millis: 0 },
                ),
            decreases num_shards - i,
        {
            shards.push(i);
            stats.push(Shard::new());
            i = i + 1;
        }
        let d = ImageDeserializer {
            small_file_seq: 0,
            metadata: None,
            shards,
            readable_shards: Vec::new(),
            pending_markers: Vec::new(),
            seq: 0,
            current_img_file: None,
            image_eof: false,
            stats,
            performing: None,
        };
        proof {
            assert(d@ =~= DeserializerView::initial(num_shards as int));
            assert(d@.held() =~= d@.shards);
        }
        d
    }

    /// Whether an image file is being received.
    pub fn file_is_open(&self) -> (open: bool)
        ensures
            open == (self@.current_img_file is Some),
    {
        self.current_img_file.is_some()
    }

    /// The shards that are waiting to become readable.
    pub fn waiting_shards(&self) -> (shards: &Vec<usize>)
        ensures
            shards@ == self@.shards,
    {
        &self.shards
    }

    /// What has been transferred over each shard.
    pub fn stats(&self) -> (stats: &Vec<Shard>)
        ensures
            stats@ == self@.stats,
    {
        &self.stats
    }

    /// Counts `n` more bytes for a shard.
    fn count(&mut self, shard: usize, n: u64)
        requires
            shard < old(self)@.stats.len(),
            old(self)@.has_room(shard, n as int),
        ensures
            final(self)@ == old(self)@.counted(shard, n as int),
    {
        let bytes_read: u64 = self.stats[shard].bytes_read + n;
        let transfer_duration_millis: u128 = self.stats[shard].transfer_duration_millis;
        self.stats.set(shard, Shard { bytes_read, transfer_duration_millis });
        assert(self@ =~= old(self)@.counted(shard, n as int));
    }

    /// Notes that the image is complete.
    pub fn mark_image_eof(&mut self) -> (r: Result<(), ExtractError>)
        ensures
            if old(self)@.current_img_file is None && old(self)@.pending_markers.len() == 0 {
                &&& r == Ok::<(), ExtractError>(())
                &&& final(self)@ == DeserializerView { image_eof: true, ..old(self)@ }
            } else {
                &&& r == Err::<(), ExtractError>(ExtractError::UnexpectedImageEof)
                &&& final(self)@ == old(self)@
            },
    {
        if self.current_img_file.is_some() || self.pending_markers.len() > 0 {
            return Err(ExtractError::UnexpectedImageEof);
        }
        self.image_eof = true;
        self.current_img_file = None;
        Ok(())
    }

    /// Processes a marker that came over `shard`: says what is to be done for it.
    ///
    /// The marker must not begin a file while another one is open.
    pub fn process_marker(&mut self, marker: Marker, shard: usize) -> (r: Result<
        Action,
        ExtractError,
    >)
        requires
            old(self)@.performing is None,
            shard < old(self)@.stats.len(),
            old(self)@.accepts(marker@, shard),
        ensures
            final(self)@ == old(self)@.processed(marker@, shard).0,
            match old(self)@.processed(marker@, shard).1 {
                Ok(action) => r matches Ok(a) && a@ == action,
                Err(e) => r matches Err(x) && x == e,
            },
    {
        match marker.body {
            Some(Body::Filename(filename)) => {
                self.performing = Some(
                    Performing { opened: Some(filename.clone()), size: 0, shard },
                );
                assert(self@ =~= old(self)@.processed(marker@, shard).0);
                Ok(Action::CreateFile(filename))
            },
            Some(Body::FileData(size)) => {
                if self.current_img_file.is_none() {
                    return Err(ExtractError::UnexpectedFileData);
                }
                self.performing = Some(Performing { opened: None, size, shard });
                assert(self@ =~= old(self)@.processed(marker@, shard).0);
                Ok(Action::CopyData { shard, size })
            },
            Some(Body::FileEof(true)) => {
                match self.current_img_file.take() {
                    Some(filename) => {
                        self.performing = Some(Performing { opened: None, size: 0, shard });
                        assert(self@ =~= old(self)@.processed(marker@, shard).0);
                        Ok(Action::InsertFile(filename))
                    },
                    None => {
                        assert(self@ =~= old(self)@);
                        Err(ExtractError::UnexpectedFileEof)
                    },
                }
            },
            Some(Body::ImageEof(true)) => {
                match self.mark_image_eof() {
                    Ok(()) => {
                        self.performing = Some(Performing { opened: None, size: 0, shard });
                        assert(self@ =~= old(self)@.processed(marker@, shard).0);
                        Ok(Action::ImageComplete)
                    },
                    Err(e) => Err(e),
                }
            },
            _ => Err(ExtractError::MalformedMarker),
        }
    }

    /// Notes what the action that was handed out has brought: the file that is now being received,
    /// and the bytes that have been read.
    fn apply(&mut self)
        requires
            old(self)@.performing matches Some(p) ==> p.shard < old(self)@.stats.len() && old(
                self,
            )@.has_room(p.shard, p.size as int),
        ensures
            final(self)@ == old(self)@.applied(),
    {
        match self.performing.take() {
            Some(p) => {
                assert(p@ == old(self)@.performing->0);
                if p.opened.is_some() {
                    self.current_img_file = p.opened;
                }
                self.count(p.shard, p.size as u64);
                assert(self@ =~= old(self)@.applied());
            },
            None => {
                assert(self@ =~= old(self)@);
            },
        }
    }

    /// Takes in that the action that was handed out has been performed. The marker that asked for
    /// it is then done with: it is the turn of the next one, and its shard waits again.
    ///
    /// Where the action fails instead, nothing more happens to the deserializer: the marker and its
    /// shard are gone, and what the action would have brought is not noted.
    pub fn action_done(&mut self)
        requires
            old(self)@.wf(),
            old(self)@.performing is Some,
        ensures
            final(self)@.wf(),
            final(self)@ == old(self)@.performed(),
    {
        proof {
            lemma_performed_tidy(self@);
        }
        let shard: usize = match &self.performing {
            Some(p) => p.shard,
            None => 0,
        };
        assert(shard == self@.performing->0.shard);
        self.apply();
        if shard == 0 {
            self.small_file_seq = self.small_file_seq + 1;
        } else {
            self.seq = self.seq + 1;
            self.shards.push(shard);
        }
        assert(self@ =~= old(self)@.performed());
    }

    /// Takes out the waiting marker whose turn it is, if it has come.
    ///
    /// A marker with a lower number than that whose turn it is holds up all others.
    pub fn get_next_in_order_marker(&mut self) -> (r: Option<PendingMarker>)
        ensures
            match r {
                Some(p) => {
                    &&& old(self)@.in_order()
                    &&& p@ == old(self)@.pending_markers[0]
                    &&& final(self)@ == old(self)@.popped()
                },
                None => !old(self)@.in_order() && final(self)@ == old(self)@,
            },
    {
        if self.pending_markers.len() > 0 {
            assert(self@.pending_markers[0] == self.pending_markers@[0]@);
            if self.pending_markers[0].marker.seq == self.seq {
                let p = self.pending_markers.remove(0);
                assert(self@ =~= old(self)@.popped());
                return Some(p);
            }
        }
        None
    }

    /// Processes the marker whose turn it is, if it has come: says what is to be done for it.
    pub fn process_pending_markers(&mut self) -> (r: Result<Option<Action>, ExtractError>)
        requires
            old(self)@.wf(),
            old(self)@.can_step(),
        ensures
            final(self)@.wf(),
            if old(self)@.in_order() {
                &&& final(self)@ == old(self)@.begun()
                &&& match old(self)@.drain_step().1 {
                    Ok(step) => {
                        &&& r matches Ok(Some(action)) && step == DrainStepView::Perform(action@)
                        &&& final(self)@.performed() == old(self)@.drain_step().0
                        &&& final(self)@.performing is Some
                    },
                    Err(e) => r matches Err(x) && x == e,
                }
            } else {
                r matches Ok(None) && final(self)@ == old(self)@
            },
    {
        proof {
            lemma_begun_tidy(self@);
        }
        match self.get_next_in_order_marker() {
            Some(PendingMarker { marker, shard }) => {
                let action = self.process_marker(marker, shard)?;
                Ok(Some(action))
            },
            None => Ok(None),
        }
    }

    /// Notes how long a shard was in use when it ended.
    pub fn mark_shard_eof(&mut self, shard: usize, elapsed_millis: u128)
        requires
            shard < old(self)@.stats.len(),
        ensures
            final(self)@ == old(self)@.ended(shard, elapsed_millis),
    {
        let bytes_read: u64 = self.stats[shard].bytes_read;
        self.stats.set(shard, Shard { bytes_read, transfer_duration_millis: elapsed_millis });
    }

    /// Takes in what was read from a shard that the caller had been told to read.
    ///
    /// A shard that brought a marker stays with that marker until its turn has come; a shard
    /// that has ended is not seen again.
    pub fn drain_shard(&mut self, shard: usize, event: ShardEvent) -> (r: Result<
        (),
        ExtractError,
    >)
        requires
            old(self)@.wf(),
            old(self)@.performing is None,
            0 < shard < old(self)@.stats.len(),
            !old(self)@.held().contains(shard),
            event matches ShardEvent::Marker { size, .. } ==> old(self)@.image_eof || old(
                self,
            )@.has_room(shard, size as int),
        ensures
            final(self)@.wf(),
            match event {
                ShardEvent::Eof { elapsed_millis } => {
                    &&& r == Ok::<(), ExtractError>(())
                    &&& final(self)@ == old(self)@.ended(shard, elapsed_millis)
                },
                ShardEvent::Marker { marker, size } => if old(self)@.image_eof {
                    &&& r == Err::<(), ExtractError>(ExtractError::DataAfterImageEof)
                    &&& final(self)@ == old(self)@
                } else {
                    &&& r == Ok::<(), ExtractError>(())
                    &&& final(self)@ == old(self)@.received(shard, marker@, size as int)
                },
            },
    {
        match event {
            ShardEvent::Eof { elapsed_millis } => {
                self.mark_shard_eof(shard, elapsed_millis);
                assert(self@.held() =~= old(self)@.held());
            },
            ShardEvent::Marker { marker, size } => {
                if self.image_eof {
                    return Err(ExtractError::DataAfterImageEof);
                }
                self.count(shard, size as u64);
                let ghost marker_view = marker@;
                push_pending(&mut self.pending_markers, PendingMarker { marker, shard });
                proof {
                    assert(self@ =~= old(self)@.received(shard, marker_view, size as int));
                    lemma_received_tidy(old(self)@, shard, marker_view, size as int);
                }
            },
        }
        Ok(())
    }

    /// Says where the next marker is to be read from.
    ///
    /// With a single shard left there is no need to wait until it is readable. Otherwise only a
    /// shard that is known to have data is handed out, so that a shard without data never keeps
    /// the others from being read.
    pub fn get_next_readable_shard(&mut self) -> (next: NextShard)
        requires
            old(self)@.wf(),
            old(self)@.performing is None,
        ensures
            final(self)@.wf(),
            (final(self)@, next) == old(self)@.next_shard(),
            next matches NextShard::Shard(shard) ==> 0 < shard < final(self)@.stats.len()
                && !final(self)@.held().contains(shard),
    {
        proof {
            lemma_next_shard_tidy(self@);
        }
        if self.readable_shards.len() == 0 {
            if self.shards.len() <= 1 {
                return match self.shards.pop() {
                    Some(shard) => {
                        assert(self@ =~= old(self)@.next_shard().0);
                        NextShard::Shard(shard)
                    },
                    None => NextShard::Exhausted,
                };
            }
            return NextShard::Poll;
        }
        match self.readable_shards.pop() {
            Some(shard) => NextShard::Shard(shard),
            None => NextShard::Exhausted,
        }
    }

    /// Takes in which of the waiting shards are readable, in the order of
    /// [`waiting_shards`](Self::waiting_shards). At least one must be.
    pub fn mark_readable(&mut self, ready: &Vec<bool>)
        requires
            old(self)@.wf(),
            old(self)@.performing is None,
            ready@.len() == old(self)@.shards.len(),
            ready@.contains(true),
        ensures
            final(self)@.wf(),
            final(self)@ == old(self)@.polled(ready@),
            final(self)@.readable_shards.len() > 0,
    {
        let mut waiting: Vec<usize> = Vec::new();
        let mut i: usize = 0;
        while i < self.shards.len()
            invariant
                i <= self.shards@.len(),
                ready@.len() == self.shards@.len(),
                self@ == (DeserializerView {
                    readable_shards: old(self)@.readable_shards + pick(
                        old(self)@.shards.take(i as int),
                        ready@,
                        true,
                    ),
                    ..old(self)@
                }),
                waiting@ == pick(old(self)@.shards.take(i as int), ready@, false),
            decreases self.shards@.len() - i,
        {
            let shard: usize = self.shards[i];
            proof {
                assert(old(self)@.shards.take(i + 1).drop_last() =~= old(self)@.shards.take(
                    i as int,
                ));
            }
            if ready[i] {
                self.readable_shards.push(shard);
            } else {
                waiting.push(shard);
            }
            assert(self@ =~= DeserializerView {
                readable_shards: old(self)@.readable_shards + pick(
                    old(self)@.shards.take(i + 1),
                    ready@,
                    true,
                ),
                ..old(self)@
            });
            i = i + 1;
        }
        self.shards = waiting;
        proof {
            assert(old(self)@.shards.take(i as int) =~= old(self)@.shards);
            assert(self@ =~= old(self)@.polled(ready@));
            lemma_polled_tidy(old(self)@, ready@);
            let k = choose|k: int| 0 <= k < ready@.len() && ready@[k];
            lemma_pick_some(old(self)@.shards, ready@, k);
        }
    }

    /// Whether the main loop can take its next step: no action is being performed, the marker whose
    /// turn it is, if it has come, does not begin a file while another one is open, and no counter
    /// is at its end.
    pub fn can_step(&self) -> (b: bool)
        requires
            self@.wf(),
        ensures
            b == self@.can_step(),
    {
        if self.performing.is_some() {
            return false;
        }
        if self.pending_markers.len() == 0 {
            return true;
        }
        assert(self@.pending_markers[0] == self.pending_markers@[0]@);
        if self.pending_markers[0].marker.seq != self.seq {
            return true;
        }
        if self.seq == u64::MAX {
            return false;
        }
        proof {
            lemma_first_pending_in_range(self@);
        }
        let bytes_read: u64 = self.stats[self.pending_markers[0].shard].bytes_read;
        match &self.pending_markers[0].marker.body {
            Some(Body::Filename(_)) => self.current_img_file.is_none(),
            Some(Body::FileData(size)) => self.current_img_file.is_none() || bytes_read <= u64::MAX
                - (*size as u64),
            _ => true,
        }
    }

    /// Takes the next step of the main loop.
    ///
    /// As long as the marker whose turn it is has come, that marker is processed, and
    /// [`action_done`](Self::action_done) takes in that what it asks for has been done; otherwise
    /// another marker has to be read. The loop is over when no shard is left, and succeeds if the
    /// end of the image has come by then.
    pub fn drain_all(&mut self) -> (r: Result<DrainStep, ExtractError>)
        requires
            old(self)@.wf(),
            old(self)@.can_step(),
        ensures
            final(self)@.wf(),
            final(self)@ == old(self)@.begun(),
            match old(self)@.drain_step().1 {
                Ok(step) => r matches Ok(s) && s@ == step,
                Err(e) => r matches Err(x) && x == e,
            },
            r matches Ok(DrainStep::Perform(_)) ==> final(self)@.performing is Some,
            r is Ok ==> final(self)@.performed() == old(self)@.drain_step().0,
            r matches Ok(DrainStep::Read(shard)) ==> 0 < shard < final(self)@.stats.len()
                && !final(self)@.held().contains(shard),
    {
        proof {
            lemma_begun_tidy(self@);
        }
        match self.process_pending_markers()? {
            Some(action) => Ok(DrainStep::Perform(action)),
            None => {
                match self.get_next_readable_shard() {
                    NextShard::Shard(shard) => Ok(DrainStep::Read(shard)),
                    NextShard::Poll => Ok(DrainStep::Poll),
                    NextShard::Exhausted => {
                        if self.image_eof {
                            Ok(DrainStep::Complete)
                        } else {
                            Err(ExtractError::NoShards)
                        }
                    },
                }
            },
        }
    }

    /// Processes a marker of the shard of small files: says what is to be done for it.
    ///
    /// Its sequence number must be the next one, and it must not begin a file while another one
    /// is open.
    pub fn process_small_file_marker(&mut self, marker: Marker) -> (r: Result<
        Action,
        ExtractError,
    >)
        requires
            old(self)@.performing is None,
            0 < old(self)@.stats.len(),
            marker.seq == old(self)@.small_file_seq,
            old(self)@.accepts(marker@, 0),
        ensures
            final(self)@ == old(self)@.small_processed(marker@).0,
            match old(self)@.small_processed(marker@).1 {
                Ok(action) => r matches Ok(a) && a@ == action,
                Err(e) => r matches Err(x) && x == e,
            },
    {
        let metadata_file = "metadata.json".to_owned();
        match marker.body {
            Some(Body::Filename(filename)) => {
                self.performing = Some(
                    Performing { opened: Some(filename.clone()), size: 0, shard: 0 },
                );
                assert(self@ =~= old(self)@.small_processed(marker@).0);
                Ok(Action::CreateFile(filename))
            },
            Some(Body::FileData(size)) => {
                let is_metadata = match &self.current_img_file {
                    Some(filename) => *filename == metadata_file,
                    None => {
                        return Err(ExtractError::UnexpectedFileData);
                    },
                };
                self.performing = Some(Performing { opened: None, size, shard: 0 });
                assert(self@ =~= old(self)@.small_processed(marker@).0);
                if is_metadata {
                    Ok(Action::ReadMetadata { size })
                } else {
                    Ok(Action::CopyData { shard: 0, size })
                }
            },
            Some(Body::FileEof(true)) => {
                match self.current_img_file.take() {
                    Some(filename) => {
                        self.performing = Some(Performing { opened: None, size: 0, shard: 0 });
                        assert(self@ =~= old(self)@.small_processed(marker@).0);
                        if filename == metadata_file {
                            Ok(Action::DropFile(filename))
                        } else {
                            Ok(Action::InsertFile(filename))
                        }
                    },
                    None => {
                        assert(self@ =~= old(self)@);
                        Err(ExtractError::UnexpectedFileEof)
                    },
                }
            },
            _ => Err(ExtractError::MalformedMarker),
        }
    }

    /// Takes in what was read from the shard of small files, and says what is to be done;
    /// [`action_done`](Self::action_done) takes in that it has been.
    ///
    /// A marker has to be one that [`accepts_small_file_marker`](Self::accepts_small_file_marker)
    /// lets pass, and the list of files must have come before the shard ends.
    pub fn drain_small_file_shard(&mut self, next: Option<(Marker, usize)>) -> (r: Result<
        SmallFileStep,
        ExtractError,
    >)
        requires
            old(self)@.wf(),
            old(self)@.performing is None,
            match next {
                Some((marker, size)) => old(self)@.accepts_small(marker@, size as int),
                None => old(self)@.metadata is Some,
            },
        ensures
            final(self)@.wf(),
            match next {
                Some((marker, size)) => {
                    let (after, result) = old(self)@.small_step(marker@, size as int);
                    &&& final(self)@ == old(self)@.small_begun(marker@, size as int)
                    &&& match result {
                        Ok(action) => {
                            &&& r matches Ok(SmallFileStep::Perform(a)) && a@ == action
                            &&& final(self)@.performing is Some
                            &&& final(self)@.performed() == after
                        },
                        Err(e) => r matches Err(x) && x == e,
                    }
                },
                None => {
                    &&& final(self)@ == DeserializerView { metadata: None, ..old(self)@ }
                    &&& r matches Ok(SmallFileStep::Complete(metadata)) && Some(metadata@)
                        == old(self)@.metadata
                },
            },
    {
        match next {
            Some((marker, size)) => {
                self.count(0, size as u64);
                let result = self.process_small_file_marker(marker);
                proof {
                    assert(self@.held() =~= old(self)@.held());
                    if self@.held().contains(0) {
                        let i = choose|i: int| 0 <= i < self@.held().len() && self@.held()[i] == 0;
                        assert(0 < old(self)@.held()[i]);
                    }
                }
                match result {
                    Ok(action) => Ok(SmallFileStep::Perform(action)),
                    Err(e) => Err(e),
                }
            },
            None => {
                let metadata = self.metadata.take();
                assert(self@.held() =~= old(self)@.held());
                match metadata {
                    Some(metadata) => Ok(SmallFileStep::Complete(metadata)),
                    None => vstd::pervasive::unreached(),
                }
            },
        }
    }

    /// Whether a marker of the shard of small files, which took up `size` bytes, can be taken
    /// in: no action is being performed, it has the next sequence number, it does not begin a file
    /// while another one is open, and no counter is at its end.
    pub fn accepts_small_file_marker(&self, marker: &Marker, size: usize) -> (b: bool)
        requires
            self@.wf(),
        ensures
            b == self@.accepts_small(marker@, size as int),
    {
        if self.performing.is_some() {
            return false;
        }
        if marker.seq != self.small_file_seq || self.small_file_seq == u64::MAX {
            return false;
        }
        if self.stats[0].bytes_read > u64::MAX - size as u64 {
            return false;
        }
        let bytes_read: u64 = self.stats[0].bytes_read + size as u64;
        match &marker.body {
            Some(Body::Filename(_)) => self.current_img_file.is_none(),
            Some(Body::FileData(data)) => self.current_img_file.is_none() || bytes_read <= u64::MAX
                - (*data as u64),
            _ => true,
        }
    }

    /// Whether the list of files has come.
    pub fn has_metadata(&self) -> (b: bool)
        ensures
            b == (self@.metadata is Some),
    {
        self.metadata.is_some()
    }

    /// Takes in the list of files, or what the parser says of a text that is none.
    pub fn set_metadata(&mut self, parsed: Result<Metadata, String>) -> (r: Result<(), String>)
        ensures
            match parsed {
                Ok(metadata) => {
                    &&& r is Ok
                    &&& final(self)@ == DeserializerView {
                        metadata: Some(metadata@),
                        ..old(self)@
                    }
                },
                Err(message) => {
                    &&& r matches Err(m) && m@ == message@
                    &&& final(self)@ == old(self)@
                },
            },
    {
        match parsed {
            Ok(metadata) => {
                self.metadata = Some(metadata);
                Ok(())
            },
            Err(message) => Err(message),
        }
    }

    /// Takes in the text of the list of files, or says in words why that is none.
    pub fn read_metadata(&mut self, text: &[u8]) -> (r: Result<(), String>)
        ensures
            match json_sizes(text@) {
                Ok(sizes) => {
                    &&& r is Ok
                    &&& final(self)@ == DeserializerView { metadata: Some(sizes), ..old(self)@ }
                },
                Err(message) => {
                    &&& r matches Err(m) && m@ == message
                    &&& final(self)@ == old(self)@
                },
            },
    {
        self.set_metadata(Metadata::parse(text))
    }
}

/// Handing out a shard takes exactly that shard out of the collections.
proof fn lemma_next_shard_held(v: DeserializerView)
    ensures
        v.next_shard().1 matches NextShard::Shard(next) ==> v.held().to_multiset()
            == v.next_shard().0.held().to_multiset().insert(next),
{
    if let NextShard::Shard(next) = v.next_shard().1 {
        let after = v.next_shard().0;
        let k: int = if v.readable_shards.len() > 0 {
            v.shards.len() + v.readable_shards.len() - 1
        } else {
            0
        };
        assert(v.held() =~= after.held().insert(k, next));
        vstd::seq_lib::to_multiset_insert(after.held(), k, next);
    }
}

/// A shard whose marker comes in is added to the collections.
proof fn lemma_received_held(v: DeserializerView, shard: usize, marker: MarkerView, size: int)
    requires
        sorted_by_seq(v.pending_markers),
    ensures
        v.received(shard, marker, size).held().to_multiset() == v.held().to_multiset().insert(shard),
{
    let p = PendingView { marker, shard };
    lemma_insert_pending(v.pending_markers, p);
    let at = choose|at: int|
        0 <= at <= v.pending_markers.len() && insert_pending(v.pending_markers, p)
            == v.pending_markers.insert(at, p);
    let k = (v.shards + v.readable_shards).len() + at;
    assert(v.received(shard, marker, size).held() =~= v.held().insert(k, shard));
    vstd::seq_lib::to_multiset_insert(v.held(), k, shard);
}

/// Processing a marker moves its shard within the collections.
proof fn lemma_performed_held(v: DeserializerView)
    requires
        v.tidy(),
    ensures
        v.drain_step().1 matches Ok(DrainStepView::Perform(_))
            ==> v.drain_step().0.held().to_multiset() == v.held().to_multiset(),
{
    if v.in_order() && v.drain_step().1 is Ok {
        let after = v.drain_step().0;
        let first = v.pending_markers[0].shard;
        lemma_popped_tidy(v);
        let k = (v.shards + v.readable_shards).len() as int;
        let rest = v.popped().held();
        assert(v.held() =~= rest.insert(k, first));
        vstd::seq_lib::to_multiset_insert(rest, k, first);
        let n = v.shards.len() as int;
        assert(after.held() =~= rest.insert(n, first));
        vstd::seq_lib::to_multiset_insert(rest, n, first);
    }
}

/// No shard is lost, and none is in two places: looking for a shard to read takes exactly that shard
/// out of the collections, polling and processing markers only move shards about, and a shard whose
/// marker has been read is back in the collections.
pub proof fn law_no_shard_is_lost(
    v: DeserializerView,
    ready: Seq<bool>,
    shard: usize,
    marker: MarkerView,
    size: int,
)
    requires
        v.wf(),
        ready.len() == v.shards.len(),
    ensures
        v.next_shard().1 matches NextShard::Shard(next) ==> v.held().to_multiset()
            == v.next_shard().0.held().to_multiset().insert(next),
        !(v.next_shard().1 is Shard) ==> v.next_shard().0 == v,
        v.polled(ready).held().to_multiset() == v.held().to_multiset(),
        v.received(shard, marker, size).held().to_multiset() == v.held().to_multiset().insert(shard),
        v.drain_step().1 matches Ok(DrainStepView::Perform(_))
            ==> v.drain_step().0.held().to_multiset() == v.held().to_multiset(),
{
    lemma_next_shard_held(v);
    lemma_polled_held(v, ready);
    lemma_received_held(v, shard, marker, size);
    lemma_performed_held(v);
}

/// A shard is handed out only if polling has shown that it is readable, or if it is the only one
/// that could be: a shard without data never keeps the others from being read.
pub proof fn law_reading_does_not_block(v: DeserializerView, ready: Seq<bool>, shard: usize)
    requires
        ready.len() == v.shards.len(),
    ensures
        v.next_shard().1 == NextShard::Shard(shard) ==> v.readable_shards.contains(shard) || (
        v.readable_shards.len() == 0 && v.shards == seq![shard]),
        v.polled(ready).readable_shards.contains(shard) && !v.readable_shards.contains(shard)
            ==> exists|i: int|
            0 <= i < v.shards.len() && ready[i] && #[trigger] v.shards[i] == shard,
{
    if v.next_shard().1 == NextShard::Shard(shard) && v.readable_shards.len() == 0 {
        assert(v.shards =~= seq![shard]);
    }
    if v.polled(ready).readable_shards.contains(shard) && !v.readable_shards.contains(shard) {
        let picked = pick(v.shards, ready, true);
        let n = v.readable_shards.len() as int;
        let k = choose|k: int|
            0 <= k < v.polled(ready).readable_shards.len() && v.polled(ready).readable_shards[k]
                == shard;
        if k < n {
            assert(v.readable_shards[k] == shard);
        }
        assert(picked[k - n] == shard);
        assert(picked.contains(shard));
        lemma_picked_was_ready(v.shards, ready, shard);
    }
}

/// Whoever is picked was ready.
proof fn lemma_picked_was_ready(s: Seq<usize>, flags: Seq<bool>, x: usize)
    requires
        s.len() <= flags.len(),
        pick(s, flags, true).contains(x),
    ensures
        exists|i: int| 0 <= i < s.len() && flags[i] && #[trigger] s[i] == x,
    decreases s.len(),
{
    let rest = pick(s.drop_last(), flags, true);
    if rest.contains(x) {
        lemma_picked_was_ready(s.drop_last(), flags, x);
        let i = choose|i: int|
            0 <= i < s.drop_last().len() && flags[i] && #[trigger] s.drop_last()[i] == x;
        assert(s[i] == x);
    } else {
        let picked = pick(s, flags, true);
        let k = choose|k: int| 0 <= k < picked.len() && picked[k] == x;
        if k < rest.len() {
            assert(rest[k] == x);
        }
        assert(s[s.len() - 1] == x);
    }
}

} // verus!
