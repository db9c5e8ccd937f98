//! What the reassembly of an image promises as a whole.

use crate::deserializer::{
    marker_effect, metadata_name, payload, small_file_effect, ActionView, DeserializerView,
    DrainStepView, ExtractError, NextShard, Shard,
};
use crate::marker::{BodyView, MarkerView};
use crate::metadata::json_sizes;
use vstd::prelude::*;

verus! {

/// A marker body with the payload that follows it.
pub struct Record {
    pub body: BodyView,
    pub data: Seq<u8>,
}

/// An image file before it is serialized: its name, and its contents cut into chunks.
pub struct SourceFile {
    pub name: Seq<char>,
    pub chunks: Seq<Seq<u8>>,
}

/// A call of the image store.
pub enum StoreCall {
    /// A file of this name is created.
    Create(Seq<char>),
    /// These bytes are written to the file that was created last.
    Write(Seq<u8>),
    /// That file is put into the store under this name.
    Insert(Seq<char>),
}

/// What the image store has received: the contents of the open file, the finished files in the order
/// in which they were put into it, and all calls in their order.
#[verifier::ext_equal]
pub struct Output {
    pub open: Seq<u8>,
    pub files: Seq<(Seq<char>, Seq<u8>)>,
    pub calls: Seq<StoreCall>,
}

/// What the image store has received before anything has come.
pub open spec fn no_output() -> Output {
    Output { open: Seq::empty(), files: Seq::empty(), calls: Seq::empty() }
}

/// All bytes of a list of chunks.
pub open spec fn joined(chunks: Seq<Seq<u8>>) -> Seq<u8>
    decreases chunks.len(),
{
    if chunks.len() == 0 {
        Seq::empty()
    } else {
        joined(chunks.drop_last()) + chunks.last()
    }
}

/// The records that carry one file.
pub open spec fn file_records(file: SourceFile) -> Seq<Record> {
    seq![Record { body: BodyView::Filename(file.name), data: Seq::empty() }] + Seq::new(
        file.chunks.len(),
        |i: int|
            Record {
                body: BodyView::FileData(file.chunks[i].len() as u32),
                data: file.chunks[i],
            },
    ) + seq![Record { body: BodyView::FileEof(true), data: Seq::empty() }]
}

/// The records that carry a list of files.
pub open spec fn files_records(files: Seq<SourceFile>) -> Seq<Record>
    decreases files.len(),
{
    if files.len() == 0 {
        Seq::empty()
    } else {
        files_records(files.drop_last()) + file_records(files.last())
    }
}

/// The records that carry a whole image.
pub open spec fn image_records(files: Seq<SourceFile>) -> Seq<Record> {
    files_records(files).push(Record { body: BodyView::ImageEof(true), data: Seq::empty() })
}

/// Whether every chunk is small enough for one marker to announce.
pub open spec fn announceable(files: Seq<SourceFile>) -> bool {
    forall|i: int, j: int|
        0 <= i < files.len() && 0 <= j < files[i].chunks.len() ==> (
        #[trigger] files[i].chunks[j]).len() <= u32::MAX
}

/// The contents of a list of files.
pub open spec fn contents(files: Seq<SourceFile>) -> Seq<(Seq<char>, Seq<u8>)> {
    Seq::new(files.len(), |i: int| (files[i].name, joined(files[i].chunks)))
}

/// The calls that put one file into the image store.
pub open spec fn file_calls(file: SourceFile) -> Seq<StoreCall> {
    seq![StoreCall::Create(file.name)] + Seq::new(
        file.chunks.len(),
        |i: int| StoreCall::Write(file.chunks[i]),
    ) + seq![StoreCall::Insert(file.name)]
}

/// The calls that put a list of files into the image store.
pub open spec fn files_calls(files: Seq<SourceFile>) -> Seq<StoreCall>
    decreases files.len(),
{
    if files.len() == 0 {
        Seq::empty()
    } else {
        files_calls(files.drop_last()) + file_calls(files.last())
    }
}

/// The marker at place `i` of an image.
pub open spec fn numbered(records: Seq<Record>, i: int) -> MarkerView {
    MarkerView { seq: i as u64, body: Some(records[i].body) }
}

/// What an action does to the image store, with the payload `data`.
pub open spec fn perform(out: Output, action: ActionView, data: Seq<u8>) -> Output {
    match action {
        ActionView::CreateFile(name) => Output {
            open: Seq::empty(),
            calls: out.calls.push(StoreCall::Create(name)),
            ..out
        },
        ActionView::CopyData { size, .. } => Output {
            open: out.open + data.take(size as int),
            calls: out.calls.push(StoreCall::Write(data.take(size as int))),
            ..out
        },
        ActionView::InsertFile(name) => Output {
            open: Seq::empty(),
            files: out.files.push((name, out.open)),
            calls: out.calls.push(StoreCall::Insert(name)),
        },
        _ => out,
    }
}

/// What processing records one after the other leads to: the open file, the output, and whether
/// the image is complete.
pub open spec fn replayed(records: Seq<Record>) -> Option<(Option<Seq<char>>, Output, bool)>
    decreases records.len(),
{
    if records.len() == 0 {
        Some((None, no_output(), false))
    } else {
        match replayed(records.drop_last()) {
            Some((current, out, eof)) => if eof || (current is Some
                && records.last().body is Filename) {
                None
            } else {
                match marker_effect(current, false, 0, Some(records.last().body)) {
                    Ok((next, action)) => Some(
                        (next, perform(out, action, records.last().data), action is ImageComplete),
                    ),
                    Err(_) => None,
                }
            },
            None => None,
        }
    }
}

/// One more record.
pub proof fn lemma_replayed_push(records: Seq<Record>, r: Record)
    ensures
        records.push(r).drop_last() == records,
        records.push(r).last() == r,
{
    assert(records.push(r).drop_last() =~= records);
}

/// The records of one file, up to and with its first `n` chunks.
proof fn lemma_replayed_chunks(before: Seq<Record>, out: Output, file: SourceFile, n: int)
    requires
        replayed(before) == Some((None::<Seq<char>>, out, false)),
        announceable(seq![file]),
        0 <= n <= file.chunks.len(),
    ensures
        replayed(before + file_records(file).take(n + 1)) == Some(
            (
                Some(file.name),
                Output {
                    open: joined(file.chunks.take(n)),
                    files: out.files,
                    calls: out.calls + file_calls(file).take(n + 1),
                },
                false,
            ),
        ),
    decreases n,
{
    let records = file_records(file);
    let so_far = before + records.take(n + 1);
    if n == 0 {
        assert(so_far =~= before.push(records[0]));
        assert(out.calls + file_calls(file).take(1) =~= out.calls.push(StoreCall::Create(file.name)));
        lemma_replayed_push(before, records[0]);
        assert(joined(file.chunks.take(0)) =~= Seq::empty());
    } else {
        lemma_replayed_chunks(before, out, file, n - 1);
        assert(so_far =~= (before + records.take(n)).push(records[n]));
        assert(file_calls(file)[n] == StoreCall::Write(file.chunks[n - 1]));
        assert(out.calls + file_calls(file).take(n + 1) =~= (out.calls + file_calls(file).take(
            n,
        )).push(StoreCall::Write(file.chunks[n - 1])));
        lemma_replayed_push(before + records.take(n), records[n]);
        assert(records[n] == Record {
            body: BodyView::FileData(file.chunks[n - 1].len() as u32),
            data: file.chunks[n - 1],
        });
        assert(seq![file][0].chunks[n - 1].len() <= u32::MAX);
        assert(records[n].data.take(records[n].data.len() as int) =~= records[n].data);
        assert(file.chunks.take(n).drop_last() =~= file.chunks.take(n - 1));
        assert(file.chunks.take(n).last() == file.chunks[n - 1]);
    }
}

/// Processing the records of a list of files one after the other puts exactly those files into
/// the image store.
pub proof fn lemma_replayed_files(files: Seq<SourceFile>)
    requires
        announceable(files),
    ensures
        replayed(files_records(files)) == Some(
            (
                None::<Seq<char>>,
                Output {
                    open: Seq::empty(),
                    files: contents(files),
                    calls: files_calls(files),
                },
                false,
            ),
        ),
    decreases files.len(),
{
    if files.len() == 0 {
        assert(contents(files) =~= Seq::empty());
    } else {
        lemma_announceable(files);
        lemma_replayed_files(files.drop_last());
        let before = files_records(files.drop_last());
        let out = Output {
            open: Seq::empty(),
            files: contents(files.drop_last()),
            calls: files_calls(files.drop_last()),
        };
        let file = files.last();
        let n = file.chunks.len() as int;
        lemma_replayed_chunks(before, out, file, n);
        let records = file_records(file);
        assert(before + records =~= (before + records.take(n + 1)).push(records[n + 1]));
        lemma_replayed_push(before + records.take(n + 1), records[n + 1]);
        assert(records[n + 1] == Record { body: BodyView::FileEof(true), data: Seq::empty() });
        assert(file.chunks.take(n) =~= file.chunks);
        assert(contents(files.drop_last()).push((file.name, joined(file.chunks)))
            =~= contents(files));
        assert(file_calls(file)[n + 1] == StoreCall::Insert(file.name));
        assert((out.calls + file_calls(file).take(n + 1)).push(StoreCall::Insert(file.name))
            =~= files_calls(files));
    }
}

/// What holds of a list of files holds of its parts.
proof fn lemma_announceable(files: Seq<SourceFile>)
    requires
        announceable(files),
        files.len() > 0,
    ensures
        announceable(files.drop_last()),
        announceable(seq![files.last()]),
{
    let rest = files.drop_last();
    assert forall|i: int, j: int| 0 <= i < rest.len() && 0 <= j < rest[i].chunks.len() implies (
    #[trigger] rest[i].chunks[j]).len() <= u32::MAX by {
        assert(files[i].chunks[j].len() <= u32::MAX);
    }
    let last = seq![files.last()];
    assert forall|i: int, j: int| 0 <= i < last.len() && 0 <= j < last[i].chunks.len() implies (
    #[trigger] last[i].chunks[j]).len() <= u32::MAX by {
        assert(files[files.len() - 1].chunks[j].len() <= u32::MAX);
    }
}

/// What leads to a result has only parts that lead to a result.
pub proof fn lemma_replayed_prefix(records: Seq<Record>, m: int)
    requires
        0 <= m <= records.len(),
        replayed(records) is Some,
    ensures
        replayed(records.take(m)) is Some,
        m < records.len() ==> !(replayed(records.take(m))->0).2,
    decreases records.len() - m,
{
    if m < records.len() {
        lemma_replayed_prefix(records, m + 1);
        assert(records.take(m + 1).drop_last() =~= records.take(m));
    } else {
        assert(records.take(m) =~= records);
    }
}

/// Looking for a shard to read, polling and the end of a shard leave alone what has been
/// reassembled and what waits for its turn.
pub proof fn law_reading_leaves_order_alone(
    v: DeserializerView,
    ready: Seq<bool>,
    shard: usize,
    elapsed_millis: u128,
)
    ensures
        same_progress(v, v.next_shard().0),
        same_progress(v, v.polled(ready)),
        same_progress(v, v.ended(shard, elapsed_millis)),
{
}

/// Whether two states agree on everything but where shards are and what was counted.
pub open spec fn same_progress(v: DeserializerView, w: DeserializerView) -> bool {
    &&& v.pending_markers == w.pending_markers
    &&& v.seq == w.seq
    &&& v.current_img_file == w.current_img_file
    &&& v.image_eof == w.image_eof
    &&& v.metadata == w.metadata
    &&& v.small_file_seq == w.small_file_seq
    &&& v.performing == w.performing
}

/// Small files are received like all others, except for the list of files, which never gets into
/// the image store.
pub proof fn law_small_files_are_received_like_others(
    current: Option<Seq<char>>,
    body: Option<BodyView>,
)
    ensures
        current != Some(metadata_name()) && !(body matches Some(BodyView::ImageEof(_)))
            ==> small_file_effect(current, body) == marker_effect(current, false, 0, body),
        small_file_effect(current, body) matches Ok((_, action)) ==> action
            != ActionView::InsertFile(metadata_name()),
        body matches Some(BodyView::ImageEof(_)) ==> small_file_effect(current, body)
            == Err::<(Option<Seq<char>>, ActionView), ExtractError>(ExtractError::MalformedMarker),
{
}

/// The state and the output after the first `k` markers of the shard of small files have come in,
/// each with the number of its place and taking up `sizes[k]` bytes; nothing if a marker was
/// refused, did not have the next number or began a file while another one was open, or if a text
/// that should list the files does not.
pub open spec fn small_files_after(
    start: DeserializerView,
    records: Seq<Record>,
    sizes: Seq<int>,
    k: int,
) -> Option<(DeserializerView, Output)>
    decreases k,
{
    if k <= 0 {
        Some((start, no_output()))
    } else {
        match small_files_after(start, records, sizes, k - 1) {
            Some((v, out)) => {
                let marker = numbered(records, k - 1);
                let (after, result) = v.small_step(marker, sizes[k - 1]);
                if marker.seq != v.small_file_seq || v.overlaps(marker.body) {
                    None
                } else {
                    match result {
                        Ok(ActionView::ReadMetadata { size }) => match json_sizes(
                            records[k - 1].data.take(size as int),
                        ) {
                            Ok(list) => Some(
                                (DeserializerView { metadata: Some(list), ..after }, out),
                            ),
                            Err(_) => None,
                        },
                        Ok(action) => Some((after, perform(out, action, records[k - 1].data))),
                        Err(_) => None,
                    }
                }
            },
            None => None,
        }
    }
}

/// Whether every chunk of every file that lists the files of an image does so.
pub open spec fn lists_are_intact(files: Seq<SourceFile>) -> bool {
    forall|i: int, j: int|
        0 <= i < files.len() && files[i].name == metadata_name() && 0 <= j
            < files[i].chunks.len() ==> json_sizes(#[trigger] files[i].chunks[j]) is Ok
}

/// The list of files that small files bring: the last chunk of the last file that is one.
pub open spec fn listed(files: Seq<SourceFile>) -> Option<Map<Seq<char>, u64>>
    decreases files.len(),
{
    if files.len() == 0 {
        None
    } else if files.last().name == metadata_name() && files.last().chunks.len() > 0 {
        Some(json_sizes(files.last().chunks.last())->Ok_0)
    } else {
        listed(files.drop_last())
    }
}

/// The files that do not list files.
pub open spec fn without_lists(files: Seq<SourceFile>) -> Seq<SourceFile>
    decreases files.len(),
{
    if files.len() == 0 {
        files
    } else if files.last().name == metadata_name() {
        without_lists(files.drop_last())
    } else {
        without_lists(files.drop_last()).push(files.last())
    }
}

/// What is known of the shard of small files between two files.
spec fn small_files_on_track(
    state: Option<(DeserializerView, Output)>,
    files: Seq<SourceFile>,
    k: int,
) -> bool {
    state matches Some((v, out)) && v.small_file_seq == k && v.current_img_file is None
        && v.metadata == listed(files) && out.files == contents(without_lists(files))
}

/// The records of one small file, up to and with its first `n` chunks.
proof fn lemma_small_file_chunks(
    start: DeserializerView,
    records: Seq<Record>,
    sizes: Seq<int>,
    k: int,
    files: Seq<SourceFile>,
    file: SourceFile,
    n: int,
)
    requires
        records.len() <= u64::MAX,
        0 <= k,
        k + file_records(file).len() <= records.len(),
        records.subrange(k, k + file_records(file).len()) == file_records(file),
        small_files_on_track(small_files_after(start, records, sizes, k), files, k),
        file.name == metadata_name() ==> forall|j: int|
            0 <= j < file.chunks.len() ==> json_sizes(#[trigger] file.chunks[j]) is Ok,
        announceable(seq![file]),
        0 <= n <= file.chunks.len(),
    ensures
        small_files_after(start, records, sizes, k + n + 1) matches Some((v, out))
            && v.small_file_seq == k + n + 1 && v.current_img_file == Some(file.name)
            && out.files == contents(without_lists(files)) && if file.name == metadata_name() {
            v.metadata == (if n == 0 {
                listed(files)
            } else {
                Some(json_sizes(file.chunks[n - 1])->Ok_0)
            })
        } else {
            v.metadata == listed(files) && out.open == joined(file.chunks.take(n))
        },
    decreases n,
{
    let own = file_records(file);
    assert(records[k + n] == records.subrange(k, k + own.len())[n]);
    assert(records[k + n] == own[n]);
    if n == 0 {
        assert(joined(file.chunks.take(0)) =~= Seq::empty());
    } else {
        lemma_small_file_chunks(start, records, sizes, k, files, file, n - 1);
        assert(own[n] == Record {
            body: BodyView::FileData(file.chunks[n - 1].len() as u32),
            data: file.chunks[n - 1],
        });
        assert(seq![file][0].chunks[n - 1].len() <= u32::MAX);
        assert(own[n].data.take(own[n].data.len() as int) =~= own[n].data);
        assert(file.chunks.take(n).drop_last() =~= file.chunks.take(n - 1));
        assert(file.chunks.take(n).last() == file.chunks[n - 1]);
    }
}

/// The records of the first `m` small files.
proof fn lemma_small_files(
    start: DeserializerView,
    files: Seq<SourceFile>,
    sizes: Seq<int>,
    m: int,
)
    requires
        announceable(files),
        files_records(files).len() <= u64::MAX,
        lists_are_intact(files),
        start.small_file_seq == 0,
        start.metadata is None,
        start.current_img_file is None,
        0 <= m <= files.len(),
    ensures
        files_records(files.take(m)).is_prefix_of(files_records(files)),
        small_files_on_track(
            small_files_after(
                start,
                files_records(files),
                sizes,
                files_records(files.take(m)).len() as int,
            ),
            files.take(m),
            files_records(files.take(m)).len() as int,
        ),
    decreases m,
{
    let records = files_records(files);
    lemma_files_records_prefix(files, m);
    if m == 0 {
        assert(contents(without_lists(files.take(0))) =~= Seq::empty());
    } else {
        lemma_small_files(start, files, sizes, m - 1);
        let before = files.take(m - 1);
        let file = files[m - 1];
        assert(files.take(m).drop_last() =~= before);
        assert(files.take(m).last() == file);
        let k = files_records(before).len() as int;
        let own = file_records(file);
        let upto = files_records(files.take(m));
        assert(upto == files_records(before) + own);
        assert(records.subrange(k, k + own.len()) =~= own) by {
            assert forall|i: int| 0 <= i < own.len() implies records[k + i] == own[i] by {
                assert(records[k + i] == upto[k + i]);
            }
        }
        if file.name == metadata_name() {
            assert forall|j: int| 0 <= j < file.chunks.len() implies json_sizes(
                #[trigger] file.chunks[j],
            ) is Ok by {
                assert(files[m - 1].chunks[j] == file.chunks[j]);
            }
        }
        let n = file.chunks.len() as int;
        assert(announceable(seq![file])) by {
            let one = seq![file];
            assert forall|i: int, j: int|
                0 <= i < one.len() && 0 <= j < one[i].chunks.len() implies (
            #[trigger] one[i].chunks[j]).len() <= u32::MAX by {
                assert(files[m - 1].chunks[j].len() <= u32::MAX);
            }
        }
        lemma_small_file_chunks(start, records, sizes, k, before, file, n);
        assert(records[k + n + 1] == records.subrange(k, k + own.len())[n + 1]);
        assert(own[n + 1] == Record { body: BodyView::FileEof(true), data: Seq::empty() });
        assert(file.chunks.take(n) =~= file.chunks);
        let kept = without_lists(before);
        assert(contents(kept).push((file.name, joined(file.chunks))) =~= contents(kept.push(file)));
        assert(own.len() == n + 2);
        assert(upto.len() == k + n + 2);
    }
}

/// The records of the first files come first.
proof fn lemma_files_records_prefix(files: Seq<SourceFile>, m: int)
    requires
        0 <= m <= files.len(),
    ensures
        files_records(files.take(m)).is_prefix_of(files_records(files)),
    decreases files.len() - m,
{
    if m == files.len() {
        assert(files.take(m) =~= files);
    } else {
        lemma_files_records_prefix(files, m + 1);
        assert(files.take(m + 1).drop_last() =~= files.take(m));
        let longer = files_records(files.take(m + 1));
        assert(longer == files_records(files.take(m)) + file_records(files[m]));
        assert(files_records(files.take(m)) =~= files_records(files).take(
            files_records(files.take(m)).len() as int,
        )) by {
            assert forall|i: int| 0 <= i < files_records(files.take(m)).len() implies files_records(
                files.take(m),
            )[i] == files_records(files)[i] by {
                assert(longer[i] == files_records(files)[i]);
            }
        }
    }
}

/// How many bytes the first `k` markers of a shard take up, with their payloads.
pub open spec fn bytes_of(records: Seq<Record>, sizes: Seq<int>, k: int) -> int
    decreases k,
{
    if k <= 0 {
        0
    } else {
        bytes_of(records, sizes, k - 1) + sizes[k - 1] + records[k - 1].data.len()
    }
}

/// Whether every marker announces exactly the payload that follows it.
spec fn announced(records: Seq<Record>) -> bool {
    forall|i: int|
        0 <= i < records.len() ==> payload(Some((#[trigger] records[i]).body))
            == records[i].data.len()
}

/// The markers of files announce exactly the payloads that follow them.
proof fn lemma_announced(files: Seq<SourceFile>)
    requires
        announceable(files),
    ensures
        announced(files_records(files)),
    decreases files.len(),
{
    if files.len() > 0 {
        lemma_announceable(files);
        lemma_announced(files.drop_last());
        let before = files_records(files.drop_last());
        let file = files.last();
        let own = file_records(file);
        let records = files_records(files);
        assert forall|i: int| 0 <= i < records.len() implies payload(
            Some((#[trigger] records[i]).body),
        ) == records[i].data.len() by {
            if i < before.len() {
                assert(records[i] == before[i]);
            } else {
                let n = i - before.len();
                assert(records[i] == own[n]);
                if 0 < n < own.len() - 1 {
                    assert(seq![file][0].chunks[n - 1].len() <= u32::MAX);
                }
            }
        }
    }
}

/// Fewer markers never take up more.
proof fn lemma_bytes_of(records: Seq<Record>, sizes: Seq<int>, k: int, n: int)
    requires
        0 <= k <= n <= records.len(),
        forall|i: int| 0 <= i < records.len() ==> 0 <= #[trigger] sizes[i],
    ensures
        0 <= bytes_of(records, sizes, k) <= bytes_of(records, sizes, n),
    decreases n,
{
    if k < n {
        lemma_bytes_of(records, sizes, k, n - 1);
        assert(0 <= sizes[n - 1]);
    } else if n > 0 {
        lemma_bytes_of(records, sizes, n - 1, n - 1);
        assert(0 <= sizes[n - 1]);
    }
}

/// Where the first markers of the shard of small files came through, each of them was one that is
/// accepted, and all their bytes have been counted, for that shard alone.
proof fn lemma_small_files_accepted(
    start: DeserializerView,
    records: Seq<Record>,
    sizes: Seq<int>,
    k: int,
)
    requires
        0 <= k <= records.len() <= u64::MAX,
        announced(records),
        forall|i: int| 0 <= i < records.len() ==> 0 <= #[trigger] sizes[i],
        start.performing is None,
        start.small_file_seq == 0,
        start.stats.len() > 0,
        start.stats[0].bytes_read + bytes_of(records, sizes, records.len() as int) <= u64::MAX,
        small_files_after(start, records, sizes, k) is Some,
    ensures
        small_files_after(start, records, sizes, k) matches Some((v, _)) && {
            &&& v.performing is None
            &&& v.small_file_seq == k
            &&& v.stats.len() == start.stats.len()
            &&& v.stats[0].bytes_read == start.stats[0].bytes_read + bytes_of(records, sizes, k)
            &&& v.stats[0].transfer_duration_millis == start.stats[0].transfer_duration_millis
            &&& forall|shard: int|
                0 < shard < v.stats.len() ==> #[trigger] v.stats[shard] == start.stats[shard]
        },
        forall|i: int|
            0 <= i < k ==> (#[trigger] small_files_after(start, records, sizes, i) matches Some(
                (w, _),
            ) && w.accepts_small(numbered(records, i), sizes[i])),
    decreases k,
{
    if k > 0 {
        lemma_small_files_accepted(start, records, sizes, k - 1);
        lemma_bytes_of(records, sizes, k - 1, k);
        lemma_bytes_of(records, sizes, k, records.len() as int);
        assert(0 <= sizes[k - 1]);
        assert(payload(Some(records[k - 1].body)) == records[k - 1].data.len());
    }
}

/// The shard of small files provides the original small files: the image store receives exactly
/// those that were serialized, with their contents, in their order, but for the list of files,
/// which the deserializer keeps. No marker is refused on the way, however large the pieces are, as long
/// as the counter of the shard has room for all of them; and then exactly their bytes are counted.
pub proof fn law_small_files_come_back(
    start: DeserializerView,
    files: Seq<SourceFile>,
    sizes: Seq<int>,
)
    requires
        announceable(files),
        files_records(files).len() <= u64::MAX,
        lists_are_intact(files),
        start.small_file_seq == 0,
        start.metadata is None,
        start.current_img_file is None,
    ensures
        small_files_after(
            start,
            files_records(files),
            sizes,
            files_records(files).len() as int,
        ) matches Some((v, out)) && out.files == contents(without_lists(files)) && v.metadata
            == listed(files) && v.current_img_file is None && v.small_file_seq == files_records(
            files,
        ).len(),
        small_files_have_room(start, files, sizes) ==> forall|i: int|
            0 <= i < files_records(files).len() ==> (#[trigger] small_files_after(
                start,
                files_records(files),
                sizes,
                i,
            ) matches Some((v, _)) && v.accepts_small(
                numbered(files_records(files), i),
                sizes[i],
            )),
        small_files_have_room(start, files, sizes) ==> (small_files_after(
            start,
            files_records(files),
            sizes,
            files_records(files).len() as int,
        ) matches Some((v, _)) && v.performing is None && v.stats[0].bytes_read
            == start.stats[0].bytes_read + bytes_of(
            files_records(files),
            sizes,
            files_records(files).len() as int,
        )),
{
    lemma_small_files(start, files, sizes, files.len() as int);
    assert(files.take(files.len() as int) =~= files);
    if small_files_have_room(start, files, sizes) {
        lemma_announced(files);
        lemma_small_files_accepted(
            start,
            files_records(files),
            sizes,
            files_records(files).len() as int,
        );
    }
}

/// Whether no action is being performed, every marker takes up some bytes or none, and the counter of the
/// shard of small files has room for all markers and payloads of these files.
pub open spec fn small_files_have_room(
    start: DeserializerView,
    files: Seq<SourceFile>,
    sizes: Seq<int>,
) -> bool {
    &&& start.performing is None
    &&& start.stats.len() > 0
    &&& forall|i: int| 0 <= i < files_records(files).len() ==> 0 <= #[trigger] sizes[i]
    &&& start.stats[0].bytes_read + bytes_of(
        files_records(files),
        sizes,
        files_records(files).len() as int,
    ) <= u64::MAX
}

/// A marker of the shard of small files is refused exactly if an action is still being performed, if it
/// does not have the next number, if it begins a file inside another one, or if a counter has no room.
pub proof fn law_small_file_markers_are_accepted(v: DeserializerView, marker: MarkerView, size: int)
    requires
        v.stats.len() > 0,
        0 <= size,
    ensures
        v.accepts_small(marker, size) <==> {
            let inside = v.current_img_file is Some;
            let begins = marker.body is Some && marker.body->0 is Filename;
            let bytes: int = if inside && marker.body is Some && marker.body->0 is FileData {
                marker.body->0->FileData_0 as int
            } else {
                0
            };
            &&& v.performing is None
            &&& marker.seq == v.small_file_seq
            &&& v.small_file_seq < u64::MAX
            &&& !(inside && begins)
            &&& v.stats[0].bytes_read + size + bytes <= u64::MAX
        },
{
}

/// Once the image is complete, the main loop only reads shards to their end, and then succeeds:
/// it refuses nothing, performs nothing, and changes nothing but where shards are.
pub proof fn law_complete_image_is_final(v: DeserializerView)
    requires
        v.image_eof,
        v.pending_markers.len() == 0,
    ensures
        v.drain_step().0 == v.next_shard().0,
        same_progress(v, v.drain_step().0),
        v.drain_step().1 == Ok::<DrainStepView, ExtractError>(
            match v.next_shard().1 {
                NextShard::Shard(shard) => DrainStepView::Read(shard),
                NextShard::Poll => DrainStepView::Poll,
                NextShard::Exhausted => DrainStepView::Complete,
            },
        ),
{
}

/// Whether, if the image is complete, no marker is waiting and no file is open.
pub open spec fn nothing_left_over(v: DeserializerView) -> bool {
    v.image_eof ==> v.pending_markers.len() == 0 && v.current_img_file is None
}

/// A complete image leaves no marker waiting and no file open: that holds at the beginning, and
/// whatever the main loop does keeps it so.
pub proof fn law_complete_image_leaves_nothing_over(
    v: DeserializerView,
    num_shards: int,
    ready: Seq<bool>,
    shard: usize,
    marker: MarkerView,
    size: int,
    elapsed_millis: u128,
)
    ensures
        nothing_left_over(DeserializerView::initial(num_shards)),
        nothing_left_over(v) ==> {
            &&& nothing_left_over(v.begun())
            &&& nothing_left_over(v.drain_step().0)
            &&& nothing_left_over(v.polled(ready))
            &&& nothing_left_over(v.ended(shard, elapsed_millis))
            &&& !v.image_eof ==> nothing_left_over(v.received(shard, marker, size))
        },
{
}

/// The state after some markers, each of which came over a shard, have been processed and what they
/// asked for has been done, with all that was done; nothing if a marker was refused or began a file
/// while another one was open.
pub open spec fn processed_all(v: DeserializerView, markers: Seq<(MarkerView, usize)>) -> Option<
    (DeserializerView, Seq<ActionView>),
>
    decreases markers.len(),
{
    if markers.len() == 0 {
        Some((v, Seq::empty()))
    } else {
        match processed_all(v, markers.drop_last()) {
            Some((w, actions)) => {
                let (marker, shard) = markers.last();
                match w.processed(marker, shard) {
                    (begun, Ok(action)) => if w.overlaps(marker.body) {
                        None
                    } else {
                        Some((begun.applied(), actions.push(action)))
                    },
                    (_, Err(_)) => None,
                }
            },
            None => None,
        }
    }
}

/// Whether some markers carry one file: its name, any number of pieces, and its end.
pub open spec fn carries_file(markers: Seq<(MarkerView, usize)>, name: Seq<char>) -> bool {
    &&& markers.len() >= 2
    &&& markers[0].0.body == Some(BodyView::Filename(name))
    &&& markers.last().0.body == Some(BodyView::FileEof(true))
    &&& forall|i: int|
        0 < i < markers.len() - 1 ==> (#[trigger] markers[i]).0.body matches Some(
            BodyView::FileData(_),
        )
}

/// What is done for the markers that carry one file.
pub open spec fn file_actions(markers: Seq<(MarkerView, usize)>, name: Seq<char>) -> Seq<
    ActionView,
> {
    Seq::new(
        markers.len(),
        |i: int|
            if i == 0 {
                ActionView::CreateFile(name)
            } else if i == markers.len() - 1 {
                ActionView::InsertFile(name)
            } else {
                ActionView::CopyData {
                    shard: markers[i].1,
                    size: payload(markers[i].0.body) as u32,
                }
            },
    )
}

/// How many payload bytes some markers bring over a shard.
pub open spec fn brought(markers: Seq<(MarkerView, usize)>, shard: int) -> int
    decreases markers.len(),
{
    if markers.len() == 0 {
        0
    } else {
        brought(markers.drop_last(), shard) + if markers.last().1 == shard {
            payload(markers.last().0.body)
        } else {
            0
        }
    }
}

/// The counters after the payloads of some markers have been read.
pub open spec fn stats_after(stats: Seq<Shard>, markers: Seq<(MarkerView, usize)>) -> Seq<Shard> {
    Seq::new(
        stats.len(),
        |i: int|
            Shard {
                bytes_read: (stats[i].bytes_read + brought(markers, i)) as u64,
                transfer_duration_millis: stats[i].transfer_duration_millis,
            },
    )
}

/// More markers never bring less.
proof fn lemma_brought(markers: Seq<(MarkerView, usize)>, n: int, shard: int)
    requires
        0 <= n <= markers.len(),
    ensures
        0 <= brought(markers.take(n), shard) <= brought(markers, shard),
    decreases markers.len(), n,
{
    if n == markers.len() {
        assert(markers.take(n) =~= markers);
        if n > 0 {
            assert(markers.drop_last().take(n - 1) =~= markers.drop_last());
            lemma_brought(markers.drop_last(), n - 1, shard);
        }
    } else {
        assert(markers.drop_last().take(n) =~= markers.take(n));
        lemma_brought(markers.drop_last(), n, shard);
    }
}

/// The markers of one file, up to but for its end.
proof fn lemma_file_in_part(
    v: DeserializerView,
    markers: Seq<(MarkerView, usize)>,
    name: Seq<char>,
    n: int,
)
    requires
        v.performing is None,
        v.current_img_file is None,
        carries_file(markers, name),
        forall|i: int| 0 <= i < markers.len() ==> (#[trigger] markers[i]).1 < v.stats.len(),
        forall|shard: int|
            0 <= shard < v.stats.len() ==> (#[trigger] v.stats[shard]).bytes_read + brought(
                markers,
                shard,
            ) <= u64::MAX,
        0 < n < markers.len(),
    ensures
        processed_all(v, markers.take(n)) == Some(
            (
                DeserializerView {
                    current_img_file: Some(name),
                    stats: stats_after(v.stats, markers.take(n)),
                    ..v
                },
                file_actions(markers, name).take(n),
            ),
        ),
    decreases n,
{
    let so_far = markers.take(n);
    assert(so_far.drop_last() =~= markers.take(n - 1));
    assert(so_far.last() == markers[n - 1]);
    assert forall|shard: int| 0 <= shard < v.stats.len() implies v.stats[shard].bytes_read
        + #[trigger] brought(so_far, shard) <= u64::MAX && 0 <= brought(markers.take(n - 1), shard)
        <= brought(so_far, shard) by {
        lemma_brought(markers, n, shard);
        lemma_brought(so_far, n - 1, shard);
        assert(so_far.take(n - 1) =~= markers.take(n - 1));
    }
    let expected = DeserializerView {
        current_img_file: Some(name),
        stats: stats_after(v.stats, so_far),
        ..v
    };
    let all = file_actions(markers, name);
    assert(all.take(n) =~= all.take(n - 1).push(all[n - 1]));
    if n == 1 {
        assert(markers.take(0) =~= Seq::empty());
        assert(all.take(0) =~= Seq::empty());
        let w = v.processed(markers[0].0, markers[0].1).0.applied();
        assert(w.stats =~= expected.stats);
    } else {
        lemma_file_in_part(v, markers, name, n - 1);
        let before = DeserializerView {
            current_img_file: Some(name),
            stats: stats_after(v.stats, markers.take(n - 1)),
            ..v
        };
        let w = before.processed(markers[n - 1].0, markers[n - 1].1).0.applied();
        assert(w.stats =~= expected.stats);
    }
}

/// Markers that carry one file have exactly that file created, each of its pieces written to it, in
/// order, from the shard that brings it, and the file then put into the image store. No file is open
/// afterwards, each shard has its pieces counted, and nothing else has changed.
pub proof fn law_one_file_is_received(
    v: DeserializerView,
    markers: Seq<(MarkerView, usize)>,
    name: Seq<char>,
)
    requires
        v.performing is None,
        v.current_img_file is None,
        carries_file(markers, name),
        forall|i: int| 0 <= i < markers.len() ==> (#[trigger] markers[i]).1 < v.stats.len(),
        forall|shard: int|
            0 <= shard < v.stats.len() ==> (#[trigger] v.stats[shard]).bytes_read + brought(
                markers,
                shard,
            ) <= u64::MAX,
    ensures
        processed_all(v, markers) == Some(
            (
                DeserializerView { stats: stats_after(v.stats, markers), ..v },
                file_actions(markers, name),
            ),
        ),
{
    let n = markers.len() as int;
    lemma_file_in_part(v, markers, name, n - 1);
    assert(markers.drop_last() =~= markers.take(n - 1));
    let all = file_actions(markers, name);
    assert(all.take(n - 1).push(all[n - 1]) =~= all);
    assert forall|shard: int| 0 <= shard < v.stats.len() implies 0 <= #[trigger] brought(
        markers.take(n - 1),
        shard,
    ) <= brought(markers, shard) by {
        lemma_brought(markers, n - 1, shard);
    }
    let before = DeserializerView {
        current_img_file: Some(name),
        stats: stats_after(v.stats, markers.take(n - 1)),
        ..v
    };
    let w = before.processed(markers[n - 1].0, markers[n - 1].1).0.applied();
    assert(w.stats =~= stats_after(v.stats, markers));
    assert(w.current_img_file == v.current_img_file);
}

} // verus!
