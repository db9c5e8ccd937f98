use image_streamer::deserializer::{
    Action, DrainStep, ExtractError, ImageDeserializer, NextShard, Shard, ShardEvent, SmallFileStep,
};
use image_streamer::marker::{Body, Marker};
use image_streamer::metadata::Metadata;

fn marker(seq: u64, body: Body) -> Marker {
    Marker { seq, body: Some(body) }
}

fn name(s: &str) -> Body {
    Body::Filename(s.to_string())
}

/// A deserializer for two shards that is receiving the file `f`, of which shard 1 has brought the
/// name in a marker of one byte.
fn with_open_file() -> ImageDeserializer {
    let mut d = ImageDeserializer::new(2);
    assert!(matches!(d.drain_all(), Ok(DrainStep::Read(1))));
    d.drain_shard(1, ShardEvent::Marker { marker: marker(0, name("f")), size: 1 }).unwrap();
    assert!(matches!(d.drain_all(), Ok(DrainStep::Perform(Action::CreateFile(_)))));
    d.action_done();
    d
}

/// One marker with its payload.
struct Record {
    body: Body,
    data: Vec<u8>,
}

fn record(body: Body, data: &[u8]) -> Record {
    Record { body, data: data.to_vec() }
}

/// The records of a small image.
fn image() -> Vec<Record> {
    vec![
        record(name("pages-1.img"), b""),
        record(Body::FileData(3), b"abc"),
        record(Body::FileData(2), b"de"),
        record(Body::FileEof(true), b""),
        record(name("empty.img"), b""),
        record(Body::FileEof(true), b""),
        record(name("core-1.img"), b""),
        record(Body::FileData(4), b"wxyz"),
        record(Body::FileEof(true), b""),
        record(Body::ImageEof(true), b""),
    ]
}

/// Feeds the records of an image to a deserializer. `shard_of[i]` is the shard that carries
/// record `i`; every shard brings its records in order. When several shards can be read, the
/// number `pick` decides which is. Returns the files and the deserializer.
fn reassemble(
    records: Vec<Record>,
    shard_of: &[usize],
    num_shards: usize,
    pick: usize,
) -> (Vec<(String, Vec<u8>)>, ImageDeserializer) {
    let payloads: Vec<Vec<u8>> = records.iter().map(|r| r.data.clone()).collect();
    let mut queues: Vec<Vec<(u64, Body)>> = (0..num_shards).map(|_| vec![]).collect();
    for (i, r) in records.into_iter().enumerate() {
        queues[shard_of[i]].push((i as u64, r.body));
    }
    for q in queues.iter_mut() {
        q.reverse();
    }
    let mut pending_payload: Vec<Option<usize>> = vec![None; num_shards];
    let mut d = ImageDeserializer::new(num_shards);
    let mut files = vec![];
    let mut open: Option<Vec<u8>> = None;
    let mut turn = pick;
    loop {
        assert!(d.can_step());
        match d.drain_all().unwrap() {
            DrainStep::Read(shard) => {
                let event = match queues[shard].pop() {
                    Some((seq, body)) => {
                        pending_payload[shard] = Some(seq as usize);
                        ShardEvent::Marker { marker: marker(seq, body), size: 10 }
                    }
                    None => ShardEvent::Eof { elapsed_millis: 7 },
                };
                d.drain_shard(shard, event).unwrap();
            }
            DrainStep::Poll => {
                let n = d.waiting_shards().len();
                assert!(n > 1);
                turn = turn.wrapping_mul(31).wrapping_add(7);
                let mut ready = vec![false; n];
                ready[turn % n] = true;
                ready[(turn / 5) % n] = true;
                d.mark_readable(&ready);
            }
            DrainStep::Perform(action) => {
                assert!(!d.can_step());
                match action {
                    Action::CreateFile(_) => open = Some(vec![]),
                    Action::CopyData { shard, size } => {
                        let payload = &payloads[pending_payload[shard].unwrap()];
                        assert_eq!(payload.len(), size as usize);
                        open.as_mut().unwrap().extend_from_slice(payload);
                    }
                    Action::InsertFile(filename) => files.push((filename, open.take().unwrap())),
                    Action::ImageComplete => {}
                    other => panic!("{:?}", other),
                }
                d.action_done();
            }
            DrainStep::Complete => return (files, d),
        }
    }
}

fn expected_files() -> Vec<(String, Vec<u8>)> {
    vec![
        ("pages-1.img".to_string(), b"abcde".to_vec()),
        ("empty.img".to_string(), vec![]),
        ("core-1.img".to_string(), b"wxyz".to_vec()),
    ]
}

#[test]
fn image_comes_back_over_one_shard() {
    let (files, d) = reassemble(image(), &[1; 10], 2, 0);
    assert_eq!(files, expected_files());
    assert_eq!(d.stats()[0], Shard { bytes_read: 0, transfer_duration_millis: 0 });
    assert_eq!(d.stats()[1], Shard { bytes_read: 10 * 10 + 9, transfer_duration_millis: 7 });
}

#[test]
fn image_comes_back_whatever_the_order_of_arrival() {
    let layouts: [[usize; 10]; 4] = [
        [1, 2, 3, 1, 2, 3, 1, 2, 3, 1],
        [3, 3, 2, 2, 1, 1, 3, 2, 1, 3],
        [1, 1, 1, 1, 1, 2, 2, 2, 2, 2],
        [2, 1, 2, 1, 2, 1, 2, 1, 2, 1],
    ];
    for layout in layouts {
        for pick in 0..40 {
            let (files, d) = reassemble(image(), &layout, 4, pick);
            assert_eq!(files, expected_files());
            let total: u64 = d.stats().iter().map(|s| s.bytes_read).sum();
            assert_eq!(total, 10 * 10 + 9);
        }
    }
}

#[test]
fn a_missing_marker_is_noticed() {
    for gap in 0..10u64 {
        let mut d = ImageDeserializer::new(3);
        let mut queues: Vec<Vec<(u64, Body)>> = vec![vec![], vec![], vec![]];
        for (i, r) in image().into_iter().enumerate().rev() {
            if i as u64 != gap {
                queues[1 + i % 2].push((i as u64, r.body));
            }
        }
        let mut performed = 0;
        let end = loop {
            assert!(d.can_step());
            match d.drain_all() {
                Ok(DrainStep::Read(shard)) => {
                    let event = match queues[shard].pop() {
                        Some((seq, body)) => {
                            ShardEvent::Marker { marker: marker(seq, body), size: 1 }
                        }
                        None => ShardEvent::Eof { elapsed_millis: 0 },
                    };
                    d.drain_shard(shard, event).unwrap();
                }
                Ok(DrainStep::Poll) => {
                    let all = vec![true; d.waiting_shards().len()];
                    d.mark_readable(&all);
                }
                Ok(DrainStep::Perform(_)) => {
                    performed += 1;
                    d.action_done();
                }
                Ok(DrainStep::Complete) => break None,
                Err(e) => break Some(e),
            }
        };
        assert_eq!((end, performed), (Some(ExtractError::NoShards), gap));
    }
}

#[test]
fn markers_wait_for_their_turn() {
    let mut d = ImageDeserializer::new(3);
    d.mark_readable(&vec![true, true]);
    assert!(matches!(d.drain_all(), Ok(DrainStep::Read(2))));
    d.drain_shard(2, ShardEvent::Marker { marker: marker(1, Body::FileEof(true)), size: 1 }).unwrap();
    assert!(matches!(d.drain_all(), Ok(DrainStep::Read(1))));
    assert!(!d.file_is_open());
    d.drain_shard(1, ShardEvent::Marker { marker: marker(0, name("f")), size: 1 }).unwrap();
    assert!(matches!(d.drain_all(), Ok(DrainStep::Perform(Action::CreateFile(f))) if f == "f"));
    assert!(!d.file_is_open());
    d.action_done();
    assert!(d.file_is_open());
    assert!(matches!(d.drain_all(), Ok(DrainStep::Perform(Action::InsertFile(f))) if f == "f"));
    assert!(!d.file_is_open());
    d.action_done();
    assert_eq!(d.waiting_shards(), &vec![1, 2]);
    assert!(matches!(d.drain_all(), Ok(DrainStep::Poll)));
}

#[test]
fn a_lower_number_holds_up_all_others() {
    let mut d = ImageDeserializer::new(3);
    d.mark_readable(&vec![true, true]);
    assert!(matches!(d.get_next_readable_shard(), NextShard::Shard(2)));
    d.drain_shard(2, ShardEvent::Marker { marker: marker(0, name("f")), size: 1 }).unwrap();
    assert!(matches!(d.process_pending_markers(), Ok(Some(Action::CreateFile(_)))));
    d.action_done();
    assert!(matches!(d.get_next_readable_shard(), NextShard::Shard(1)));
    d.drain_shard(1, ShardEvent::Marker { marker: marker(0, Body::FileEof(true)), size: 1 }).unwrap();
    assert!(d.get_next_in_order_marker().is_none());
    assert!(matches!(d.get_next_readable_shard(), NextShard::Shard(2)));
    d.drain_shard(2, ShardEvent::Marker { marker: marker(1, Body::FileEof(true)), size: 1 }).unwrap();
    assert!(d.get_next_in_order_marker().is_none());
    assert!(matches!(d.drain_all(), Err(ExtractError::NoShards)));
}

#[test]
fn the_marker_whose_turn_it_is_can_be_taken_out() {
    let mut d = ImageDeserializer::new(2);
    assert!(d.get_next_in_order_marker().is_none());
    assert!(matches!(d.drain_all(), Ok(DrainStep::Read(1))));
    d.drain_shard(1, ShardEvent::Marker { marker: marker(0, name("f")), size: 1 }).unwrap();
    let p = d.get_next_in_order_marker().unwrap();
    assert_eq!(p.shard, 1);
    assert_eq!(p.marker.seq, 0);
    assert!(matches!(p.marker.body, Some(Body::Filename(f)) if f == "f"));
    assert!(d.get_next_in_order_marker().is_none());
}

#[test]
fn only_readable_shards_are_handed_out() {
    let mut d = ImageDeserializer::new(5);
    assert_eq!(d.waiting_shards(), &vec![1, 2, 3, 4]);
    assert_eq!(d.get_next_readable_shard(), NextShard::Poll);
    d.mark_readable(&vec![false, true, false, true]);
    assert_eq!(d.waiting_shards(), &vec![1, 3]);
    assert_eq!(d.get_next_readable_shard(), NextShard::Shard(4));
    assert_eq!(d.get_next_readable_shard(), NextShard::Shard(2));
    assert_eq!(d.get_next_readable_shard(), NextShard::Poll);
    d.mark_readable(&vec![true, false]);
    assert_eq!(d.get_next_readable_shard(), NextShard::Shard(1));
    // The last shard need not be readable.
    assert_eq!(d.get_next_readable_shard(), NextShard::Shard(3));
    assert_eq!(d.get_next_readable_shard(), NextShard::Exhausted);
}

#[test]
fn no_shard_is_lost() {
    let mut d = ImageDeserializer::new(4);
    d.mark_readable(&vec![true, false, true]);
    let mut seen = vec![];
    for seq in [2u64, 1] {
        if let NextShard::Shard(shard) = d.get_next_readable_shard() {
            seen.push(shard);
            let m = Marker { seq, body: Some(Body::FileData(0)) };
            d.drain_shard(shard, ShardEvent::Marker { marker: m, size: 0 }).unwrap();
        }
    }
    assert_eq!(seen, vec![3, 1]);
    assert_eq!(d.get_next_readable_shard(), NextShard::Shard(2));
    d.drain_shard(2, ShardEvent::Marker { marker: marker(0, name("f")), size: 0 }).unwrap();
    for _ in 0..3 {
        assert!(matches!(d.drain_all(), Ok(DrainStep::Perform(_))));
        d.action_done();
    }
    assert_eq!(d.waiting_shards(), &vec![2, 1, 3]);
}

#[test]
fn unexpected_markers_are_refused() {
    let cases = [
        (Some(Body::FileData(3)), ExtractError::UnexpectedFileData, "Unexpected FileData marker"),
        (Some(Body::FileEof(true)), ExtractError::UnexpectedFileEof, "Unexpected FileEof marker"),
        (Some(Body::FileEof(false)), ExtractError::MalformedMarker, "Malformed image marker"),
        (Some(Body::ImageEof(false)), ExtractError::MalformedMarker, "Malformed image marker"),
        (None, ExtractError::MalformedMarker, "Malformed image marker"),
    ];
    for (body, error, message) in cases {
        let mut d = ImageDeserializer::new(2);
        let r = d.process_marker(Marker { seq: 0, body }, 1);
        assert_eq!(r.unwrap_err(), error);
        assert_eq!(error.message(), message);
        assert_eq!(d.stats()[1].bytes_read, 0);
        assert!(!d.file_is_open());
    }
}

#[test]
fn the_end_of_the_image_must_come_last() {
    let mut d = with_open_file();
    let r = d.process_marker(marker(1, Body::ImageEof(true)), 1);
    assert_eq!(r.unwrap_err(), ExtractError::UnexpectedImageEof);
    assert_eq!(d.mark_image_eof(), Err(ExtractError::UnexpectedImageEof));
    assert_eq!(
        ExtractError::UnexpectedImageEof.message(),
        "Image EOF marker came unexpectedly"
    );

    let mut d = ImageDeserializer::new(3);
    d.mark_readable(&vec![true, true]);
    for (shard, seq) in [(2usize, 1u64), (1, 0)] {
        assert!(matches!(d.drain_all(), Ok(DrainStep::Read(s)) if s == shard));
        let m = marker(seq, Body::ImageEof(true));
        d.drain_shard(shard, ShardEvent::Marker { marker: m, size: 1 }).unwrap();
    }
    assert!(matches!(d.drain_all(), Err(ExtractError::UnexpectedImageEof)));
}

#[test]
fn nothing_may_follow_the_end_of_the_image() {
    let mut d = ImageDeserializer::new(2);
    assert_eq!(d.mark_image_eof(), Ok(()));
    assert!(matches!(d.drain_all(), Ok(DrainStep::Read(1))));
    let r = d.drain_shard(1, ShardEvent::Marker { marker: marker(0, name("f")), size: 9 });
    assert_eq!(r, Err(ExtractError::DataAfterImageEof));
    assert_eq!(ExtractError::DataAfterImageEof.message(), "Unexpected data after image EOF");
    assert_eq!(d.stats()[1].bytes_read, 0);
}

#[test]
fn a_complete_image_only_has_its_shards_read_to_the_end() {
    let mut d = ImageDeserializer::new(3);
    assert_eq!(d.mark_image_eof(), Ok(()));
    assert!(matches!(d.drain_all(), Ok(DrainStep::Poll)));
    d.mark_readable(&vec![true, false]);
    assert!(matches!(d.drain_all(), Ok(DrainStep::Read(1))));
    d.drain_shard(1, ShardEvent::Eof { elapsed_millis: 11 }).unwrap();
    assert!(matches!(d.drain_all(), Ok(DrainStep::Read(2))));
    d.drain_shard(2, ShardEvent::Eof { elapsed_millis: 12 }).unwrap();
    assert!(matches!(d.drain_all(), Ok(DrainStep::Complete)));
    assert!(matches!(d.drain_all(), Ok(DrainStep::Complete)));
    assert_eq!(d.stats()[1].transfer_duration_millis, 11);
    assert_eq!(d.stats()[2].transfer_duration_millis, 12);
}

#[test]
fn shards_may_not_end_before_the_image() {
    let mut d = ImageDeserializer::new(2);
    assert!(matches!(d.drain_all(), Ok(DrainStep::Read(1))));
    d.drain_shard(1, ShardEvent::Eof { elapsed_millis: 1 }).unwrap();
    assert!(matches!(d.drain_all(), Err(ExtractError::NoShards)));
    assert_eq!(ExtractError::NoShards.message(), "No shards to read from");
}

#[test]
fn a_file_inside_a_file_is_not_acceptable() {
    let mut d = with_open_file();
    assert!(matches!(d.drain_all(), Ok(DrainStep::Read(1))));
    d.drain_shard(1, ShardEvent::Marker { marker: marker(1, name("g")), size: 1 }).unwrap();
    assert!(!d.can_step());

    let mut d = ImageDeserializer::new(2);
    d.drain_small_file_shard(Some((marker(0, name("f")), 1))).unwrap();
    assert!(!d.accepts_small_file_marker(&marker(1, Body::FileEof(true)), 1));
    d.action_done();
    assert!(!d.accepts_small_file_marker(&marker(1, name("g")), 1));
    assert!(d.accepts_small_file_marker(&marker(1, Body::FileEof(true)), 1));
}

#[test]
fn counters_do_not_overflow() {
    let mut d = ImageDeserializer::new(2);
    d.drain_small_file_shard(Some((marker(0, name("f")), usize::MAX - 5))).unwrap();
    d.action_done();
    assert_eq!(d.stats()[0].bytes_read, u64::MAX - 5);
    assert!(d.accepts_small_file_marker(&marker(1, Body::FileData(2)), 3));
    assert!(!d.accepts_small_file_marker(&marker(1, Body::FileData(3)), 3));
    assert!(!d.accepts_small_file_marker(&marker(1, Body::FileEof(true)), 6));
}

#[test]
fn small_files_come_back() {
    let list = br#"{"inventory.img": 3, "pages-1.img": 12}"#;
    let records = vec![
        record(name("inventory.img"), b""),
        record(Body::FileData(3), b"inv"),
        record(Body::FileEof(true), b""),
        record(name("metadata.json"), b""),
        record(Body::FileData(list.len() as u32), list),
        record(Body::FileEof(true), b""),
        record(name("fdinfo.img"), b""),
        record(Body::FileEof(true), b""),
    ];
    let mut d = ImageDeserializer::new(2);
    let mut files = vec![];
    let mut open = vec![];
    for (seq, r) in records.into_iter().enumerate() {
        let m = marker(seq as u64, r.body);
        assert!(d.accepts_small_file_marker(&m, 5));
        match d.drain_small_file_shard(Some((m, 5))).unwrap() {
            SmallFileStep::Perform(Action::CreateFile(_)) => open = vec![],
            SmallFileStep::Perform(Action::CopyData { shard, size }) => {
                assert_eq!((shard, size as usize), (0, r.data.len()));
                open.extend_from_slice(&r.data);
            }
            SmallFileStep::Perform(Action::ReadMetadata { size }) => {
                assert_eq!(size as usize, r.data.len());
                assert!(!d.has_metadata());
                d.read_metadata(&r.data).unwrap();
                assert!(d.has_metadata());
            }
            SmallFileStep::Perform(Action::InsertFile(f)) => files.push((f, open.clone())),
            SmallFileStep::Perform(Action::DropFile(f)) => assert_eq!(f, "metadata.json"),
            other => panic!("{:?}", other),
        }
        d.action_done();
    }
    let expected: Vec<(String, Vec<u8>)> =
        vec![("inventory.img".to_string(), b"inv".to_vec()), ("fdinfo.img".to_string(), vec![])];
    assert_eq!(files, expected);
    let mut names = match d.drain_small_file_shard(None).unwrap() {
        SmallFileStep::Complete(metadata) => metadata.file_names(),
        other => panic!("{:?}", other),
    };
    names.sort();
    assert_eq!(names, vec!["inventory.img".to_string(), "pages-1.img".to_string()]);
    assert!(!d.has_metadata());
    assert_eq!(d.stats()[0].bytes_read, 8 * 5 + 3 + list.len() as u64);
}

#[test]
fn small_file_markers_must_be_in_order() {
    let d = ImageDeserializer::new(2);
    assert!(d.accepts_small_file_marker(&marker(0, name("f")), 1));
    assert!(!d.accepts_small_file_marker(&marker(1, name("f")), 1));
}

#[test]
fn unexpected_small_file_markers_are_refused() {
    let cases = [
        (Some(Body::FileData(3)), ExtractError::UnexpectedFileData),
        (Some(Body::FileEof(true)), ExtractError::UnexpectedFileEof),
        (Some(Body::FileEof(false)), ExtractError::MalformedMarker),
        (Some(Body::ImageEof(true)), ExtractError::MalformedMarker),
        (None, ExtractError::MalformedMarker),
    ];
    for (body, error) in cases {
        let mut d = ImageDeserializer::new(2);
        let r = d.drain_small_file_shard(Some((Marker { seq: 0, body }, 4)));
        assert_eq!(r.unwrap_err(), error);
        assert_eq!(d.stats()[0].bytes_read, 4);
        // The number is not used up.
        assert!(d.accepts_small_file_marker(&marker(0, name("f")), 1));
    }
}

#[test]
fn a_malformed_list_of_files_is_refused() {
    let mut d = ImageDeserializer::new(2);
    let said = serde_json::from_slice::<std::collections::HashMap<String, u64>>(b"[]").unwrap_err();
    assert_eq!(d.read_metadata(b"[]"), Err(said.to_string()));
    assert!(!d.has_metadata());
    assert_eq!(d.set_metadata(Err("no".to_string())), Err("no".to_string()));
    let metadata = Metadata::from_entries(vec![("a".to_string(), 1)]);
    assert_eq!(d.set_metadata(Ok(metadata)), Ok(()));
    assert!(d.has_metadata());
    assert_eq!(d.read_metadata(b"{}"), Ok(()));
    match d.drain_small_file_shard(None).unwrap() {
        SmallFileStep::Complete(metadata) => assert!(metadata.file_names().is_empty()),
        other => panic!("{:?}", other),
    }
}

#[test]
fn an_action_that_fails_leaves_no_trace() {
    // A file that could not be created.
    let mut d = ImageDeserializer::new(2);
    assert!(matches!(d.drain_all(), Ok(DrainStep::Read(1))));
    d.drain_shard(1, ShardEvent::Marker { marker: marker(0, name("f")), size: 1 }).unwrap();
    assert!(matches!(d.drain_all(), Ok(DrainStep::Perform(Action::CreateFile(_)))));
    assert!(!d.file_is_open());
    assert!(d.waiting_shards().is_empty());
    // Contents that could not be copied.
    let mut d = with_open_file();
    assert!(matches!(d.drain_all(), Ok(DrainStep::Read(1))));
    d.drain_shard(1, ShardEvent::Marker { marker: marker(1, Body::FileData(9)), size: 1 }).unwrap();
    assert!(matches!(d.drain_all(), Ok(DrainStep::Perform(Action::CopyData { shard: 1, size: 9 }))));
    assert_eq!(d.stats()[1].bytes_read, 2);
    d.action_done();
    assert_eq!(d.stats()[1].bytes_read, 11);
}

#[test]
fn a_file_of_many_pieces_is_received() {
    let mut d = ImageDeserializer::new(4);
    let sizes = [3u32, 0, 7, 1];
    let shards = [1usize, 2, 1, 3];
    let mut done = vec![];
    let mut bodies = vec![(1, name("f"))];
    bodies.extend(sizes.iter().zip(shards).map(|(n, s)| (s, Body::FileData(*n))));
    bodies.push((2, Body::FileEof(true)));
    d.mark_readable(&vec![true, true, true]);
    for shard in [3usize, 2, 1] {
        assert_eq!(d.get_next_readable_shard(), NextShard::Shard(shard));
    }
    for (seq, (shard, body)) in bodies.into_iter().enumerate() {
        d.drain_shard(shard, ShardEvent::Marker { marker: marker(seq as u64, body), size: 0 }).unwrap();
        match d.drain_all().unwrap() {
            DrainStep::Perform(action) => done.push(format!("{:?}", action)),
            other => panic!("{:?}", other),
        }
        d.action_done();
        // The shard waits again; take it out for the next marker.
        assert_eq!(d.get_next_readable_shard(), NextShard::Shard(shard));
    }
    let expected = [
        Action::CreateFile("f".to_string()),
        Action::CopyData { shard: 1, size: 3 },
        Action::CopyData { shard: 2, size: 0 },
        Action::CopyData { shard: 1, size: 7 },
        Action::CopyData { shard: 3, size: 1 },
        Action::InsertFile("f".to_string()),
    ];
    assert_eq!(done, expected.iter().map(|a| format!("{:?}", a)).collect::<Vec<_>>());
    let counted: Vec<u64> = d.stats().iter().map(|s| s.bytes_read).collect();
    assert_eq!(counted, vec![0, 10, 0, 1]);
    assert!(!d.file_is_open());
}

#[test]
fn the_end_of_a_shard_is_noted() {
    let mut d = ImageDeserializer::new(3);
    d.mark_shard_eof(2, 99);
    assert_eq!(d.stats()[2], Shard { bytes_read: 0, transfer_duration_millis: 99 });
    assert_eq!(d.stats()[1], Shard::new());
}

#[test]
fn small_file_steps_are_those_of_the_shard_of_small_files() {
    let mut d = ImageDeserializer::new(2);
    assert!(matches!(
        d.process_small_file_marker(marker(0, name("metadata.json"))),
        Ok(Action::CreateFile(f)) if f == "metadata.json"
    ));
    d.action_done();
    assert!(matches!(
        d.process_small_file_marker(marker(1, Body::FileData(6))),
        Ok(Action::ReadMetadata { size: 6 })
    ));
    assert_eq!(d.stats()[0].bytes_read, 0);
    d.action_done();
    assert_eq!(d.stats()[0].bytes_read, 6);
    assert!(matches!(
        d.process_small_file_marker(marker(2, Body::FileEof(true))),
        Ok(Action::DropFile(f)) if f == "metadata.json"
    ));
}
