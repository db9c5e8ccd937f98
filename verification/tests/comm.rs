use image_streamer::comm::{
    copy_step, last_part, shard_file_name, CopyStep, Part, PartUpload, ReadOutcome, ShardReader,
    ShardWriter, UploadError, MIN_PART_SIZE, READ_SIZE,
};
use std::io::{Cursor, Read, Write};

/// Bytes that do not compress.
fn noise(n: usize) -> Vec<u8> {
    let mut x: u64 = 0x9e3779b97f4a7c15;
    (0..n)
        .map(|_| {
            x ^= x << 13;
            x ^= x >> 7;
            x ^= x << 17;
            (x >> 32) as u8
        })
        .collect()
}

/// Uploads a shard in pieces of the given size.
fn upload(shard: &[u8], piece: usize) -> Vec<Part> {
    let mut u = PartUpload::new();
    let mut parts = vec![];
    for bytes in shard.chunks(piece) {
        parts.extend(u.push(bytes).unwrap());
        assert_eq!(u.part_number(), parts.len() as i32 + 1);
    }
    assert_eq!(u.total_bytes_read(), shard.len() as u64);
    parts.extend(u.finish().unwrap());
    parts
}

fn object(parts: &[Part]) -> Vec<u8> {
    parts.iter().flat_map(|p| p.data.clone()).collect()
}

/// Reads a shard back, with how the reading ended.
fn read_back(object: Vec<u8>) -> (Vec<u8>, CopyStep) {
    let mut r = ShardReader::new(object);
    let mut shard = vec![];
    loop {
        match r.read_next() {
            CopyStep::Write(n) => {
                assert!(0 < n && n <= READ_SIZE);
                shard.extend_from_slice(r.piece(n));
            }
            end => return (shard, end),
        }
    }
}

#[test]
fn shards_have_names() {
    assert_eq!(shard_file_name(0), "img-0.lz4");
    assert_eq!(shard_file_name(7), "img-7.lz4");
    assert_eq!(shard_file_name(10), "img-10.lz4");
    assert_eq!(shard_file_name(120), "img-120.lz4");
    for i in [0usize, 9, 99, 100, 12345, usize::MAX] {
        assert_eq!(shard_file_name(i), format!("img-{}.lz4", i));
    }
}

#[test]
fn copying_goes_on_until_the_end() {
    assert_eq!(copy_step(ReadOutcome::Read(5)), CopyStep::Write(5));
    assert_eq!(copy_step(ReadOutcome::Read(0)), CopyStep::Finish);
    assert_eq!(copy_step(ReadOutcome::Interrupted), CopyStep::Retry);
    assert_eq!(copy_step(ReadOutcome::Failed), CopyStep::Abort);
}

#[test]
fn upload_errors_have_messages() {
    assert_eq!(UploadError::Write.message(), "Unable to write bytes");
    assert_eq!(UploadError::Flush.message(), "Failed to flush encoder");
}

#[test]
fn the_last_part_is_left_out_if_the_encoder_fails() {
    let part = last_part(3, vec![1, 2], true).unwrap();
    assert_eq!((part.number, part.data), (3, vec![1, 2]));
    assert!(last_part(3, vec![1, 2], false).is_none());
}

#[test]
fn an_uploaded_shard_comes_back() {
    let shard = b"hello hello hello hello hello hello hello hello".repeat(1000);
    for piece in [1000usize, 70000, MIN_PART_SIZE] {
        let parts = upload(&shard, piece);
        assert_eq!(parts.len(), 1);
        assert_eq!(parts[0].number, 1);
        let object = object(&parts);
        assert_ne!(object, shard);
        assert!(object.len() < shard.len());
        assert_eq!(read_back(object.clone()), (shard.clone(), CopyStep::Finish));
        let mut decoded = vec![];
        lz4_flex::frame::FrameDecoder::new(Cursor::new(object)).read_to_end(&mut decoded).unwrap();
        assert_eq!(decoded, shard);
    }
}

#[test]
fn a_large_shard_is_cut_into_parts() {
    let shard = noise(2 * MIN_PART_SIZE + 1000);
    let parts = upload(&shard, MIN_PART_SIZE);
    assert_eq!(parts.len(), 3);
    for (i, part) in parts.iter().enumerate() {
        assert_eq!(part.number, i as i32 + 1);
        if i + 1 < parts.len() {
            assert!(part.data.len() >= MIN_PART_SIZE);
        }
    }
    let (back, end) = read_back(object(&parts));
    assert!(back == shard);
    assert_eq!(end, CopyStep::Finish);
}

#[test]
fn parts_are_cut_off_only_when_large_enough() {
    let mut u = PartUpload::new();
    assert!(u.take_full_part().is_none());
    assert!(u.push(&noise(MIN_PART_SIZE / 2)).unwrap().is_none());
    assert!(u.take_full_part().is_none());
    let part = u.push(&noise(MIN_PART_SIZE / 2)).unwrap().unwrap();
    assert_eq!(part.number, 1);
    assert!(part.data.len() >= MIN_PART_SIZE);
    assert_eq!(u.part_number(), 2);
    assert!(u.take_full_part().is_none());
    let last = u.finish().unwrap().unwrap();
    assert_eq!((last.number, last.data.len()), (2, 0));
}

#[test]
fn the_last_part_has_no_end_mark() {
    let shard = b"some bytes";
    let parts = upload(shard, 100);
    let mut w = ShardWriter::new();
    assert_eq!(object(&parts), w.push(shard).unwrap());
}

#[test]
fn an_empty_shard_comes_back() {
    let parts = upload(b"", 10);
    assert_eq!(parts.len(), 1);
    assert_eq!(read_back(object(&parts)), (vec![], CopyStep::Finish));
}

#[test]
fn whole_frames_are_read() {
    let shard = noise(3 * READ_SIZE + 5);
    let mut encoder = lz4_flex::frame::FrameEncoder::new(Vec::new());
    encoder.write_all(&shard).unwrap();
    let object = encoder.finish().unwrap();
    let (back, end) = read_back(object);
    assert!(back == shard);
    assert_eq!(end, CopyStep::Finish);
}

#[test]
fn a_written_shard_comes_back() {
    for shard in [b"".to_vec(), b"abc".repeat(50000), noise(200000)] {
        let mut w = ShardWriter::new();
        let mut object = vec![];
        for (i, bytes) in shard.chunks(70001).enumerate() {
            object.extend(w.push(bytes).unwrap());
            let so_far = shard[..(i * 70001 + bytes.len())].to_vec();
            assert!(read_back(object.clone()) == (so_far, CopyStep::Finish));
        }
        let end = w.finish().unwrap();
        assert!(end.ends_with(&[0, 0, 0, 0]));
        assert_eq!(end.len() == 4, !shard.is_empty());
        object.extend(end);
        assert!(read_back(object.clone()) == (shard.clone(), CopyStep::Finish));
        let mut decoded = vec![];
        lz4_flex::frame::FrameDecoder::new(Cursor::new(object)).read_to_end(&mut decoded).unwrap();
        assert!(decoded == shard);
    }
}

#[test]
fn a_damaged_object_is_not_read_to_its_end() {
    assert_eq!(read_back(b"no frame at all".to_vec()), (vec![], CopyStep::Abort));
    let shard = noise(100000);
    let mut damaged = object(&upload(&shard, 30000));
    damaged.truncate(damaged.len() - 1);
    let (back, end) = read_back(damaged);
    assert_eq!(end, CopyStep::Abort);
    assert!(back.len() < shard.len());
    assert!(shard.starts_with(&back));
}
