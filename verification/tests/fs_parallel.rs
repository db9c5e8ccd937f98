use image_streamer::image_store::fs_parallel::{ChunkStep, File, FileContent, FileSender, CHUNK_SIZE};

type Sender = std::sync::mpsc::Sender<(String, FileContent)>;

fn sender() -> (
    FileSender<Sender, u8>,
    std::sync::mpsc::Receiver<(String, FileContent)>,
    std::sync::mpsc::Receiver<(String, FileContent)>,
) {
    let (large, large_receiver) = std::sync::mpsc::channel();
    let (small, small_receiver) = std::sync::mpsc::channel();
    (FileSender::new(large, small, 42), large_receiver, small_receiver)
}

#[test]
fn small_files_go_through_their_own_channel() {
    let (mut s, large, small) = sender();
    let file = s.create("inventory.img", true);
    assert_eq!(file.filename, "inventory.img");
    assert!(file.is_small);
    assert_eq!(file.semaphore, 42);
    file.sender.send(file.chunk_message(b"abc".to_vec())).unwrap();
    let (channel, message) = s.insert("inventory.img".to_string(), true);
    channel.send(message).unwrap();
    assert!(matches!(small.try_recv(), Ok((n, FileContent::Content(c)))
        if n == "inventory.img" && c == b"abc"));
    assert!(matches!(small.try_recv(), Ok((n, FileContent::Eof)) if n == "inventory.img"));
    assert!(large.try_recv().is_err());
    assert!(s.is_open(true));
}

#[test]
fn the_first_large_file_closes_the_channel_of_small_files() {
    let (mut s, large, small) = sender();
    let file = s.create("pages-1.img", false);
    assert!(!file.is_small);
    assert!(!s.is_open(true));
    assert!(s.is_open(false));
    assert!(matches!(small.try_recv(), Err(std::sync::mpsc::TryRecvError::Disconnected)));
    let (channel, message) = s.insert("pages-1.img".to_string(), false);
    channel.send(message).unwrap();
    assert!(matches!(large.try_recv(), Ok((n, FileContent::Eof)) if n == "pages-1.img"));
    drop(file);
    s.close_senders();
    assert!(matches!(large.try_recv(), Err(std::sync::mpsc::TryRecvError::Disconnected)));
}

#[test]
fn channels_can_be_closed() {
    let (mut s, large, small) = sender();
    s.close_small_file_sender();
    assert!(matches!(small.try_recv(), Err(std::sync::mpsc::TryRecvError::Disconnected)));
    assert!(matches!(large.try_recv(), Err(std::sync::mpsc::TryRecvError::Empty)));
    s.close_senders();
    assert!(matches!(large.try_recv(), Err(std::sync::mpsc::TryRecvError::Disconnected)));
}

fn plan(size: usize, is_small: bool) -> Vec<ChunkStep> {
    File::new("f".to_string(), 0u8, 0u8, is_small).write_all_from_pipe(size)
}

#[test]
fn large_files_count_against_the_budget() {
    assert_eq!(CHUNK_SIZE, 10 * 1024 * 1024);
    assert_eq!(plan(0, false), vec![]);
    assert_eq!(plan(1, false), vec![ChunkStep { size: 1, acquire: Some(1) }]);
    let full = ChunkStep { size: CHUNK_SIZE, acquire: Some(10485760) };
    assert_eq!(plan(CHUNK_SIZE, false), vec![full]);
    assert_eq!(plan(CHUNK_SIZE + 1, false), vec![full, ChunkStep { size: 1, acquire: Some(1) }]);
    assert_eq!(plan(3 * CHUNK_SIZE, false), vec![full; 3]);
}

#[test]
fn small_files_do_not_count_against_the_budget() {
    assert_eq!(plan(5, true), vec![ChunkStep { size: 5, acquire: None }]);
    assert_eq!(plan(2 * CHUNK_SIZE, true), vec![ChunkStep { size: CHUNK_SIZE, acquire: None }; 2]);
}

#[test]
fn chunks_make_up_the_data() {
    for size in [0, 1, CHUNK_SIZE - 1, CHUNK_SIZE, CHUNK_SIZE + 1, 5 * CHUNK_SIZE + 17] {
        let steps = plan(size, false);
        assert_eq!(steps.iter().map(|s| s.size).sum::<usize>(), size);
        assert!(steps.iter().all(|s| 0 < s.size && s.size <= CHUNK_SIZE));
        assert!(steps.iter().all(|s| s.acquire == Some(s.size as isize)));
    }
}
