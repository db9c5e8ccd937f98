use image_streamer::image_store::fs_parallel::{File, FileContent, CHUNK_SIZE};
use image_streamer::semaphore::Semaphore;
use image_streamer::serve::{
    send_over_chunks, FileStatus, ImageServer, ReceiverEvent, Reply, SendStep, ServeError, Transfer,
};
use std::collections::VecDeque;

fn server(files: &[&str]) -> ImageServer {
    ImageServer::new(files.iter().map(|f| f.to_string()).collect())
}

fn content(bytes: &[u8]) -> FileContent {
    FileContent::Content(bytes.to_vec())
}

fn ask(s: &mut ImageServer, name: &str) -> Result<Reply, ServeError> {
    s.request(Some(name.to_string()))
}

fn ready(reply: Reply) -> Transfer {
    match reply {
        Reply::File { exists: true, status: FileStatus::Ready, transfer: Some(t) } => t,
        other => panic!("{:?}", other),
    }
}

#[test]
fn everything_before_the_end_is_sent() {
    let t = send_over_chunks(VecDeque::new());
    assert_eq!((t.data.len(), t.done), (0, false));
    let t = send_over_chunks(VecDeque::from(vec![content(b"ab"), content(b"c")]));
    assert_eq!((t.data, t.done), (vec![b"ab".to_vec(), b"c".to_vec()], false));
    let t = send_over_chunks(VecDeque::from(vec![content(b"ab"), FileContent::Eof, content(b"c")]));
    assert_eq!((t.data, t.done), (vec![b"ab".to_vec()], true));
    let t = send_over_chunks(VecDeque::from(vec![FileContent::Eof]));
    assert_eq!((t.data.len(), t.done), (0, true));
}

#[test]
fn a_client_that_is_gone_is_ignored() {
    assert!(matches!(server(&["a"]).request(None), Ok(Reply::Ignore)));
}

#[test]
fn the_listener_can_be_stopped() {
    let mut s = server(&["stop-listener"]);
    s.store_chunk("stop-listener".to_string(), FileContent::Eof);
    assert!(matches!(ask(&mut s, "stop-listener"), Ok(Reply::StopListener)));
}

#[test]
fn patterns_ask_for_a_list() {
    let mut s = server(&["core-1.img", "core-23.img", "pages.img", "a*"]);
    let cases: [(&str, &[&str]); 9] = [
        ("", &["core-1.img", "core-23.img", "pages.img", "a*"]),
        ("*", &["core-1.img", "core-23.img", "pages.img", "a*"]),
        ("***", &["core-1.img", "core-23.img", "pages.img", "a*"]),
        ("core-*", &["core-1.img", "core-23.img"]),
        ("core-*.img", &["core-1.img", "core-23.img"]),
        ("*2*", &["core-23.img"]),
        ("*.img*", &["core-1.img", "core-23.img", "pages.img"]),
        ("a*", &["a*"]),
        ("x*", &[]),
    ];
    for (pattern, expected) in cases {
        match ask(&mut s, pattern) {
            Ok(Reply::FileList(names)) => assert_eq!(names, expected, "{}", pattern),
            other => panic!("{:?}", other),
        }
    }
}

#[test]
fn unlisted_files_do_not_exist() {
    let mut s = server(&["a"]);
    s.store_chunk("b".to_string(), content(b"x"));
    assert!(matches!(
        ask(&mut s, "b"),
        Ok(Reply::File { exists: false, status: FileStatus::DoesNotExist, transfer: None })
    ));
}

#[test]
fn files_of_which_nothing_has_come_are_not_ready() {
    let mut s = server(&["a"]);
    for _ in 0..2 {
        assert!(matches!(
            ask(&mut s, "a"),
            Ok(Reply::File { exists: true, status: FileStatus::NotReady, transfer: None })
        ));
    }
}

#[test]
fn a_complete_file_is_served_at_once() {
    let mut s = server(&["a", "b"]);
    s.store_chunk("a".to_string(), content(b"1"));
    s.store_chunk("b".to_string(), content(b"x"));
    s.store_chunk("a".to_string(), content(b"23"));
    s.store_chunk("a".to_string(), FileContent::Eof);
    let t = ready(ask(&mut s, "a").unwrap());
    assert_eq!((t.data.concat(), t.done), (b"123".to_vec(), true));
    assert!(s.feed_open_files().is_empty());
}

#[test]
fn a_file_is_not_served_twice() {
    let mut s = server(&["a"]);
    s.store_chunk("a".to_string(), FileContent::Eof);
    ready(ask(&mut s, "a").unwrap());
    match ask(&mut s, "a") {
        Err(e) => assert_eq!(
            e.message(),
            "Client is requesting the image file `a` multiple times. \
             This is not allowed to keep the memory usage low"
        ),
        other => panic!("{:?}", other),
    }
    // That holds while the file is open, too.
    let mut s = server(&["a"]);
    s.store_chunk("a".to_string(), content(b"1"));
    ready(ask(&mut s, "a").unwrap());
    assert!(matches!(ask(&mut s, "a"), Err(ServeError::RequestedTwice(f)) if f == "a"));
}

#[test]
fn an_open_file_is_fed_until_its_end() {
    let mut s = server(&["a", "b"]);
    s.store_chunk("a".to_string(), content(b"1"));
    s.store_chunk("b".to_string(), content(b"x"));
    let mut got = ready(ask(&mut s, "a").unwrap()).data.concat();
    ready(ask(&mut s, "b").unwrap());

    let feeds = s.feed_open_files();
    assert!(feeds.iter().all(|t| t.is_none()));
    assert_eq!(feeds.len(), 2);

    s.store_chunk("a".to_string(), content(b"2"));
    let mut feeds = s.feed_open_files();
    assert!(feeds[1].is_none());
    let t = feeds.remove(0).unwrap();
    assert!(!t.done);
    got.extend(t.data.concat());

    s.store_chunk("a".to_string(), content(b"3"));
    s.store_chunk("a".to_string(), FileContent::Eof);
    let mut feeds = s.feed_open_files();
    let t = feeds.remove(0).unwrap();
    assert!(t.done);
    got.extend(t.data.concat());
    assert_eq!(got, b"123");

    // Only `b` is still open.
    s.store_chunk("b".to_string(), FileContent::Eof);
    let feeds = s.feed_open_files();
    assert_eq!(feeds.len(), 1);
    assert!(feeds[0].as_ref().unwrap().done);
    assert!(s.feed_open_files().is_empty());
}

#[test]
fn what_was_received_is_what_clients_get() {
    let files = ["a", "b", "c"];
    let mut s = server(&files);
    let mut sent: Vec<Vec<u8>> = vec![vec![]; 3];
    let mut got: Vec<Vec<u8>> = vec![vec![]; 3];
    let mut served = vec![0; 3];
    let mut open: Vec<usize> = vec![];
    let mut x: u32 = 99;
    for round in 0..300u32 {
        x = x.wrapping_mul(1664525).wrapping_add(1013904223);
        let f = (x >> 20) as usize % 3;
        if round < 200 {
            let chunk = vec![x as u8; (x >> 8) as usize % 5];
            sent[f].extend_from_slice(&chunk);
            s.store_chunk(files[f].to_string(), FileContent::Content(chunk));
        } else if round == 200 {
            for f in files {
                s.store_chunk(f.to_string(), FileContent::Eof);
            }
        }
        let feeds = s.feed_open_files();
        let mut still = vec![];
        for (k, feed) in feeds.into_iter().enumerate() {
            match feed {
                Some(t) => {
                    got[open[k]].extend(t.data.concat());
                    if !t.done {
                        still.push(open[k]);
                    }
                }
                None => still.push(open[k]),
            }
        }
        open = still;
        if x & 0x40 == 0 {
            let f = (x >> 12) as usize % 3;
            match ask(&mut s, files[f]) {
                Ok(Reply::File { transfer: Some(t), .. }) => {
                    served[f] += 1;
                    got[f].extend(t.data.concat());
                    if !t.done {
                        open.push(f);
                    }
                }
                Ok(_) => assert_eq!(served[f], 0),
                Err(_) => assert_eq!(served[f], 1),
            }
        }
    }
    assert_eq!(served, vec![1, 1, 1]);
    assert_eq!(got, sent);
    assert!(open.is_empty());
}

#[test]
fn events_of_the_channel_are_taken_in() {
    let mut s = server(&["a"]);
    assert!(s.receiver_is_open());
    assert!(s.receive(ReceiverEvent::Chunk("a".to_string(), content(b"1"))));
    assert!(!s.receive(ReceiverEvent::Empty));
    assert!(s.receiver_is_open());
    assert!(!s.receive(ReceiverEvent::Disconnected));
    assert!(!s.receiver_is_open());
    assert_eq!(ready(ask(&mut s, "a").unwrap()).data.concat(), b"1");
}

/// Sends a transfer to a pipe that takes the first `takes` chunks.
fn send(t: &Transfer, takes: usize, s: &mut Semaphore) -> (Vec<u8>, SendStep) {
    let mut pipe = vec![];
    let mut step = t.first_step();
    while let SendStep::Write(i) = step {
        let written = i < takes;
        if written {
            pipe.extend_from_slice(&t.data[i]);
        }
        step = t.after_write(i, written, s);
    }
    (pipe, step)
}

#[test]
fn what_is_sent_is_given_back_to_the_budget() {
    let mut s = Semaphore::new(10);
    assert!(s.acquire(8));
    let queue = vec![content(&[1, 2]), content(&[3]), FileContent::Eof, content(&[9])];
    let t = send_over_chunks(VecDeque::from(queue));
    assert_eq!(send(&t, 9, &mut s), (vec![1, 2, 3], SendStep::Complete));
    assert_eq!(s.available(), 5);

    let t = send_over_chunks(VecDeque::from(vec![content(&[4])]));
    assert_eq!(send(&t, 9, &mut s), (vec![4], SendStep::Open));
    assert_eq!(s.available(), 6);

    let t = send_over_chunks(VecDeque::new());
    assert_eq!(send(&t, 9, &mut s), (vec![], SendStep::Open));
    let t = send_over_chunks(VecDeque::from(vec![FileContent::Eof]));
    assert_eq!(send(&t, 9, &mut s), (vec![], SendStep::Complete));
    assert_eq!(s.available(), 6);
}

#[test]
fn what_cannot_be_sent_is_not_given_back() {
    let mut s = Semaphore::new(10);
    assert!(s.acquire(8));
    let queue = vec![content(&[1, 2]), content(&[3]), content(&[4]), FileContent::Eof];
    let t = send_over_chunks(VecDeque::from(queue));
    assert_eq!(send(&t, 1, &mut s), (vec![1, 2], SendStep::Failed));
    assert_eq!(s.available(), 4);
}

#[test]
fn a_large_file_gives_back_what_it_takes() {
    let mut s = Semaphore::new(100 * CHUNK_SIZE as isize);
    let file = File::new("f".to_string(), (), (), false);
    let mut queue = VecDeque::new();
    for size in [5, 2 * CHUNK_SIZE + 1, 0, CHUNK_SIZE] {
        for step in file.write_all_from_pipe(size) {
            assert!(s.acquire(step.acquire.unwrap()));
            queue.push_back(file.chunk_message(vec![7; step.size]).1);
        }
    }
    assert_eq!(s.available(), 97 * CHUNK_SIZE as isize - 6);
    queue.push_back(FileContent::Eof);
    let t = send_over_chunks(queue);
    let (pipe, step) = send(&t, usize::MAX, &mut s);
    assert_eq!((pipe.len(), step), (3 * CHUNK_SIZE + 6, SendStep::Complete));
    assert_eq!(s.available(), 100 * CHUNK_SIZE as isize);
}

#[test]
fn serving_is_over_when_nobody_is_left() {
    let mut s = server(&["a"]);
    assert!(s.is_done(false, 0));
    assert!(!s.is_done(true, 0));
    assert!(!s.is_done(false, 1));
    s.store_chunk("a".to_string(), content(b"1"));
    ready(ask(&mut s, "a").unwrap());
    assert!(!s.is_done(false, 0));
    s.receive(ReceiverEvent::Disconnected);
    assert!(s.is_done(false, 0));
    assert!(!s.is_done(true, 0));
}
