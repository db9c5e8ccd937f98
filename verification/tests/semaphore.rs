use image_streamer::semaphore::{memory_budget, Semaphore, MB};

#[test]
fn only_what_is_free_is_granted() {
    let mut s = Semaphore::new(10);
    assert!(s.acquire(4));
    assert!(s.acquire(6));
    assert_eq!(s.available(), 0);
    assert!(!s.acquire(1));
    assert!(s.acquire(0));
    assert_eq!(s.available(), 0);
}

#[test]
fn release_undoes_acquire() {
    let mut s = Semaphore::new(10);
    assert!(s.acquire(7));
    assert_eq!(s.available(), 3);
    s.release(7);
    assert_eq!(s.available(), 10);
}

#[test]
fn never_more_is_free_than_at_the_beginning() {
    let mut s = Semaphore::new(10);
    s.release(5);
    assert_eq!(s.available(), 10);
    assert!(s.acquire(2));
    s.release(100);
    assert_eq!(s.available(), 10);
    assert!(!s.acquire(11));
}

#[test]
fn memory_in_use_stays_within_the_budget() {
    let limit: isize = 100;
    let mut s = Semaphore::new(limit);
    let mut held: Vec<isize> = vec![];
    let mut x: u32 = 12345;
    for _ in 0..1000 {
        x = x.wrapping_mul(1664525).wrapping_add(1013904223);
        let want = (x >> 16) as isize % 40;
        if x & 0x100 == 0 && !held.is_empty() {
            s.release(held.remove(0));
        } else if s.acquire(want) {
            held.push(want);
        }
        let in_use: isize = held.iter().sum();
        assert!(in_use <= limit);
        assert_eq!(s.available(), limit - in_use);
    }
}

#[test]
fn giving_back_what_was_not_taken_lets_more_be_taken() {
    let mut s = Semaphore::new(10);
    assert!(s.acquire(10));
    s.release(3);
    assert!(s.acquire(3));
    assert!(!s.acquire(1));
}

#[test]
fn the_budget_is_in_whole_megabytes() {
    assert_eq!(MB, 1048576);
    assert_eq!(memory_budget(Some(3), 0), 3145728);
    assert_eq!(memory_budget(Some(0), 5000000), 0);
    assert_eq!(memory_budget(None, 5000000), 4194304);
    assert_eq!(memory_budget(None, 1048575), 0);
    assert_eq!(memory_budget(None, 1048576), 1048576);
}
