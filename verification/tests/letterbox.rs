use mtdynamic::letterbox::{Bucket, Letterbox, Push, BUCKET_COUNT, DEFAULT_THREADS, NUM_SAMPLES};

fn bits(x: f32) -> u32 {
    x.to_bits()
}

#[test]
fn new_letterbox_is_empty() {
    let lb: Letterbox<u8> = Letterbox::new();
    assert_eq!(lb.len(), 0);
    assert_eq!(lb.buckets.len(), BUCKET_COUNT);
    assert!(lb.get_threads(42).is_none());
    assert_eq!(lb.thread_count(42), DEFAULT_THREADS as u32);
}

#[test]
fn push_inserts_then_appends() {
    let mut lb: Letterbox<&str> = Letterbox::new();
    assert_eq!(lb.push(7, 0xdead, bits(1.5), "a"), Push::Inserted);
    assert_eq!(lb.len(), 1);
    assert_eq!(lb.get_threads(0xdead), Some(&DEFAULT_THREADS));
    assert_eq!(lb.push(7, 0xdead, bits(2.5), "b"), Push::Appended);
    assert_eq!(lb.len(), 1);
    let inc = lb.get_incoming_mut(0xdead).expect("held");
    assert_eq!(inc.len, 2);
    assert_eq!(f32::from_bits(inc.data[0]), 1.5);
    assert_eq!(f32::from_bits(inc.data[1]), 2.5);
    // The controller of the first push stays.
    let held = lb.buckets.iter().find_map(|b| match b {
        Bucket::Occupied(_, 0xdead, c, _, _) => Some(*c),
        _ => None,
    });
    assert_eq!(held, Some("a"));
}

#[test]
fn twentieth_sample_fills() {
    let mut lb: Letterbox<()> = Letterbox::new();
    assert_eq!(lb.push(1, 99, 0, ()), Push::Inserted);
    for i in 1..NUM_SAMPLES - 1 {
        assert_eq!(lb.push(1, 99, i as u32, ()), Push::Appended);
    }
    assert_eq!(lb.push(1, 99, 19, ()), Push::Filled);
    let inc = lb.get_incoming_mut(99).unwrap();
    assert_eq!(inc.len, 0);
    for i in 0..NUM_SAMPLES {
        assert_eq!(inc.data[i], i as u32);
    }
    // The samples start over.
    assert_eq!(lb.push(1, 99, 100, ()), Push::Appended);
    assert_eq!(lb.get_incoming_mut(99).unwrap().len, 1);
}

#[test]
fn many_keys_are_found_again() {
    let mut lb: Letterbox<usize> = Letterbox::new();
    for k in 0..BUCKET_COUNT - 1 {
        assert_eq!(lb.push(3, k * 17 + 5, 0, k), Push::Inserted);
    }
    assert_eq!(lb.len(), BUCKET_COUNT - 1);
    for k in 0..BUCKET_COUNT - 1 {
        assert_eq!(lb.thread_count(k * 17 + 5), 16);
        assert!(lb.get_incoming_mut(k * 17 + 5).is_some());
    }
    assert!(lb.get_threads(4).is_none());
}

#[test]
fn free_pid_removes_only_that_process() {
    let mut lb: Letterbox<u8> = Letterbox::new();
    lb.push(1, 10, 0, 0);
    lb.push(2, 20, 0, 0);
    lb.push(1, 30, 0, 0);
    assert_eq!(lb.len(), 3);
    lb.free_pid(1);
    assert_eq!(lb.len(), 1);
    assert!(lb.get_threads(10).is_none());
    assert!(lb.get_threads(30).is_none());
    assert!(lb.get_threads(20).is_some());
    // Freed buckets can be used again, and later keys are still found.
    lb.push(3, 10, 0, 0);
    assert!(lb.get_threads(10).is_some());
    assert!(lb.get_threads(20).is_some());
    assert_eq!(lb.len(), 2);
}

#[test]
fn thread_count_reinterprets_negative_counts() {
    let mut lb: Letterbox<u8> = Letterbox::new();
    lb.push(1, 5, 0, 0);
    let (len, mut buckets) = lb.into_parts();
    for b in buckets.iter_mut() {
        if let Bucket::Occupied(_, 5, _, _, t) = b {
            *t = -1;
        }
    }
    let lb = Letterbox::from_parts(len, buckets).expect("sound");
    assert_eq!(lb.thread_count(5), u32::MAX);
}

#[test]
fn parts_round_trip() {
    let mut lb: Letterbox<u8> = Letterbox::new();
    lb.push(1, 5, 0, 0);
    lb.push(1, 6, 0, 0);
    let (len, buckets) = lb.into_parts();
    assert_eq!(len, 2);
    let lb = Letterbox::from_parts(len, buckets).expect("sound");
    assert!(lb.get_threads(5).is_some());
    assert!(lb.get_threads(6).is_some());
}

#[test]
fn from_parts_rejects_unsound_tables() {
    let mut lb: Letterbox<u8> = Letterbox::new();
    lb.push(1, 5, 0, 0);
    let (len, buckets) = lb.into_parts();
    // A wrong count.
    let mut b2: Vec<Bucket<u8>> = Vec::new();
    for b in buckets.iter() {
        b2.push(match b {
            Bucket::Empty => Bucket::Empty,
            Bucket::Tombstone => Bucket::Tombstone,
            Bucket::Occupied(p, k, c, i, t) => Bucket::Occupied(*p, *k, *c, mtdynamic::letterbox::Incoming { len: i.len, data: i.data }, *t),
        });
    }
    assert!(Letterbox::from_parts(len + 1, buckets).is_none());
    // A key held twice.
    let mut dup = b2;
    let free = dup.iter().position(|b| matches!(b, Bucket::Empty)).unwrap();
    dup[free] = Bucket::Occupied(1, 5, 0, mtdynamic::letterbox::Incoming { len: 0, data: [0; 20] }, 16);
    assert!(Letterbox::from_parts(2, dup).is_none());
    // Too few buckets.
    assert!(Letterbox::<u8>::from_parts(0, Vec::new()).is_none());
}

#[test]
fn from_parts_rejects_full_samples() {
    let mut lb: Letterbox<u8> = Letterbox::new();
    lb.push(1, 5, 0, 0);
    let (len, mut buckets) = lb.into_parts();
    for b in buckets.iter_mut() {
        if let Bucket::Occupied(_, _, _, inc, _) = b {
            inc.len = NUM_SAMPLES;
        }
    }
    assert!(Letterbox::from_parts(len, buckets).is_none());
}

#[test]
fn pushes_wake_the_controller_once_per_round() {
    let mut lb: Letterbox<()> = Letterbox::new();
    let rounds = 3;
    let mut filled = 0;
    for i in 0..NUM_SAMPLES * rounds {
        match lb.push(2, 0x400, i as u32, ()) {
            Push::Filled => {
                filled += 1;
                assert_eq!((i + 1) % NUM_SAMPLES, 0);
            }
            Push::Inserted => assert_eq!(i, 0),
            Push::Appended => {}
        }
    }
    assert_eq!(filled, rounds);
    assert_eq!(lb.get_incoming_mut(0x400).unwrap().len, 0);
}
