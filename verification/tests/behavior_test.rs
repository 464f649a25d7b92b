use wrr_queue::{Instance, Weight, WrrQueue, DEFAULT_WEIGHT};

#[test]
fn instance_accessors() {
    let plain = Instance::new("payload");
    assert_eq!(&"payload", plain.data());
    assert_eq!(DEFAULT_WEIGHT, plain.weight().get());

    let weighted = Instance::new_with_weight(String::from("heavy"), Weight::new(4));
    assert_eq!(&String::from("heavy"), weighted.data());
    assert_eq!(4, weighted.weight().get());

    let paired = Instance::from_pair("pair", 3usize);
    assert_eq!(&"pair", paired.data());
    assert_eq!(3, paired.weight().get());
}

#[test]
fn empty_queue_selects_nothing() {
    let mut queue: WrrQueue<String> = WrrQueue::new();
    for _ in 0..5 {
        assert!(queue.select().is_none());
    }
}

#[test]
fn nonempty_queue_always_selects_something() {
    let mut queue = WrrQueue::new();
    queue.insert_many(vec![
        Instance::from_pair("a".to_string(), 2usize),
        Instance::from_pair("b".to_string(), 5usize),
    ]);
    for _ in 0..40 {
        let picked = queue.select();
        let data = picked.unwrap().data();
        assert!(data == "a" || data == "b");
    }
}

#[test]
fn duplicate_insert_is_rejected() {
    let mut queue = WrrQueue::new();
    assert!(queue.insert(Instance::from_pair("a".to_string(), 1usize)));
    // Identity is the data alone: a different weight does not make it new.
    assert!(!queue.insert(Instance::from_pair("a".to_string(), 5usize)));
    // The queue still holds the single original instance.
    for _ in 0..4 {
        let picked = queue.select().unwrap();
        assert_eq!("a", picked.data());
        assert_eq!(1, picked.weight().get());
    }
}

#[test]
fn insert_many_reports_duplicates_but_keeps_fresh_ones() {
    let mut queue = WrrQueue::new();
    assert!(queue.insert(Instance::from_pair("a".to_string(), 1usize)));
    // One duplicate makes the batch report failure, yet the fresh element
    // is still inserted.
    assert!(!queue.insert_many(vec![
        Instance::from_pair("a".to_string(), 1usize),
        Instance::from_pair("b".to_string(), 1usize),
    ]));
    let mut expected = ["a", "b"].iter().cycle();
    for _ in 0..10 {
        assert_eq!(expected.next().unwrap(), queue.select().unwrap().data());
    }
}

#[test]
fn delete_present_instance_rebuilds() {
    let mut queue = WrrQueue::new();
    queue.insert_many(vec![
        Instance::from_pair("a".to_string(), 1usize),
        Instance::from_pair("b".to_string(), 2usize),
    ]);
    assert!(queue.delete_instance(Instance::from_pair("b".to_string(), 2usize)));
    for _ in 0..6 {
        assert_eq!("a", queue.select().unwrap().data());
    }
}

#[test]
fn delete_absent_instance_reports_failure() {
    let mut queue = WrrQueue::new();
    queue.insert_many(vec![
        Instance::from_pair("a".to_string(), 1usize),
        Instance::from_pair("b".to_string(), 2usize),
    ]);
    assert!(!queue.delete_instance(Instance::from_pair("c".to_string(), 1usize)));
    // The schedule is untouched: selection still follows the b, a, b cycle.
    let mut expected = ["b", "a", "b"].iter().cycle();
    for _ in 0..9 {
        assert_eq!(expected.next().unwrap(), queue.select().unwrap().data());
    }
}

#[test]
fn clear_resets_to_empty_behavior() {
    let mut queue = WrrQueue::new();
    queue.insert_many(vec![
        Instance::from_pair("a".to_string(), 1usize),
        Instance::from_pair("b".to_string(), 2usize),
    ]);
    queue.select();
    queue.select();
    queue.clear_instance();
    assert!(queue.select().is_none());
    // Re-inserting starts over from a reset cursor.
    queue.insert_many(vec![
        Instance::from_pair("a".to_string(), 1usize),
        Instance::from_pair("b".to_string(), 2usize),
    ]);
    let mut expected = ["b", "a", "b"].iter().cycle();
    for _ in 0..6 {
        assert_eq!(expected.next().unwrap(), queue.select().unwrap().data());
    }
}

#[test]
fn counts_track_weights_over_a_period() {
    let mut queue = WrrQueue::new();
    queue.insert_many(vec![
        Instance::from_pair("a".to_string(), 1usize),
        Instance::from_pair("b".to_string(), 2usize),
        Instance::from_pair("c".to_string(), 3usize),
    ]);
    // lcm(1, 2, 3) = 6, so one full schedule period has 7 slots.
    let mut count_a = 0usize;
    let mut count_b = 0usize;
    let mut count_c = 0usize;
    for _ in 0..7 {
        let data: String = queue.select().unwrap().data().clone();
        if data == "a" {
            count_a += 1;
        } else if data == "b" {
            count_b += 1;
        } else {
            count_c += 1;
        }
    }
    // Proportional to 1 : 2 : 3 within the rounding of the extra slot.
    assert_eq!(1, count_a);
    assert_eq!(2, count_b);
    assert_eq!(4, count_c);
}

#[test]
fn three_equal_weights_round_robin() {
    let mut queue = WrrQueue::new();
    queue.insert_many(vec![
        Instance::from_pair("a".to_string(), 2usize),
        Instance::from_pair("b".to_string(), 2usize),
        Instance::from_pair("c".to_string(), 2usize),
    ]);
    let mut expected = ["a", "b", "c"].iter().cycle();
    for _ in 0..12 {
        assert_eq!(expected.next().unwrap(), queue.select().unwrap().data());
    }
}

#[test]
fn schedule_has_lcm_plus_one_slots() {
    let mut queue = WrrQueue::new();
    queue.insert_many(vec![
        Instance::from_pair("a".to_string(), 2usize),
        Instance::from_pair("b".to_string(), 3usize),
    ]);
    // lcm(2, 3) = 6 gives a 7-slot schedule; the 8th selection wraps back
    // to the first slot.
    let expected = ["b", "a", "b", "a", "b", "b", "a", "b"];
    for want in expected.iter() {
        assert_eq!(want, queue.select().unwrap().data());
    }
}
