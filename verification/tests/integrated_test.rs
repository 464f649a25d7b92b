use wrr_queue::{Instance, WrrQueue};

#[test]
fn test_usage() {
    let mut queue = WrrQueue::new();
    queue.insert_many(vec![
        Instance::from_pair("a".to_string(), 1usize),
        Instance::from_pair("b".to_string(), 2usize),
    ]);
    let mut expected = ["b", "a", "b"].iter().cycle();
    for _ in 0..20 {
        assert_eq!(expected.next().unwrap(), queue.select().unwrap().data());
    }
}

#[test]
fn test_all_equal() {
    let mut queue = WrrQueue::new();
    queue.insert_many(vec![
        Instance::from_pair("a".to_string(), 1usize),
        Instance::from_pair("b".to_string(), 1usize),
    ]);
    let mut expected = ["a", "b"].iter().cycle();
    for _ in 0..20 {
        assert_eq!(expected.next().unwrap(), queue.select().unwrap().data());
    }
}

#[test]
fn complex_test() {
    let mut queue = WrrQueue::new();
    queue.insert_many(vec![Instance::from_pair("a", 1usize), Instance::from_pair("b", 2usize)]);
    queue.insert(Instance::from_pair("c", 3usize));
    queue.insert_many(vec![Instance::from_pair("d", 5usize), Instance::from_pair("e", 2usize)]);
    let mut expected = [
        "d", "c", "b", "d", "e", "d", "c", "a", "d", "b", "e", "c", "d",
    ]
    .iter()
    .cycle();
    for _ in 0..30 {
        let select = queue.select();
        assert_eq!(expected.next().unwrap(), select.unwrap().data(),);
    }
}
