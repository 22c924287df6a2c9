use data_structs::queue::Queue;
use data_structs::queue::DEFAULT_CAPACITY_QUEUE;

#[test]
fn when_queue_is_created_it_is_empty() {
    let empty_queue = Queue::<i32>::new();

    assert!(empty_queue.is_empty());
    assert_eq!(empty_queue.size(), 0);
}

#[test]
fn test_add_item_to_queue() {
    let mut queue = Queue::<i32>::new();

    queue.add(13);

    assert_eq!(queue.is_empty(), false);
    assert_eq!(queue.size(), 1);
    assert!(queue.contains(13));
}

#[test]
fn test_add_multiple_items_to_queue() {
    let mut queue = Queue::<i32>::new();

    for num in 0..14 {
        queue.add(num);
    }

    assert_eq!(queue.is_empty(), false);
    assert_eq!(queue.size(), 14);
    for num in 0..14 {
        assert!(queue.contains(num));
    }
}

#[test]
fn test_queue_is_full() {
    let mut queue = Queue::<i32>::new();

    for num in 0..DEFAULT_CAPACITY_QUEUE as i32 {
        queue.add(num);
    }

    assert!(queue.is_full());
    assert_eq!(queue.size(), DEFAULT_CAPACITY_QUEUE);
    for num in 0..DEFAULT_CAPACITY_QUEUE as i32 {
        assert!(queue.contains(num));
    }
}

#[test]
fn test_adding_more_items_than_capacity_increases_underlying_queue() {
    let mut queue = Queue::<i32>::new();

    for num in 0..(DEFAULT_CAPACITY_QUEUE + 1) as i32 {
        queue.add(num);
    }

    assert_eq!(queue.is_full(), false, "After reaching full capacity, vector doubles in size.");
    assert_eq!(queue.size(), DEFAULT_CAPACITY_QUEUE + 1);
    assert_eq!(queue.capacity(), DEFAULT_CAPACITY_QUEUE * 2);

    for num in 0..(DEFAULT_CAPACITY_QUEUE + 1) as i32 {
        assert!(
            queue.contains(num),
            "Assert that all elements are present in the resized queue"
        );
    }
}

#[test]
fn test_removing_items_from_an_empty_queue() {
    let mut empty_queue = Queue::<i32>::new();

    let result = empty_queue.remove();

    assert!(empty_queue.is_empty());
    assert!(result.is_none());
}

#[test]
fn test_removing_items_from_queue() {
    let mut queue = Queue::<i32>::new();

    for item in 0..14 {
        queue.add(item);
    }

    let result = queue.remove();

    assert!(result.is_some());
    assert_eq!(result, Some(0));
    assert_eq!(queue.size(), 13);
}

#[test]
fn test_removing_all_items_in_queue_it_is_empty() {
    let mut queue = Queue::<i32>::new();
    for item in 0..14 {
        queue.add(item);
    }

    for item in 0..14 {
        let result = queue.remove();
        assert!(result.is_some());
        assert_eq!(result, Some(item));
    }

    assert!(queue.is_empty());
    assert_eq!(queue.size(), 0);
}

#[test]
fn test_peek_when_empty_queue() {
    let empty_queue = Queue::<i32>::new();

    let result = empty_queue.peek();

    assert!(empty_queue.is_empty());
    assert!(result.is_none());
}

#[test]
fn test_peek_when_queue_has_values() {
    let mut queue = Queue::<i32>::new();
    for item in 0..7 {
        queue.add(item);
    }

    let result = queue.peek();

    assert!(result.is_some());
    assert_eq!(result, Some(6));
    let actual_last_element = queue.peek().unwrap();
    assert_eq!(actual_last_element, 6);
}
