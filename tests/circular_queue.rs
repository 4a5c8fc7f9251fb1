use std::collections::VecDeque;
use std::time::Instant;

use data_structures::linked_list::arena::Arena;
use data_structures::linked_list::circular_queue::{CircularQueue, Direction};
use data_structures::linked_list::vertex::Vertex;

#[test]
fn test_queue_no_size_limit() {
    let mut queue: CircularQueue<i32> = CircularQueue::new(0);

    assert!(queue.is_empty());

    for i in 0..10 {
        queue.insert(i, Direction::Left).unwrap();
    }

    assert_eq!(queue.len(), 10);

    let removed = queue.remove(Direction::Right);
    assert_eq!(removed, Some(0));

    let removed = queue.remove(Direction::Right);
    assert_eq!(removed, Some(1));

    let removed = queue.remove(Direction::Left);
    assert_eq!(removed, Some(2));

    let removed = queue.remove(Direction::Left);
    assert_eq!(removed, Some(9));
}

#[test]
fn test_queue() {
    let mut queue: CircularQueue<i32> = CircularQueue::new(10);

    assert!(queue.is_empty());

    for i in 0..10 {
        queue.insert(i, Direction::Left).unwrap();
    }

    assert_eq!(queue.len(), 10);

    let resul = queue.insert(10, Direction::Left).unwrap_err();
    assert_eq!(resul, "Queue is full");

    let removed = queue.remove(Direction::Right);
    assert_eq!(removed, Some(0));

    let removed = queue.remove(Direction::Right);
    assert_eq!(removed, Some(1));

    let removed = queue.remove(Direction::Left);
    assert_eq!(removed, Some(2));

    let removed = queue.remove(Direction::Left);
    assert_eq!(removed, Some(9));
}

#[test]
fn test_memory_leak() {
    let mut queue: CircularQueue<i32> = CircularQueue::new(10);

    let mut arena = Arena::new();
    let mut vertexes = Vec::new();

    for i in 0..10 {
        let vertex = Vertex::new(&mut arena, i);
        vertexes.push(arena.share(vertex));
        arena.release(vertex);
        queue.insert(i, Direction::Left).unwrap();
    }

    assert_eq!(queue.len(), 10);

    for _ in 0..10 {
        queue.remove(Direction::Right);
    }

    assert_eq!(queue.len(), 0);
    assert!(queue.is_empty());

    // Check if all references are dropped
    assert!(queue.cursor().is_none());

    // Check the reference count of each vertex
    for vertex in vertexes {
        assert_eq!(arena.strong_count(vertex), 1);
    }
}

#[test]
fn test_circular_queue_stress() {

    let max_size = 10_000;
    let iterations = 1_000_000;

    let mut queue: CircularQueue<u32> = CircularQueue::new(max_size);

    let start_time = Instant::now();

    for i in 0..iterations {
        let value = i as u32;

        let result = queue.insert(value, Direction::Right);

        assert!(result.is_ok());

        if queue.is_full() {
            let dequeued_value = queue.remove(Direction::Left).unwrap();

            assert_eq!(dequeued_value, value - (max_size as u32 - 1));
        }
    }

    while !queue.is_empty() {
        queue.remove(Direction::Left);
    }

    assert!(queue.is_empty());

    let duration = start_time.elapsed();
    println!("Stress test completed in {:?}", duration);
}

#[test]
fn test_vec_as_circular_queue_stress() {

    let max_size = 10_000;
    let iterations = 1_000_000;

    let mut vec_queue: Vec<u32> = Vec::new();

    let start_time = Instant::now();

    for i in 0..iterations {
        let value = i as u32;

        vec_queue.push(value);

        if vec_queue.len() == max_size {
            let dequeued_value = vec_queue.remove(0);

            let expected_value = i as u32 - (max_size as u32 - 1);
            assert_eq!(dequeued_value, expected_value);
        }
    }

    vec_queue.clear();
    assert!(vec_queue.is_empty());

    let duration = start_time.elapsed();
    println!("Vec stress test completed in {:?}", duration);
}

#[test]
fn scenario_bounded_three() {
    let mut queue: CircularQueue<i32> = CircularQueue::new(3);
    assert_eq!(queue.insert(1, Direction::Right), Ok(()));
    assert_eq!(queue.insert(2, Direction::Left), Ok(()));
    assert_eq!(queue.insert(3, Direction::Right), Ok(()));
    assert_eq!(queue.insert(4, Direction::Right), Err("Queue is full"));
    assert_eq!(queue.len(), 3);

    assert_eq!(queue.remove(Direction::Left), Some(1));
    assert_eq!(queue.remove(Direction::Right), Some(2));
    assert_eq!(queue.remove(Direction::Left), Some(3));
    assert_eq!(queue.remove(Direction::Left), None);
    assert!(queue.is_empty());
}

/// The queue's contents read rightwards from the cursor, kept by hand.
fn model_insert(model: &mut VecDeque<i32>, value: i32, side: Direction) {
    if model.is_empty() {
        model.push_back(value);
    } else {
        match side {
            Direction::Left => model.push_back(value),
            Direction::Right => model.insert(1, value),
        }
    }
}

fn model_remove(model: &mut VecDeque<i32>, side: Direction) -> Option<i32> {
    let value = model.pop_front()?;
    if let Direction::Left = side {
        if let Some(last) = model.pop_back() {
            model.push_front(last);
        }
    }
    Some(value)
}

#[test]
fn scenario_unbounded_ten_matches_model() {
    let mut queue: CircularQueue<i32> = CircularQueue::new(0);
    let mut model = VecDeque::new();
    for i in 0..10 {
        queue.insert(i, Direction::Left).unwrap();
        model_insert(&mut model, i, Direction::Left);
    }
    assert_eq!(queue.len(), 10);

    let mut out = Vec::new();
    for _ in 0..2 {
        let v = queue.remove(Direction::Right);
        assert_eq!(v, model_remove(&mut model, Direction::Right));
        out.push(v);
    }
    for _ in 0..9 {
        let v = queue.remove(Direction::Left);
        assert_eq!(v, model_remove(&mut model, Direction::Left));
        out.push(v);
    }
    let expected: Vec<Option<i32>> = vec![0, 1, 2, 9, 8, 7, 6, 5, 4, 3]
        .into_iter()
        .map(Some)
        .chain(std::iter::once(None))
        .collect();
    assert_eq!(out, expected);
    assert!(queue.is_empty());
}

#[test]
fn mixed_operations_match_model() {
    let mut queue: CircularQueue<i32> = CircularQueue::new(0);
    let mut model = VecDeque::new();
    let mut seed: u32 = 12345;
    for step in 0..2000 {
        seed = seed.wrapping_mul(1103515245).wrapping_add(12345);
        let side = if (seed >> 16) & 1 == 0 { Direction::Left } else { Direction::Right };
        if (seed >> 17) % 3 == 0 {
            assert_eq!(queue.remove(side), model_remove(&mut model, side));
        } else {
            queue.insert(step, side).unwrap();
            model_insert(&mut model, step, side);
        }
        assert_eq!(queue.len(), model.len());
        assert_eq!(queue.is_empty(), model.is_empty());
    }
    while let Some(v) = model_remove(&mut model, Direction::Right) {
        assert_eq!(queue.remove(Direction::Right), Some(v));
    }
    assert_eq!(queue.remove(Direction::Right), None);
}

#[test]
fn insert_right_goes_next_to_cursor() {
    let mut queue: CircularQueue<i32> = CircularQueue::new(0);
    for i in 1..=4 {
        queue.insert(i, Direction::Right).unwrap();
    }
    // Rightwards from the cursor: 1, 4, 3, 2.
    let mut out = Vec::new();
    while let Some(v) = queue.remove(Direction::Right) {
        out.push(v);
    }
    assert_eq!(out, vec![1, 4, 3, 2]);
}

#[test]
fn capacity_holds_whatever_the_sides() {
    let sides = [Direction::Left, Direction::Right, Direction::Right, Direction::Left, Direction::Right];
    let mut queue: CircularQueue<i32> = CircularQueue::new(5);
    for (i, side) in sides.iter().enumerate() {
        assert!(!queue.is_full());
        assert_eq!(queue.insert(i as i32, *side), Ok(()));
    }
    assert!(queue.is_full());
    assert_eq!(queue.insert(99, Direction::Left), Err("Queue is full"));
    assert_eq!(queue.insert(99, Direction::Right), Err("Queue is full"));
    assert_eq!(queue.len(), 5);
}

#[test]
fn unbounded_never_full() {
    let mut queue: CircularQueue<u64> = CircularQueue::new(0);
    for i in 0..5000u64 {
        assert!(!queue.is_full());
        let side = if i % 2 == 0 { Direction::Left } else { Direction::Right };
        assert_eq!(queue.insert(i, side), Ok(()));
    }
    assert_eq!(queue.len(), 5000);
    assert_eq!(queue.max_size(), 0);
}

#[test]
fn size_and_fullness_agree() {
    let mut queue: CircularQueue<i32> = CircularQueue::new(2);
    assert_eq!(queue.is_empty(), queue.len() == 0);
    queue.insert(1, Direction::Left).unwrap();
    assert_eq!(queue.is_empty(), queue.len() == 0);
    assert_eq!(queue.is_full(), queue.max_size() != 0 && queue.len() == queue.max_size());
    queue.insert(2, Direction::Left).unwrap();
    assert!(queue.is_full());
    assert_eq!(queue.is_full(), queue.max_size() != 0 && queue.len() == queue.max_size());
}

#[test]
fn set_max_size_rules() {
    let mut queue: CircularQueue<i32> = CircularQueue::new(0);
    queue.insert(1, Direction::Right).unwrap();
    queue.insert(2, Direction::Right).unwrap();
    queue.insert(3, Direction::Right).unwrap();

    assert_eq!(queue.set_max_size(2), Err("New max size is less than current size"));
    assert_eq!(queue.max_size(), 0);
    assert_eq!(queue.set_max_size(3), Ok(()));
    assert_eq!(queue.max_size(), 3);
    assert_eq!(queue.insert(4, Direction::Right), Err("Queue is full"));

    // Zero is below the current size, so it is refused too.
    assert_eq!(queue.set_max_size(0), Err("New max size is less than current size"));
    assert_eq!(queue.max_size(), 3);

    // An empty queue can be made unbounded.
    let mut empty: CircularQueue<i32> = CircularQueue::new(1);
    assert_eq!(empty.set_max_size(0), Ok(()));
    assert_eq!(empty.insert(1, Direction::Right), Ok(()));
    assert_eq!(empty.insert(2, Direction::Right), Ok(()));
    assert_eq!(empty.len(), 2);
}

#[test]
fn two_values_either_side_survives() {
    let mut queue: CircularQueue<i32> = CircularQueue::new(0);
    queue.insert(1, Direction::Left).unwrap();
    queue.insert(2, Direction::Left).unwrap();
    assert_eq!(queue.remove(Direction::Left), Some(1));
    assert_eq!(queue.remove(Direction::Left), Some(2));

    queue.insert(1, Direction::Right).unwrap();
    queue.insert(2, Direction::Right).unwrap();
    assert_eq!(queue.remove(Direction::Right), Some(1));
    assert_eq!(queue.remove(Direction::Right), Some(2));
    assert_eq!(queue.remove(Direction::Right), None);
    assert!(queue.cursor().is_none());
}
