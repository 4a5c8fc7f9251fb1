use data_structures::linked_list::arena::Arena;
use data_structures::linked_list::block::{Block, PointerName};

#[test]
fn test_block_new() {
    let mut arena = Arena::new();
    let block_ptr = Block::new(&mut arena, 10);
    assert_eq!(*arena.get(block_ptr).read_data(), Some(10));
}

#[test]
fn test_block_reference_count() {
    // One owning handle comes from `new`; each `share` of the block's own
    // reference adds one, each `release` gives one back.
    let mut arena = Arena::new();
    let block_ptr = Block::new(&mut arena, 10);
    assert_eq!(arena.strong_count(block_ptr), 1);

    {
        let new_block_ptr_1 = arena.share(arena.get(block_ptr).get_reference());
        assert_eq!(arena.strong_count(block_ptr), 2);

        let new_block_ptr_2 = arena.share(arena.get(block_ptr).get_reference());
        assert_eq!(arena.strong_count(block_ptr), 3);

        assert!(arena.release(new_block_ptr_2).is_none());
        assert!(arena.release(new_block_ptr_1).is_none());
    }

    assert_eq!(arena.strong_count(block_ptr), 1);
}

#[test]
fn teste_block_set_rigth_pointer() {
    let mut arena = Arena::new();
    let block1_ptr = Block::new(&mut arena, 10);
    let block2_ptr = Block::new(&mut arena, 20);

    // Set the right pointer of block1 to block2
    let mut right_block_ptr = arena
        .get_mut(block1_ptr)
        .set_pointer(PointerName::Right, Some(block2_ptr));
    assert_eq!(right_block_ptr.is_none(), true);

    // Read the data of the right block
    right_block_ptr = arena.get(block1_ptr).get_pointer(PointerName::Right);
    let binding = right_block_ptr.unwrap();
    let right_block_data = arena.get(binding).read_data();

    assert_eq!(*right_block_data, Some(20));
}

#[test]
fn block_pointer_replaced_and_removed() {
    let mut arena = Arena::new();
    let a = Block::new(&mut arena, 1);
    let b = Block::new(&mut arena, 2);
    let c = Block::new(&mut arena, 3);

    assert_eq!(arena.get_mut(a).set_pointer(PointerName::Next, Some(b)), None);
    assert_eq!(arena.get_mut(a).set_pointer(PointerName::Next, Some(c)), Some(b));
    assert_eq!(arena.get(a).get_pointer(PointerName::Next), Some(c));
    assert_eq!(arena.get(a).get_pointer(PointerName::Previous), None);

    // Clearing a pointer reads the same as never having set it.
    assert_eq!(arena.get_mut(a).set_pointer(PointerName::Next, None), Some(c));
    assert_eq!(arena.get(a).get_pointer(PointerName::Next), None);
    assert_eq!(arena.get_mut(a).set_pointer(PointerName::Next, Some(b)), None);
}

#[test]
fn block_custom_pointer_names() {
    let mut arena = Arena::new();
    let a = Block::new(&mut arena, 1);
    let b = Block::new(&mut arena, 2);
    let c = Block::new(&mut arena, 3);

    let up = PointerName::Custom(String::from("up"));
    arena.get_mut(a).set_pointer(up, Some(b));
    arena.get_mut(a).set_pointer(PointerName::Custom(String::from("down")), Some(c));

    assert_eq!(arena.get(a).get_pointer(PointerName::Custom(String::from("up"))), Some(b));
    assert_eq!(arena.get(a).get_pointer(PointerName::Custom(String::from("down"))), Some(c));
    assert_eq!(arena.get(a).get_pointer(PointerName::Custom(String::from("side"))), None);
    assert_eq!(arena.get(a).get_pointer(PointerName::First), None);
}

#[test]
fn block_set_data_and_clear() {
    let mut arena = Arena::new();
    let a = Block::new(&mut arena, 10);
    let b = Block::new(&mut arena, 30);
    assert_eq!(arena.get_mut(a).set_data(20), Some(10));
    assert_eq!(*arena.get(a).read_data(), Some(20));

    arena.get_mut(a).set_pointer(PointerName::Left, Some(b));
    assert_eq!(arena.get(a).get_reference(), a);
    assert_eq!(arena.get_mut(a).clear(), Some(20));
    assert_eq!(*arena.get(a).read_data(), None);
    assert_eq!(arena.get(a).get_pointer(PointerName::Left), None);
}

#[test]
fn block_freed_with_last_handle() {
    let mut arena = Arena::new();
    let a = Block::new(&mut arena, 7);
    let extra = arena.share(a);
    assert!(arena.release(extra).is_none());
    assert!(arena.contains(a));

    let mut freed = arena.release(a).unwrap();
    assert_eq!(freed.clear(), Some(7));
    assert!(!arena.contains(a));
    assert_eq!(arena.strong_count(a), 0);

    // The slot is recycled for the next block.
    let b = Block::new(&mut arena, 8);
    assert_eq!(b, a);
    assert_eq!(*arena.get(b).read_data(), Some(8));
}
