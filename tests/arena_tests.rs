use rstsort::{Arena, SlotHandle};

#[test]
fn test_arena_iter() {
    let mut arena: Arena<i32> = Arena::new();
    arena.add(2);
    arena.add(3);
    arena.add(1);
    let iterator = arena.iter();
    let v = vec![2, 3, 1];
    let mut i = 0;
    let mut iterated = false;
    for h in iterator {
        match arena.get(h) {
            Some(x) => {
                assert_eq!(*x, v[i]);
            }
            None => {
                panic!("No handle in iterator");
            }
        }
        i += 1;
        iterated = true;
    }
    assert!(iterated);
}

#[test]
fn removed_handle_stays_dead_after_slot_reuse() {
    let mut arena: Arena<i32> = Arena::new();
    let a = arena.add(1);
    let _b = arena.add(2);
    arena.remove(a);
    assert!(arena.get(a).is_none());
    let c = arena.add(3);
    assert_eq!(c.index, a.index);
    assert_ne!(c.generation, a.generation);
    assert!(arena.get(a).is_none());
    assert_eq!(arena.get(c), Some(&3));
}

#[test]
fn count_matches_iteration_after_removals() {
    let mut arena: Arena<i32> = Arena::new();
    let a = arena.add(1);
    let b = arena.add(2);
    let _c = arena.add(3);
    arena.remove(b);
    assert_eq!(arena.count(), arena.iter().len());
    assert_eq!(arena.count(), 2);
    arena.remove(a);
    assert_eq!(arena.count(), arena.iter().len());
    assert_eq!(arena.count(), 1);
}

#[test]
fn removing_last_slot_trims_free_tail() {
    let mut arena: Arena<i32> = Arena::new();
    let _a = arena.add(1);
    let b = arena.add(2);
    let c = arena.add(3);
    arena.remove(b);
    arena.remove(c);
    assert_eq!(arena.slot_count(), 1);
    let d = arena.add(4);
    assert_eq!(d, SlotHandle { index: 1, generation: 0 });
}

#[test]
fn stale_and_out_of_range_handles_are_ignored() {
    let mut arena: Arena<i32> = Arena::new();
    let a = arena.add(7);
    arena.remove(SlotHandle { index: 5, generation: 0 });
    arena.remove(SlotHandle { index: 0, generation: 3 });
    assert_eq!(arena.count(), 1);
    assert!(arena.get(SlotHandle { index: 9, generation: 0 }).is_none());
    assert!(arena.get_mut(SlotHandle { index: 0, generation: 1 }).is_none());
    if let Some(x) = arena.get_mut(a) {
        *x = 8;
    }
    assert_eq!(arena.get(a), Some(&8));
}

#[test]
fn add_reuses_lowest_free_slot() {
    let mut arena: Arena<i32> = Arena::new();
    let a = arena.add(1);
    let b = arena.add(2);
    let _c = arena.add(3);
    arena.remove(b);
    arena.remove(a);
    let d = arena.add(4);
    assert_eq!(d, SlotHandle { index: 0, generation: 1 });
    let e = arena.add(5);
    assert_eq!(e, SlotHandle { index: 1, generation: 1 });
    let order: Vec<usize> = arena.iter().iter().map(|h| h.index).collect();
    assert_eq!(order, vec![0, 1, 2]);
}
