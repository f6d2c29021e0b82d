use generational_arena::{GenerationIndex, GenerationalArena};

#[test]
fn can_get_live_value() {
    let mut arena = GenerationalArena::<u32, 1>::new();
    let i = arena.try_insert(42).unwrap();
    assert_eq!(arena.remove(i).unwrap(), 42);
    assert!(!arena.contains(i));
}

#[test]
fn cannot_get_free_value() {
    let mut arena = GenerationalArena::<u32, 1>::new();
    let i = arena.try_insert(42).unwrap();
    assert_eq!(arena.remove(i).unwrap(), 42);
    assert!(!arena.contains(i));
}

#[test]
fn cannot_get_other_generation_value() {
    let mut arena = GenerationalArena::<u32, 1>::new();
    let i = arena.try_insert(42).unwrap();
    assert_eq!(arena.remove(i).unwrap(), 42);
    assert!(!arena.contains(i));
    let j = arena.try_insert(42).unwrap();
    assert!(!arena.contains(i));
    assert_eq!(*arena.get(j).unwrap(), 42);
    assert!(i != j);
}

#[test]
fn try_insert_on_full_should_err() {
    let mut arena = GenerationalArena::<u32, 1>::new();
    arena.try_insert(42).unwrap();
    assert_eq!(arena.try_insert(42).unwrap_err(), 42);
}

#[test]
fn try_insert_with_indicies_match() {
    let mut arena = GenerationalArena::<u32, 3>::new();
    let a = arena.try_insert(40).ok().unwrap();
    let b = arena.try_insert(41).ok().unwrap();
    let c = arena.try_insert(42).ok().unwrap();
    assert!(
        a.generation() == b.generation()
            && b.generation() == c.generation()
            && a.generation() == c.generation()
    );
    assert_eq!(*arena.get(a).unwrap(), 40);
    assert_eq!(*arena.get(b).unwrap(), 41);
    assert_eq!(*arena.get(c).unwrap(), 42);
}

#[test]
fn get_mut() {
    let mut arena = GenerationalArena::<u32, 1>::new();
    let i = arena.try_insert(5).unwrap();
    *arena.get_mut(i).unwrap() += 1;
    assert_eq!(*arena.get(i).unwrap(), 6);
}

#[test]
#[should_panic]
fn index_deleted_item() {
    let mut arena = GenerationalArena::<u32, 1>::new();
    let idx = arena.try_insert(42).unwrap();
    println!("{:#?}", idx);
    arena.remove(idx);
    arena.get(idx).unwrap();
}

#[test]
fn round_trip_returns_inserted_value() {
    let mut arena = GenerationalArena::<String, 2>::new();
    let h = arena.try_insert(String::from("alpha")).unwrap();
    assert_eq!(arena.get(h).map(|s| s.as_str()), Some("alpha"));
    assert!(arena.contains(h));
}

#[test]
fn removed_handle_stays_dead_after_slot_reuse() {
    let mut arena = GenerationalArena::<u32, 1>::new();
    let h1 = arena.try_insert(7).unwrap();
    assert_eq!(arena.remove(h1), Some(7));
    let h2 = arena.try_insert(8).unwrap();
    assert_eq!(h1.index(), h2.index());
    assert!(h1 != h2);
    assert!(h1.generation() < h2.generation());
    assert!(!arena.contains(h1));
    assert!(arena.get(h1).is_none());
    assert_eq!(arena.remove(h1), None);
    assert_eq!(*arena.get(h2).unwrap(), 8);
}

#[test]
fn full_arena_hands_value_back_after_n_inserts() {
    let mut arena = GenerationalArena::<u32, 3>::new();
    for v in 0..3u32 {
        assert!(arena.try_insert(v).is_ok());
    }
    assert_eq!(arena.capacity(), 3);
    assert_eq!(arena.try_insert(99), Err(99));
    assert_eq!(arena.capacity(), 3);
}

#[test]
fn capacity_counts_live_values() {
    let mut arena = GenerationalArena::<u32, 4>::new();
    assert_eq!(arena.capacity(), 0);
    let a = arena.try_insert(1).unwrap();
    let _b = arena.try_insert(2).unwrap();
    assert_eq!(arena.capacity(), 2);
    arena.remove(a);
    assert_eq!(arena.capacity(), 1);
    arena.remove(a);
    assert_eq!(arena.capacity(), 1);
}

#[test]
fn get_mut_keeps_handle_and_other_values() {
    let mut arena = GenerationalArena::<u32, 2>::new();
    let a = arena.try_insert(10).unwrap();
    let b = arena.try_insert(20).unwrap();
    let before = a;
    *arena.get_mut(a).unwrap() = 11;
    assert_eq!(a, before);
    assert_eq!(*arena.get(a).unwrap(), 11);
    assert_eq!(*arena.get(b).unwrap(), 20);
    assert!(arena.contains(a));
}

#[test]
fn get_mut_on_stale_handle_is_none() {
    let mut arena = GenerationalArena::<u32, 1>::new();
    let a = arena.try_insert(10).unwrap();
    arena.remove(a);
    assert!(arena.get_mut(a).is_none());
}

#[test]
fn slots_are_handed_out_in_order_and_reused_last_freed_first() {
    let mut arena = GenerationalArena::<u32, 3>::new();
    let a = arena.try_insert(1).unwrap();
    let b = arena.try_insert(2).unwrap();
    let c = arena.try_insert(3).unwrap();
    assert_eq!((a.index(), b.index(), c.index()), (0, 1, 2));
    assert_eq!(a.generation(), 1);
    arena.remove(a);
    arena.remove(c);
    let d = arena.try_insert(4).unwrap();
    let e = arena.try_insert(5).unwrap();
    assert_eq!((d.index(), d.generation()), (2, 3));
    assert_eq!((e.index(), e.generation()), (0, 3));
    assert_eq!(*arena.get(b).unwrap(), 2);
}

#[test]
fn handle_from_larger_arena_is_absent() {
    let mut big = GenerationalArena::<u32, 3>::new();
    big.try_insert(1).unwrap();
    big.try_insert(2).unwrap();
    let far: GenerationIndex = big.try_insert(3).unwrap();
    let mut small = GenerationalArena::<u32, 1>::new();
    small.try_insert(9).unwrap();
    assert!(small.get(far).is_none());
    assert!(!small.contains(far));
    assert!(small.get_mut(far).is_none());
}

#[test]
fn handles_order_by_position_then_generation() {
    let mut arena = GenerationalArena::<u32, 2>::new();
    let a = arena.try_insert(1).unwrap();
    let b = arena.try_insert(2).unwrap();
    assert!(a < b);
    arena.remove(a);
    let c = arena.try_insert(3).unwrap();
    assert_eq!(c.index(), a.index());
    assert!(a < c);
    assert!(c < b);
}
