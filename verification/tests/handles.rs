use nano_arena::handle::position_if_live;
use nano_arena::render;
use nano_arena::Arena;
use nano_arena::ArenaAccess;
use nano_arena::Idx;

fn names() -> (Arena<String>, Idx, Idx, Idx, Idx) {
    let mut arena = Arena::new();
    let john = arena.allocate("John".to_string());
    let julia = arena.allocate("Julia".to_string());
    let jane = arena.allocate("Jane".to_string());
    let jake = arena.allocate("Jake".to_string());
    (arena, john, julia, jane, jake)
}

fn in_order(arena: &Arena<String>) -> Vec<String> {
    let mut out = Vec::new();
    let mut values = arena.iter();
    while let Some(v) = values.next() {
        out.push(v.clone());
    }
    out
}

fn every_handle_reports_its_place(arena: &Arena<String>) {
    for i in 0..arena.len() {
        let handle = arena.get_idx_at_index(i).unwrap();
        assert_eq!(handle.value(), Some(i));
        assert_eq!(arena.index_of(&handle), Some(i));
    }
}

#[test]
fn fresh_handles_report_insertion_positions() {
    let (arena, john, julia, jane, jake) = names();
    assert_eq!(john.value(), Some(0));
    assert_eq!(julia.value(), Some(1));
    assert_eq!(jane.value(), Some(2));
    assert_eq!(jake.value(), Some(3));
    assert_eq!(arena.index_of(&jane), Some(2));
    assert_eq!(arena.handles_minted(), 4);
    assert_eq!(john.serial(), 0);
    assert_eq!(jake.serial(), 3);
}

#[test]
fn removals_keep_survivors_in_step() {
    let (mut arena, john, julia, jane, jake) = names();
    let wow = arena.allocate("Wow".to_string());

    assert_eq!(arena.remove(&julia), "Julia");
    assert_eq!(john.value(), Some(0));
    assert_eq!(julia.value(), None);
    assert_eq!(jane.value(), Some(1));
    assert_eq!(jake.value(), Some(2));
    assert_eq!(wow.value(), Some(3));
    every_handle_reports_its_place(&arena);

    assert_eq!(arena.remove(&john), "John");
    assert_eq!(jane.value(), Some(0));
    assert_eq!(jake.value(), Some(1));
    assert_eq!(wow.value(), Some(2));
    every_handle_reports_its_place(&arena);

    assert_eq!(arena.remove(&wow), "Wow");
    assert_eq!(jane.value(), Some(0));
    assert_eq!(jake.value(), Some(1));
    assert_eq!(wow.value(), None);
    every_handle_reports_its_place(&arena);
    assert_eq!(in_order(&arena), vec!["Jane", "Jake"]);
    assert_eq!(arena.index_of(&julia), None);
}

#[test]
fn swap_remove_moves_only_the_last() {
    let (mut arena, john, julia, jane, jake) = names();

    assert_eq!(arena.swap_remove(&john), "John");

    assert_eq!(in_order(&arena), vec!["Jake", "Julia", "Jane"]);
    assert_eq!(john.value(), None);
    assert_eq!(jake.value(), Some(0));
    assert_eq!(julia.value(), Some(1));
    assert_eq!(jane.value(), Some(2));
    assert!(arena.get(&john).is_none());
    every_handle_reports_its_place(&arena);
}

#[test]
fn swap_remove_of_the_last_moves_nothing() {
    let (mut arena, john, julia, jane, jake) = names();

    assert_eq!(arena.swap_remove(&jake), "Jake");

    assert_eq!(in_order(&arena), vec!["John", "Julia", "Jane"]);
    assert_eq!(jake.value(), None);
    assert_eq!(john.value(), Some(0));
    assert_eq!(julia.value(), Some(1));
    assert_eq!(jane.value(), Some(2));
}

#[test]
fn retain_keeps_order_and_retires_the_rest() {
    let (mut arena, john, julia, jane, jake) = names();

    arena.retain(|v| v == "Julia" || v == "Jane");

    assert_eq!(in_order(&arena), vec!["Julia", "Jane"]);
    assert_eq!(john.value(), None);
    assert_eq!(jake.value(), None);
    assert_eq!(julia.value(), Some(0));
    assert_eq!(jane.value(), Some(1));
    assert_eq!(arena.len(), 2);
    every_handle_reports_its_place(&arena);
}

#[test]
fn retain_of_everything_changes_nothing() {
    let (mut arena, john, _, _, jake) = names();
    arena.retain(|_| true);
    assert_eq!(in_order(&arena), vec!["John", "Julia", "Jane", "Jake"]);
    assert_eq!(john.value(), Some(0));
    assert_eq!(jake.value(), Some(3));
}

#[test]
fn retain_of_nothing_empties_the_arena() {
    let (mut arena, john, julia, jane, jake) = names();
    arena.retain(|_| false);
    assert_eq!(arena.len(), 0);
    assert_eq!(john.value(), None);
    assert_eq!(julia.value(), None);
    assert_eq!(jane.value(), None);
    assert_eq!(jake.value(), None);
}

#[test]
fn retain_asks_in_position_order() {
    let (mut arena, _, _, _, _) = names();
    let mut asked = Vec::new();
    arena.retain(|v| {
        asked.push(v.clone());
        v.len() == 4
    });
    assert_eq!(asked, vec!["John", "Julia", "Jane", "Jake"]);
    assert_eq!(in_order(&arena), vec!["John", "Jane", "Jake"]);
}

#[test]
fn copies_agree_after_moves_and_removal() {
    let (mut arena, john, julia, _, jake) = names();
    let copy = jake.clone();
    assert!(copy == jake);
    assert!(copy.same_as(&jake));
    assert_eq!(copy.serial(), jake.serial());

    arena.remove(&john);
    assert_eq!(jake.value(), Some(2));
    assert_eq!(copy.value(), Some(2));

    arena.swap(&julia, &jake);
    assert_eq!(jake.value(), Some(0));
    assert_eq!(copy.value(), Some(0));

    arena.swap_remove(&copy);
    assert_eq!(jake.value(), None);
    assert_eq!(copy.value(), None);
    assert!(copy == jake);
}

#[test]
fn handles_of_different_allocations_differ() {
    let mut arena = Arena::new();
    let first = arena.allocate(1u32);
    arena.remove(&first);
    let second = arena.allocate(2u32);

    assert_eq!(first.value(), None);
    assert_eq!(second.value(), Some(0));
    assert!(first != second);
    assert!(!first.same_as(&second));
    assert!(first.serial() != second.serial());
    assert!(arena.get(&first).is_none());
    assert_eq!(arena.get(&second), Some(&2));

    let third = arena.allocate(3u32);
    arena.swap(&second, &third);
    assert_eq!(second.value(), Some(1));
    assert_eq!(third.value(), Some(0));
    assert!(second != third);
}

#[test]
fn round_trip_through_an_arena() {
    let arena = Arena::from_vec(vec!['a', 'b', 'c', 'd']);
    let handles: Vec<Idx> = (0..4).map(|i| arena.get_idx_at_index(i).unwrap()).collect();
    for (i, handle) in handles.iter().enumerate() {
        assert_eq!(handle.value(), Some(i));
        assert_eq!(handle.serial(), i as u64);
    }
    assert_eq!(arena.handles_minted(), 4);
    assert_eq!(arena.get(&handles[2]), Some(&'c'));

    assert_eq!(arena.to_vec(), vec!['a', 'b', 'c', 'd']);
    for handle in handles.iter() {
        assert_eq!(handle.value(), None);
    }
}

#[test]
fn round_trip_of_nothing() {
    let arena: Arena<u8> = Arena::from_vec(Vec::new());
    assert_eq!(arena.len(), 0);
    assert_eq!(arena.to_vec(), Vec::<u8>::new());
}

#[test]
fn identity_ordering_changes_nothing() {
    let (mut arena, john, julia, jane, jake) = names();
    arena.swap(&john, &jake);
    let current: Vec<Idx> = (0..arena.len()).map(|i| arena.get_idx_at_index(i).unwrap()).collect();

    arena.apply_ordering(&current);

    assert_eq!(in_order(&arena), vec!["Jake", "Julia", "Jane", "John"]);
    assert_eq!(jake.value(), Some(0));
    assert_eq!(julia.value(), Some(1));
    assert_eq!(jane.value(), Some(2));
    assert_eq!(john.value(), Some(3));
}

#[test]
fn ordering_moves_handles_and_retires_none() {
    let (mut arena, john, julia, jane, jake) = names();

    arena.apply_ordering(&vec![jake.clone(), jane.clone(), julia.clone(), john.clone()]);

    assert_eq!(in_order(&arena), vec!["Jake", "Jane", "Julia", "John"]);
    assert_eq!(jake.value(), Some(0));
    assert_eq!(jane.value(), Some(1));
    assert_eq!(julia.value(), Some(2));
    assert_eq!(john.value(), Some(3));
    every_handle_reports_its_place(&arena);

    arena.apply_ordering(&vec![&john, &julia, &jane, &jake]);
    assert_eq!(in_order(&arena), vec!["John", "Julia", "Jane", "Jake"]);
    every_handle_reports_its_place(&arena);
    assert_eq!(arena.handles_minted(), 4);
}

#[test]
fn ordering_of_an_empty_arena() {
    let mut arena: Arena<u8> = Arena::new();
    let ordering: Vec<Idx> = Vec::new();
    arena.apply_ordering(&ordering);
    assert_eq!(arena.len(), 0);
}

#[test]
fn swap_with_a_removed_handle_does_nothing() {
    let (mut arena, john, julia, jane, jake) = names();
    arena.remove(&julia);

    arena.swap(&john, &julia);
    arena.swap(&julia, &jake);
    arena.swap(&julia, &julia);

    assert_eq!(in_order(&arena), vec!["John", "Jane", "Jake"]);
    assert_eq!(john.value(), Some(0));
    assert_eq!(jane.value(), Some(1));
    assert_eq!(jake.value(), Some(2));
    assert_eq!(julia.value(), None);
}

#[test]
fn swap_with_itself_does_nothing() {
    let (mut arena, john, _, _, _) = names();
    arena.swap(&john, &john);
    assert_eq!(in_order(&arena), vec!["John", "Julia", "Jane", "Jake"]);
    assert_eq!(john.value(), Some(0));
}

#[test]
fn truncate_retires_the_tail() {
    let (mut arena, john, julia, jane, jake) = names();
    arena.truncate(2);
    assert_eq!(in_order(&arena), vec!["John", "Julia"]);
    assert_eq!(john.value(), Some(0));
    assert_eq!(julia.value(), Some(1));
    assert_eq!(jane.value(), None);
    assert_eq!(jake.value(), None);
}

#[test]
fn truncate_to_more_than_there_is_does_nothing() {
    let (mut arena, _, _, _, jake) = names();
    arena.truncate(4);
    arena.truncate(9);
    assert_eq!(arena.len(), 4);
    assert_eq!(jake.value(), Some(3));
}

#[test]
fn lookups_miss_softly() {
    let (mut arena, john, _, _, _) = names();
    arena.remove(&john);

    assert!(arena.get(&john).is_none());
    assert!(arena.get_mut(&john).is_none());
    assert!(arena.get_idx_at_index(3).is_none());
    assert!(arena.get_idx_at_index(usize::MAX).is_none());
    assert!(arena.position(|v| v == "John").is_none());
    assert!(arena.split_at(&john).is_none());
    assert_eq!(arena.index_of(&john), None);
    assert_eq!(arena.len(), 3);
}

#[test]
fn position_finds_the_first_match() {
    let mut arena = Arena::new();
    let _a = arena.allocate(5);
    let b = arena.allocate(8);
    let _c = arena.allocate(8);
    let found = arena.position(|v| *v == 8).unwrap();
    assert!(found == b);
    assert_eq!(found.value(), Some(1));
}

#[test]
fn alloc_with_appends_what_the_factory_makes() {
    let mut arena = Arena::new();
    let first = arena.alloc_with(|| 7);
    let second = arena.alloc_with(|| 9);
    assert_eq!(first.value(), Some(0));
    assert_eq!(second.value(), Some(1));
    assert_eq!(arena.get(&second), Some(&9));
    assert_eq!(arena.to_vec(), vec![7, 9]);
}

#[test]
fn alloc_with_idx_hands_out_the_final_position() {
    let mut arena = Arena::new();
    arena.allocate((None, 0));
    let handle = arena.alloc_with_idx(|id| (id.value(), id.serial()));
    assert_eq!(arena.get(&handle), Some(&(Some(1), 1)));
}

#[test]
fn a_stale_position_does_not_mislead_another_arena() {
    let (arena, _, julia, _, _) = names();
    let mut other = Arena::new();
    let a = other.allocate("a".to_string());
    let b = other.allocate("b".to_string());
    other.swap(&a, &b);

    assert_eq!(other.get(&b).unwrap(), "b");
    assert_eq!(other.index_of(&b), Some(0));
    assert_eq!(arena.get(&julia).unwrap(), "Julia");
}

#[test]
fn capacity_covers_the_elements() {
    let mut arena = Arena::with_capacity(2);
    assert!(arena.capacity() >= 2);
    for i in 0..10 {
        arena.allocate(i);
        assert!(arena.capacity() >= arena.len());
    }
    assert_eq!(arena.len(), 10);
}

#[test]
fn a_live_handle_reports_its_stored_position() {
    assert_eq!(position_if_live(false, 0), Some(0));
    assert_eq!(position_if_live(false, 17), Some(17));
    assert_eq!(position_if_live(true, 17), None);
    assert_eq!(position_if_live(true, 0), None);
}

#[test]
fn rendering_of_handles() {
    assert_eq!(render(false, 0), "Idx ( 0 )");
    assert_eq!(render(true, 0), "Removed Idx ( 0 )");
    assert_eq!(render(false, 7), "Idx ( 7 )");
    assert_eq!(render(false, 10), "Idx ( 10 )");
    assert_eq!(render(true, 4096), "Removed Idx ( 4096 )");
    assert_eq!(render(false, 1234567890), "Idx ( 1234567890 )");
    assert_eq!(render(false, usize::MAX), format!("Idx ( {} )", usize::MAX));
}

#[test]
fn describing_a_handle_follows_its_slot() {
    let (mut arena, john, _, _, jake) = names();
    assert_eq!(jake.describe(), "Idx ( 3 )");
    arena.remove(&john);
    assert_eq!(jake.describe(), "Idx ( 2 )");
    arena.remove(&jake);
    assert_eq!(jake.describe(), "Removed Idx ( 2 )");
}

#[test]
fn handles_key_a_set_across_moves() {
    let (mut arena, john, julia, _, jake) = names();
    let mut seen = std::collections::HashSet::new();
    seen.insert(john.clone());
    seen.insert(jake.clone());
    seen.insert(jake.clone());
    assert_eq!(seen.len(), 2);

    arena.swap(&john, &jake);
    arena.remove(&julia);
    assert!(seen.contains(&john));
    assert!(seen.contains(&jake));
    assert!(!seen.contains(&julia));

    arena.remove(&john);
    assert!(seen.contains(&john));
}
