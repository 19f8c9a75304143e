use nano_arena::Arena;
use nano_arena::ArenaAccess;
use nano_arena::Idx;

fn numbers() -> (Arena<u32>, Vec<Idx>) {
    let mut arena = Arena::new();
    let handles = vec![arena.allocate(10), arena.allocate(20), arena.allocate(30)];
    (arena, handles)
}

#[test]
fn iter_walks_in_position_order_once() {
    let (arena, _) = numbers();
    let mut values = arena.iter();
    assert_eq!(values.next(), Some(&10));
    assert_eq!(values.next(), Some(&20));
    assert_eq!(values.next(), Some(&30));
    assert_eq!(values.next(), None);
    assert_eq!(values.next(), None);
}

#[test]
fn iter_of_an_empty_arena() {
    let arena: Arena<u32> = Arena::new();
    assert!(arena.iter().next().is_none());
    assert!(arena.entries().next().is_none());
}

#[test]
fn iter_follows_the_current_order() {
    let (mut arena, handles) = numbers();
    arena.swap_remove(&handles[0]);
    let mut values = arena.iter();
    assert_eq!(values.next(), Some(&30));
    assert_eq!(values.next(), Some(&20));
    assert_eq!(values.next(), None);
}

#[test]
fn iter_mut_writes_through() {
    let (mut arena, handles) = numbers();
    let mut values = arena.iter_mut();
    let first = values.next().unwrap();
    let second = values.next().unwrap();
    *second += 1;
    *first += 2;
    while let Some(v) = values.next() {
        *v *= 2;
    }
    assert!(values.next().is_none());

    assert_eq!(arena.get(&handles[0]), Some(&12));
    assert_eq!(arena.get(&handles[1]), Some(&21));
    assert_eq!(arena.get(&handles[2]), Some(&60));
    assert_eq!(handles[2].value(), Some(2));
    assert_eq!(arena.to_vec(), vec![12, 21, 60]);
}

#[test]
fn entries_pair_values_with_their_handles() {
    let (mut arena, handles) = numbers();
    arena.swap(&handles[0], &handles[2]);

    let mut entries = arena.entries();
    let (h, v) = entries.next().unwrap();
    assert!(h == handles[2]);
    assert_eq!(h.value(), Some(0));
    assert_eq!(*v, 30);
    let (h, v) = entries.next().unwrap();
    assert!(h == handles[1]);
    assert_eq!(*v, 20);
    let (h, v) = entries.next().unwrap();
    assert!(h == handles[0]);
    assert_eq!(h.value(), Some(2));
    assert_eq!(*v, 10);
    assert!(entries.next().is_none());
    assert!(entries.next().is_none());
}

#[test]
fn entries_hand_out_handles_to_the_shared_state() {
    let (mut arena, handles) = numbers();
    let yielded: Vec<Idx> = {
        let mut out = Vec::new();
        let mut entries = arena.entries();
        while let Some((h, _)) = entries.next() {
            out.push(h);
        }
        out
    };
    arena.remove(&handles[0]);
    assert_eq!(yielded[0].value(), None);
    assert_eq!(yielded[1].value(), Some(0));
    assert_eq!(yielded[2].value(), Some(1));
    assert_eq!(arena.get(&yielded[2]), Some(&30));
}

#[test]
fn entries_mut_writes_through() {
    let (mut arena, handles) = numbers();
    let mut entries = arena.entries_mut();
    while let Some((h, v)) = entries.next() {
        *v += h.value().unwrap() as u32;
    }
    assert!(entries.next().is_none());
    assert_eq!(arena.get(&handles[0]), Some(&10));
    assert_eq!(arena.get(&handles[1]), Some(&21));
    assert_eq!(arena.get(&handles[2]), Some(&32));
}
