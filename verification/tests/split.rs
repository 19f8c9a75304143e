use nano_arena::Arena;
use nano_arena::ArenaAccess;
use nano_arena::Idx;

fn letters() -> (Arena<String>, Vec<Idx>) {
    let mut arena = Arena::new();
    let mut handles = Vec::new();
    for name in ["a", "b", "c", "d", "e"] {
        handles.push(arena.allocate(name.to_string()));
    }
    (arena, handles)
}

#[test]
fn split_succeeds_for_live_handles_only() {
    let (mut arena, handles) = letters();
    arena.remove(&handles[1]);
    assert!(arena.split_at(&handles[1]).is_none());
    assert!(arena.split_at(&handles[0]).is_some());
    assert!(arena.split_at(&handles[4]).is_some());
    assert!(arena.split_at(handles[2].clone()).is_some());
    assert_eq!(arena.len(), 4);
}

#[test]
fn split_denies_the_selected_and_reaches_the_others() {
    let (mut arena, handles) = letters();
    let before: Vec<String> = handles.iter().map(|h| arena.get(h).unwrap().clone()).collect();

    for at in 0..handles.len() {
        let (value, rest) = arena.split_at(&handles[at]).unwrap();
        assert_eq!(*value, before[at]);
        for (i, h) in handles.iter().enumerate() {
            if i == at {
                assert!(rest.get(h).is_none());
                assert!(rest.get(h.clone()).is_none());
            } else {
                assert_eq!(rest.get(h), Some(&before[i]));
            }
        }
    }
}

#[test]
fn split_lets_both_sides_write() {
    let (mut arena, handles) = letters();
    {
        let (value, mut rest) = arena.split_at(&handles[2]).unwrap();
        value.push('!');
        for h in handles.iter() {
            if let Some(other) = rest.get_mut(h) {
                other.push_str(value);
            }
        }
        assert!(rest.get_mut(&handles[2]).is_none());
        value.push('?');
    }
    assert_eq!(arena.to_vec(), vec!["ac!", "bc!", "c!?", "dc!", "ec!"]);
}

#[test]
fn split_keeps_handles_where_they_were() {
    let (mut arena, handles) = letters();
    {
        let (value, mut rest) = arena.split_at(&handles[0]).unwrap();
        *value = "z".to_string();
        *rest.get_mut(&handles[4]).unwrap() = "y".to_string();
    }
    for (i, h) in handles.iter().enumerate() {
        assert_eq!(h.value(), Some(i));
    }
    assert_eq!(arena.get(&handles[0]).unwrap(), "z");
    assert_eq!(arena.get(&handles[4]).unwrap(), "y");
    assert_eq!(arena.len(), 5);
}

#[test]
fn split_of_the_only_element() {
    let mut arena = Arena::new();
    let only = arena.allocate(1);
    let (value, rest) = arena.split_at(&only).unwrap();
    *value = 2;
    assert!(rest.get(&only).is_none());
    let narrower = rest.split_at(&only);
    assert!(narrower.is_err());
    assert_eq!(arena.get(&only), Some(&2));
}

#[test]
fn split_does_not_reach_removed_handles() {
    let (mut arena, handles) = letters();
    arena.swap_remove(&handles[0]);
    let (_, mut rest) = arena.split_at(&handles[1]).unwrap();
    assert!(rest.get(&handles[0]).is_none());
    assert!(rest.get_mut(&handles[0]).is_none());
    assert_eq!(rest.get(&handles[4]).unwrap(), "e");
}

#[test]
fn nested_split_denies_both() {
    let (mut arena, handles) = letters();
    {
        let (c, rest) = arena.split_at(&handles[2]).unwrap();
        let (a, rest) = match rest.split_at(&handles[0]) {
            Ok(parts) => parts,
            Err(_) => panic!("a live handle was refused"),
        };
        let (e, mut rest) = match rest.split_at(&handles[4]) {
            Ok(parts) => parts,
            Err(_) => panic!("a live handle was refused"),
        };
        assert_eq!(c, "c");
        assert_eq!(a, "a");
        assert_eq!(e, "e");

        assert!(rest.get(&handles[0]).is_none());
        assert!(rest.get(&handles[2]).is_none());
        assert!(rest.get(&handles[4]).is_none());
        assert!(rest.get_mut(&handles[2]).is_none());
        assert_eq!(rest.get(&handles[1]).unwrap(), "b");
        assert_eq!(rest.get(&handles[3]).unwrap(), "d");

        std::mem::swap(a, e);
        c.push_str(rest.get(&handles[3]).unwrap());
        rest.get_mut(&handles[1]).unwrap().push_str(c);
    }
    for (i, h) in handles.iter().enumerate() {
        assert_eq!(h.value(), Some(i));
    }
    assert_eq!(arena.to_vec(), vec!["e", "bcd", "cd", "d", "a"]);
}

#[test]
fn nested_split_refuses_what_is_out_of_reach() {
    let (mut arena, handles) = letters();
    arena.remove(&handles[3]);
    let (_, rest) = arena.split_at(&handles[1]).unwrap();

    let rest = match rest.split_at(&handles[1]) {
        Ok(_) => panic!("the selected element was reached"),
        Err(rest) => rest,
    };
    let rest = match rest.split_at(&handles[3]) {
        Ok(_) => panic!("a removed element was reached"),
        Err(rest) => rest,
    };
    assert_eq!(rest.get(&handles[0]).unwrap(), "a");
    assert_eq!(rest.get(&handles[2]).unwrap(), "c");
    assert_eq!(rest.get(&handles[4]).unwrap(), "e");
    assert!(rest.get(&handles[1]).is_none());
}

#[test]
fn nested_split_of_neighbours() {
    let (mut arena, handles) = letters();
    {
        let (b, rest) = arena.split_at(&handles[1]).unwrap();
        let (c, rest) = rest.split_at(&handles[2]).ok().unwrap();
        let (a, mut rest) = rest.split_at(&handles[0]).ok().unwrap();
        *a = "1".into();
        *b = "2".into();
        *c = "3".into();
        *rest.get_mut(&handles[3]).unwrap() = "4".into();
        *rest.get_mut(&handles[4]).unwrap() = "5".into();
        assert!(rest.get(&handles[0]).is_none());
        assert!(rest.get(&handles[1]).is_none());
        assert!(rest.get(&handles[2]).is_none());
    }
    assert_eq!(arena.to_vec(), vec!["1", "2", "3", "4", "5"]);
}

fn bump<A: ArenaAccess<u32>>(access: &mut A, handle: &Idx) -> Option<u32> {
    let before = *access.get(handle)?;
    *access.get_mut(handle)? += 1;
    Some(before)
}

#[test]
fn arenas_and_views_give_the_same_access() {
    let mut arena = Arena::new();
    let a = arena.allocate(1);
    let b = arena.allocate(10);
    let c = arena.allocate(100);
    arena.remove(&b);

    assert_eq!(bump(&mut arena, &a), Some(1));
    assert_eq!(bump(&mut arena, &b), None);
    assert_eq!(bump(&mut arena, &c), Some(100));
    {
        let (value, mut rest) = arena.split_at(&a).unwrap();
        assert_eq!(*value, 2);
        assert_eq!(bump(&mut rest, &a), None);
        assert_eq!(bump(&mut rest, &b), None);
        assert_eq!(bump(&mut rest, &c), Some(101));
        assert_eq!(bump(&mut rest, &c), Some(102));
        *value += 5;
    }
    assert_eq!(arena.to_vec(), vec![7, 103]);
}
