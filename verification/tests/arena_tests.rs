use lexparse::local::LocalArena;
use lexparse::sync::SyncArena;

#[test]
fn local_simple() {
    let mut arena = LocalArena::new();

    for i in 0..100 {
        let id = arena.allocate(i);
        assert_eq!(*arena.get(id), i);
    }
}

#[test]
fn sync_simple() {
    let mut arena = SyncArena::new();

    for i in 0..100 {
        let id = arena.allocate(i);
        assert_eq!(*arena.get(id), i);
    }
}

#[test]
fn local_stability() {
    let mut arena = LocalArena::new();
    let mut ids = Vec::new();
    for i in 0..50 {
        ids.push(arena.allocate(i));
    }
    for i in 50..500 {
        arena.allocate(i);
    }
    for (i, id) in ids.iter().enumerate() {
        assert_eq!(*arena.get(*id), i as i32);
    }
}

#[test]
fn sync_stability() {
    let mut arena = SyncArena::new();
    let mut ids = Vec::new();
    for i in 0..50 {
        ids.push(arena.allocate(i));
    }
    for i in 50..500 {
        arena.allocate(i);
    }
    for (i, id) in ids.iter().enumerate() {
        assert_eq!(*arena.get(*id), i as i32);
    }
}

#[test]
fn local_get_mut_updates_one_slot() {
    let mut arena = LocalArena::new();
    let a = arena.allocate(10);
    let b = arena.allocate(20);
    *arena.get_mut(a) = 11;
    assert_eq!(*arena.get(a), 11);
    assert_eq!(*arena.get(b), 20);
}

#[test]
fn sync_introspection() {
    let mut arena = SyncArena::new();
    assert_eq!(arena.slab_count(), 0);
    assert_eq!(arena.value_count(), 0);
    assert_eq!(arena.value_capacity(), 0);
    for i in 0..65 {
        arena.allocate(i);
    }
    // the first slab holds 64 values; the 65th forced a second slab of 128
    assert_eq!(arena.slab_count(), 2);
    assert_eq!(arena.value_count(), 65);
    assert_eq!(arena.value_capacity(), 64 + 128);
    assert_eq!(arena.value_remaining_capacity(), 127);
}

#[test]
fn local_slab_growth_keeps_values() {
    // the first slab holds 16: cross several doublings
    let mut arena = LocalArena::new();
    let mut ids = Vec::new();
    for i in 0..200u64 {
        ids.push(arena.allocate(i * i));
    }
    for (i, id) in ids.iter().enumerate() {
        let i = i as u64;
        assert_eq!(*arena.get(*id), i * i);
    }
}
