use lexparse::interner::{intern, Interner};

#[test]
fn simple_intern() {
    let mut it = Interner::new();

    let w = intern(&mut it, "bar");
    let x = intern(&mut it, "foo");
    let y = intern(&mut it, "foo");
    let z = intern(&mut it, "foo");

    assert_eq!(x, y);
    assert_eq!(x, z);
    assert_eq!(y, z);

    assert_ne!(x, w);
    assert_ne!(y, w);
    assert_ne!(z, w);
}

#[test]
fn intern_round_trips_text() {
    let mut it = Interner::new();
    let h = intern(&mut it, "foo");
    assert_eq!(h.to_str(&it), "foo");
    let g = intern(&mut it, "bar");
    assert_eq!(g.to_str(&it), "bar");
    // older handles stay valid as the table grows
    assert_eq!(h.to_str(&it), "foo");
}

#[test]
fn intern_distinct_texts_distinct_handles() {
    let mut it = Interner::new();
    let a = intern(&mut it, "alpha");
    let b = intern(&mut it, "beta");
    let a2 = intern(&mut it, "alpha");
    assert_eq!(a, a2);
    assert_ne!(a, b);
    assert_eq!(a.to_str(&it), "alpha");
    assert_eq!(b.to_str(&it), "beta");
}
