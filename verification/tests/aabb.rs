use fart::aabb::{Aabb, AabbTree};
use fart::point::{point2, Point2};

fn p2(a: i64, b: i64) -> Point2 {
    point2(a, b)
}

#[test]
fn intersects() {
    let a = Aabb::new(p2(-2, -2), p2(2, 2));
    assert!(a.intersects(&a));

    for b in vec![
        // Shifted to the side, but overlapping.
        Aabb::new(p2(-4, -2), p2(0, 2)),
        Aabb::new(p2(-2, -4), p2(2, 0)),
        Aabb::new(p2(0, -2), p2(4, 2)),
        Aabb::new(p2(-2, 0), p2(2, 4)),
        // Contained.
        Aabb::new(p2(-1, -1), p2(1, 1)),
        // Contains.
        Aabb::new(p2(-20, -20), p2(20, 20)),
    ] {
        assert!(a.intersects(&b));
        assert!(b.intersects(&a));
    }

    for c in vec![
        // Shifted outside.
        Aabb::new(p2(-8, -2), p2(-4, 2)),
        Aabb::new(p2(-2, -8), p2(2, -4)),
        Aabb::new(p2(4, -2), p2(8, 2)),
        Aabb::new(p2(-2, 4), p2(2, 8)),
        // Touching edges, but not overlapping.
        Aabb::new(p2(-6, -2), p2(-2, 2)),
        Aabb::new(p2(-2, -6), p2(2, -2)),
        Aabb::new(p2(2, -2), p2(6, 2)),
        Aabb::new(p2(-2, 2), p2(2, 6)),
    ] {
        assert!(!a.intersects(&c));
        assert!(!c.intersects(&a));
    }
}

#[test]
fn join() {
    let a = Aabb::new(p2(-2, -2), p2(2, 2));
    assert_eq!(a.join(&a), a);

    for b in vec![
        // Shifted to the side, but overlapping.
        Aabb::new(p2(-4, -2), p2(0, 2)),
        Aabb::new(p2(-2, -4), p2(2, 0)),
        Aabb::new(p2(0, -2), p2(4, 2)),
        Aabb::new(p2(-2, 0), p2(2, 4)),
        // Contained.
        Aabb::new(p2(-1, -1), p2(1, 1)),
        // Contains.
        Aabb::new(p2(-20, -20), p2(20, 20)),
        // Shifted outside.
        Aabb::new(p2(-8, -2), p2(-4, 2)),
        Aabb::new(p2(-2, -8), p2(2, -4)),
        Aabb::new(p2(4, -2), p2(8, 2)),
        Aabb::new(p2(-2, 4), p2(2, 8)),
        // Touching edges, but not overlapping.
        Aabb::new(p2(-6, -2), p2(-2, 2)),
        Aabb::new(p2(-2, -6), p2(2, -2)),
        Aabb::new(p2(2, -2), p2(6, 2)),
        Aabb::new(p2(-2, 2), p2(2, 6)),
    ] {
        assert_eq!(b.join(&b), b);
        let j = a.join(&b);
        assert!(j.contains(&a));
        assert!(j.intersects(&a));
        assert!(a.intersects(&j));
        assert!(j.contains(&b));
        assert!(j.intersects(&b));
        assert!(b.intersects(&j));
    }
}

#[test]
fn contains() {
    let a = Aabb::new(p2(-2, -2), p2(2, 2));
    assert!(a.contains(&a));

    for b in vec![
        // All edges strictly contained.
        Aabb::new(p2(-1, -1), p2(1, 1)),
        // One edge strictly contained, other same.
        Aabb::new(p2(-1, -2), p2(2, 2)),
        Aabb::new(p2(-2, -1), p2(2, 2)),
        Aabb::new(p2(-2, -2), p2(1, 2)),
        Aabb::new(p2(-2, -2), p2(2, 1)),
    ] {
        assert!(a.contains(&b));
        assert!(b.contains(&b));
    }

    for c in vec![
        // Shifted to the side, and non-overlapping.
        Aabb::new(p2(-8, -2), p2(-4, 2)),
        Aabb::new(p2(-2, -8), p2(2, 4)),
        Aabb::new(p2(4, -2), p2(8, 2)),
        Aabb::new(p2(-2, 4), p2(2, 8)),
        // Shifted to the side, but overlapping.
        Aabb::new(p2(-4, -2), p2(0, 2)),
        Aabb::new(p2(-2, -4), p2(2, 0)),
        Aabb::new(p2(0, -2), p2(4, 2)),
        Aabb::new(p2(-2, 0), p2(2, 4)),
        // Contains a.
        Aabb::new(p2(-20, -20), p2(20, 20)),
    ] {
        assert!(!a.contains(&c));
        assert!(c.contains(&c));
    }
}

#[test]
fn tree() {
    let mut tree = AabbTree::new();

    let alice_aabb = Aabb::new(p2(0, 0), p2(2, 2));
    tree.insert(alice_aabb.clone(), "Alice");
    let bob_aabb = Aabb::new(p2(2, 2), p2(4, 4));
    tree.insert(bob_aabb.clone(), "Bob");
    let zed_aabb = Aabb::new(p2(10, 10), p2(20, 20));
    tree.insert(zed_aabb.clone(), "Zed");

    for (target, expected) in vec![
        (
            Aabb::new(p2(-100, -100), p2(100, 100)),
            vec![
                (alice_aabb.clone(), "Alice"),
                (bob_aabb.clone(), "Bob"),
                (zed_aabb.clone(), "Zed"),
            ],
        ),
        (
            Aabb::new(p2(1, 1), p2(3, 3)),
            vec![(alice_aabb.clone(), "Alice"), (bob_aabb.clone(), "Bob")],
        ),
        (Aabb::new(p2(100, 100), p2(300, 300)), vec![]),
        (
            Aabb::new(p2(0, 0), p2(1, 1)),
            vec![(alice_aabb.clone(), "Alice")],
        ),
        (
            Aabb::new(p2(2, 2), p2(3, 3)),
            vec![(bob_aabb.clone(), "Bob")],
        ),
        (
            Aabb::new(p2(10, 10), p2(15, 15)),
            vec![(zed_aabb.clone(), "Zed")],
        ),
    ] {
        let mut overlaps: Vec<_> = tree.iter_overlapping(target);
        overlaps.sort_by_key(|&(_, w)| w);
        assert_eq!(overlaps, expected);
    }
}

#[test]
fn tree_returns_pairs_as_often_as_stored() {
    let mut tree = AabbTree::new();
    let b = Aabb::new(p2(0, 0), p2(2, 2));
    tree.insert(b.clone(), "Alice");
    tree.insert(b.clone(), "Alice");
    tree.insert(Aabb::new(p2(10, 10), p2(20, 20)), "Zed");

    // The duplicate pair is stored twice and reported twice; a pair stored
    // once is reported once and only once.
    let hits = tree.iter_overlapping(Aabb::new(p2(1, 1), p2(3, 3)));
    assert_eq!(hits.len(), 2);
    assert!(hits.iter().all(|(hb, hv)| *hb == b && *hv == "Alice"));

    let hits = tree.iter_overlapping(Aabb::new(p2(15, 15), p2(16, 16)));
    assert_eq!(hits.len(), 1);
    assert_eq!(hits[0].1, "Zed");
}

#[test]
fn tree_finds_every_inserted_box() {
    let boxes = vec![
        Aabb::new(p2(0, 0), p2(5, 5)),
        Aabb::new(p2(3, 3), p2(9, 4)),
        Aabb::new(p2(-7, -2), p2(-1, 8)),
        Aabb::new(p2(100, 100), p2(101, 101)),
        Aabb::new(p2(-50, 20), p2(60, 21)),
    ];
    let mut tree = AabbTree::new();
    for b in boxes.iter() {
        tree.insert(b.clone(), ());
    }
    for b in boxes.into_iter() {
        assert!(tree.any_overlap(b));
    }
}

#[test]
fn aabb_accessors() {
    let a = Aabb::new(p2(-3, 1), p2(5, 11));
    assert_eq!(a.min(), p2(-3, 1));
    assert_eq!(a.max(), p2(5, 11));
    assert_eq!(a.width(), 8);
    assert_eq!(a.height(), 10);
    assert_eq!(a.area(), 80);

    let b = Aabb::for_vertices(&vec![p2(4, -2), p2(-1, 7), p2(3, 3)]);
    assert_eq!(b.min(), p2(-1, -2));
    assert_eq!(b.max(), p2(4, 7));
}
