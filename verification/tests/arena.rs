use vec_arena::Arena;

#[test]
fn new() {
    let arena = Arena::<i32>::new();
    assert!(arena.is_empty());
    assert_eq!(arena.len(), 0);
    assert_eq!(arena.capacity(), 0);
}

#[test]
fn insert() {
    let mut arena = Arena::new();

    for i in 0..10 {
        assert_eq!(arena.insert(i * 10), i);
        assert_eq!(*arena.get_unchecked(i), i * 10);
    }
    assert!(!arena.is_empty());
    assert_eq!(arena.len(), 10);
}

#[test]
fn with_capacity() {
    let mut arena = Arena::with_capacity(10);
    assert_eq!(arena.capacity(), 10);

    for _ in 0..10 {
        arena.insert(());
    }
    assert_eq!(arena.len(), 10);
    assert_eq!(arena.capacity(), 10);

    arena.insert(());
    assert_eq!(arena.len(), 11);
    assert!(arena.capacity() > 10);
}

#[test]
fn remove() {
    let mut arena = Arena::new();

    assert_eq!(arena.insert(0), 0);
    assert_eq!(arena.insert(10), 1);
    assert_eq!(arena.insert(20), 2);
    assert_eq!(arena.insert(30), 3);
    assert_eq!(arena.len(), 4);

    assert_eq!(arena.remove(1), Some(10));
    assert_eq!(arena.remove(2), Some(20));
    assert_eq!(arena.len(), 2);

    assert!(arena.insert(-1) < 4);
    assert!(arena.insert(-1) < 4);
    assert_eq!(arena.len(), 4);

    assert_eq!(arena.remove(0), Some(0));
    assert!(arena.insert(-1) < 4);
    assert_eq!(arena.len(), 4);

    assert_eq!(arena.insert(400), 4);
    assert_eq!(arena.len(), 5);
}

#[test]
fn invalid_remove() {
    let mut arena = Arena::new();
    for i in 0..10 {
        arena.insert(i.to_string());
    }

    assert_eq!(arena.remove(7), Some("7".to_string()));
    assert_eq!(arena.remove(5), Some("5".to_string()));

    assert_eq!(arena.remove(!0), None);
    assert_eq!(arena.remove(10), None);
    assert_eq!(arena.remove(11), None);

    assert_eq!(arena.remove(5), None);
    assert_eq!(arena.remove(7), None);
}

#[test]
fn clear() {
    let mut arena = Arena::new();
    arena.insert(10);
    arena.insert(20);

    assert!(!arena.is_empty());
    assert_eq!(arena.len(), 2);

    let cap = arena.capacity();
    arena.clear();

    assert!(arena.is_empty());
    assert_eq!(arena.len(), 0);
    assert_eq!(arena.capacity(), cap);
}

#[test]
fn indexing() {
    let mut arena = Arena::new();

    let a = arena.insert(10);
    let b = arena.insert(20);
    let c = arena.insert(30);

    let add = *arena.get_unchecked(c);
    *arena.get_unchecked_mut(b) += add;
    assert_eq!(*arena.get_unchecked(a), 10);
    assert_eq!(*arena.get_unchecked(b), 50);
    assert_eq!(*arena.get_unchecked(c), 30);
}

#[test]
fn get() {
    let mut arena = Arena::new();

    let a = arena.insert(10);
    let b = arena.insert(20);
    let c = arena.insert(30);

    let add = *arena.get(c).unwrap();
    *arena.get_mut(b).unwrap() += add;
    assert_eq!(arena.get(a), Some(&10));
    assert_eq!(arena.get(b), Some(&50));
    assert_eq!(arena.get(c), Some(&30));

    arena.remove(b);
    assert_eq!(arena.get(b), None);
    assert_eq!(arena.get_mut(b), None);
}

#[test]
fn reserve() {
    let mut arena = Arena::new();
    arena.insert(1);
    arena.insert(2);

    arena.reserve(10);
    assert!(arena.capacity() >= 11);
}

#[test]
fn reserve_exact() {
    let mut arena = Arena::new();
    arena.insert(1);
    arena.insert(2);
    arena.reserve(10);
    assert!(arena.capacity() >= 11);
}

#[test]
fn iter() {
    let mut arena = Arena::new();
    let a = arena.insert(10);
    let b = arena.insert(20);
    let c = arena.insert(30);
    let d = arena.insert(40);

    arena.remove(b);

    let mut it = arena.iter();
    assert_eq!(it.next(), Some((a, &10)));
    assert_eq!(it.next(), Some((c, &30)));
    assert_eq!(it.next(), Some((d, &40)));
    assert_eq!(it.next(), None);
}

#[test]
fn iter_mut() {
    let mut arena = Arena::new();
    let a = arena.insert(10);
    let b = arena.insert(20);
    let c = arena.insert(30);
    let d = arena.insert(40);

    arena.remove(b);

    {
        let mut it = arena.iter_mut();
        assert_eq!(it.next(), Some((a, &mut 10)));
        assert_eq!(it.next(), Some((c, &mut 30)));
        assert_eq!(it.next(), Some((d, &mut 40)));
        assert_eq!(it.next(), None);
    }

    let mut it = arena.iter_mut();
    while let Some((index, value)) = it.next() {
        *value += index;
    }

    let mut it = arena.iter_mut();
    assert_eq!(*it.next().unwrap().1, 10 + a);
    assert_eq!(*it.next().unwrap().1, 30 + c);
    assert_eq!(*it.next().unwrap().1, 40 + d);
    assert!(it.next().is_none());
}

#[test]
fn from_iter() {
    let arena = Arena::from_iter(vec![10, 20, 30, 40]);

    let mut it = arena.iter();
    assert_eq!(it.next(), Some((0, &10)));
    assert_eq!(it.next(), Some((1, &20)));
    assert_eq!(it.next(), Some((2, &30)));
    assert_eq!(it.next(), Some((3, &40)));
    assert_eq!(it.next(), None);
}

#[test]
fn into_iter() {
    let mut arena = Arena::new();
    let a = arena.insert("zero".to_string());
    let b = arena.insert("one".to_string());
    let c = arena.insert("two".to_string());
    arena.remove(b);

    let mut it = arena.into_iter();
    assert_eq!(it.next(), Some((a, "zero".to_string())));
    assert_eq!(it.next(), Some((c, "two".to_string())));
    assert_eq!(it.next(), None);
}

#[test]
fn next_vacant() {
    let mut arena = Arena::new();

    let a = arena.next_vacant();
    let b = arena.insert(1);
    assert_eq!(a, b);
    let c = arena.next_vacant();
    let d = arena.insert(2);
    assert_eq!(c, d);

    arena.remove(b);
    assert_eq!(arena.next_vacant(), b);
}

#[test]
fn swap() {
    let mut arena = Arena::new();
    let a = arena.insert(7);
    let b = arena.insert(8);

    let cap = arena.capacity();
    arena.swap(a, b);
    assert_eq!(arena.get(a), Some(&8));
    assert_eq!(arena.get(b), Some(&7));

    arena.swap(a, a);
    assert_eq!(arena.get(a), Some(&8));
    assert_eq!(arena.capacity(), cap);
}

#[test]
fn clone() {
    let mut arena = Arena::new();
    arena.insert(1);
    let b = arena.insert(2);
    arena.insert(3);
    arena.remove(b);

    let copy = arena.clone();
    assert_eq!(copy.len(), 2);
    assert_eq!(copy.get(0), Some(&1));
    assert_eq!(copy.get(b), None);
    assert_eq!(copy.get(2), Some(&3));
    // The clone reuses indices in the same order as the original.
    let mut copy = copy;
    assert_eq!(copy.insert(9), b);
}

#[test]
fn default() {
    let arena: Arena<u8> = Default::default();
    assert!(arena.is_empty());
    assert_eq!(arena.len(), 0);
}

#[test]
fn round_trip() {
    let mut arena = Arena::new();
    arena.insert("keep".to_string());
    let i = arena.insert("taken".to_string());
    assert_eq!(arena.remove(i), Some("taken".to_string()));
    assert_eq!(arena.get(i), None);
    assert_eq!(arena.len(), 1);
}

#[test]
fn reuse_scenario() {
    let mut arena = Arena::new();
    arena.insert(10);
    arena.insert(20);
    arena.insert(30);
    arena.insert(40);

    assert_eq!(arena.remove(1), Some(20));

    let mut it = arena.iter();
    assert_eq!(it.next(), Some((0, &10)));
    assert_eq!(it.next(), Some((2, &30)));
    assert_eq!(it.next(), Some((3, &40)));
    assert_eq!(it.next(), None);

    assert_eq!(arena.insert(99), 1);
    assert_eq!(arena.get(1), Some(&99));
}

#[test]
fn growth_schedule() {
    let mut arena = Arena::new();
    assert_eq!(arena.capacity(), 0);

    let mut caps = Vec::new();
    for i in 0..5 {
        arena.insert(i);
        caps.push(arena.capacity());
        assert_eq!(arena.len(), i + 1);
    }
    // The capacity follows a doubling schedule while occupancy tracks the
    // insertions exactly.
    assert_eq!(caps, vec![4, 4, 4, 4, 8]);

    arena.remove(2);
    assert_eq!(arena.len(), 4);
    assert_eq!(arena.capacity(), 8);
}

#[test]
fn reserve_exact_keeps_contents() {
    let mut arena = Arena::new();
    let a = arena.insert(5);
    let b = arena.insert(6);

    arena.reserve_exact(10);
    assert!(arena.capacity() >= 12);
    assert_eq!(arena.get(a), Some(&5));
    assert_eq!(arena.get(b), Some(&6));
    assert_eq!(arena.len(), 2);
}
