use vec_arena::bitmap::Bitmap;

#[test]
fn bitmap_new() {
    let bitmap = Bitmap::new();
    assert_eq!(bitmap.len(), 0);
    assert_eq!(bitmap.occupied(), 0);
    bitmap.check_invariants();
}

#[test]
fn bitmap_acquire_release() {
    let mut bitmap = Bitmap::new();
    bitmap.reserve_exact(3);
    assert_eq!(bitmap.len(), 3);
    assert_eq!(bitmap.occupied(), 0);

    let a = bitmap.acquire();
    let b = bitmap.acquire();
    assert_ne!(a, b);
    assert!(a < 3 && b < 3);
    assert_eq!(bitmap.occupied(), 2);
    assert!(bitmap.is_occupied(a));
    assert!(bitmap.is_occupied(b));

    bitmap.release(a);
    assert_eq!(bitmap.occupied(), 1);
    assert!(!bitmap.is_occupied(a));
    bitmap.check_invariants();
}

#[test]
fn bitmap_acquire_at() {
    let mut bitmap = Bitmap::new();
    bitmap.reserve_exact(70);

    bitmap.acquire_at(0);
    bitmap.acquire_at(69);
    assert_eq!(bitmap.occupied(), 2);
    assert!(bitmap.is_occupied(0));
    assert!(!bitmap.is_occupied(1));
    assert!(bitmap.is_occupied(69));

    // The freed low slot is found again before any fresh slot past it.
    bitmap.release(0);
    assert_eq!(bitmap.acquire(), 0);
}

#[test]
fn bitmap_scans() {
    let mut bitmap = Bitmap::new();
    bitmap.reserve_exact(130);
    bitmap.acquire_at(0);
    bitmap.acquire_at(70);
    bitmap.acquire_at(129);

    assert_eq!(bitmap.next_occupied(0), Some(0));
    assert_eq!(bitmap.next_occupied(1), Some(70));
    assert_eq!(bitmap.next_occupied(70), Some(70));
    assert_eq!(bitmap.next_occupied(71), Some(129));
    assert_eq!(bitmap.next_occupied(130), None);

    assert_eq!(bitmap.previous_occupied(0), None);
    assert_eq!(bitmap.previous_occupied(1), Some(0));
    assert_eq!(bitmap.previous_occupied(70), Some(0));
    assert_eq!(bitmap.previous_occupied(129), Some(70));
    assert_eq!(bitmap.previous_occupied(!0), Some(129));
}

#[test]
fn bitmap_iter() {
    let mut bitmap = Bitmap::new();
    bitmap.reserve_exact(200);
    bitmap.acquire_at(3);
    bitmap.acquire_at(64);
    bitmap.acquire_at(199);

    let mut it = bitmap.iter();
    assert_eq!(it.size_hint(), (0, Some(200)));
    assert_eq!(it.next(), Some(3));
    assert_eq!(it.next(), Some(64));
    assert_eq!(it.next(), Some(199));
    assert_eq!(it.next(), None);

    assert_eq!(bitmap.iter().count(), 3);
}

#[test]
fn bitmap_reserve_vacancies() {
    let mut bitmap = Bitmap::new();
    bitmap.reserve_exact(5);
    for _ in 0..5 {
        bitmap.acquire();
    }
    assert_eq!(bitmap.occupied(), 5);

    // After a reserve, at least the requested number of slots is vacant.
    bitmap.reserve(7);
    assert!(bitmap.len() - bitmap.occupied() >= 7);
}

#[test]
fn bitmap_reserve_doubles() {
    let mut bitmap = Bitmap::new();
    let mut lens = Vec::new();
    for _ in 0..5 {
        if bitmap.occupied() == bitmap.len() {
            bitmap.reserve(1);
        }
        bitmap.acquire();
        lens.push(bitmap.len());
    }
    // Amortized growth at least doubles the length each time it has to
    // grow, so five acquires see only three distinct lengths.
    assert_eq!(lens, vec![1, 2, 4, 4, 8]);
    assert_eq!(bitmap.occupied(), 5);
}

#[test]
fn bitmap_full_blocks() {
    let mut bitmap = Bitmap::new();
    bitmap.reserve_exact(64);
    for i in 0..64 {
        assert_eq!(bitmap.acquire(), i);
    }
    assert_eq!(bitmap.occupied(), 64);

    // A full block is relinked once one of its slots is released.
    bitmap.release(31);
    assert_eq!(bitmap.acquire(), 31);

    bitmap.reserve_exact(64);
    assert_eq!(bitmap.len(), 128);
    assert_eq!(bitmap.acquire(), 64);
}
