use dnsfwd::cache::{Cache, CacheEntry};

#[test]
fn get_right_after_insert() {
    let mut c = Cache::new();
    c.insert_at(b"example.com.", &[93, 184, 216, 34], 60, 1000);
    assert_eq!(c.get_at(b"example.com.", 1000), Some(([93, 184, 216, 34], 60)));
    assert_eq!(c.get_at(b"example.com.", 1010), Some(([93, 184, 216, 34], 50)));
}

#[test]
fn expired_entry_is_removed() {
    let mut c = Cache::new();
    c.insert_at(b"example.com.", &[1, 2, 3, 4], 30, 1000);
    assert!(c.contains(b"example.com."));
    assert_eq!(c.get_at(b"example.com.", 1030), None);
    assert!(!c.contains(b"example.com."));
    assert_eq!(c.get_at(b"example.com.", 1000), None);
}

#[test]
fn insert_overwrites() {
    let mut c = Cache::new();
    c.insert_at(b"a.example.", &[1, 1, 1, 1], 100, 0);
    c.insert_at(b"a.example.", &[2, 2, 2, 2], 10, 5);
    assert_eq!(c.get_at(b"a.example.", 6), Some(([2, 2, 2, 2], 9)));
}

#[test]
fn lookup_ignores_case() {
    let mut c = Cache::new();
    c.insert_at(b"Example.COM.", &[9, 9, 9, 9], 60, 0);
    assert_eq!(c.get_at(b"example.com.", 0), Some(([9, 9, 9, 9], 60)));
    assert_eq!(c.get_at(b"EXAMPLE.com.", 59), Some(([9, 9, 9, 9], 1)));
}

#[test]
fn missing_name_gives_none() {
    let mut c = Cache::new();
    c.insert_at(b"a.example.", &[1, 1, 1, 1], 100, 0);
    assert_eq!(c.get_at(b"b.example.", 0), None);
}

#[test]
fn expiry_saturates() {
    let e = CacheEntry::new_at(&[1, 2, 3, 4], u64::MAX, 10);
    assert_eq!(e.expiry, u64::MAX);
    assert_eq!(e.get_ttl_at(u64::MAX - 5), 5);
    assert!(!e.is_valid_at(u64::MAX));
}

#[test]
fn clock_backed_insert_and_get() {
    let mut c = Cache::new();
    c.insert(b"clock.example.", &[4, 3, 2, 1], 3600);
    match c.get(b"clock.example.") {
        Some((a, t)) => {
            assert_eq!(a, [4, 3, 2, 1]);
            assert!(t <= 3600 && t >= 3590);
        }
        None => panic!("entry missing"),
    }
    let e = CacheEntry::new(&[1, 1, 1, 1], 100);
    assert!(e.is_valid());
    assert!(e.get_ttl() <= 100);
}
