use lfu_cache::lfu::LFUCache;

fn s(x: &str) -> String {
    String::from(x)
}

#[test]
fn naive_basics() {
    let mut cache = LFUCache::new(3);
    cache.insert(s("a"), s("alice"));
    cache.insert(s("b"), s("bob"));
    cache.sync();

    assert_eq!(cache.get(&s("a")), Some(s("alice")));
    assert_eq!(cache.get(&s("b")), Some(s("bob")));
    assert_eq!(cache.get(&s("a")), Some(s("alice")));
    assert_eq!(cache.get(&s("b")), Some(s("bob")));
    // counts: a -> 2, b -> 2

    cache.insert(s("c"), s("cindy"));
    cache.sync();

    assert_eq!(cache.get(&s("c")), Some(s("cindy")));
    // counts: a -> 2, b -> 2, c -> 1

    // "d" should not be admitted because its frequency is too low.
    cache.insert(s("d"), s("david")); //        count: d -> 0
    cache.sync();
    assert_eq!(cache.get(&s("d")), None); //        d -> 1

    cache.insert(s("d"), s("david"));
    cache.sync();
    assert_eq!(cache.get(&s("d")), None); //        d -> 2

    // "d" should be admitted and "c" should be evicted
    // because d's frequency is higher than c's.
    cache.insert(s("d"), s("dennis"));
    cache.sync();
    assert_eq!(cache.get(&s("d")), Some(s("dennis")));
    assert_eq!(cache.get(&s("c")), None);

    assert_eq!(cache.remove(&s("b")), Some(s("bob")));
}

#[test]
fn capacity_never_exceeded() {
    let mut cache = LFUCache::new(2);
    let keys = ["k1", "k2", "k3", "k4", "k5"];
    for k in keys.iter() {
        cache.insert(s(k), s("v"));
        cache.sync();
    }
    let mut resident = 0;
    for k in keys.iter() {
        if cache.get(&s(k)).is_some() {
            resident += 1;
        }
    }
    assert!(resident <= 2);
    // The first two inserts had room and must both be resident; the later
    // candidates had zero estimated frequency and were rejected.
    assert_eq!(cache.get(&s("k1")), Some(s("v")));
    assert_eq!(cache.get(&s("k2")), Some(s("v")));
}

#[test]
fn admission_rejects_on_tie() {
    let mut cache = LFUCache::new(1);
    cache.insert(s("x"), s("one"));
    cache.sync();
    // Both candidate and victim have estimated frequency zero: a tie must
    // reject the candidate and keep the incumbent.
    cache.insert(s("y"), s("two"));
    cache.sync();
    assert_eq!(cache.get(&s("y")), None);
    assert_eq!(cache.get(&s("x")), Some(s("one")));
}

#[test]
fn admission_strictly_greater_evicts() {
    let mut cache = LFUCache::new(1);
    cache.insert(s("x"), s("one"));
    cache.sync();
    // Two recorded reads of "y" (misses still count as reads) push its
    // estimate past the single read of "x".
    let _ = cache.get(&s("y"));
    let _ = cache.get(&s("y"));
    cache.sync();
    assert!(cache.estimate(&s("y")) > cache.estimate(&s("x")));
    cache.insert(s("y"), s("two"));
    cache.sync();
    assert_eq!(cache.get(&s("y")), Some(s("two")));
    assert_eq!(cache.get(&s("x")), None);
}

#[test]
fn insert_then_sync_is_durable() {
    let mut cache = LFUCache::new(3);
    cache.insert(s("k"), s("v1"));
    cache.sync();
    assert_eq!(cache.get(&s("k")), Some(s("v1")));
    // A resident key's value is refreshed in place.
    cache.insert(s("k"), s("v2"));
    cache.sync();
    assert_eq!(cache.get(&s("k")), Some(s("v2")));
}

#[test]
fn insert_is_not_visible_before_sync() {
    let mut cache = LFUCache::new(3);
    cache.insert(s("k"), s("v"));
    // Acknowledged once enqueued, structurally visible only after a drain.
    assert_eq!(cache.get(&s("k")), None);
    cache.sync();
    assert_eq!(cache.get(&s("k")), Some(s("v")));
}

#[test]
fn remove_then_sync_is_absent() {
    let mut cache = LFUCache::new(3);
    cache.insert(s("a"), s("alice"));
    cache.sync();
    assert_eq!(cache.remove(&s("a")), Some(s("alice")));
    cache.sync();
    assert_eq!(cache.get(&s("a")), None);
}

#[test]
fn remove_of_absent_key_returns_none() {
    let mut cache = LFUCache::new(3);
    assert_eq!(cache.remove(&s("ghost")), None);
    cache.sync();
    assert_eq!(cache.get(&s("ghost")), None);
}

#[test]
fn estimate_never_decreases_with_reads() {
    let mut cache = LFUCache::new(3);
    cache.insert(s("k"), s("v"));
    cache.sync();
    let mut last = cache.estimate(&s("k"));
    for _ in 0..5 {
        let _ = cache.get(&s("k"));
        cache.sync();
        let now = cache.estimate(&s("k"));
        assert!(now >= last);
        last = now;
    }
    assert!(last >= 5);
}
