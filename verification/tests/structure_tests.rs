use lfu_cache::linked_list::LinkedList;
use lfu_cache::sketch::FrequencySketch;
use lfu_cache::store::ShardedMap;

#[test]
fn basic() {
    let mut linkedlist = LinkedList::new();
    let n1 = linkedlist.push_back(3);
    let _n2 = linkedlist.push_back(4);
    linkedlist.move_to_back(Some(n1));
    assert_eq!(linkedlist.pop_front(), Some(4));
    assert_eq!(linkedlist.pop_front(), Some(3));
}

#[test]
fn list_front_len_and_empty() {
    let mut list = LinkedList::new();
    assert!(list.is_empty());
    assert_eq!(list.len(), 0);
    assert_eq!(list.front(), None);
    let _h1 = list.push_back(s("a"));
    let _h2 = list.push_back(s("b"));
    assert!(!list.is_empty());
    assert_eq!(list.len(), 2);
    assert_eq!(list.front(), Some(&s("a")));
    list.move_to_back(None);
    assert_eq!(list.front(), Some(&s("a")));
    assert_eq!(list.pop_front(), Some(s("a")));
    assert_eq!(list.pop_front(), Some(s("b")));
    assert_eq!(list.pop_front(), None);
}

fn s(x: &str) -> String {
    String::from(x)
}

#[test]
fn list_handles_stay_valid_across_moves() {
    let mut list = LinkedList::new();
    let h1 = list.push_back(1);
    let h2 = list.push_back(2);
    let h3 = list.push_back(3);
    list.move_to_back(Some(h1));
    list.move_to_back(Some(h2));
    list.move_to_back(Some(h3));
    assert_eq!(list.pop_front(), Some(1));
    assert_eq!(list.pop_front(), Some(2));
    assert_eq!(list.pop_front(), Some(3));
}

#[test]
fn list_push_front_and_pop_back() {
    let mut list = LinkedList::new();
    let _h1 = list.push_back(2);
    let _h2 = list.push_front(1);
    let _h3 = list.push_back(3);
    assert_eq!(list.front(), Some(&1));
    assert_eq!(list.pop_back(), Some(3));
    assert_eq!(list.pop_back(), Some(2));
    assert_eq!(list.pop_back(), Some(1));
    assert_eq!(list.pop_back(), None);
}

#[test]
fn sketch_counts_reads() {
    let mut sk = FrequencySketch::new(10);
    assert_eq!(sk.estimate("x"), 0);
    sk.increment("x");
    assert_eq!(sk.estimate("x"), 1);
    sk.increment("x");
    sk.increment("x");
    assert_eq!(sk.estimate("x"), 3);
    assert_eq!(sk.estimate("y"), 0);
}

#[test]
fn sharded_map_builds() {
    let _m: ShardedMap<u64> = ShardedMap::new();
    let _m2: ShardedMap<String> = ShardedMap::new();
}
