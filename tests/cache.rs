use flowline::cache::LRUCache;
use flowline::lru::{CacheEntry, DoublyLinkedList};

fn hit(cache: &mut LRUCache<&'static str, i32>, key: &'static str, expected: i32) -> bool {
    cache.get(&key) == Some(&expected)
}

fn miss(cache: &mut LRUCache<&'static str, i32>, key: &'static str) -> bool {
    cache.get(&key).is_none()
}

#[test]
fn scripted_access_pattern() {
    let mut cache: LRUCache<&str, i32> = LRUCache::new(4);
    let mut hits = 0;
    let mut misses = 0;
    let mut errors = 0;
    let mut expect_hit = |c: &mut LRUCache<&'static str, i32>, k, v, hits: &mut i32| {
        if hit(c, k, v) {
            *hits += 1;
        } else {
            errors += 1;
        }
    };

    cache.put("A", 1);
    cache.put("B", 2);
    cache.put("C", 3);
    cache.put("D", 4);
    expect_hit(&mut cache, "A", 1, &mut hits);
    expect_hit(&mut cache, "B", 2, &mut hits);
    expect_hit(&mut cache, "C", 3, &mut hits);
    expect_hit(&mut cache, "D", 4, &mut hits);
    cache.put("E", 5);
    if miss(&mut cache, "A") {
        misses += 1;
    }
    expect_hit(&mut cache, "B", 2, &mut hits);
    expect_hit(&mut cache, "C", 3, &mut hits);
    expect_hit(&mut cache, "D", 4, &mut hits);
    expect_hit(&mut cache, "E", 5, &mut hits);
    cache.put("F", 6);
    cache.put("G", 7);
    expect_hit(&mut cache, "G", 7, &mut hits);
    expect_hit(&mut cache, "F", 6, &mut hits);
    expect_hit(&mut cache, "E", 5, &mut hits);
    expect_hit(&mut cache, "D", 4, &mut hits);
    cache.put("A", 10);
    expect_hit(&mut cache, "A", 10, &mut hits);
    expect_hit(&mut cache, "D", 4, &mut hits);
    expect_hit(&mut cache, "E", 5, &mut hits);
    for k in ["B", "C", "G"] {
        if miss(&mut cache, k) {
            misses += 1;
        }
    }
    drop(expect_hit);
    assert_eq!(hits, 15);
    assert_eq!(misses, 4);
    assert_eq!(errors, 0);
    assert_eq!(cache.len(), 4);
}

#[test]
fn put_updates_in_place() {
    let mut cache: LRUCache<u32, u32> = LRUCache::new(2);
    cache.put(1, 10);
    cache.put(2, 20);
    cache.put(1, 11);
    cache.put(3, 30);
    assert!(cache.contains(&1));
    assert!(!cache.contains(&2));
    assert_eq!(cache.get(&1), Some(&11));
    assert_eq!(cache.len(), 2);
}

#[test]
fn capacity_one_keeps_latest() {
    let mut cache: LRUCache<u8, char> = LRUCache::new(1);
    cache.put(1, 'a');
    cache.put(2, 'b');
    assert_eq!(cache.get(&1), None);
    assert_eq!(cache.get(&2), Some(&'b'));
}

#[test]
fn list_keeps_order_and_reuses_slots() {
    let mut list: DoublyLinkedList<u32, u32> = DoublyLinkedList::new();
    let a = list.push_front(1, 100);
    let b = list.push_front(2, 200);
    let c = list.push_front(3, 300);
    assert_eq!(list.iter_forward(), vec![(3, 300), (2, 200), (1, 100)]);
    list.move_to_front(a);
    assert_eq!(list.iter_forward(), vec![(1, 100), (3, 300), (2, 200)]);
    list.move_to_front(b);
    list.move_to_front(c);
    assert_eq!(list.iter_forward(), vec![(3, 300), (2, 200), (1, 100)]);
    assert_eq!(list.remove_tail(), Some(1));
    list.update_value(b, 222);
    assert_eq!(list.get_value(b), Some(&222));
    assert_eq!(list.get_value(a), None);
    let d = list.push_front(4, 400);
    assert_eq!(d, a);
    assert_eq!(list.len(), 3);
    assert_eq!(list.iter_forward(), vec![(4, 400), (3, 300), (2, 222)]);
}

#[test]
fn cache_entry_starts_unlinked() {
    let e = CacheEntry::new("k", 5);
    assert_eq!(e.key, "k");
    assert_eq!(e.value, 5);
    assert_eq!(e.prev, None);
    assert_eq!(e.next, None);
}
