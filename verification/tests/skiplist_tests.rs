use skiplist::linkedlist_skiplist::LinkedListSkipList;
use skiplist::skiplist::SkipList;
use skiplist::skiplist::SkipListIterator;

const MAX_HEIGHT: usize = 64;

#[test]
fn test_seq_insert() {
    let mut list = LinkedListSkipList::new(MAX_HEIGHT);
    for i in 0..1000 {
        list.insert(i, 0);
        assert!(list.contains(i));
    }
}

#[test]
fn test_insert_random_insert() {
    let mut list = LinkedListSkipList::new(MAX_HEIGHT);
    for _i in 0..1000 {
        let val = fastrand::i64(0..1000);
        list.insert(val, 0);
        assert!(list.contains(val));
    }
}

#[test]
fn test_into_iterator() {
    let mut list = LinkedListSkipList::new(MAX_HEIGHT);
    for i in 0..100 {
        list.insert(i, 0);
    }

    let mut expected_val: i64 = 0;
    let mut iter = list.into_iter();
    while let Some(k) = iter.next() {
        assert_eq!(expected_val, k);
        expected_val += 1;
    }
    assert_eq!(expected_val, 100);
}

#[test]
fn test_iterator_seek() {
    let mut list = LinkedListSkipList::new(MAX_HEIGHT);
    for i in 0..100 {
        list.insert(i, 0);
    }
    let mut iter = list.into_iter();
    iter.seek(50);
    assert_eq!(iter.key(), 50);
}

#[test]
fn test_thousand_sequential_keys() {
    let mut list = LinkedListSkipList::new(MAX_HEIGHT);
    for i in 0..1000 {
        list.insert(i, i as u64);
    }
    assert!(list.contains(500));
    assert!(!list.contains(1000));
    let mut iter = list.into_iter();
    iter.seek_to_first();
    let mut expected: i64 = 0;
    while iter.valid() {
        assert_eq!(iter.key(), expected);
        expected += 1;
        iter.advance();
    }
    assert_eq!(expected, 1000);
}

#[test]
fn test_random_duplicates_keep_distinct_count() {
    let mut list = LinkedListSkipList::new(MAX_HEIGHT);
    let mut seen = [false; 1000];
    for _i in 0..1000 {
        let val = fastrand::i64(0..1000);
        list.insert(val, 7);
        seen[val as usize] = true;
    }
    let mut distinct: usize = 0;
    for v in 0..1000 {
        if seen[v as usize] {
            distinct += 1;
            assert!(list.contains(v));
        } else {
            assert!(!list.contains(v));
        }
    }
    assert_eq!(list.keys_in_order().len(), distinct);
    assert_eq!(list.len(), distinct);
}

#[test]
fn test_empty_list() {
    let list = LinkedListSkipList::new(MAX_HEIGHT);
    assert!(!list.contains(0));
    assert!(!list.contains(i64::MIN));
    assert!(!list.contains(i64::MAX));
    assert_eq!(list.estimate_count(12345), 0);
    assert_eq!(list.len(), 0);
    assert_eq!(list.keys_in_order(), Vec::<i64>::new());
    let mut iter = list.into_iter();
    iter.seek_to_first();
    assert!(!iter.valid());
}

#[test]
fn test_seek_lands_on_least_key_at_or_above_target() {
    let mut list = LinkedListSkipList::new(MAX_HEIGHT);
    list.insert(10, 1);
    list.insert(20, 2);
    list.insert(30, 3);
    let mut iter = list.into_iter();
    iter.seek(15);
    assert!(iter.valid());
    assert_eq!(iter.key(), 20);
    iter.seek(30);
    assert!(iter.valid());
    assert_eq!(iter.key(), 30);
    iter.seek(31);
    assert!(!iter.valid());
}

#[test]
fn test_update_keeps_one_node_with_latest_payload() {
    let mut list = LinkedListSkipList::new(MAX_HEIGHT);
    list.insert(5, 111);
    list.insert(5, 222);
    assert_eq!(list.len(), 1);
    assert_eq!(list.get(5), Some(222));
    assert_eq!(list.keys_in_order(), vec![5]);
}

#[test]
fn test_estimate_count_is_exact_rank() {
    let mut list = LinkedListSkipList::new(MAX_HEIGHT);
    list.insert(10, 0);
    list.insert(20, 0);
    list.insert(30, 0);
    assert_eq!(list.estimate_count(5), 0);
    assert_eq!(list.estimate_count(10), 0);
    assert_eq!(list.estimate_count(11), 1);
    assert_eq!(list.estimate_count(25), 2);
    assert_eq!(list.estimate_count(30), 2);
    assert_eq!(list.estimate_count(31), 3);
    assert_eq!(list.estimate_count(i64::MAX), 3);
}

#[test]
fn test_level_zero_sorted_and_levels_nested() {
    let mut list = LinkedListSkipList::new(MAX_HEIGHT);
    for _i in 0..500 {
        let val = fastrand::i64(-10000..10000);
        list.insert(val, 0);
    }
    let base = list.level_keys(0);
    for w in base.windows(2) {
        assert!(w[0] < w[1]);
    }
    assert_eq!(base, list.keys_in_order());
    let mut below = base;
    for level in 1..MAX_HEIGHT {
        let here = list.level_keys(level);
        for k in &here {
            assert!(below.contains(k));
        }
        below = here;
    }
}

#[test]
fn test_reseek_reproduces_fresh_traversal() {
    let mut list = LinkedListSkipList::new(MAX_HEIGHT);
    for _i in 0..200 {
        let val = fastrand::i64(0..300);
        list.insert(val, 0);
    }
    let fresh = list.keys_in_order();
    let mut iter = list.into_iter();
    let mut walked: Vec<i64> = Vec::new();
    iter.seek_to_first();
    while iter.valid() {
        walked.push(iter.key());
        iter.advance();
    }
    assert_eq!(fresh, walked);
    // a second pass over the same cursor's list gives the same sequence again
    let mut again: Vec<i64> = Vec::new();
    iter.seek_to_first();
    while iter.valid() {
        again.push(iter.key());
        iter.advance();
    }
    assert_eq!(fresh, again);
}

#[test]
fn test_get_max_height_grows_monotonically() {
    let mut list = LinkedListSkipList::new(MAX_HEIGHT);
    assert_eq!(list.get_max_height(), 0);
    let mut last: usize = 0;
    for i in 0..200 {
        list.insert(i, 0);
        let h = list.get_max_height();
        assert!(h >= 1);
        assert!(h >= last);
        assert!(h <= MAX_HEIGHT);
        last = h;
    }
}

#[test]
fn test_extreme_keys() {
    let mut list = LinkedListSkipList::new(2);
    list.insert(i64::MAX, 1);
    list.insert(i64::MIN, 2);
    list.insert(0, 3);
    assert_eq!(list.keys_in_order(), vec![i64::MIN, 0, i64::MAX]);
    assert_eq!(list.get(i64::MIN), Some(2));
    assert_eq!(list.get(i64::MAX), Some(1));
    assert_eq!(list.estimate_count(i64::MAX), 2);
    let mut iter = list.into_iter();
    iter.seek(i64::MIN);
    assert_eq!(iter.key(), i64::MIN);
}

#[test]
fn test_trait_interface_matches_inherent_behaviour() {
    let mut list = LinkedListSkipList::new(MAX_HEIGHT);
    SkipList::insert(&mut list, 3, 30);
    SkipList::insert(&mut list, 1, 10);
    SkipList::insert(&mut list, 2, 20);
    assert!(SkipList::contains(&list, 2));
    assert!(!SkipList::contains(&list, 4));
    assert_eq!(SkipList::estimate_count(&list, 3), 2);
    let mut iter = list.into_iter();
    SkipListIterator::seek_to_first(&mut iter);
    assert!(SkipListIterator::valid(&iter));
    assert_eq!(SkipListIterator::key(&iter), 1);
    SkipListIterator::advance(&mut iter);
    assert_eq!(SkipListIterator::key(&iter), 2);
    SkipListIterator::seek(&mut iter, 3);
    assert_eq!(SkipListIterator::key(&iter), 3);
    SkipListIterator::advance(&mut iter);
    assert!(!SkipListIterator::valid(&iter));
}
