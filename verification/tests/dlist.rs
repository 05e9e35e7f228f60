use foyer_memory::dlist::{SlabLinkedList, SlabToken};

#[test]
fn test_repr() {
    assert_eq!(
        std::mem::size_of::<SlabToken>(),
        std::mem::size_of::<Option<SlabToken>>()
    );
}

#[test]
fn test_dlist_simple() {
    let mut l = SlabLinkedList::new();

    l.push_back(2);
    l.push_front(1);
    l.push_back(3);

    let v = l.to_vec();
    assert_eq!(v, vec![1, 2, 3]);
    assert_eq!(l.len(), 3);

    let mut iter = l.iter_mut();
    iter.next();
    iter.next();
    assert_eq!(*iter.data().unwrap(), 2);

    let d2 = iter.remove().unwrap();
    assert_eq!(d2, 2);
    assert_eq!(*iter.data().unwrap(), 3);
    let v = l.to_vec();
    assert_eq!(v, vec![1, 3]);
    assert_eq!(l.len(), 2);

    let d3 = l.pop_back().unwrap();
    assert_eq!(d3, 3);
    let d1 = l.pop_front().unwrap();
    assert_eq!(d1, 1);
    let v = l.to_vec();
    assert_eq!(v, vec![]);
    assert_eq!(l.len(), 0);
    assert!(l.is_empty());

    assert!(l.pop_front().is_none());
}

#[test]
fn test_slab_token_round_trip() {
    for raw in [0usize, 1, 17, usize::MAX >> 1] {
        let token = SlabToken::from_raw(raw);
        assert_eq!(token.to_raw(), raw);
        assert_eq!(token, SlabToken::from_raw(raw));
    }
    assert_ne!(SlabToken::from_raw(0), SlabToken::from_raw(1));
}

#[test]
fn test_dlist_remove_raw() {
    let mut l = SlabLinkedList::with_capacity(4);
    l.push_back(10);
    let a = l.back_token().unwrap();
    l.push_back(20);
    let b = l.back_token().unwrap();
    l.push_back(30);
    let c = l.back_token().unwrap();
    assert_eq!(l.front_token(), Some(a));

    assert_eq!(l.remove_raw(b), 20);
    assert_eq!(l.to_vec(), vec![10, 30]);
    assert_eq!(l.remove_raw(a), 10);
    assert_eq!(l.front_token(), Some(c));
    assert_eq!(l.remove_raw(c), 30);
    assert!(l.is_empty());
    assert_eq!(l.front_token(), None);
    assert_eq!(l.back_token(), None);

    // A freed slot is used again.
    l.push_front(40);
    assert_eq!(l.to_vec(), vec![40]);
    assert_eq!(l.front(), Some(&40));
    assert_eq!(l.back(), Some(&40));
}

#[test]
fn test_dlist_cursor_walks_through_null() {
    let mut l = SlabLinkedList::new();
    for item in [1, 2, 3] {
        l.push_back(item);
    }
    let mut iter = l.iter();
    assert!(!iter.is_valid());
    assert_eq!(iter.data(), None);
    iter.next();
    assert!(iter.is_front());
    assert_eq!(iter.data(), Some(&1));
    iter.next();
    iter.next();
    assert!(iter.is_back());
    assert_eq!(iter.data(), Some(&3));
    iter.next();
    assert!(!iter.is_valid());
    iter.prev();
    assert_eq!(iter.data(), Some(&3));
    iter.front();
    assert_eq!(iter.data(), Some(&1));
    iter.prev();
    assert!(!iter.is_valid());
    iter.back();
    assert_eq!(iter.data(), Some(&3));

    let token = l.front_token().unwrap();
    let mut iter = l.iter_from_raw(token);
    assert_eq!(iter.data(), Some(&1));
    iter.next();
    assert_eq!(iter.data(), Some(&2));
}

#[test]
fn test_dlist_cursor_inserts() {
    let mut l = SlabLinkedList::new();
    l.push_back(2);
    l.push_back(4);
    {
        let mut iter = l.iter_mut();
        iter.next();
        iter.next();
        assert_eq!(iter.data(), Some(&4));
        iter.insert_before(3);
        assert_eq!(iter.data(), Some(&4));
        iter.insert_after(5);
        assert_eq!(iter.data(), Some(&4));
        iter.front();
        iter.insert_before(1);
        iter.back();
        assert!(iter.is_back());
        assert_eq!(iter.data(), Some(&5));
        iter.next();
        // At the null position an item goes to the tail or to the head.
        iter.insert_before(6);
        iter.insert_after(0);
        assert!(!iter.is_valid());
    }
    assert_eq!(l.to_vec(), vec![0, 1, 2, 3, 4, 5, 6]);
    assert_eq!(l.len(), 7);
}

#[test]
fn test_dlist_mutable_items() {
    let mut l = SlabLinkedList::new();
    assert!(l.front_mut().is_none());
    assert!(l.back_mut().is_none());
    for item in [1, 2, 3] {
        l.push_back(item);
    }
    *l.front_mut().unwrap() = 10;
    *l.back_mut().unwrap() = 30;
    {
        let mut iter = l.iter_mut();
        assert!(iter.data_mut().is_none());
        iter.next();
        iter.next();
        *iter.data_mut().unwrap() = 20;
        assert!(!iter.is_front() && !iter.is_back());
        iter.prev();
        assert!(iter.is_front());
        iter.prev();
        assert_eq!(iter.remove(), None);
    }
    assert_eq!(l.to_vec(), vec![10, 20, 30]);
    let token = l.back_token().unwrap();
    let mut iter = l.iter_mut_from_raw(token);
    assert_eq!(iter.remove(), Some(30));
    assert!(!iter.is_valid());
    assert_eq!(l.to_vec(), vec![10, 20]);
    assert_eq!(l.pop_back(), Some(20));
    assert_eq!(l.pop_back(), Some(10));
    assert_eq!(l.pop_back(), None);
}
