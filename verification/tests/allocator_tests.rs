use poll_registry::unique_id_list::UniqueIdList;

#[test]
fn test_empty() {
    let list = UniqueIdList::<usize>::new();
    assert_eq!(None, list.get(0));
}

#[test]
fn test_incrementing_index() {
    let mut list = UniqueIdList::<usize>::new();
    assert_eq!(list.insert(0), 1);
    assert_eq!(list.insert(0), 2);
    assert_eq!(list.insert(0), 3);
}

#[test]
fn test_lowest_available_index() {
    let mut list = UniqueIdList::<usize>::new();
    assert_eq!(list.insert(0), 1);
    assert_eq!(list.insert(0), 2);
    assert_eq!(list.insert(0), 3);

    list.remove(1);
    list.remove(2);
    assert_eq!(list.insert(0), 1);
    assert_eq!(list.insert(0), 2);

    assert_eq!(list.insert(0), 4);
    list.remove(3);
    assert_eq!(list.insert(0), 3);
}

#[test]
fn test_cascading_bound() {
    let mut list = UniqueIdList::<usize>::new();
    assert_eq!(list.insert(10), 1);
    assert_eq!(list.insert(20), 2);
    assert_eq!(list.insert(30), 3);
    assert_eq!(list.remove(2), Some(20));
    assert_eq!(list.remove(3), Some(30));
    // the bound cascades past the freed id 2 down to 1, so the next
    // insert reuses 2 rather than 4
    assert_eq!(list.insert(40), 2);
}

#[test]
fn test_remove_returns_value_once() {
    let mut list = UniqueIdList::<usize>::new();
    let id = list.insert(7);
    assert_eq!(list.remove(id), Some(7));
    assert_eq!(list.remove(id), None);
    assert_eq!(None, list.get(id));
}

#[test]
fn test_get_and_get_mut() {
    let mut list = UniqueIdList::<usize>::new();
    let id = list.insert(5);
    assert_eq!(list.get(id), Some(&5));
    *list.get_mut(id) = 9;
    assert_eq!(list.get(id), Some(&9));
}

#[test]
fn test_iter_sorted() {
    let mut list = UniqueIdList::<usize>::new();
    for k in 0..5 {
        list.insert(k);
    }
    list.remove(2);
    list.remove(4);
    assert_eq!(list.iter(), vec![1, 3, 5]);
}

#[test]
fn test_serialized_inserts_unique() {
    // three callers making four insertions each, serialized by the
    // registry's exclusive access, get twelve distinct ids
    let mut list = UniqueIdList::<usize>::new();
    let mut ids: Vec<usize> = Vec::new();
    for caller in 0..3 {
        for k in 0..4 {
            let id = list.insert(caller * 10 + k);
            assert!(!ids.contains(&id));
            ids.push(id);
        }
    }
    assert_eq!(ids.len(), 12);
}
