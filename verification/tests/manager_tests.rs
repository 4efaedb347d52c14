use copper::common::CuListsManager;
use copper::CuError;

#[test]
fn zero_capacity_is_rejected() {
    let r: Result<CuListsManager<i32>, CuError> = CuListsManager::new(0);
    assert!(matches!(r, Err(CuError::Message(m)) if m == "capacity must be positive"));
}

#[test]
fn push_evicts_exactly_the_oldest() {
    let mut m: CuListsManager<i32> = CuListsManager::new(3).unwrap();
    assert_eq!(m.push(1), None);
    assert_eq!(m.push(2), None);
    assert_eq!(m.push(3), None);
    assert_eq!(m.len(), 3);
    assert_eq!(m.push(4), Some(1));
    assert_eq!(m.push(5), Some(2));
    assert_eq!(m.len(), 3);
    let newest_first: Vec<i32> = m.recent(3).into_iter().copied().collect();
    assert_eq!(newest_first, vec![5, 4, 3]);
}

#[test]
fn recent_one_is_the_most_recent_entry() {
    let mut m: CuListsManager<&str> = CuListsManager::new(2).unwrap();
    assert!(m.recent(1).is_empty());
    m.push("first");
    assert_eq!(m.recent(1), vec![&"first"]);
    m.push("second");
    assert_eq!(m.recent(1), vec![&"second"]);
    assert_eq!(m.most_recent(0), Some(&"second"));
    assert_eq!(m.most_recent(1), Some(&"first"));
    assert_eq!(m.most_recent(2), None);
}

#[test]
fn recent_yields_only_what_exists() {
    let mut m: CuListsManager<u8> = CuListsManager::new(5).unwrap();
    m.push(7);
    m.push(8);
    let r: Vec<u8> = m.recent(99).into_iter().copied().collect();
    assert_eq!(r, vec![8, 7]);
}
