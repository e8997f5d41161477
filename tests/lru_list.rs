use quota_arc::lru::LruList;
use quota_arc::types::Entry;

fn entry(tenant: usize, page: u32, clock: u64) -> Entry {
    Entry {
        tenant,
        page,
        clock,
        loc: clock as usize,
    }
}

#[test]
fn ends_and_handles() {
    let mut list = LruList::new();
    assert!(list.pop_lru().is_none());
    assert!(list.peek_lru().is_none());
    assert_eq!(list.push_mru(entry(0, 1, 1)), 0);
    assert_eq!(list.push_mru(entry(0, 2, 2)), 1);
    assert_eq!(list.push_mru(entry(1, 2, 3)), 2);
    assert_eq!(list.len(), 3);
    assert_eq!(list.peek_lru().unwrap().page, 1);
    assert_eq!(list.find(1, 2), Some(2));
    assert_eq!(list.find(0, 2), Some(1));
    assert_eq!(list.find(1, 1), None);
    assert_eq!(list.remove(1).clock, 2);
    // Handles stay valid when other records leave.
    assert_eq!(list.get(2).clock, 3);
    assert_eq!(list.get(0).clock, 1);
    assert_eq!(list.find(0, 2), None);
    // A freed slot is reused.
    assert_eq!(list.push_mru(entry(2, 9, 4)), 1);
    assert_eq!(list.pop_mru().unwrap().clock, 4);
    assert_eq!(list.pop_mru().unwrap().clock, 3);
    assert_eq!(list.pop_lru().unwrap().clock, 1);
    assert_eq!(list.len(), 0);
    assert!(list.pop_mru().is_none());
}
