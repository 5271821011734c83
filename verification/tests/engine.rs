use td::datetime::format_datetime;
use td::deadline::parse_deadline;
use td::errors::TodoError;
use td::id_pool::IdPool;
use td::text::expand_path;
use td::todo_list::TodoList;

#[test]
fn create() {
    let mut list = TodoList::new();
    list.add_item("test1".to_string(), None, None).unwrap();
    list.add_item("test2".to_string(), None, None).unwrap();
    let time = parse_deadline(Some("today".to_string())).unwrap();
    list.add_item("test3".to_string(), Some(format_datetime(&time)), None).unwrap();
    list.add_item("test4".to_string(), None, None).unwrap();
    let path_str = "~/.todo".to_string();
    let path = expand_path(&path_str, "/home/user");
    assert_eq!(path, "/home/user/.todo");
    let _saved = list.to_text();
}

#[test]
fn add_assigns_small_ids_in_order() {
    let mut list = TodoList::new();
    assert_eq!(list.add_item("buy milk".to_string(), None, None).unwrap(), 0);
    assert_eq!(list.add_item("call mom".to_string(), None, None).unwrap(), 1);
    assert_eq!(list.items.len(), 2);
    assert_eq!(list.items[0].description, "buy milk");
    assert_eq!(list.items[0].id, 0);
    assert!(!list.items[0].completed);
    assert_eq!(list.items[0].deadline, None);
}

#[test]
fn removed_id_is_reused_by_next_add() {
    let mut list = TodoList::new();
    assert_eq!(list.add_item("buy milk".to_string(), None, None).unwrap(), 0);
    assert_eq!(list.add_item("call mom".to_string(), None, None).unwrap(), 1);
    let removed = list.remove_item(0).unwrap();
    assert_eq!(removed.description, "buy milk");
    assert_eq!(list.add_item("walk dog".to_string(), None, None).unwrap(), 0);
    assert_eq!(list.items.len(), 2);
    assert_eq!(list.items[1].description, "walk dog");
    assert_eq!(list.items[1].id, 0);
}

#[test]
fn double_release_fails_with_id_not_in_use() {
    let mut pool = IdPool::new();
    let id = pool.acquire_id();
    assert_eq!(pool.release_id(id), Ok(()));
    assert_eq!(pool.release_id(id), Err(TodoError::IdNotInUse { id }));
}

#[test]
fn acquire_prefers_recycled_ids_lifo() {
    let mut pool = IdPool::new();
    let a = pool.acquire_id();
    let b = pool.acquire_id();
    assert_eq!((a, b), (0, 1));
    pool.release_id(0).unwrap();
    pool.release_id(1).unwrap();
    assert_eq!(pool.acquire_id(), 1);
    assert_eq!(pool.acquire_id(), 0);
    assert_eq!(pool.acquire_id(), 2);
}

#[test]
fn todo_len_counts_only_incomplete_at_this_level() {
    let mut list = TodoList::new();
    list.add_item("a".to_string(), None, None).unwrap();
    list.add_item("b".to_string(), None, None).unwrap();
    list.add_item("c".to_string(), None, None).unwrap();
    list.add_item("child".to_string(), None, Some(0)).unwrap();
    list.complete_item(1).unwrap();
    assert_eq!(list.todo_len(), 2);
}

#[test]
fn list_items_hides_completed_unless_asked() {
    let mut list = TodoList::new();
    list.add_item("A".to_string(), None, None).unwrap();
    list.add_item("B".to_string(), None, None).unwrap();
    list.complete_item(1).unwrap();
    let shown = list.list_items(false);
    assert_eq!(shown.len(), 1);
    assert_eq!(shown[0].description, "A");
    let all = list.list_items(true);
    assert_eq!(all.len(), 2);
    assert_eq!(all[1].description, "B");
}

#[test]
fn complete_is_idempotent() {
    let mut list = TodoList::new();
    list.add_item("a".to_string(), None, None).unwrap();
    list.complete_item(0).unwrap();
    list.complete_item(0).unwrap();
    assert!(list.items[0].completed);
}

#[test]
fn complete_missing_id_is_item_not_found() {
    let mut list = TodoList::new();
    list.add_item("a".to_string(), None, None).unwrap();
    assert_eq!(list.complete_item(42), Err(TodoError::ItemNotFound { id: 42 }));
    assert_eq!(list.remove_item(42), Err(TodoError::ItemNotFound { id: 42 }));
}

#[test]
fn add_under_missing_parent_is_parent_not_found() {
    let mut list = TodoList::new();
    list.add_item("a".to_string(), None, None).unwrap();
    let r = list.add_item("child".to_string(), None, Some(99));
    assert_eq!(r, Err(TodoError::ParentNotFound));
    assert_eq!(list.items.len(), 1);
}

#[test]
fn sub_list_is_created_lazily_with_its_own_pool() {
    let mut list = TodoList::new();
    list.add_item("parent".to_string(), None, None).unwrap();
    assert!(list.items[0].sub_list.is_none());
    let child_id = list.add_item("child".to_string(), None, Some(0)).unwrap();
    assert_eq!(child_id, 0);
    let sub = list.items[0].sub_list.as_ref().unwrap();
    assert_eq!(sub.items.len(), 1);
    assert_eq!(sub.items[0].description, "child");
    let second = list.add_item("child2".to_string(), None, Some(0)).unwrap();
    assert_eq!(second, 1);
}

#[test]
fn edit_overwrites_description_and_keeps_deadline_when_omitted() {
    let mut list = TodoList::new();
    list.add_item("old".to_string(), Some("2025-01-01 10:00:00".to_string()), None).unwrap();
    list.edit_item(0, "new".to_string(), None).unwrap();
    assert_eq!(list.items[0].description, "new");
    assert_eq!(list.items[0].deadline, Some("2025-01-01 10:00:00".to_string()));
    list.edit_item(0, "newer".to_string(), Some("2026-01-01 10:00:00".to_string())).unwrap();
    assert_eq!(list.items[0].deadline, Some("2026-01-01 10:00:00".to_string()));
    assert_eq!(
        list.edit_item(9, "x".to_string(), None),
        Err(TodoError::ItemNotFound { id: 9 })
    );
}

#[test]
fn check_wf_accepts_built_lists_and_rejects_corrupt_ones() {
    let mut list = TodoList::new();
    list.add_item("a".to_string(), None, None).unwrap();
    list.add_item("child".to_string(), None, Some(0)).unwrap();
    list.remove_item(0).unwrap();
    list.add_item("b".to_string(), None, None).unwrap();
    assert!(list.check_wf());
    let corrupt = TodoList {
        items: vec![td::todo_list::TodoItem {
            id: 7,
            description: "ghost".to_string(),
            completed: false,
            deadline: None,
            sub_list: None,
        }],
        id_pool: IdPool { next_id: 0, recycled_ids: vec![], used_ids: vec![] },
    };
    assert!(!corrupt.check_wf());
}
