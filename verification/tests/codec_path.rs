use td::errors::TodoError;
use td::path::{parse_path, ListOp, OpOutcome};
use td::text::expand_path;
use td::todo_list::TodoList;

#[test]
fn paths_split_into_indices() {
    assert_eq!(parse_path("0:1:2").unwrap(), vec![0, 1, 2]);
    assert_eq!(parse_path("7").unwrap(), vec![7]);
    assert_eq!(parse_path("007").unwrap(), vec![7]);
}

#[test]
fn empty_path_is_path_not_found() {
    assert_eq!(parse_path(""), Err(TodoError::PathNotFound));
}

#[test]
fn malformed_paths_are_invalid_path_format() {
    assert_eq!(parse_path("x"), Err(TodoError::InvalidPathFormat));
    assert_eq!(parse_path("1:"), Err(TodoError::InvalidPathFormat));
    assert_eq!(parse_path(":1"), Err(TodoError::InvalidPathFormat));
    assert_eq!(parse_path("1::2"), Err(TodoError::InvalidPathFormat));
    assert_eq!(parse_path("1:a"), Err(TodoError::InvalidPathFormat));
    assert_eq!(
        parse_path("99999999999999999999999999999999"),
        Err(TodoError::InvalidPathFormat)
    );
}

#[test]
fn resolve_walks_nested_indices() {
    let mut list = TodoList::new();
    list.add_item("parent".to_string(), None, None).unwrap();
    list.add_item("child".to_string(), None, Some(0)).unwrap();
    let item = list.resolve("0:0").unwrap();
    assert_eq!(item.description, "child");
    let err = list.resolve("0:1").unwrap_err();
    assert_eq!(
        err,
        TodoError::IndexOutOfBounds { index: 1, depth: 1, path: "0:1".to_string() }
    );
    assert_eq!(list.resolve("").unwrap_err(), TodoError::PathNotFound);
}

#[test]
fn resolve_demands_a_sub_list_on_inner_segments() {
    let mut list = TodoList::new();
    list.add_item("leaf".to_string(), None, None).unwrap();
    let err = list.resolve("0:0").unwrap_err();
    assert_eq!(err, TodoError::NoSublistAtIndex { index: 0, path: "0:0".to_string() });
    let top = list.resolve("0").unwrap();
    assert_eq!(top.description, "leaf");
}

#[test]
fn serialized_list_reads_back_structurally_equal() {
    let mut list = TodoList::new();
    list.add_item("milk; 2l \"whole\"".to_string(), None, None).unwrap();
    list.add_item("taxes".to_string(), Some("2025-04-15 23:59:59".to_string()), None).unwrap();
    list.add_item("sub task".to_string(), None, Some(1)).unwrap();
    list.complete_item(0).unwrap();
    list.remove_item(0).unwrap();
    list.add_item("recycled".to_string(), None, None).unwrap();
    let text = list.to_text();
    let back = TodoList::from_text(&text).unwrap();
    assert_eq!(back, list);
    assert!(back.check_wf());
}

#[test]
fn empty_list_round_trips() {
    let list = TodoList::new();
    let back = TodoList::from_text(&list.to_text()).unwrap();
    assert_eq!(back, list);
}

#[test]
fn corrupt_text_is_rejected() {
    assert!(TodoList::from_text("").is_none());
    assert!(TodoList::from_text("garbage").is_none());
    let mut list = TodoList::new();
    list.add_item("a".to_string(), None, None).unwrap();
    let mut text = list.to_text();
    text.push('x');
    assert!(TodoList::from_text(&text).is_none());
}

#[test]
fn path_addressed_mutations_reach_nested_lists() {
    let mut list = TodoList::new();
    list.add_item("parent".to_string(), None, None).unwrap();
    let out = list
        .apply_at("0", ListOp::Add { description: "kid".to_string(), deadline: None })
        .unwrap();
    assert!(matches!(out, OpOutcome::Added(0)));
    let out = list
        .apply_at("0:0", ListOp::Add { description: "grandkid".to_string(), deadline: None })
        .unwrap();
    assert!(matches!(out, OpOutcome::Added(0)));
    let deep = list.resolve("0:0:0").unwrap();
    assert_eq!(deep.description, "grandkid");
    list.apply_at("0:0", ListOp::Complete { id: 0 }).unwrap();
    assert!(list.items[0].sub_list.as_ref().unwrap().items[0]
        .sub_list
        .as_ref()
        .unwrap()
        .items[0]
        .completed);
    let out = list.apply_at("0:0", ListOp::Remove { id: 0 }).unwrap();
    match out {
        OpOutcome::Removed(it) => assert_eq!(it.description, "grandkid"),
        _ => panic!("expected a removed item"),
    }
    let err = list.apply_at("0", ListOp::Complete { id: 9 }).unwrap_err();
    assert_eq!(err, TodoError::ItemNotFound { id: 9 });
    let err = list
        .apply_at("5", ListOp::Complete { id: 0 })
        .unwrap_err();
    assert_eq!(err, TodoError::IndexOutOfBounds { index: 5, depth: 0, path: "5".to_string() });
}

#[test]
fn path_addressed_edit_updates_description() {
    let mut list = TodoList::new();
    list.add_item("parent".to_string(), None, None).unwrap();
    list.add_item("kid".to_string(), None, Some(0)).unwrap();
    list.apply_at(
        "0",
        ListOp::Edit { id: 0, description: "kid 2".to_string(), deadline: None },
    )
    .unwrap();
    assert_eq!(list.items[0].sub_list.as_ref().unwrap().items[0].description, "kid 2");
}

#[test]
fn rendering_shows_ids_counts_and_deadlines() {
    let mut list = TodoList::new();
    list.add_item("top".to_string(), Some("2025-04-15 23:59:59".to_string()), None).unwrap();
    list.add_item("kid done".to_string(), None, Some(0)).unwrap();
    list.add_item("kid open".to_string(), None, Some(0)).unwrap();
    list.apply_at("0", ListOp::Complete { id: 0 }).unwrap();
    let text = list.items[0].render(false);
    assert_eq!(
        text,
        "[ ] #0: top(1) | deadline: 2025-04-15 23:59:59\n  [ ] #1: kid open \n"
    );
    let all = list.items[0].render(true);
    assert_eq!(
        all,
        "[ ] #0: top(1) | deadline: 2025-04-15 23:59:59\n  [x] #0: kid done \n  [ ] #1: kid open \n"
    );
}

#[test]
fn tilde_expansion() {
    assert_eq!(expand_path("~", "/home/u"), "/home/u");
    assert_eq!(expand_path("~/notes", "/home/u"), "/home/u/notes");
    assert_eq!(expand_path("/etc/todo", "/home/u"), "/etc/todo");
    assert_eq!(expand_path("rel/todo", "/home/u"), "rel/todo");
}
