use todo_list::{TodoError, TodoList};

fn descriptions(list: &TodoList) -> Vec<String> {
    list.items.iter().map(|it| it.description.clone()).collect()
}

fn statuses(list: &TodoList) -> Vec<bool> {
    list.items.iter().map(|it| it.status).collect()
}

#[test]
fn new_list_is_empty() {
    let list = TodoList::new();
    assert_eq!(list.items.len(), 0);
    assert_eq!(list.to_document(), "{\"items\":[]}");
}

#[test]
fn add_appends_in_order() {
    let mut list = TodoList::new();
    list.add("first");
    list.add("second");
    assert_eq!(descriptions(&list), vec!["first".to_string(), "second".to_string()]);
    assert_eq!(statuses(&list), vec![false, false]);
}

#[test]
fn edit_changes_only_that_description() {
    let mut list = TodoList::new();
    list.add("a");
    list.add("b");
    list.add("c");
    assert_eq!(list.finish(1), Ok(()));
    assert_eq!(list.edit(1, "b2"), Ok(()));
    assert_eq!(descriptions(&list), vec!["a".to_string(), "b2".to_string(), "c".to_string()]);
    // the done flag of the edited item and all other items are untouched
    assert_eq!(statuses(&list), vec![false, true, false]);
}

#[test]
fn edit_out_of_range_changes_nothing() {
    let mut list = TodoList::new();
    list.add("only");
    let before = list.to_document();
    assert_eq!(list.edit(1, "nope"), Err(TodoError::OutOfRange));
    assert_eq!(list.to_document(), before);
}

#[test]
fn finish_marks_done_and_is_idempotent() {
    let mut list = TodoList::new();
    list.add("task");
    assert_eq!(list.finish(0), Ok(()));
    assert_eq!(statuses(&list), vec![true]);
    assert_eq!(list.finish(0), Ok(()));
    assert_eq!(statuses(&list), vec![true]);
    assert_eq!(descriptions(&list), vec!["task".to_string()]);
}

#[test]
fn finish_out_of_range_changes_nothing() {
    let mut list = TodoList::new();
    let before = list.to_document();
    assert_eq!(list.finish(0), Err(TodoError::OutOfRange));
    assert_eq!(list.to_document(), before);
}

#[test]
fn remove_shifts_later_items_down() {
    let mut list = TodoList::new();
    list.add("a");
    list.add("b");
    list.add("c");
    list.add("d");
    assert_eq!(list.finish(3), Ok(()));
    assert_eq!(list.remove(1), Ok(()));
    assert_eq!(
        descriptions(&list),
        vec!["a".to_string(), "c".to_string(), "d".to_string()]
    );
    assert_eq!(statuses(&list), vec![false, false, true]);
}

#[test]
fn remove_out_of_range_changes_nothing() {
    let mut list = TodoList::new();
    list.add("a");
    let before = list.to_document();
    assert_eq!(list.remove(7), Err(TodoError::OutOfRange));
    assert_eq!(list.to_document(), before);
}

#[test]
fn clean_drops_done_items_and_keeps_order() {
    let mut list = TodoList::new();
    list.add("a");
    list.add("b");
    list.add("c");
    list.add("d");
    assert_eq!(list.finish(0), Ok(()));
    assert_eq!(list.finish(2), Ok(()));
    list.clean();
    assert_eq!(descriptions(&list), vec!["b".to_string(), "d".to_string()]);
    assert_eq!(statuses(&list), vec![false, false]);
}

#[test]
fn clean_on_empty_list_succeeds() {
    let mut list = TodoList::new();
    list.clean();
    assert_eq!(list.items.len(), 0);
}

#[test]
fn add_finish_last_clean_removes_it_and_keeps_the_rest() {
    let mut list = TodoList::new();
    list.add("a");
    list.add("b");
    list.add("extra");
    assert_eq!(list.finish(2), Ok(()));
    list.clean();
    assert_eq!(descriptions(&list), vec!["a".to_string(), "b".to_string()]);
    assert_eq!(statuses(&list), vec![false, false]);
}

#[test]
fn scenario_buy_milk_walk_dog() {
    let mut list = TodoList::new();
    list.add("buy milk");
    list.add("walk dog");
    assert_eq!(list.finish(0), Ok(()));
    list.clean();
    assert_eq!(descriptions(&list), vec!["walk dog".to_string()]);
    assert_eq!(statuses(&list), vec![false]);
}

#[test]
fn display_rows_match_the_items() {
    let mut list = TodoList::new();
    list.add("one");
    list.add("two");
    assert_eq!(list.finish(1), Ok(()));
    let rows = list.display_rows();
    assert_eq!(rows.len(), 2);
    assert_eq!(rows[0].index, 0);
    assert_eq!(rows[0].done, false);
    assert_eq!(rows[0].description, "one");
    assert_eq!(rows[1].index, 1);
    assert_eq!(rows[1].done, true);
    assert_eq!(rows[1].description, "two");
}
