use todomvc::todos::{Filter, TodoEntry, Todos};

fn empty_store() -> Todos {
    Todos { entries: Vec::new(), filter: Filter::All }
}

fn entry(id: u128, description: &str, completed: bool) -> TodoEntry {
    TodoEntry { id, description: description.to_string(), completed }
}

#[test]
fn empty_store_counts() {
    let store = empty_store();
    assert_eq!(store.entry_count(), 0);
    assert_eq!(store.completed_count(), 0);
    assert!(store.is_all_completed());
}

#[test]
fn new_entry_then_remove_restores_count() {
    let mut store = empty_store();
    store.new_entry("first".to_string()).unwrap();
    let before = store.entry_count();
    let id = store.new_entry("second".to_string()).unwrap();
    assert_eq!(store.entry_count(), before + 1);
    store.remove_by_id(id);
    assert_eq!(store.entry_count(), before);
    store.remove_by_id(id);
    assert_eq!(store.entry_count(), before);
}

#[test]
fn edit_with_empty_description_removes() {
    let mut store = empty_store();
    let id = store.new_entry("milk".to_string()).unwrap();
    store.edit_description(id, "".to_string());
    assert_eq!(store.entry_count(), 0);
}

#[test]
fn edit_with_blank_description_removes() {
    let mut store = empty_store();
    let id = store.new_entry("milk".to_string()).unwrap();
    store.edit_description(id, "   ".to_string());
    assert_eq!(store.entry_count(), 0);
}

#[test]
fn edit_with_unicode_whitespace_removes() {
    let mut store = empty_store();
    let id = store.new_entry("milk".to_string()).unwrap();
    store.edit_description(id, "\u{a0}\u{2028}".to_string());
    assert_eq!(store.entry_count(), 0);
}

#[test]
fn edit_with_text_replaces_description() {
    let mut store = empty_store();
    let id = store.new_entry("milk".to_string()).unwrap();
    store.edit_description(id, "bread".to_string());
    assert_eq!(store.entry_count(), 1);
    assert_eq!(store.entries[0].description, "bread");
}

#[test]
fn toggle_twice_restores_status() {
    let mut store = empty_store();
    let id = store.new_entry("milk".to_string()).unwrap();
    assert!(!store.entries[0].completed);
    store.toggle_completion(id);
    assert!(store.entries[0].completed);
    store.toggle_completion(id);
    assert!(!store.entries[0].completed);
}

#[test]
fn toggle_missing_id_is_noop() {
    let mut store = empty_store();
    store.new_entry("milk".to_string()).unwrap();
    store.toggle_completion(0xDEAD_BEEF);
    assert!(!store.entries[0].completed);
    assert_eq!(store.entry_count(), 1);
}

#[test]
fn all_completed_over_one_entry() {
    let mut store = empty_store();
    assert!(store.is_all_completed());
    let id = store.new_entry("milk".to_string()).unwrap();
    assert!(!store.is_all_completed());
    store.toggle_completion(id);
    assert!(store.is_all_completed());
}

#[test]
fn mark_all_under_active_flips_only_incomplete() {
    let mut store = empty_store();
    store.entries.push(entry(1, "done already", true));
    store.entries.push(entry(2, "still open", false));
    store.filter = Filter::Active;
    store.set_completed_for_all(true);
    assert!(store.entries[0].completed);
    assert!(store.entries[1].completed);
    assert_eq!(store.entries[0].description, "done already");
    assert_eq!(store.entries[1].description, "still open");
}

#[test]
fn mark_all_under_completed_changes_nothing() {
    let mut store = empty_store();
    store.entries.push(entry(1, "done already", true));
    store.entries.push(entry(2, "still open", false));
    store.filter = Filter::Completed;
    store.set_completed_for_all(true);
    assert!(store.entries[0].completed);
    assert!(!store.entries[1].completed);
}

#[test]
fn scenario_two_entries_toggle_filter_clear() {
    let mut store = empty_store();
    let milk = store.new_entry("Buy milk".to_string()).unwrap();
    store.new_entry("Walk dog".to_string()).unwrap();
    assert_eq!(store.entry_count(), 2);

    let all = store.get_filtered_entries();
    assert_eq!(all.len(), 2);
    assert_eq!(all[0].description, "Buy milk");
    assert_eq!(all[1].description, "Walk dog");

    store.toggle_completion(milk);
    assert_eq!(store.completed_count(), 1);

    store.set_filter(Filter::Active);
    let active = store.get_filtered_entries();
    assert_eq!(active.len(), 1);
    assert_eq!(active[0].description, "Walk dog");

    store.clear_completed();
    assert_eq!(store.entry_count(), 1);
    assert_eq!(store.entries[0].description, "Walk dog");
}

#[test]
fn clear_completed_ignores_filter() {
    let mut store = empty_store();
    store.entries.push(entry(1, "a", true));
    store.entries.push(entry(2, "b", false));
    store.entries.push(entry(3, "c", true));
    store.filter = Filter::Active;
    store.clear_completed();
    assert_eq!(store.entry_count(), 1);
    assert_eq!(store.entries[0].description, "b");
}

#[test]
fn fits_matches_filter_meaning() {
    let open = entry(1, "open", false);
    let done = entry(2, "done", true);
    assert!(Filter::All.fits(&open) && Filter::All.fits(&done));
    assert!(Filter::Active.fits(&open) && !Filter::Active.fits(&done));
    assert!(!Filter::Completed.fits(&open) && Filter::Completed.fits(&done));
}

#[test]
fn entry_toggle_completion_flips() {
    let mut e = entry(7, "x", false);
    e.toggle_completion();
    assert!(e.completed);
    e.toggle_completion();
    assert!(!e.completed);
}

#[test]
fn find_index_by_id_finds_first_match() {
    let mut store = empty_store();
    store.entries.push(entry(5, "a", false));
    store.entries.push(entry(9, "b", false));
    assert_eq!(store.find_index_by_id(9), Some(1));
    assert_eq!(store.find_index_by_id(5), Some(0));
    assert_eq!(store.find_index_by_id(6), None);
}

#[test]
fn filtered_index_walks_the_filtered_view() {
    let mut store = empty_store();
    store.entries.push(entry(1, "a", true));
    store.entries.push(entry(2, "b", false));
    store.entries.push(entry(3, "c", true));
    store.filter = Filter::Completed;
    assert_eq!(store.get_filtered_index(0), Some(0));
    assert_eq!(store.get_filtered_index(1), Some(2));
    assert_eq!(store.get_filtered_index(2), None);
}

#[test]
fn remove_by_index_removes_from_filtered_view() {
    let mut store = empty_store();
    store.entries.push(entry(1, "a", true));
    store.entries.push(entry(2, "b", false));
    store.entries.push(entry(3, "c", true));
    store.filter = Filter::Completed;
    store.remove_by_index(1);
    assert_eq!(store.entry_count(), 2);
    assert_eq!(store.entries[0].description, "a");
    assert_eq!(store.entries[1].description, "b");
    store.remove_by_index(5);
    assert_eq!(store.entry_count(), 2);
}

#[test]
fn insert_with_id_refuses_duplicates() {
    let mut store = empty_store();
    assert!(store.insert_with_id(42, "a".to_string()));
    assert!(!store.insert_with_id(42, "b".to_string()));
    assert_eq!(store.entry_count(), 1);
    assert_eq!(store.entries[0].description, "a");
    assert!(!store.entries[0].completed);
}

#[test]
fn new_entries_get_distinct_ids() {
    let mut store = empty_store();
    let a = store.new_entry("a".to_string()).unwrap();
    let b = store.new_entry("b".to_string()).unwrap();
    assert_ne!(a, b);
}
