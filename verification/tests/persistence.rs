use todomvc::todos::{Filter, TodoEntry, Todos};

fn entry(id: u128, description: &str, completed: bool) -> TodoEntry {
    TodoEntry { id, description: description.to_string(), completed }
}

fn store_of(entries: Vec<TodoEntry>, filter: Filter) -> Todos {
    Todos { entries, filter }
}

fn assert_same(a: &Todos, b: &Todos) {
    assert_eq!(a.filter, b.filter);
    assert_eq!(a.entries.len(), b.entries.len());
    for (x, y) in a.entries.iter().zip(b.entries.iter()) {
        assert_eq!(x.id, y.id);
        assert_eq!(x.description, y.description);
        assert_eq!(x.completed, y.completed);
    }
}

#[test]
fn empty_store_renders_exactly() {
    let store = store_of(Vec::new(), Filter::All);
    assert_eq!(store.save_todos(), "{\"entries\":[],\"filter\":\"All\"}");
}

#[test]
fn known_store_renders_exactly() {
    let store = store_of(
        vec![entry(0xa1a2a3a4b1b2c1c2d1d2d3d4d5d6d7d8, "Buy milk", false)],
        Filter::Active,
    );
    assert_eq!(
        store.save_todos(),
        "{\"entries\":[{\"id\":\"a1a2a3a4-b1b2-c1c2-d1d2-d3d4d5d6d7d8\",\
         \"description\":\"Buy milk\",\"completed\":false}],\"filter\":\"Active\"}"
    );
}

#[test]
fn round_trip_plain_store() {
    let store = store_of(
        vec![entry(1, "Buy milk", false), entry(2, "Walk dog", true)],
        Filter::Completed,
    );
    let text = store.save_todos();
    let loaded = Todos::load_todos(Some(&text));
    assert_same(&store, &loaded);
}

#[test]
fn round_trip_empty_store() {
    for filter in [Filter::All, Filter::Active, Filter::Completed] {
        let store = store_of(Vec::new(), filter);
        let loaded = Todos::load_todos(Some(&store.save_todos()));
        assert_same(&store, &loaded);
    }
}

#[test]
fn round_trip_awkward_descriptions() {
    let store = store_of(
        vec![
            entry(3, "say \"hi\"", false),
            entry(4, "back\\slash", true),
            entry(5, "line\nbreak\tand\rmore", false),
            entry(6, "control\u{1}char", true),
            entry(7, "emoji \u{1F600} and caf\u{e9}", false),
            entry(8, "", true),
        ],
        Filter::All,
    );
    let text = store.save_todos();
    let loaded = Todos::load_todos(Some(&text));
    assert_same(&store, &loaded);
}

#[test]
fn round_trip_extreme_ids() {
    let store = store_of(
        vec![entry(0, "zero", false), entry(u128::MAX, "max", true)],
        Filter::All,
    );
    let loaded = Todos::load_todos(Some(&store.save_todos()));
    assert_same(&store, &loaded);
}

#[test]
fn round_trip_survives_every_operation() {
    let mut store = Todos::load_todos(None);
    let reload = |s: &Todos| Todos::load_todos(Some(&s.save_todos()));

    let milk = store.new_entry("Buy milk".to_string()).unwrap();
    assert_same(&store, &reload(&store));
    store.new_entry("Walk dog".to_string()).unwrap();
    assert_same(&store, &reload(&store));
    store.toggle_completion(milk);
    assert_same(&store, &reload(&store));
    store.set_filter(Filter::Active);
    assert_same(&store, &reload(&store));
    store.edit_description(milk, "Buy oat milk".to_string());
    assert_same(&store, &reload(&store));
    store.set_completed_for_all(true);
    assert_same(&store, &reload(&store));
    store.clear_completed();
    assert_same(&store, &reload(&store));
    store.remove_by_id(milk);
    assert_same(&store, &reload(&store));
}

#[test]
fn missing_key_loads_fresh_store() {
    let loaded = Todos::load_todos(None);
    assert_eq!(loaded.entry_count(), 0);
    assert_eq!(loaded.filter, Filter::All);
}

#[test]
fn garbage_loads_fresh_store() {
    for bad in [
        "",
        "not json at all",
        "{\"entries\":[],\"filter\":\"all\"}",
        "{\"entries\":[],\"filter\":\"All\"} ",
        "{\"entries\":[{\"id\":\"123\",\"description\":\"x\",\"completed\":false}],\"filter\":\"All\"}",
        "{\"entries\":[],\"filter\":\"All\"",
        "[1,2,3]",
    ] {
        let loaded = Todos::load_todos(Some(bad));
        assert_eq!(loaded.entry_count(), 0, "input: {bad}");
        assert_eq!(loaded.filter, Filter::All);
    }
}

#[test]
fn duplicate_ids_load_fresh_store() {
    let text = "{\"entries\":[\
        {\"id\":\"00000000-0000-0000-0000-000000000001\",\"description\":\"a\",\"completed\":false},\
        {\"id\":\"00000000-0000-0000-0000-000000000001\",\"description\":\"b\",\"completed\":true}\
        ],\"filter\":\"All\"}";
    let loaded = Todos::load_todos(Some(text));
    assert_eq!(loaded.entry_count(), 0);
    assert_eq!(loaded.filter, Filter::All);
}

#[test]
fn reads_previously_persisted_document() {
    let text = "{\"entries\":[{\"id\":\"a1a2a3a4-b1b2-c1c2-d1d2-d3d4d5d6d7d8\",\
        \"description\":\"caf\u{e9} \\n \\u0009 \\\"quoted\\\"\",\"completed\":true}],\
        \"filter\":\"Completed\"}";
    let loaded = Todos::load_todos(Some(text));
    assert_eq!(loaded.entry_count(), 1);
    assert_eq!(loaded.entries[0].id, 0xa1a2a3a4b1b2c1c2d1d2d3d4d5d6d7d8);
    assert_eq!(loaded.entries[0].description, "caf\u{e9} \n \t \"quoted\"");
    assert!(loaded.entries[0].completed);
    assert_eq!(loaded.filter, Filter::Completed);
}

#[test]
fn uppercase_hex_ids_are_accepted() {
    let text = "{\"entries\":[{\"id\":\"A1A2A3A4-B1B2-C1C2-D1D2-D3D4D5D6D7D8\",\
        \"description\":\"x\",\"completed\":false}],\"filter\":\"All\"}";
    let loaded = Todos::load_todos(Some(text));
    assert_eq!(loaded.entry_count(), 1);
    assert_eq!(loaded.entries[0].id, 0xa1a2a3a4b1b2c1c2d1d2d3d4d5d6d7d8);
}

#[test]
fn filter_labels() {
    assert_eq!(Filter::All.label(), "All");
    assert_eq!(Filter::Active.label(), "Active");
    assert_eq!(Filter::Completed.label(), "Completed");
}
