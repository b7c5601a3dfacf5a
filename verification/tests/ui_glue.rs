use todomvc::dispatch::{App as DispatchApp, Msg};
use todomvc::router::{filter_from_hash, Routes};
use todomvc::session::{get_value, App as SessionApp};
use todomvc::todos::Filter;

#[test]
fn hrefs_and_hashes_agree() {
    assert_eq!(Filter::All.as_href(), "#/");
    assert_eq!(Filter::Active.as_href(), "#/active");
    assert_eq!(Filter::Completed.as_href(), "#/completed");
    for filter in [Filter::All, Filter::Active, Filter::Completed] {
        assert_eq!(filter_from_hash(filter.as_href()), filter);
    }
    assert_eq!(filter_from_hash(""), Filter::All);
    assert_eq!(filter_from_hash("#nonsense"), Filter::All);
}

#[test]
fn routes_url_spells_the_fragment() {
    assert_eq!(Routes(Filter::Active).url(), "#/active");
    assert_eq!(Routes(Filter::All).url(), "#/");
}

#[test]
fn get_value_drops_blank_text() {
    assert_eq!(get_value(None), None);
    assert_eq!(get_value(Some("".to_string())), None);
    assert_eq!(get_value(Some(" \t\n".to_string())), None);
    assert_eq!(get_value(Some("\u{a0}\u{2003}".to_string())), None);
    assert_eq!(get_value(Some("keep me".to_string())), Some("keep me".to_string()));
}

#[test]
fn get_value_trims_surrounding_whitespace() {
    assert_eq!(get_value(Some(" milk ".to_string())), Some("milk".to_string()));
    assert_eq!(get_value(Some("\t a b \n".to_string())), Some("a b".to_string()));
    assert_eq!(get_value(Some("\u{a0}wide\u{3000}".to_string())), Some("wide".to_string()));
}

#[test]
fn end_editing_through_get_value_stores_trimmed_text() {
    let mut app = SessionApp::init(None);
    app.new_description("milk".to_string());
    let id = app.create_new_todo().unwrap();
    app.start_editing(id);
    app.end_editing(get_value(Some(" oat milk ".to_string())));
    assert_eq!(app.data.entries[0].description, "oat milk");
}

#[test]
fn session_create_and_end_editing() {
    let mut app = SessionApp::init(None);
    app.new_description("Buy milk".to_string());
    let id = app.create_new_todo().unwrap();
    assert_eq!(app.new_description, "");
    assert_eq!(app.data.entry_count(), 1);

    app.start_editing(id);
    assert_eq!(app.editing_id, Some(id));
    app.end_editing(Some("Buy oat milk".to_string()));
    assert_eq!(app.editing_id, None);
    assert_eq!(app.data.entries[0].description, "Buy oat milk");

    app.start_editing(id);
    app.end_editing(None);
    assert_eq!(app.data.entry_count(), 0);
}

#[test]
fn session_end_editing_with_blank_text_removes() {
    let mut app = SessionApp::init(None);
    app.new_description("milk".to_string());
    let id = app.create_new_todo().unwrap();
    app.start_editing(id);
    app.end_editing(Some("  ".to_string()));
    assert_eq!(app.data.entry_count(), 0);
}

#[test]
fn session_cancel_editing_keeps_entry() {
    let mut app = SessionApp::init(None);
    app.new_description("milk".to_string());
    let id = app.create_new_todo().unwrap();
    app.start_editing(id);
    app.cancel_editing();
    assert_eq!(app.editing_id, None);
    assert_eq!(app.data.entries[0].description, "milk");
}

#[test]
fn session_bulk_operations_delegate() {
    let mut app = SessionApp::init(None);
    app.new_description("a".to_string());
    let a = app.create_new_todo().unwrap();
    app.new_description("b".to_string());
    app.create_new_todo().unwrap();
    app.toggle_completion(a);
    assert_eq!(app.data.completed_count(), 1);
    app.set_filter(Filter::Completed);
    assert_eq!(app.data.filter, Filter::Completed);
    app.clear_completed();
    assert_eq!(app.data.entry_count(), 1);
    app.set_completed_for_all(true);
    assert_eq!(app.data.completed_count(), 0);
    app.set_filter(Filter::All);
    app.set_completed_for_all(true);
    assert_eq!(app.data.completed_count(), 1);
    app.remove_by_id(a);
    assert_eq!(app.data.entry_count(), 1);
}

#[test]
fn dispatch_covers_every_message() {
    let mut app = DispatchApp::create(None);
    assert!(app.update(Msg::Add("Buy milk".to_string())));
    assert!(app.update(Msg::Add("Walk dog".to_string())));
    assert_eq!(app.data.entry_count(), 2);
    let milk = app.data.entries[0].id;

    assert!(app.update(Msg::Toggle(milk)));
    assert!(app.data.entries[0].completed);
    assert_eq!(app.data.completed_count(), 1);

    assert!(app.update(Msg::ToggleEdit(milk)));
    assert_eq!(app.editing_id, Some(milk));
    assert_eq!(app.edit_value, "Buy milk");

    assert!(app.update(Msg::Edit((milk, "Buy oat milk".to_string()))));
    assert_eq!(app.data.entries[0].description, "Buy oat milk");
    assert_eq!(app.edit_value, "");

    assert!(app.update(Msg::Edit((milk, "".to_string()))));
    assert_eq!(app.data.entry_count(), 1);

    assert!(app.update(Msg::SetFilter(Filter::Active)));
    assert_eq!(app.data.filter, Filter::Active);

    assert!(app.update(Msg::ToggleAll));
    assert!(app.data.is_all_completed());

    assert!(app.update(Msg::Focus));
    assert!(app.update(Msg::ClearCompleted));
    assert_eq!(app.data.entry_count(), 0);

    let dog = {
        assert!(app.update(Msg::Add("Walk dog".to_string())));
        app.data.entries[0].id
    };
    assert!(app.update(Msg::Remove(dog)));
    assert_eq!(app.data.entry_count(), 0);
}

#[test]
fn dispatch_ignores_messages_for_missing_entries() {
    let mut app = DispatchApp::create(None);
    app.update(Msg::Add("only".to_string()));
    app.update(Msg::Toggle(0xDEAD_BEEF));
    assert!(!app.data.entries[0].completed);
    app.update(Msg::ToggleEdit(0xDEAD_BEEF));
    assert_eq!(app.editing_id, None);
    assert_eq!(app.edit_value, "");
    assert_eq!(app.data.entry_count(), 1);
}

#[test]
fn dispatch_toggle_all_on_fully_completed_list_reopens() {
    let mut app = DispatchApp::create(None);
    app.update(Msg::Add("a".to_string()));
    app.update(Msg::ToggleAll);
    assert!(app.data.is_all_completed());
    app.update(Msg::ToggleAll);
    assert_eq!(app.data.completed_count(), 0);
}
