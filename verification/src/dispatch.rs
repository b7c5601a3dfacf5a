//! The message-dispatch component model over the store: every user action
//! arrives as one `Msg`, and `update` applies it. Persistence and
//! re-rendering run outside: the hosting layer saves the store after each
//! `update` and re-renders whenever `update` says so.

use vstd::prelude::*;

use crate::todos::{
    has_id, spec_all_completed, spec_clear_completed, spec_edit, spec_find, spec_remove_id,
    spec_set_all, spec_toggle, EntryView, Filter, Todos,
};

verus! {

/// One user action.
pub enum Msg {
    Add(String),
    Edit((u128, String)),
    Remove(u128),
    SetFilter(Filter),
    ToggleAll,
    ToggleEdit(u128),
    Toggle(u128),
    ClearCompleted,
    Focus,
}

/// The component state: the store, the text of the entry under edit, and
/// which entry that is.
pub struct App {
    pub data: Todos,
    pub edit_value: String,
    pub editing_id: Option<u128>,
}

impl App {
    /// A component over a freshly loaded store.
    pub fn create(stored: Option<&str>) -> (r: Self)
        ensures
            r.data@ == crate::codec::spec_load(
                match stored {
                    Option::Some(s) => Option::Some(s@),
                    Option::None => Option::None,
                },
            ),
            r.data.wf(),
            r.edit_value@ == Seq::<char>::empty(),
            r.editing_id is None,
    {
        App { data: Todos::load_todos(stored), edit_value: String::new(), editing_id: None }
    }

    /// Applies one message to the state and says whether to re-render
    /// (always). A message naming an entry that is not there is a silent
    /// no-op, never an error.
    pub fn update(&mut self, msg: Msg) -> (r: bool)
        ensures
            r == true,
            old(self).data.wf() ==> final(self).data.wf(),
            match msg {
                Msg::Add(d) => {
                    &&& final(self).data@.filter == old(self).data@.filter
                    &&& (final(self).data@ == old(self).data@ || (exists|id: u128|
                        #![auto]
                        !has_id(old(self).data@.entries, id) && final(self).data@.entries == old(
                            self,
                        ).data@.entries.push(
                            EntryView { id, description: d@, completed: false },
                        )))
                    &&& final(self).edit_value@ == old(self).edit_value@
                    &&& final(self).editing_id == old(self).editing_id
                },
                Msg::Edit((id, d)) => {
                    &&& final(self).data@.entries == spec_edit(old(self).data@.entries, id, d@)
                    &&& final(self).data@.filter == old(self).data@.filter
                    &&& final(self).edit_value@ == Seq::<char>::empty()
                    &&& final(self).editing_id == old(self).editing_id
                },
                Msg::Remove(id) => {
                    &&& final(self).data@.entries == spec_remove_id(old(self).data@.entries, id)
                    &&& final(self).data@.filter == old(self).data@.filter
                    &&& final(self).edit_value@ == old(self).edit_value@
                    &&& final(self).editing_id == old(self).editing_id
                },
                Msg::SetFilter(f) => {
                    &&& final(self).data@.filter == f
                    &&& final(self).data@.entries == old(self).data@.entries
                    &&& final(self).edit_value@ == old(self).edit_value@
                    &&& final(self).editing_id == old(self).editing_id
                },
                Msg::ToggleAll => {
                    &&& final(self).data@.entries == spec_set_all(
                        old(self).data@.entries,
                        old(self).data@.filter,
                        !spec_all_completed(old(self).data@.entries),
                    )
                    &&& final(self).data@.filter == old(self).data@.filter
                    &&& final(self).edit_value@ == old(self).edit_value@
                    &&& final(self).editing_id == old(self).editing_id
                },
                Msg::ToggleEdit(id) => {
                    &&& final(self).data@ == old(self).data@
                    &&& match spec_find(old(self).data@.entries, id) {
                        Option::Some(i) => {
                            &&& final(self).editing_id == Option::Some(id)
                            &&& final(self).edit_value@ == old(self).data@.entries[i].description
                        },
                        Option::None => {
                            &&& final(self).editing_id == old(self).editing_id
                            &&& final(self).edit_value@ == old(self).edit_value@
                        },
                    }
                },
                Msg::Toggle(id) => {
                    &&& final(self).data@.entries == spec_toggle(old(self).data@.entries, id)
                    &&& final(self).data@.filter == old(self).data@.filter
                    &&& final(self).edit_value@ == old(self).edit_value@
                    &&& final(self).editing_id == old(self).editing_id
                },
                Msg::ClearCompleted => {
                    &&& final(self).data@.entries == spec_clear_completed(old(self).data@.entries)
                    &&& final(self).data@.filter == old(self).data@.filter
                    &&& final(self).edit_value@ == old(self).edit_value@
                    &&& final(self).editing_id == old(self).editing_id
                },
                Msg::Focus => *final(self) == *old(self),
            },
    {
        match msg {
            Msg::Add(description) => {
                let _ = self.data.new_entry(description);
            },
            Msg::Edit((id, edit_value)) => {
                self.data.edit_description(id, edit_value);
                self.edit_value = String::new();
            },
            Msg::Remove(id) => {
                self.data.remove_by_id(id);
            },
            Msg::SetFilter(filter) => {
                self.data.set_filter(filter);
            },
            Msg::ToggleEdit(id) => {
                let ghost s = self.data@.entries;
                match self.data.find_index_by_id(id) {
                    Some(i) => {
                        proof {
                            crate::todos::lemma_spec_find_props(s, id);
                        }
                        self.edit_value = self.data.entries[i].description.clone();
                        self.editing_id = Some(id);
                    },
                    None => {},
                }
            },
            Msg::ToggleAll => {
                let status = !self.data.is_all_completed();
                self.data.set_completed_for_all(status);
            },
            Msg::Toggle(id) => {
                self.data.toggle_completion(id);
            },
            Msg::ClearCompleted => {
                self.data.clear_completed();
            },
            Msg::Focus => {},
        }
        true
    }
}

} // verus!
