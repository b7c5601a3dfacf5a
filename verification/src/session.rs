//! One interactive session over the store, as the fine-grained UI drives
//! it: the store itself, the id of the entry being edited in place, and the
//! text typed into the new-entry input. Persistence runs outside: the
//! hosting layer saves the store after each mutating call returns.

use vstd::prelude::*;

use crate::todos::{
    has_id, spec_clear_completed, spec_edit, spec_remove_id, spec_set_all, spec_toggle, EntryView,
    Filter, StoreView, Todos,
};

verus! {

/// The state one UI session owns.
pub struct App {
    pub data: Todos,
    pub editing_id: Option<u128>,
    pub new_description: String,
}

impl App {
    /// A session over a freshly loaded store, with nothing being edited and
    /// an empty input.
    pub fn init(stored: Option<&str>) -> (r: Self)
        ensures
            r.data@ == crate::codec::spec_load(
                match stored {
                    Option::Some(s) => Option::Some(s@),
                    Option::None => Option::None,
                },
            ),
            r.data.wf(),
            r.editing_id is None,
            r.new_description@ == Seq::<char>::empty(),
    {
        App { data: Todos::load_todos(stored), editing_id: None, new_description: String::new() }
    }

    pub fn set_filter(&mut self, filter: Filter)
        ensures
            final(self).data@ == (StoreView { filter, ..old(self).data@ }),
            final(self).editing_id == old(self).editing_id,
            final(self).new_description@ == old(self).new_description@,
            old(self).data.wf() ==> final(self).data.wf(),
    {
        self.data.set_filter(filter);
    }

    pub fn set_completed_for_all(&mut self, completed: bool)
        ensures
            final(self).data@.entries == spec_set_all(
                old(self).data@.entries,
                old(self).data@.filter,
                completed,
            ),
            final(self).data@.filter == old(self).data@.filter,
            final(self).editing_id == old(self).editing_id,
            final(self).new_description@ == old(self).new_description@,
            old(self).data.wf() ==> final(self).data.wf(),
    {
        self.data.set_completed_for_all(completed);
    }

    pub fn toggle_completion(&mut self, id: u128)
        ensures
            final(self).data@.entries == spec_toggle(old(self).data@.entries, id),
            final(self).data@.filter == old(self).data@.filter,
            final(self).editing_id == old(self).editing_id,
            final(self).new_description@ == old(self).new_description@,
            old(self).data.wf() ==> final(self).data.wf(),
    {
        self.data.toggle_completion(id);
    }

    pub fn remove_by_id(&mut self, id: u128)
        ensures
            final(self).data@.entries == spec_remove_id(old(self).data@.entries, id),
            final(self).data@.filter == old(self).data@.filter,
            final(self).editing_id == old(self).editing_id,
            final(self).new_description@ == old(self).new_description@,
            old(self).data.wf() ==> final(self).data.wf(),
    {
        self.data.remove_by_id(id);
    }

    pub fn clear_completed(&mut self)
        ensures
            final(self).data@.entries == spec_clear_completed(old(self).data@.entries),
            final(self).data@.filter == old(self).data@.filter,
            final(self).editing_id == old(self).editing_id,
            final(self).new_description@ == old(self).new_description@,
            old(self).data.wf() ==> final(self).data.wf(),
    {
        self.data.clear_completed();
    }

    /// Remembers what the new-entry input currently holds.
    pub fn new_description(&mut self, new_description: String)
        ensures
            final(self).data@ == old(self).data@,
            final(self).editing_id == old(self).editing_id,
            final(self).new_description@ == new_description@,
    {
        self.new_description = new_description;
    }

    /// Turns the remembered input text into a new entry and clears the
    /// input. If the freshly drawn id happens to collide, the store is left
    /// unchanged and no id is returned.
    pub fn create_new_todo(&mut self) -> (r: Option<u128>)
        ensures
            match r {
                Option::Some(id) => {
                    &&& !has_id(old(self).data@.entries, id)
                    &&& final(self).data@.entries == old(self).data@.entries.push(
                        EntryView {
                            id,
                            description: old(self).new_description@,
                            completed: false,
                        },
                    )
                },
                Option::None => final(self).data@ == old(self).data@,
            },
            final(self).data@.filter == old(self).data@.filter,
            final(self).editing_id == old(self).editing_id,
            final(self).new_description@ == Seq::<char>::empty(),
            old(self).data.wf() ==> final(self).data.wf(),
    {
        let description = self.new_description.clone();
        let r = self.data.new_entry(description);
        self.new_description = String::new();
        r
    }

    pub fn start_editing(&mut self, id: u128)
        ensures
            final(self).data@ == old(self).data@,
            final(self).editing_id == Option::Some(id),
            final(self).new_description@ == old(self).new_description@,
    {
        self.editing_id = Some(id);
    }

    /// Finishes an in-place edit. Text replaces the entry's description
    /// (unless blank, which deletes the entry); no text at all deletes the
    /// entry as well. With nothing being edited this is a no-op.
    pub fn end_editing(&mut self, new_description: Option<String>)
        ensures
            final(self).editing_id is None,
            final(self).new_description@ == old(self).new_description@,
            final(self).data@.filter == old(self).data@.filter,
            match old(self).editing_id {
                Option::None => final(self).data@ == old(self).data@,
                Option::Some(id) => match new_description {
                    Option::Some(d) => final(self).data@.entries == spec_edit(
                        old(self).data@.entries,
                        id,
                        d@,
                    ),
                    Option::None => final(self).data@.entries == spec_remove_id(
                        old(self).data@.entries,
                        id,
                    ),
                },
            },
            old(self).data.wf() ==> final(self).data.wf(),
    {
        let id = match self.editing_id {
            Some(id) => id,
            None => {
                return ;
            },
        };
        match new_description {
            Some(d) => self.data.edit_description(id, d),
            None => self.data.remove_by_id(id),
        }
        self.editing_id = None;
    }

    pub fn cancel_editing(&mut self)
        ensures
            final(self).data@ == old(self).data@,
            final(self).editing_id is None,
            final(self).new_description@ == old(self).new_description@,
    {
        self.editing_id = None;
    }
}

/// What an edit box hands back when editing ends: nothing when the text is
/// blank, the text trimmed of leading and trailing whitespace otherwise.
pub fn get_value(text: Option<String>) -> (r: Option<String>)
    ensures
        match text {
            Option::None => r is None,
            Option::Some(t) => {
                if crate::todos::spec_is_blank(t@) {
                    r is None
                } else {
                    &&& r matches Option::Some(u)
                    &&& u@ == crate::todos::spec_trim(t@)
                }
            },
        },
{
    match text {
        None => None,
        Some(t) => {
            if crate::todos::is_blank(t.as_str()) {
                None
            } else {
                Some(crate::todos::trimmed(t.as_str()))
            }
        },
    }
}

} // verus!
