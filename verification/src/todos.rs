//! The to-do store: an ordered list of entries with unique ids and an
//! active filter. Every mutation is specified against a mathematical view
//! of the store (`StoreView`), and the stated laws relate the operations
//! to one another.

use vstd::prelude::*;

verus! {

/// A named predicate over an entry's `completed` flag, doubling as the
/// routed view state.
#[derive(Clone, Copy, Debug, PartialEq, Eq, Structural)]
pub enum Filter {
    All,
    Active,
    Completed,
}

/// One to-do item. The id is assigned at creation and never changes.
#[derive(Debug)]
pub struct TodoEntry {
    pub id: u128,
    pub description: String,
    pub completed: bool,
}

/// The mathematical value of a `TodoEntry`.
pub ghost struct EntryView {
    pub id: u128,
    pub description: Seq<char>,
    pub completed: bool,
}

impl View for TodoEntry {
    type V = EntryView;

    open spec fn view(&self) -> EntryView {
        EntryView { id: self.id, description: self.description@, completed: self.completed }
    }
}

impl Clone for TodoEntry {
    fn clone(&self) -> (r: Self)
        ensures
            r@ == self@,
    {
        TodoEntry { id: self.id, description: self.description.clone(), completed: self.completed }
    }
}

/// The owner of the entry list and the active filter.
#[derive(Debug)]
pub struct Todos {
    pub entries: Vec<TodoEntry>,
    pub filter: Filter,
}

/// The mathematical value of a `Todos` store.
pub ghost struct StoreView {
    pub entries: Seq<EntryView>,
    pub filter: Filter,
}

impl View for Todos {
    type V = StoreView;

    open spec fn view(&self) -> StoreView {
        StoreView {
            entries: self.entries@.map_values(|e: TodoEntry| e@),
            filter: self.filter,
        }
    }
}

pub open spec fn spec_fits(f: Filter, e: EntryView) -> bool {
    match f {
        Filter::All => true,
        Filter::Active => !e.completed,
        Filter::Completed => e.completed,
    }
}

/// Whether some entry of `s` carries `id`.
pub open spec fn has_id(s: Seq<EntryView>, id: u128) -> bool {
    exists|i: int| 0 <= i < s.len() && s[i].id == id
}

/// No two entries of `s` share an id: the store's standing invariant.
pub open spec fn unique_ids(s: Seq<EntryView>) -> bool {
    forall|i: int, j: int| 0 <= i < j < s.len() ==> s[i].id != s[j].id
}

/// The entries of `s` accepted by `p`, in their original order.
pub open spec fn spec_keep(s: Seq<EntryView>, p: spec_fn(EntryView) -> bool) -> Seq<EntryView>
    decreases s.len(),
{
    if s.len() == 0 {
        Seq::empty()
    } else {
        let rest = spec_keep(s.drop_last(), p);
        if p(s.last()) {
            rest.push(s.last())
        } else {
            rest
        }
    }
}

/// The entries of `s` accepted by `f`, in their original order.
pub open spec fn spec_filtered(s: Seq<EntryView>, f: Filter) -> Seq<EntryView> {
    spec_keep(s, |e: EntryView| spec_fits(f, e))
}

/// `s` without any entry carrying `id`.
pub open spec fn spec_remove_id(s: Seq<EntryView>, id: u128) -> Seq<EntryView> {
    spec_keep(s, |e: EntryView| e.id != id)
}

/// `s` without its completed entries.
pub open spec fn spec_clear_completed(s: Seq<EntryView>) -> Seq<EntryView> {
    spec_keep(s, |e: EntryView| !e.completed)
}

/// How many entries of `s` are completed.
pub open spec fn spec_completed_count(s: Seq<EntryView>) -> int
    decreases s.len(),
{
    if s.len() == 0 {
        0
    } else {
        spec_completed_count(s.drop_last()) + if s.last().completed {
            1int
        } else {
            0int
        }
    }
}

/// Vacuously true of an empty sequence.
pub open spec fn spec_all_completed(s: Seq<EntryView>) -> bool {
    forall|i: int| 0 <= i < s.len() ==> s[i].completed
}

/// The position of the first entry of `s` carrying `id`, if any.
pub open spec fn spec_find(s: Seq<EntryView>, id: u128) -> Option<int>
    decreases s.len(),
{
    if s.len() == 0 {
        Option::None
    } else if s[0].id == id {
        Option::Some(0int)
    } else {
        match spec_find(s.drop_first(), id) {
            Option::Some(i) => Option::Some(i + 1),
            Option::None => Option::None,
        }
    }
}

/// `s` with the first entry carrying `id` flipped; `s` itself if none does.
pub open spec fn spec_toggle(s: Seq<EntryView>, id: u128) -> Seq<EntryView> {
    match spec_find(s, id) {
        Option::Some(i) => s.update(i, EntryView { completed: !s[i].completed, ..s[i] }),
        Option::None => s,
    }
}

/// `s` with the first entry carrying `id` re-described; `s` itself if none does.
pub open spec fn spec_replace_description(s: Seq<EntryView>, id: u128, d: Seq<char>) -> Seq<
    EntryView,
> {
    match spec_find(s, id) {
        Option::Some(i) => s.update(i, EntryView { description: d, ..s[i] }),
        Option::None => s,
    }
}

/// Every entry accepted by `f` gets `completed == b`; the rest stay as they are.
pub open spec fn spec_set_all(s: Seq<EntryView>, f: Filter, b: bool) -> Seq<EntryView> {
    Seq::new(
        s.len(),
        |i: int|
            if spec_fits(f, s[i]) {
                EntryView { completed: b, ..s[i] }
            } else {
                s[i]
            },
    )
}

/// The characters Unicode counts as white space: what trimming removes and
/// what a blank edit may consist of.
pub open spec fn spec_is_space(c: char) -> bool {
    let u = c as u32;
    (0x9 <= u && u <= 0xD) || u == 0x20 || u == 0x85 || u == 0xA0 || u == 0x1680 || (0x2000 <= u
        && u <= 0x200A) || u == 0x2028 || u == 0x2029 || u == 0x202F || u == 0x205F || u == 0x3000
}

/// Empty, or whitespace throughout.
pub open spec fn spec_is_blank(s: Seq<char>) -> bool {
    forall|i: int| 0 <= i < s.len() ==> spec_is_space(s[i])
}

/// `s` without its leading whitespace.
pub open spec fn spec_trim_front(s: Seq<char>) -> Seq<char>
    decreases s.len(),
{
    if s.len() > 0 && spec_is_space(s[0]) {
        spec_trim_front(s.drop_first())
    } else {
        s
    }
}

/// `s` without its trailing whitespace.
pub open spec fn spec_trim_back(s: Seq<char>) -> Seq<char>
    decreases s.len(),
{
    if s.len() > 0 && spec_is_space(s.last()) {
        spec_trim_back(s.drop_last())
    } else {
        s
    }
}

/// `s` without leading and trailing whitespace.
pub open spec fn spec_trim(s: Seq<char>) -> Seq<char> {
    spec_trim_back(spec_trim_front(s))
}

/// Trimming the front removes exactly the leading run of whitespace.
proof fn lemma_trim_front_skips(s: Seq<char>, a: int)
    requires
        0 <= a <= s.len(),
        forall|j: int| 0 <= j < a ==> spec_is_space(s[j]),
        a == s.len() || !spec_is_space(s[a]),
    ensures
        spec_trim_front(s) == s.skip(a),
    decreases a,
{
    if a == 0 {
        assert(s.skip(0) =~= s);
    } else {
        let d = s.drop_first();
        assert(forall|j: int| 0 <= j < d.len() ==> d[j] == s[j + 1]);
        lemma_trim_front_skips(d, a - 1);
        assert(d.skip(a - 1) =~= s.skip(a));
    }
}

/// Trimming the back removes exactly the trailing run of whitespace.
proof fn lemma_trim_back_takes(s: Seq<char>, b: int)
    requires
        0 <= b <= s.len(),
        forall|j: int| b <= j < s.len() ==> spec_is_space(s[j]),
        b == 0 || !spec_is_space(s[b - 1]),
    ensures
        spec_trim_back(s) == s.take(b),
    decreases s.len() - b,
{
    if b == s.len() {
        assert(s.take(b) =~= s);
    } else {
        let d = s.drop_last();
        assert(forall|j: int| 0 <= j < d.len() ==> d[j] == s[j]);
        lemma_trim_back_takes(d, b);
        assert(d.take(b) =~= s.take(b));
    }
}

/// Whether `c` is whitespace.
pub fn is_space_char(c: char) -> (r: bool)
    ensures
        r == spec_is_space(c),
{
    let u = c as u32;
    (0x9 <= u && u <= 0xD) || u == 0x20 || u == 0x85 || u == 0xA0 || u == 0x1680 || (0x2000 <= u
        && u <= 0x200A) || u == 0x2028 || u == 0x2029 || u == 0x202F || u == 0x205F || u == 0x3000
}

/// `s` without leading and trailing whitespace.
pub fn trimmed(s: &str) -> (r: String)
    ensures
        r@ == spec_trim(s@),
{
    let n = s.unicode_len();
    let mut a: usize = 0;
    while a < n && is_space_char(s.get_char(a))
        invariant
            n == s@.len(),
            a <= n,
            forall|j: int| 0 <= j < a ==> spec_is_space(s@[j]),
        decreases n - a,
    {
        a += 1;
    }
    let mut b: usize = n;
    while b > a && is_space_char(s.get_char(b - 1))
        invariant
            n == s@.len(),
            a <= b <= n,
            forall|j: int| b <= j < n ==> spec_is_space(s@[j]),
        decreases b,
    {
        b -= 1;
    }
    proof {
        lemma_trim_front_skips(s@, a as int);
        let t = s@.skip(a as int);
        assert(forall|j: int| b - a <= j < t.len() ==> t[j] == s@[j + a]);
        if b > a {
            assert(t[b - a - 1] == s@[b - 1]);
        }
        lemma_trim_back_takes(t, b - a);
        assert(t.take(b - a) =~= s@.subrange(a as int, b as int));
    }
    let mut out = String::new();
    let mut i: usize = a;
    while i < b
        invariant
            a <= i <= b <= n,
            n == s@.len(),
            out@ == s@.subrange(a as int, i as int),
        decreases b - i,
    {
        crate::codec::push_char(&mut out, s.get_char(i));
        proof {
            assert(out@ =~= s@.subrange(a as int, i + 1));
        }
        i += 1;
    }
    proof {
        assert(out@ == spec_trim(s@));
    }
    out
}

/// An in-place edit with a blank new description deletes the entry rather
/// than storing blank text.
pub open spec fn spec_edit(s: Seq<EntryView>, id: u128, d: Seq<char>) -> Seq<EntryView> {
    if spec_is_blank(d) {
        spec_remove_id(s, id)
    } else {
        spec_replace_description(s, id, d)
    }
}

/// Whether `s` consists of whitespace only (an empty string counts).
pub fn is_blank(s: &str) -> (r: bool)
    ensures
        r == spec_is_blank(s@),
{
    let n: usize = s.unicode_len();
    let mut i: usize = 0;
    while i < n
        invariant
            n == s@.len(),
            i <= n,
            forall|j: int| 0 <= j < i ==> spec_is_space(s@[j]),
        decreases n - i,
    {
        if !is_space_char(s.get_char(i)) {
            return false;
        }
        i += 1;
    }
    true
}

impl Filter {
    /// Whether `entry` belongs to the view this filter selects.
    pub fn fits(&self, entry: &TodoEntry) -> (r: bool)
        ensures
            r == spec_fits(*self, entry@),
    {
        match *self {
            Filter::All => true,
            Filter::Active => !entry.completed,
            Filter::Completed => entry.completed,
        }
    }
}

/// What `spec_find` returns: the first position carrying `id`, or nothing
/// when no entry does.
pub proof fn lemma_spec_find_props(s: Seq<EntryView>, id: u128)
    ensures
        match spec_find(s, id) {
            Option::Some(i) => 0 <= i < s.len() && s[i].id == id && (forall|j: int|
                0 <= j < i ==> s[j].id != id),
            Option::None => !has_id(s, id),
        },
    decreases s.len(),
{
    if s.len() == 0 {
    } else if s[0].id == id {
    } else {
        lemma_spec_find_props(s.drop_first(), id);
        match spec_find(s.drop_first(), id) {
            Option::Some(i) => {
                assert(s.drop_first()[i] == s[i + 1]);
                assert(forall|j: int| 1 <= j < i + 1 ==> s[j] == s.drop_first()[j - 1]);
            },
            Option::None => {
                assert forall|i: int| 0 <= i < s.len() implies s[i].id != id by {
                    if i > 0 {
                        assert(s.drop_first()[i - 1] == s[i]);
                    }
                }
            },
        }
    }
}

/// `spec_find` looks only at ids, so it agrees on any two sequences whose
/// ids agree pointwise.
pub proof fn lemma_spec_find_same_ids(s: Seq<EntryView>, t: Seq<EntryView>, id: u128)
    requires
        s.len() == t.len(),
        forall|i: int| 0 <= i < s.len() ==> s[i].id == t[i].id,
    ensures
        spec_find(s, id) == spec_find(t, id),
    decreases s.len(),
{
    if s.len() == 0 {
    } else {
        assert forall|i: int| 0 <= i < s.drop_first().len() implies s.drop_first()[i].id
            == t.drop_first()[i].id by {
            assert(s.drop_first()[i] == s[i + 1]);
            assert(t.drop_first()[i] == t[i + 1]);
        }
        lemma_spec_find_same_ids(s.drop_first(), t.drop_first(), id);
    }
}

/// Every id found in `spec_keep(s, p)` is found in `s`.
pub proof fn lemma_keep_keeps_ids(s: Seq<EntryView>, p: spec_fn(EntryView) -> bool, x: u128)
    requires
        has_id(spec_keep(s, p), x),
    ensures
        has_id(s, x),
    decreases s.len(),
{
    if s.len() == 0 {
    } else {
        let d = s.drop_last();
        let rest = spec_keep(d, p);
        let r = spec_keep(s, p);
        let i = choose|i: int| 0 <= i < r.len() && r[i].id == x;
        if p(s.last()) && i == r.len() - 1 {
            assert(s[s.len() - 1].id == x);
        } else {
            assert(rest[i].id == x);
            assert(has_id(rest, x));
            lemma_keep_keeps_ids(d, p, x);
            let j = choose|j: int| 0 <= j < d.len() && d[j].id == x;
            assert(s[j].id == x);
        }
    }
}

/// Keeping a subsequence cannot introduce a duplicate id.
pub proof fn lemma_keep_unique(s: Seq<EntryView>, p: spec_fn(EntryView) -> bool)
    requires
        unique_ids(s),
    ensures
        unique_ids(spec_keep(s, p)),
    decreases s.len(),
{
    if s.len() == 0 {
    } else {
        let d = s.drop_last();
        assert(forall|i: int| 0 <= i < d.len() ==> d[i] == s[i]);
        lemma_keep_unique(d, p);
        let rest = spec_keep(d, p);
        if p(s.last()) {
            if has_id(rest, s.last().id) {
                lemma_keep_keeps_ids(d, p, s.last().id);
                let j = choose|j: int| 0 <= j < d.len() && d[j].id == s.last().id;
                assert(s[j].id == s[s.len() - 1].id);
                assert(false);
            }
            let r = rest.push(s.last());
            assert forall|a: int, b: int| 0 <= a < b < r.len() implies r[a].id != r[b].id by {
                if b == r.len() - 1 {
                    if r[a].id == s.last().id {
                        assert(rest[a].id == s.last().id);
                        assert(has_id(rest, s.last().id));
                    }
                }
            }
        }
    }
}

/// When every entry is accepted, keeping changes nothing.
pub proof fn lemma_keep_all(s: Seq<EntryView>, p: spec_fn(EntryView) -> bool)
    requires
        forall|i: int| 0 <= i < s.len() ==> p(#[trigger] s[i]),
    ensures
        spec_keep(s, p) == s,
    decreases s.len(),
{
    if s.len() == 0 {
        assert(spec_keep(s, p) =~= s);
    } else {
        let d = s.drop_last();
        assert(forall|i: int| 0 <= i < d.len() ==> d[i] == s[i]);
        lemma_keep_all(d, p);
        assert(spec_keep(s, p) =~= s);
    }
}

/// Every entry that `spec_keep` returns is accepted by `p`.
pub proof fn lemma_keep_satisfies(s: Seq<EntryView>, p: spec_fn(EntryView) -> bool)
    ensures
        forall|i: int| 0 <= i < spec_keep(s, p).len() ==> p(#[trigger] spec_keep(s, p)[i]),
    decreases s.len(),
{
    if s.len() == 0 {
    } else {
        lemma_keep_satisfies(s.drop_last(), p);
        let rest = spec_keep(s.drop_last(), p);
        let r = spec_keep(s, p);
        assert forall|i: int| 0 <= i < r.len() implies p(r[i]) by {
            if !(p(s.last()) && i == r.len() - 1) {
                assert(r[i] == rest[i]);
            }
        }
    }
}

impl Todos {
    /// The store's standing invariant: no two entries share an id.
    pub open spec fn wf(&self) -> bool {
        unique_ids(self@.entries)
    }

    pub fn set_filter(&mut self, filter: Filter)
        ensures
            final(self)@ == (StoreView { filter, ..old(self)@ }),
            old(self).wf() ==> final(self).wf(),
    {
        self.filter = filter;
    }

    pub fn entry_count(&self) -> (r: usize)
        ensures
            r == self@.entries.len(),
    {
        self.entries.len()
    }

    pub fn completed_count(&self) -> (r: usize)
        ensures
            r == spec_completed_count(self@.entries),
    {
        let ghost s = self@.entries;
        let n = self.entries.len();
        let mut count: usize = 0;
        let mut i: usize = 0;
        while i < n
            invariant
                n == s.len(),
                i <= n,
                count <= i,
                s == self@.entries,
                count == spec_completed_count(s.take(i as int)),
            decreases n - i,
        {
            proof {
                assert(s.take(i + 1).drop_last() =~= s.take(i as int));
                assert(s.take(i + 1).last() == s[i as int]);
            }
            if self.entries[i].completed {
                count += 1;
            }
            i += 1;
        }
        proof {
            assert(s.take(n as int) =~= s);
        }
        count
    }

    pub fn is_all_completed(&self) -> (r: bool)
        ensures
            r == spec_all_completed(self@.entries),
    {
        let n = self.entries.len();
        let mut i: usize = 0;
        while i < n
            invariant
                n == self@.entries.len(),
                i <= n,
                forall|j: int| 0 <= j < i ==> self@.entries[j].completed,
            decreases n - i,
        {
            if !self.entries[i].completed {
                proof {
                    assert(self@.entries[i as int] == self.entries@[i as int]@);
                }
                return false;
            }
            i += 1;
        }
        true
    }

    /// The position in `entries` of the first entry carrying `id`.
    pub fn find_index_by_id(&self, id: u128) -> (r: Option<usize>)
        ensures
            r matches Option::Some(i) ==> spec_find(self@.entries, id) == Option::Some(i as int),
            r is None ==> spec_find(self@.entries, id) is None,
    {
        let ghost s = self@.entries;
        let n = self.entries.len();
        let mut i: usize = 0;
        while i < n
            invariant
                n == s.len(),
                i <= n,
                s == self@.entries,
                forall|j: int| 0 <= j < i ==> s[j].id != id,
            decreases n - i,
        {
            if self.entries[i].id == id {
                proof {
                    assert(s[i as int] == self.entries@[i as int]@);
                    assert(s[i as int].id == id);
                    lemma_spec_find_props(s, id);
                    match spec_find(s, id) {
                        Option::Some(k) => {
                            assert(k == i as int);
                        },
                        Option::None => {
                            assert(has_id(s, id));
                        },
                    }
                }
                return Some(i);
            }
            i += 1;
        }
        proof {
            lemma_spec_find_props(s, id);
            match spec_find(s, id) {
                Option::Some(k) => {
                    assert(s[k].id != id);
                },
                Option::None => {},
            }
        }
        None
    }

    /// Appends a new entry with a freshly drawn id, the given description,
    /// and `completed == false`. If the drawn id happens to collide with an
    /// existing one, the store is left unchanged and no id is returned.
    pub fn new_entry(&mut self, description: String) -> (r: Option<u128>)
        ensures
            match r {
                Option::Some(id) => !has_id(old(self)@.entries, id) && final(self)@.entries
                    == old(self)@.entries.push(
                    EntryView { id, description: description@, completed: false },
                ) && final(self)@.filter == old(self)@.filter,
                Option::None => final(self)@ == old(self)@,
            },
            old(self).wf() ==> final(self).wf(),
    {
        let id = fresh_id();
        if self.insert_with_id(id, description) {
            Some(id)
        } else {
            None
        }
    }

    /// Appends an entry carrying exactly `id`, with the given description
    /// and `completed == false`, when that id is not yet in use; an id
    /// already present leaves the store unchanged. `new_entry` hands its
    /// freshly drawn id through this.
    pub fn insert_with_id(&mut self, id: u128, description: String) -> (r: bool)
        ensures
            r == !has_id(old(self)@.entries, id),
            r ==> final(self)@.entries == old(self)@.entries.push(
                EntryView { id, description: description@, completed: false },
            ),
            !r ==> final(self)@ == old(self)@,
            final(self)@.filter == old(self)@.filter,
            old(self).wf() ==> final(self).wf(),
    {
        let ghost s0 = self@.entries;
        match self.find_index_by_id(id) {
            Some(_) => {
                proof {
                    lemma_spec_find_props(s0, id);
                }
                false
            },
            None => {
                proof {
                    lemma_spec_find_props(s0, id);
                }
                self.entries.push(TodoEntry { id, description, completed: false });
                proof {
                    let e = EntryView { id, description: description@, completed: false };
                    assert(self@.entries =~= s0.push(e));
                    if unique_ids(s0) {
                        assert forall|a: int, b: int|
                            0 <= a < b < self@.entries.len() implies self@.entries[a].id
                            != self@.entries[b].id by {
                            if b == s0.len() {
                                if s0[a].id == id {
                                    assert(has_id(s0, id));
                                }
                            }
                        }
                    }
                }
                true
            },
        }
    }

    /// Deletes every entry carrying `id`; a miss is a no-op.
    pub fn remove_by_id(&mut self, id: u128)
        ensures
            final(self)@.entries == spec_remove_id(old(self)@.entries, id),
            final(self)@.filter == old(self)@.filter,
            old(self).wf() ==> final(self).wf(),
    {
        let ghost s0 = self@.entries;
        let ghost p = |e: EntryView| e.id != id;
        let n = self.entries.len();
        let mut kept: Vec<TodoEntry> = Vec::new();
        let mut i: usize = 0;
        while i < n
            invariant
                n == s0.len(),
                s0 == self@.entries,
                i <= n,
                p == (|e: EntryView| e.id != id),
                kept@.map_values(|e: TodoEntry| e@) == spec_keep(s0.take(i as int), p),
            decreases n - i,
        {
            proof {
                assert(s0.take(i + 1).drop_last() =~= s0.take(i as int));
                assert(s0.take(i + 1).last() == s0[i as int]);
                assert(s0[i as int] == self.entries@[i as int]@);
            }
            if self.entries[i].id != id {
                kept.push(self.entries[i].clone());
                proof {
                    assert(kept@.map_values(|e: TodoEntry| e@) =~= spec_keep(
                        s0.take(i + 1),
                        p,
                    ));
                }
            }
            i += 1;
        }
        proof {
            assert(s0.take(n as int) =~= s0);
        }
        self.entries = kept;
        proof {
            if unique_ids(s0) {
                lemma_keep_unique(s0, p);
            }
        }
    }

    /// Deletes every completed entry, whatever the active filter is.
    pub fn clear_completed(&mut self)
        ensures
            final(self)@.entries == spec_clear_completed(old(self)@.entries),
            final(self)@.filter == old(self)@.filter,
            old(self).wf() ==> final(self).wf(),
    {
        let ghost s0 = self@.entries;
        let ghost p = |e: EntryView| !e.completed;
        let n = self.entries.len();
        let mut kept: Vec<TodoEntry> = Vec::new();
        let mut i: usize = 0;
        while i < n
            invariant
                n == s0.len(),
                s0 == self@.entries,
                i <= n,
                p == (|e: EntryView| !e.completed),
                kept@.map_values(|e: TodoEntry| e@) == spec_keep(s0.take(i as int), p),
            decreases n - i,
        {
            proof {
                assert(s0.take(i + 1).drop_last() =~= s0.take(i as int));
                assert(s0.take(i + 1).last() == s0[i as int]);
                assert(s0[i as int] == self.entries@[i as int]@);
            }
            if !self.entries[i].completed {
                kept.push(self.entries[i].clone());
                proof {
                    assert(kept@.map_values(|e: TodoEntry| e@) =~= spec_keep(
                        s0.take(i + 1),
                        p,
                    ));
                }
            }
            i += 1;
        }
        proof {
            assert(s0.take(n as int) =~= s0);
        }
        self.entries = kept;
        proof {
            if unique_ids(s0) {
                lemma_keep_unique(s0, p);
            }
        }
    }

    /// Flips `completed` on the first entry carrying `id`; a miss is a no-op.
    pub fn toggle_completion(&mut self, id: u128)
        ensures
            final(self)@.entries == spec_toggle(old(self)@.entries, id),
            final(self)@.filter == old(self)@.filter,
            old(self).wf() ==> final(self).wf(),
    {
        let ghost s0 = self@.entries;
        match self.find_index_by_id(id) {
            None => {},
            Some(i) => {
                proof {
                    lemma_spec_find_props(s0, id);
                }
                let mut e = self.entries[i].clone();
                e.completed = !e.completed;
                self.entries[i] = e;
                proof {
                    let t = EntryView { completed: !s0[i as int].completed, ..s0[i as int] };
                    assert(self@.entries =~= s0.update(i as int, t));
                    if unique_ids(s0) {
                        assert forall|a: int, b: int|
                            0 <= a < b < self@.entries.len() implies self@.entries[a].id
                            != self@.entries[b].id by {
                            assert(self@.entries[a].id == s0[a].id);
                            assert(self@.entries[b].id == s0[b].id);
                        }
                    }
                }
            },
        }
    }

    /// Replaces the description of the first entry carrying `id`, unless the
    /// new description is blank, in which case the entry is deleted instead
    /// of ever storing blank text. A miss is a no-op.
    pub fn edit_description(&mut self, id: u128, new_description: String)
        ensures
            final(self)@.entries == spec_edit(old(self)@.entries, id, new_description@),
            final(self)@.filter == old(self)@.filter,
            old(self).wf() ==> final(self).wf(),
    {
        if is_blank(new_description.as_str()) {
            self.remove_by_id(id);
        } else {
            let ghost s0 = self@.entries;
            match self.find_index_by_id(id) {
                None => {},
                Some(i) => {
                    proof {
                        lemma_spec_find_props(s0, id);
                    }
                    let mut e = self.entries[i].clone();
                    e.description = new_description;
                    self.entries[i] = e;
                    proof {
                        let t = EntryView { description: new_description@, ..s0[i as int] };
                        assert(self@.entries =~= s0.update(i as int, t));
                        if unique_ids(s0) {
                            assert forall|a: int, b: int|
                                0 <= a < b < self@.entries.len() implies self@.entries[a].id
                                != self@.entries[b].id by {
                                assert(self@.entries[a].id == s0[a].id);
                                assert(self@.entries[b].id == s0[b].id);
                            }
                        }
                    }
                },
            }
        }
    }

    /// Sets `completed` on every entry the active filter accepts; the rest
    /// keep their status.
    pub fn set_completed_for_all(&mut self, completed: bool)
        ensures
            final(self)@.entries == spec_set_all(
                old(self)@.entries,
                old(self)@.filter,
                completed,
            ),
            final(self)@.filter == old(self)@.filter,
            old(self).wf() ==> final(self).wf(),
    {
        let ghost s0 = self@.entries;
        let f = self.filter;
        let n = self.entries.len();
        let mut i: usize = 0;
        while i < n
            invariant
                n == s0.len(),
                self@.entries.len() == n,
                i <= n,
                self.filter == f,
                f == old(self)@.filter,
                s0 == old(self)@.entries,
                forall|j: int| 0 <= j < i ==> self@.entries[j] == spec_set_all(s0, f, completed)[j],
                forall|j: int| i <= j < n ==> self@.entries[j] == s0[j],
            decreases n - i,
        {
            proof {
                assert(self@.entries[i as int] == self.entries@[i as int]@);
            }
            if f.fits(&self.entries[i]) {
                let mut e = self.entries[i].clone();
                e.completed = completed;
                self.entries[i] = e;
            }
            i += 1;
        }
        proof {
            assert(self@.entries =~= spec_set_all(s0, f, completed));
            if unique_ids(s0) {
                assert forall|a: int, b: int|
                    0 <= a < b < self@.entries.len() implies self@.entries[a].id
                    != self@.entries[b].id by {
                    assert(self@.entries[a].id == s0[a].id);
                    assert(self@.entries[b].id == s0[b].id);
                }
            }
        }
    }

    /// The position in `entries` of the `index`-th entry (in order) that
    /// the active filter accepts, if the filtered view has that many.
    pub fn get_filtered_index(&self, index: usize) -> (r: Option<usize>)
        ensures
            match r {
                Option::Some(i) => i < self@.entries.len() && spec_fits(
                    self@.filter,
                    self@.entries[i as int],
                ) && spec_filtered(self@.entries.take(i as int), self@.filter).len() == index,
                Option::None => spec_filtered(self@.entries, self@.filter).len() <= index,
            },
    {
        let ghost s = self@.entries;
        let f = self.filter;
        let n = self.entries.len();
        let mut seen: usize = 0;
        let mut i: usize = 0;
        while i < n
            invariant
                n == s.len(),
                s == self@.entries,
                f == self@.filter,
                i <= n,
                seen <= index,
                seen == spec_filtered(s.take(i as int), f).len(),
            decreases n - i,
        {
            proof {
                assert(s.take(i + 1).drop_last() =~= s.take(i as int));
                assert(s.take(i + 1).last() == s[i as int]);
                assert(s[i as int] == self.entries@[i as int]@);
            }
            if f.fits(&self.entries[i]) {
                if seen == index {
                    return Some(i);
                }
                seen += 1;
            }
            i += 1;
        }
        proof {
            assert(s.take(n as int) =~= s);
        }
        None
    }

    /// Deletes the `index`-th entry of the filtered view; with fewer
    /// filtered entries than that, a no-op.
    pub fn remove_by_index(&mut self, index: usize)
        ensures
            final(self)@.filter == old(self)@.filter,
            spec_filtered(old(self)@.entries, old(self)@.filter).len() <= index ==> final(self)@
                == old(self)@,
            index < spec_filtered(old(self)@.entries, old(self)@.filter).len() ==> (exists|i: int|
                #![auto]
                0 <= i < old(self)@.entries.len() && spec_fits(
                    old(self)@.filter,
                    old(self)@.entries[i],
                ) && spec_filtered(old(self)@.entries.take(i), old(self)@.filter).len() == index
                    && final(self)@.entries == old(self)@.entries.remove(i)),
            old(self).wf() ==> final(self).wf(),
    {
        let ghost s0 = self@.entries;
        let actual = match self.get_filtered_index(index) {
            None => {
                return ;
            },
            Some(i) => i,
        };
        proof {
            lemma_filtered_take_lt(s0, self@.filter, actual as int);
        }
        self.entries.remove(actual);
        proof {
            assert(self@.entries =~= s0.remove(actual as int));
            if unique_ids(s0) {
                assert forall|a: int, b: int|
                    0 <= a < b < self@.entries.len() implies self@.entries[a].id
                    != self@.entries[b].id by {
                    let sa: int = if a < actual as int {
                        a
                    } else {
                        a + 1
                    };
                    let sb: int = if b < actual as int {
                        b
                    } else {
                        b + 1
                    };
                    assert(self@.entries[a] == s0[sa]);
                    assert(self@.entries[b] == s0[sb]);
                }
            }
        }
    }

    /// The entries the active filter accepts, cloned, in their original order.
    pub fn get_filtered_entries(&self) -> (r: Vec<TodoEntry>)
        ensures
            r@.map_values(|e: TodoEntry| e@) == spec_filtered(self@.entries, self@.filter),
    {
        let ghost s = self@.entries;
        let ghost p = |e: EntryView| spec_fits(self@.filter, e);
        let f = self.filter;
        let n = self.entries.len();
        let mut out: Vec<TodoEntry> = Vec::new();
        let mut i: usize = 0;
        while i < n
            invariant
                n == s.len(),
                s == self@.entries,
                f == self@.filter,
                p == (|e: EntryView| spec_fits(self@.filter, e)),
                i <= n,
                out@.map_values(|e: TodoEntry| e@) == spec_keep(s.take(i as int), p),
            decreases n - i,
        {
            proof {
                assert(s.take(i + 1).drop_last() =~= s.take(i as int));
                assert(s.take(i + 1).last() == s[i as int]);
                assert(s[i as int] == self.entries@[i as int]@);
            }
            if f.fits(&self.entries[i]) {
                out.push(self.entries[i].clone());
                proof {
                    assert(out@.map_values(|e: TodoEntry| e@) =~= spec_keep(s.take(i + 1), p));
                }
            }
            i += 1;
        }
        proof {
            assert(s.take(n as int) =~= s);
        }
        out
    }
}

/// An accepted entry at position `i` makes the whole filtered view longer
/// than the filtered view of the part before `i`.
pub proof fn lemma_filtered_take_lt(s: Seq<EntryView>, f: Filter, i: int)
    requires
        0 <= i < s.len(),
        spec_fits(f, s[i]),
    ensures
        spec_filtered(s.take(i), f).len() < spec_filtered(s, f).len(),
    decreases s.len(),
{
    if i == s.len() - 1 {
        assert(s.take(i) =~= s.drop_last());
    } else {
        assert(s.drop_last()[i] == s[i]);
        lemma_filtered_take_lt(s.drop_last(), f, i);
        assert(s.drop_last().take(i) =~= s.take(i));
    }
}

/// Appending an entry whose id is fresh and then removing that id restores
/// the entry list (and so its count) exactly.
pub proof fn lemma_new_then_remove_restores(s: Seq<EntryView>, e: EntryView)
    requires
        !has_id(s, e.id),
    ensures
        spec_remove_id(s.push(e), e.id) == s,
{
    let p = |x: EntryView| x.id != e.id;
    assert(s.push(e).drop_last() =~= s);
    assert forall|i: int| 0 <= i < s.len() implies p(#[trigger] s[i]) by {
        if s[i].id == e.id {
            assert(has_id(s, e.id));
        }
    }
    lemma_keep_all(s, p);
}

/// Removing an id a second time is a no-op.
pub proof fn lemma_remove_by_id_idempotent(s: Seq<EntryView>, id: u128)
    ensures
        spec_remove_id(spec_remove_id(s, id), id) == spec_remove_id(s, id),
{
    let p = |x: EntryView| x.id != id;
    lemma_keep_satisfies(s, p);
    lemma_keep_all(spec_keep(s, p), p);
}

/// Toggling completion is self-inverse: toggling the same id twice restores
/// the entry list exactly.
pub proof fn lemma_toggle_twice_restores(s: Seq<EntryView>, id: u128)
    ensures
        spec_toggle(spec_toggle(s, id), id) == s,
{
    lemma_spec_find_props(s, id);
    match spec_find(s, id) {
        Option::None => {},
        Option::Some(i) => {
            let t = spec_toggle(s, id);
            assert forall|j: int| 0 <= j < s.len() implies s[j].id == t[j].id by {}
            lemma_spec_find_same_ids(t, s, id);
            assert(t.update(i, EntryView { completed: !t[i].completed, ..t[i] }) =~= s);
        },
    }
}

/// Under Filter::Completed, a bulk "mark all as completed" affects no entry:
/// nothing the filter accepts is incomplete.
pub proof fn lemma_set_all_completed_true_noop(s: Seq<EntryView>)
    ensures
        spec_set_all(s, Filter::Completed, true) == s,
{
    assert(spec_set_all(s, Filter::Completed, true) =~= s);
}

/// Under Filter::Active, a bulk "mark all as completed" flips exactly the
/// entries that were incomplete at call time, leaving the rest untouched: the
/// outcome is the same as under Filter::All.
pub proof fn lemma_set_all_active_true_completes(s: Seq<EntryView>)
    ensures
        spec_set_all(s, Filter::Active, true) == spec_set_all(s, Filter::All, true),
{
    assert(spec_set_all(s, Filter::Active, true) =~= spec_set_all(s, Filter::All, true));
}

/// Relies on uuid::Uuid::new_v4 and Uuid::as_u128: a version-4 uuid drawn
/// from the operating system's random number generator, handed over as its
/// 128-bit value. Nothing is promised of the value: callers treat it as
/// arbitrary.
#[verifier::external_body]
fn fresh_id() -> u128 {
    uuid::Uuid::new_v4().as_u128()
}

impl TodoEntry {
    pub fn toggle_completion(&mut self)
        ensures
            final(self)@ == (EntryView { completed: !old(self)@.completed, ..old(self)@ }),
    {
        self.completed = !self.completed;
    }
}

} // verus!
