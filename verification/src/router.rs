//! URL-hash routing: the three filters and the three URL fragments map onto
//! one another, and anything unrecognised routes to the unfiltered view.

use vstd::prelude::*;

use crate::todos::Filter;

verus! {

/// The stable URL fragment each filter routes through.
pub open spec fn spec_href(f: Filter) -> Seq<char> {
    match f {
        Filter::All => seq!['#', '/'],
        Filter::Active => seq!['#', '/', 'a', 'c', 't', 'i', 'v', 'e'],
        Filter::Completed => seq!['#', '/', 'c', 'o', 'm', 'p', 'l', 'e', 't', 'e', 'd'],
    }
}

/// The filter a location hash selects; an unrecognised hash falls back to
/// the unfiltered view.
pub open spec fn spec_filter_of_hash(h: Seq<char>) -> Filter {
    if h == spec_href(Filter::Active) {
        Filter::Active
    } else if h == spec_href(Filter::Completed) {
        Filter::Completed
    } else {
        Filter::All
    }
}

impl Filter {
    /// The URL fragment standing for this filter.
    pub fn as_href(&self) -> (r: &'static str)
        ensures
            r@ == spec_href(*self),
    {
        proof {
            reveal_strlit("#/");
            reveal_strlit("#/active");
            reveal_strlit("#/completed");
            assert("#/"@ =~= spec_href(Filter::All));
            assert("#/active"@ =~= spec_href(Filter::Active));
            assert("#/completed"@ =~= spec_href(Filter::Completed));
        }
        match self {
            Filter::All => "#/",
            Filter::Active => "#/active",
            Filter::Completed => "#/completed",
        }
    }
}

/// Whether two pieces of text spell the same characters.
fn str_eq(a: &str, b: &str) -> (r: bool)
    ensures
        r == (a@ == b@),
{
    let n = a.unicode_len();
    if n != b.unicode_len() {
        return false;
    }
    let mut i: usize = 0;
    while i < n
        invariant
            n == a@.len(),
            n == b@.len(),
            i <= n,
            forall|j: int| 0 <= j < i ==> a@[j] == b@[j],
        decreases n - i,
    {
        if a.get_char(i) != b.get_char(i) {
            return false;
        }
        i += 1;
    }
    proof {
        assert(a@ =~= b@);
    }
    true
}

/// The filter a routing observer should set for `hash`.
pub fn filter_from_hash(hash: &str) -> (f: Filter)
    ensures
        f == spec_filter_of_hash(hash@),
{
    proof {
        reveal_strlit("#/active");
        reveal_strlit("#/completed");
        assert("#/active"@ =~= spec_href(Filter::Active));
        assert("#/completed"@ =~= spec_href(Filter::Completed));
    }
    if str_eq(hash, "#/active") {
        Filter::Active
    } else if str_eq(hash, "#/completed") {
        Filter::Completed
    } else {
        Filter::All
    }
}

/// A routable view state: a filter wrapped as the route it renders under.
pub struct Routes(pub Filter);

impl Routes {
    /// The URL this route links to.
    pub fn url(&self) -> (r: String)
        ensures
            r@ == spec_href(self.0),
    {
        let href = self.0.as_href();
        href.to_owned()
    }
}

} // verus!
