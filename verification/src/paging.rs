//! Following the pages of a paginated road-data download.
use vstd::prelude::*;

verus! {

/// After a page has been fetched from `current_url` and names `next_url` as
/// the following page: the download goes on with `next_url`, unless it is the
/// page just fetched, which marks the last page.
pub fn next_page(current_url: &String, next_url: String) -> (r: Option<String>)
    ensures
        r is None <==> next_url@ == current_url@,
        r is Some ==> r->0@ == next_url@,
{
    if *current_url == next_url {
        None
    } else {
        Some(next_url)
    }
}

} // verus!
