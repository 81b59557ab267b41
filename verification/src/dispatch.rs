//! Per-request dispatch: match an inbound `(method, path)` against the
//! store and produce the status, the configured delay, and the response
//! body.  The transport layer applies the delay after the lookup has
//! returned, so the store is never held while a request waits.

use vstd::prelude::*;

use crate::codec::escape;
use crate::store::RouteStore;
use crate::text::string_of;

verus! {

/// The body answered when no route matches: a JSON object naming the
/// requested path.
pub open spec fn spec_not_found_body(path: Seq<char>) -> Seq<char> {
    "{\"error\":\"Mock endpoint not found\",\"path\":\""@ + escape(path) + "\"}"@
}

/// Builds the not-found body for a path.
pub fn not_found_body(path: &String) -> (r: String)
    ensures
        r@ == spec_not_found_body(path@),
{
    let mut out: Vec<char> = Vec::new();
    crate::codec::push_lit(&mut out, "{\"error\":\"Mock endpoint not found\",\"path\":\"");
    crate::codec::push_escaped(&mut out, path);
    crate::codec::push_lit(&mut out, "\"}");
    string_of(&out)
}

/// Looks the request up and produces `(status, delay in ms, body)`:
/// the stored route's own fields on a match, and otherwise a 404 with
/// no delay and the not-found body echoing the path.
pub fn dispatch(store: &RouteStore, method: &String, path: &String) -> (r: (u16, u64, String))
    requires
        store.inv(),
    ensures
        store@.contains_key((method@, path@)) ==> (r.0 == store@[(method@, path@)].status && r.1
            == store@[(method@, path@)].delay_ms && r.2@ == store@[(method@, path@)].response),
        !store@.contains_key((method@, path@)) ==> (r.0 == 404 && r.1 == 0 && r.2@
            == spec_not_found_body(path@)),
{
    match store.get(method, path) {
        Some(route) => (route.status, route.delay_ms, route.response),
        None => (404, 0, not_found_body(path)),
    }
}

} // verus!
