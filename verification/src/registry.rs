//! The admin operations over the store: validate-and-add, and listing.

use vstd::prelude::*;

use crate::error::AppError;
use crate::route::{RouteConfig, RouteSpec};
use crate::store::RouteStore;
use crate::text::upper_of;

verus! {

/// A request to add one route, as plain values.
pub struct AddRouteRequest {
    pub method: String,
    pub path: String,
    pub status: u16,
    pub delay_ms: u64,
    /// The JSON response body, as JSON text.
    pub response: String,
}

impl AddRouteRequest {
    /// The route this request describes, with the method upper-cased.
    pub open spec fn route_spec(&self) -> RouteSpec {
        RouteSpec {
            method: upper_of(self.method@),
            path: self.path@,
            status: self.status,
            delay_ms: self.delay_ms,
            response: self.response@,
        }
    }
}

/// One listed route: every field but the response body.
pub struct RouteResponse {
    pub method: String,
    pub path: String,
    pub status: u16,
    pub delay_ms: u64,
}

/// Builds a route from the request, upper-casing the method, validates it,
/// and on success upserts it into the store.  Succeeds exactly when the
/// request's method and path are non-empty and its status lies in 1..=599;
/// on failure the store is untouched and the validation error says which
/// check failed.
pub fn add_route(store: &mut RouteStore, req: AddRouteRequest) -> (r: Result<(), AppError>)
    requires
        old(store).inv(),
    ensures
        final(store).inv(),
        r is Ok <==> (req.method@.len() > 0 && req.path@.len() > 0 && 1 <= req.status <= 599),
        r is Ok ==> final(store)@ == old(store)@.insert(req.route_spec().key(), req.route_spec()),
        r is Err ==> final(store)@ == old(store)@ && final(store).entries() == old(store).entries(),
        req.method@.len() == 0 ==> (r matches Err(AppError::SerdeError(m)) && m@
            == "Method cannot be empty"@),
        req.method@.len() > 0 && req.path@.len() == 0 ==> (r matches Err(AppError::SerdeError(m))
            && m@ == "Path cannot be empty"@),
        req.method@.len() > 0 && req.path@.len() > 0 && !(1 <= req.status <= 599) ==> (r matches Err(
            AppError::SerdeError(m),
        ) && m@ == "Status must be between 100 and 599"@),
{
    let route = RouteConfig::new(req.method, req.path, req.status, req.delay_ms, req.response);
    match route.validate() {
        Err(e) => Err(e),
        Ok(()) => {
            store.upsert(route);
            Ok(())
        },
    }
}

/// A snapshot view of the store for listing: one entry per stored route,
/// in storage order, without the response bodies.  No identity appears
/// twice.
pub fn list_routes(store: &RouteStore) -> (r: Vec<RouteResponse>)
    requires
        store.inv(),
    ensures
        r@.len() == store.entries().len(),
        forall|i: int|
            0 <= i < r@.len() ==> (r@[i].method@ == store.entries()[i].method && r@[i].path@
                == store.entries()[i].path && r@[i].status == store.entries()[i].status
                && r@[i].delay_ms == store.entries()[i].delay_ms),
        forall|i: int, j: int|
            0 <= i < r@.len() && 0 <= j < r@.len() && i != j ==> (r@[i].method@, r@[i].path@) != (
                r@[j].method@,
                r@[j].path@,
            ),
{
    let full = store.snapshot();
    let n = full.len();
    let mut out: Vec<RouteResponse> = Vec::new();
    let mut i: usize = 0;
    while i < n
        invariant
            n == full.len(),
            0 <= i <= n,
            out@.len() == i,
            forall|j: int| 0 <= j < full@.len() ==> full@[j]@ == store.entries()[j],
            store.inv(),
            forall|j: int|
                0 <= j < i ==> (out@[j].method@ == store.entries()[j].method && out@[j].path@
                    == store.entries()[j].path && out@[j].status == store.entries()[j].status
                    && out@[j].delay_ms == store.entries()[j].delay_ms),
        decreases n - i,
    {
        let c = &full[i];
        out.push(
            RouteResponse {
                method: c.method.clone(),
                path: c.path.clone(),
                status: c.status,
                delay_ms: c.delay_ms,
            },
        );
        i += 1;
    }
    proof {
        assert(forall|i: int, j: int|
            0 <= i < out@.len() && 0 <= j < out@.len() && i != j ==> (out@[i].method@, out@[i].path@)
                != (out@[j].method@, out@[j].path@)) by {
            assert(forall|i: int, j: int|
                0 <= i < store.entries().len() && 0 <= j < store.entries().len() && i != j
                    ==> store.entries()[i].key() != store.entries()[j].key());
        }
    }
    out
}

} // verus!
