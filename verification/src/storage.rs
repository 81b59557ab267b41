//! The persistence adapter's core: what is written to the backing file
//! and how its contents become a store.  Reading and writing the file
//! itself is the transport layer's part; it hands the file's text in
//! (an absent file as an empty text) and writes the produced document
//! out with whole-file replacement.
//!
//! Load policy: a document the parser refuses degrades to an empty
//! store at startup, consistently on every load path.

use vstd::prelude::*;

use crate::codec::{encode_routes, parse_routes, spec_parse_routes};
use crate::route::RouteSpec;
use crate::store::{map_of, RouteStore};

verus! {

/// A file-backed route storage: it remembers the backing path.
pub struct FileStorage {
    path: String,
}

impl FileStorage {
    /// The backing file path, as a value.
    pub closed spec fn spec_path(&self) -> Seq<char> {
        self.path@
    }

    /// A storage over the given backing file path.
    pub fn new(path: String) -> (r: Self)
        ensures
            r.spec_path() == path@,
    {
        FileStorage { path }
    }

    /// The backing file path.
    pub fn path(&self) -> (r: &String)
        ensures
            r@ == self.spec_path(),
    {
        &self.path
    }
}

/// The store described by a persisted document: the parsed routes keyed
/// by identity, or an empty store when the text is empty or malformed.
pub open spec fn spec_initial_store(t: Seq<char>) -> Map<(Seq<char>, Seq<char>), RouteSpec> {
    if t.len() == 0 {
        Map::empty()
    } else {
        match spec_parse_routes(t) {
            Some(rs) => map_of(rs),
            None => Map::empty(),
        }
    }
}

/// Builds the startup store from the backing file's text, degrading to
/// an empty store when the text is empty or malformed.
pub fn initial_store(text: &String) -> (r: RouteStore)
    ensures
        r.inv(),
        r@ == spec_initial_store(text@),
{
    match parse_routes(text) {
        Ok(list) => RouteStore::from_list(list),
        Err(_) => RouteStore::new(),
    }
}

/// Round-trip persistence: loading the document saved for a route list
/// rebuilds exactly the map of those routes, whatever they hold.
pub proof fn lemma_save_load_round_trip(s: Seq<RouteSpec>)
    ensures
        spec_initial_store(crate::codec::spec_encode_routes(s)) == map_of(s),
{
    crate::codec::lemma_encode_parse_round_trip(s);
    reveal_strlit("[]");
    let t = crate::codec::spec_encode_routes(s);
    if s.len() == 0 {
        assert(t.len() == 2);
    } else {
        assert(t.len() >= 4);
    }
}

/// The document to persist for a store's current routes.
pub fn save_document(store: &RouteStore) -> (r: String)
    requires
        store.inv(),
    ensures
        r@ == crate::codec::spec_encode_routes(store.entries()),
{
    let snap = store.snapshot();
    encode_routes(&snap)
}

} // verus!
