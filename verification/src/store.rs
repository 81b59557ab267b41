//! The route store: a keyed collection of routes, unique by
//! `(method, path)`, with last-write-wins upsert.  Its observable value
//! is a map from route identity to route.
//!
//! The transport layer shares one store between the admin surface
//! (writer) and dispatch (reader) behind a reader/writer lock; the store
//! itself carries the keyed-collection semantics that both rely on.

use vstd::prelude::*;

use crate::route::{RouteConfig, RouteSpec};

verus! {

/// The map described by a sequence of routes, later entries winning.
pub open spec fn map_of(s: Seq<RouteSpec>) -> Map<(Seq<char>, Seq<char>), RouteSpec>
    decreases s.len(),
{
    if s.len() == 0 {
        Map::empty()
    } else {
        map_of(s.drop_last()).insert(s.last().key(), s.last())
    }
}

/// No two routes of the sequence share an identity.
pub open spec fn unique_keys(s: Seq<RouteSpec>) -> bool {
    forall|i: int, j: int|
        0 <= i < s.len() && 0 <= j < s.len() && i != j ==> s[i].key() != s[j].key()
}

/// A key is in the map of a sequence exactly when some entry carries it.
proof fn lemma_map_of_contains(s: Seq<RouteSpec>, k: (Seq<char>, Seq<char>))
    ensures
        map_of(s).contains_key(k) <==> exists|i: int| 0 <= i < s.len() && s[i].key() == k,
    decreases s.len(),
{
    if s.len() > 0 {
        lemma_map_of_contains(s.drop_last(), k);
        if s.last().key() == k {
            assert(s[s.len() - 1].key() == k);
        } else if map_of(s).contains_key(k) {
            let i = choose|i: int| 0 <= i < s.drop_last().len() && s.drop_last()[i].key() == k;
            assert(s[i].key() == k);
        } else if exists|i: int| 0 <= i < s.len() && s[i].key() == k {
            let i = choose|i: int| 0 <= i < s.len() && s[i].key() == k;
            assert(s.drop_last()[i].key() == k);
        }
    }
}

/// With unique identities, the map of a sequence sends each entry's
/// identity to that entry.
proof fn lemma_map_of_index(s: Seq<RouteSpec>, i: int)
    requires
        unique_keys(s),
        0 <= i < s.len(),
    ensures
        map_of(s).contains_key(s[i].key()),
        map_of(s)[s[i].key()] == s[i],
    decreases s.len(),
{
    lemma_map_of_contains(s, s[i].key());
    if i < s.len() - 1 {
        assert(unique_keys(s.drop_last())) by {
            assert(forall|a: int, b: int|
                0 <= a < s.drop_last().len() && 0 <= b < s.drop_last().len() && a != b
                    ==> s.drop_last()[a].key() != s.drop_last()[b].key()) by {
                assert(forall|a: int| 0 <= a < s.drop_last().len() ==> s.drop_last()[a] == s[a]);
            }
        }
        lemma_map_of_index(s.drop_last(), i);
        assert(s.last().key() != s[i].key());
    }
}

/// Replacing the entry at `i` by a route with the same identity turns the
/// map of the sequence into the map with that identity re-bound.
proof fn lemma_map_of_update(s: Seq<RouteSpec>, i: int, r: RouteSpec)
    requires
        unique_keys(s),
        0 <= i < s.len(),
        r.key() == s[i].key(),
    ensures
        map_of(s.update(i, r)) =~= map_of(s).insert(r.key(), r),
    decreases s.len(),
{
    let t = s.update(i, r);
    if i == s.len() - 1 {
        assert(t.drop_last() =~= s.drop_last());
    } else {
        assert(t.drop_last() =~= s.drop_last().update(i, r));
        assert(unique_keys(s.drop_last())) by {
            assert(forall|a: int| 0 <= a < s.drop_last().len() ==> s.drop_last()[a] == s[a]);
        }
        lemma_map_of_update(s.drop_last(), i, r);
        assert(s.last().key() != r.key());
        assert(t.last() == s.last());
        assert(map_of(t) =~= map_of(s.drop_last()).insert(r.key(), r).insert(
            s.last().key(),
            s.last(),
        ));
    }
}

/// The keyed collection of mock routes.
pub struct RouteStore {
    routes: Vec<RouteConfig>,
}

impl View for RouteStore {
    type V = Map<(Seq<char>, Seq<char>), RouteSpec>;

    open spec fn view(&self) -> Map<(Seq<char>, Seq<char>), RouteSpec> {
        map_of(self.entries())
    }
}

impl RouteStore {
    /// The stored routes, as values, in storage order.
    pub closed spec fn entries(&self) -> Seq<RouteSpec> {
        self.routes@.map(|i: int, r: RouteConfig| r@)
    }

    /// The store's invariant: route identities are unique.
    pub open spec fn inv(&self) -> bool {
        unique_keys(self.entries())
    }

    /// An empty store.
    pub fn new() -> (r: Self)
        ensures
            r.inv(),
            r@ == Map::<(Seq<char>, Seq<char>), RouteSpec>::empty(),
            r.entries() == Seq::<RouteSpec>::empty(),
    {
        let r = RouteStore { routes: Vec::new() };
        proof {
            assert(r.entries() =~= Seq::<RouteSpec>::empty());
        }
        r
    }

    /// How many routes the store holds.
    pub fn len(&self) -> (r: usize)
        ensures
            r == self.entries().len(),
    {
        self.routes.len()
    }

    /// Inserts a route, replacing any route of the same identity:
    /// the store's map gains exactly that one binding.
    pub fn upsert(&mut self, route: RouteConfig)
        requires
            old(self).inv(),
        ensures
            final(self).inv(),
            final(self)@ == old(self)@.insert((route.method@, route.path@), route@),
    {
        let ghost rv = route@;
        let ghost k = route@.key();
        let ghost e0 = self.entries();
        let n = self.routes.len();
        let mut i: usize = 0;
        while i < n
            invariant
                n == self.routes.len(),
                0 <= i <= n,
                self.inv(),
                self.routes@ == old(self).routes@,
                route@ == rv,
                k == rv.key(),
                e0 == self.entries(),
                forall|j: int| 0 <= j < i ==> self.entries()[j].key() != k,
            decreases n - i,
        {
            if self.routes[i].method == route.method && self.routes[i].path == route.path {
                proof {
                    assert(self.entries()[i as int].key() == k);
                    lemma_map_of_update(self.entries(), i as int, rv);
                }
                self.routes.set(i, route);
                proof {
                    assert(self.entries() =~= e0.update(i as int, rv));
                    assert(forall|a: int, b: int|
                        0 <= a < self.entries().len() && 0 <= b < self.entries().len() && a != b
                            ==> self.entries()[a].key() != self.entries()[b].key()) by {
                        assert(forall|a: int|
                            0 <= a < e0.len() && a != i ==> self.entries()[a] == e0[a]);
                    }
                    assert(self@ =~= old(self)@.insert(k, rv));
                }
                return ;
            }
            i += 1;
        }
        proof {
            lemma_map_of_contains(e0, k);
        }
        self.routes.push(route);
        proof {
            assert(self.entries() =~= e0.push(rv));
            assert(self.entries().drop_last() =~= e0);
            assert(self.entries().last() == rv);
            assert(forall|a: int, b: int|
                0 <= a < self.entries().len() && 0 <= b < self.entries().len() && a != b
                    ==> self.entries()[a].key() != self.entries()[b].key()) by {
                assert(forall|a: int| 0 <= a < e0.len() ==> self.entries()[a] == e0[a]);
                assert(!map_of(e0).contains_key(k));
            }
            assert(self@ =~= old(self)@.insert(k, rv));
        }
    }

    /// Point lookup by identity, handing out an independent copy.
    pub fn get(&self, method: &String, path: &String) -> (r: Option<RouteConfig>)
        requires
            self.inv(),
        ensures
            self@.contains_key((method@, path@)) ==> (r matches Some(c) && c@ == self@[(
                method@,
                path@,
            )]),
            !self@.contains_key((method@, path@)) ==> r is None,
    {
        let ghost k = (method@, path@);
        let n = self.routes.len();
        let mut i: usize = 0;
        while i < n
            invariant
                n == self.routes.len(),
                0 <= i <= n,
                self.inv(),
                k == (method@, path@),
                forall|j: int| 0 <= j < i ==> self.entries()[j].key() != k,
            decreases n - i,
        {
            proof {
                assert(self.entries()[i as int] == self.routes@[i as int]@);
            }
            if self.routes[i].method == *method && self.routes[i].path == *path {
                proof {
                    assert(self.entries()[i as int].key() == k);
                    lemma_map_of_index(self.entries(), i as int);
                }
                return Some(self.routes[i].clone());
            }
            i += 1;
        }
        proof {
            lemma_map_of_contains(self.entries(), k);
        }
        None
    }

    /// A consistent copy of all stored routes at the moment of the call;
    /// later mutations do not change the returned vector.
    pub fn snapshot(&self) -> (r: Vec<RouteConfig>)
        requires
            self.inv(),
        ensures
            r@.len() == self.entries().len(),
            forall|i: int| 0 <= i < r@.len() ==> r@[i]@ == self.entries()[i],
            r@.map(|i: int, c: RouteConfig| c@) =~= self.entries(),
            map_of(r@.map(|i: int, c: RouteConfig| c@)) == self@,
    {
        let n = self.routes.len();
        let mut out: Vec<RouteConfig> = Vec::new();
        let mut i: usize = 0;
        while i < n
            invariant
                n == self.routes.len(),
                0 <= i <= n,
                out@.len() == i,
                forall|j: int| 0 <= j < i ==> out@[j]@ == self.entries()[j],
            decreases n - i,
        {
            out.push(self.routes[i].clone());
            i += 1;
        }
        proof {
            assert(out@.map(|i: int, c: RouteConfig| c@) =~= self.entries());
        }
        out
    }

    /// A store holding the routes of a list, later entries winning over
    /// earlier ones of the same identity, as when a persisted file is read.
    pub fn from_list(list: Vec<RouteConfig>) -> (r: Self)
        ensures
            r.inv(),
            r@ == map_of(list@.map(|i: int, c: RouteConfig| c@)),
    {
        let ghost l = list@.map(|i: int, c: RouteConfig| c@);
        let mut r = RouteStore::new();
        let mut i: usize = 0;
        let n = list.len();
        proof {
            assert(l.take(0) =~= Seq::<RouteSpec>::empty());
        }
        while i < n
            invariant
                n == list.len(),
                0 <= i <= n,
                r.inv(),
                l == list@.map(|i: int, c: RouteConfig| c@),
                r@ == map_of(l.take(i as int)),
            decreases n - i,
        {
            let c = list[i].clone();
            proof {
                assert(c@ == l[i as int]);
            }
            r.upsert(c);
            proof {
                assert(l.take(i + 1).drop_last() =~= l.take(i as int));
                assert(l.take(i + 1).last() == l[i as int]);
                assert(map_of(l.take(i + 1)) == map_of(l.take(i as int)).insert(
                    l[i as int].key(),
                    l[i as int],
                ));
            }
            i += 1;
        }
        proof {
            assert(l.take(n as int) =~= l);
        }
        r
    }
}

/// Idempotence: upserting the same route twice leaves the store's map as
/// upserting it once does.
pub proof fn lemma_upsert_idempotent(m: Map<(Seq<char>, Seq<char>), RouteSpec>, r: RouteSpec)
    ensures
        m.insert(r.key(), r).insert(r.key(), r) == m.insert(r.key(), r),
{
    assert(m.insert(r.key(), r).insert(r.key(), r) =~= m.insert(r.key(), r));
}

/// Overwrite: upserting a route with an existing identity replaces the
/// prior entry entirely; the earlier upsert leaves no trace.
pub proof fn lemma_upsert_overwrite(
    m: Map<(Seq<char>, Seq<char>), RouteSpec>,
    r1: RouteSpec,
    r2: RouteSpec,
)
    requires
        r1.key() == r2.key(),
    ensures
        m.insert(r1.key(), r1).insert(r2.key(), r2) == m.insert(r2.key(), r2),
{
    assert(m.insert(r1.key(), r1).insert(r2.key(), r2) =~= m.insert(r2.key(), r2));
}

} // verus!
