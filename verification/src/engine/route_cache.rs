//! Small root-to-child route cache for path-shaped keys.
//!
//! The cache remembers only the first blob crossing found from the root blob. A
//! hit is usable only while the root blob's content version still equals the
//! version the route was learned at.
use vstd::prelude::*;
use vstd::slice::slice_to_vec;

use crate::bytes::same_bytes;
use crate::engine::search_key::SearchKey;
use crate::layout::BlobGuid;

verus! {

/// Most routes that are kept.
pub const ROUTE_CACHE_CAPACITY: usize = 64;

/// Longest prefix that is kept.
pub const ROUTE_PREFIX_MAX: usize = 96;

/// Root version of a cache that has learned nothing.
pub const NO_ROOT_VERSION: u64 = u64::MAX;

/// Where a cached route leads.
#[derive(Debug, Clone, Copy)]
pub struct RouteHit {
    pub child_guid: BlobGuid,
    pub child_depth: usize,
}

/// One route: keys under `prefix` cross into `hit`.
pub struct Route {
    pub prefix: Seq<u8>,
    pub hit: RouteHit,
}

/// Everything a [`RouteCache`] remembers.
pub struct RouteState {
    pub root_version: u64,
    pub routes: Seq<Route>,
    /// Where the next route goes once the cache is full.
    pub cursor: usize,
}

/// Whether route `i` has exactly this prefix.
pub open spec fn is_route_of(routes: Seq<Route>, prefix: Seq<u8>, i: int) -> bool {
    0 <= i < routes.len() && routes[i].prefix == prefix
}

/// Whether a route has exactly this prefix.
pub open spec fn has_route(routes: Seq<Route>, prefix: Seq<u8>) -> bool {
    exists|i: int| is_route_of(routes, prefix, i)
}

/// The route with exactly this prefix, where there is one.
pub open spec fn route_of(routes: Seq<Route>, prefix: Seq<u8>) -> int {
    choose|i: int| is_route_of(routes, prefix, i)
}

/// Whether route `i` applies to `key`.
pub open spec fn applies(routes: Seq<Route>, key: Seq<u8>, i: int) -> bool {
    0 <= i < routes.len() && routes[i].prefix.is_prefix_of(key)
}

/// Whether route `i` is the longest that applies to `key`.
pub open spec fn is_best_route(routes: Seq<Route>, key: Seq<u8>, i: int) -> bool {
    &&& applies(routes, key, i)
    &&& forall|j: int| #[trigger] applies(routes, key, j) ==> routes[j].prefix.len()
        <= routes[i].prefix.len()
}

/// What a lookup of `key` at `root_version` gives.
pub open spec fn lookup_gives(
    s: RouteState,
    key: Seq<u8>,
    root_version: u64,
    hit: Option<RouteHit>,
) -> bool {
    match hit {
        Some(h) => s.root_version == root_version && exists|i: int| #[trigger]
            is_best_route(s.routes, key, i) && s.routes[i].hit == h,
        None => s.root_version != root_version || forall|i: int|
            !#[trigger] applies(s.routes, key, i),
    }
}

/// The routes after a crossing was learned under `root_version`.
pub open spec fn learned(
    s: RouteState,
    key: Seq<u8>,
    root_version: u64,
    hit: RouteHit,
) -> RouteState {
    if hit.child_depth > key.len() || hit.child_depth > ROUTE_PREFIX_MAX {
        s
    } else {
        let base = if s.root_version != root_version {
            RouteState { root_version, routes: Seq::empty(), cursor: 0 }
        } else {
            s
        };
        let prefix = key.take(hit.child_depth as int);
        let route = Route { prefix, hit };
        if has_route(base.routes, prefix) {
            RouteState { routes: base.routes.update(route_of(base.routes, prefix), route), ..base }
        } else if base.routes.len() < ROUTE_CACHE_CAPACITY {
            RouteState { routes: base.routes.push(route), ..base }
        } else {
            RouteState {
                routes: base.routes.update(
                    base.cursor as int % ROUTE_CACHE_CAPACITY as int,
                    route,
                ),
                cursor: if base.cursor == usize::MAX {
                    0
                } else {
                    (base.cursor + 1) as usize
                },
                ..base
            }
        }
    }
}

/// What holds of the routes of every cache: they fit, no prefix occurs twice,
/// and a prefix is as long as the depth it leads to.
pub open spec fn routes_wf(routes: Seq<Route>) -> bool {
    &&& routes.len() <= ROUTE_CACHE_CAPACITY
    &&& forall|i: int|
        0 <= i < routes.len() ==> (#[trigger] routes[i]).prefix.len() == routes[i].hit.child_depth
            && routes[i].prefix.len() <= ROUTE_PREFIX_MAX
    &&& forall|i: int, j: int|
        #![trigger routes[i], routes[j]]
        0 <= i < j < routes.len() ==> routes[i].prefix != routes[j].prefix
}

struct RouteEntry {
    prefix: Vec<u8>,
    hit: RouteHit,
}

/// A tiny associative cache for top-level path routes.
pub struct RouteCache {
    root_version: u64,
    entries: Vec<RouteEntry>,
    replace_cursor: usize,
}

impl View for RouteCache {
    type V = RouteState;

    closed spec fn view(&self) -> RouteState {
        RouteState {
            root_version: self.root_version,
            routes: self.entries@.map_values(
                |e: RouteEntry| Route { prefix: e.prefix@, hit: e.hit },
            ),
            cursor: self.replace_cursor,
        }
    }
}

impl Default for RouteCache {
    fn default() -> (cache: Self)
        ensures
            routes_wf(cache@.routes),
            cache@ == (RouteState {
                root_version: NO_ROOT_VERSION,
                routes: Seq::empty(),
                cursor: 0,
            }),
    {
        Self::new()
    }
}

impl RouteCache {
    /// A cache that has learned nothing.
    pub fn new() -> (cache: Self)
        ensures
            routes_wf(cache@.routes),
            cache@ == (RouteState {
                root_version: NO_ROOT_VERSION,
                routes: Seq::empty(),
                cursor: 0,
            }),
    {
        let cache = RouteCache {
            root_version: NO_ROOT_VERSION,
            entries: Vec::with_capacity(ROUTE_CACHE_CAPACITY),
            replace_cursor: 0,
        };
        assert(cache@.routes =~= Seq::empty());
        cache
    }

    /// The longest cached crossing for `key`, if it was learned from the root
    /// version that the caller holds.
    pub fn lookup(&self, key: SearchKey<'_>, root_version: u64) -> (hit: Option<RouteHit>)
        ensures
            lookup_gives(self@, key@, root_version, hit),
    {
        if self.root_version != root_version {
            return None;
        }
        let mut best: Option<usize> = None;
        let mut n: usize = 0;
        while n < self.entries.len()
            invariant
                n <= self.entries@.len(),
                match best {
                    Some(b) => b < n && applies(self@.routes, key@, b as int) && forall|j: int|
                        j < n && #[trigger] applies(self@.routes, key@, j)
                            ==> self@.routes[j].prefix.len() <= self@.routes[b as int].prefix.len(),
                    None => forall|j: int| j < n ==> !#[trigger] applies(self@.routes, key@, j),
                },
            decreases self.entries@.len() - n,
        {
            assert(self@.routes[n as int].prefix == self.entries@[n as int].prefix@);
            if key.starts_with_user_prefix(self.entries[n].prefix.as_slice()) {
                let longer: bool = match best {
                    Some(b) => self.entries[n].prefix.len() > self.entries[b].prefix.len(),
                    None => true,
                };
                if longer {
                    best = Some(n);
                }
            }
            n += 1;
        }
        match best {
            Some(b) => {
                assert(is_best_route(self@.routes, key@, b as int));
                Some(self.entries[b].hit)
            },
            None => None,
        }
    }

    /// Index of the entry with exactly this prefix.
    fn position(&self, prefix: &[u8]) -> (found: Option<usize>)
        ensures
            match found {
                Some(i) => is_route_of(self@.routes, prefix@, i as int),
                None => forall|i: int| !is_route_of(self@.routes, prefix@, i),
            },
    {
        let mut n: usize = 0;
        while n < self.entries.len()
            invariant
                n <= self.entries@.len(),
                forall|i: int| i < n ==> !is_route_of(self@.routes, prefix@, i),
            decreases self.entries@.len() - n,
        {
            assert(self@.routes[n as int].prefix == self.entries@[n as int].prefix@);
            if same_bytes(self.entries[n].prefix.as_slice(), prefix) {
                return Some(n);
            }
            n += 1;
        }
        None
    }

    /// Learn a root crossing just observed at `root_version`. A prefix that
    /// would take in the terminator, or that is too long, is not cached.
    pub fn learn(
        &mut self,
        key: SearchKey<'_>,
        root_version: u64,
        child_guid: BlobGuid,
        child_depth: usize,
    )
        requires
            routes_wf(old(self)@.routes),
        ensures
            routes_wf(final(self)@.routes),
            final(self)@ == learned(
                old(self)@,
                key@,
                root_version,
                RouteHit { child_guid, child_depth },
            ),
    {
        let prefix: &[u8] = match key.user_prefix(child_depth) {
            Some(p) => p,
            None => {
                return;
            },
        };
        if prefix.len() > ROUTE_PREFIX_MAX {
            return;
        }
        if self.root_version != root_version {
            self.entries.clear();
            self.replace_cursor = 0;
            self.root_version = root_version;
            assert(self@.routes =~= Seq::empty());
        }
        let ghost base = self@;
        let hit = RouteHit { child_guid, child_depth };
        let ghost route = Route { prefix: prefix@, hit };
        if let Some(i) = self.position(prefix) {
            self.entries[i].hit = hit;
            proof {
                assert(self@.routes =~= base.routes.update(i as int, route));
                let c = route_of(base.routes, prefix@);
                assert(is_route_of(base.routes, prefix@, i as int));
                assert(is_route_of(base.routes, prefix@, c));
                assert(c == i);
            }
            return;
        }
        let entry = RouteEntry { prefix: slice_to_vec(prefix), hit };
        assert(forall|i: int|
            0 <= i < base.routes.len() ==> (#[trigger] base.routes[i]).prefix != prefix@) by {
            assert forall|i: int| 0 <= i < base.routes.len() implies (
            #[trigger] base.routes[i]).prefix != prefix@ by {
                assert(!is_route_of(base.routes, prefix@, i));
            }
        }
        if self.entries.len() < ROUTE_CACHE_CAPACITY {
            self.entries.push(entry);
            assert(self@.routes =~= base.routes.push(route));
            return;
        }
        let idx: usize = self.replace_cursor % ROUTE_CACHE_CAPACITY;
        self.replace_cursor = self.replace_cursor.wrapping_add(1);
        self.entries[idx] = entry;
        assert(self@.routes =~= base.routes.update(idx as int, route));
    }
}

// ---------- laws ----------

/// A learned crossing serves every key under its prefix at the version it was
/// learned at: the best route for such a key is at least as deep.
pub proof fn learned_route_is_found(
    s: RouteState,
    key: Seq<u8>,
    root_version: u64,
    hit: RouteHit,
    other: Seq<u8>,
)
    requires
        routes_wf(s.routes),
        hit.child_depth <= key.len(),
        hit.child_depth <= ROUTE_PREFIX_MAX,
        key.take(hit.child_depth as int).is_prefix_of(other),
    ensures
        learned(s, key, root_version, hit).root_version == root_version,
        exists|i: int| #[trigger]
            applies(learned(s, key, root_version, hit).routes, other, i) && learned(
                s,
                key,
                root_version,
                hit,
            ).routes[i].hit == hit,
        forall|i: int| #[trigger]
            is_best_route(learned(s, key, root_version, hit).routes, other, i) ==> learned(
                s,
                key,
                root_version,
                hit,
            ).routes[i].prefix.len() >= hit.child_depth,
{
    let t = learned(s, key, root_version, hit);
    let base = if s.root_version != root_version {
        RouteState { root_version, routes: Seq::empty(), cursor: 0 }
    } else {
        s
    };
    let prefix = key.take(hit.child_depth as int);
    let at = if has_route(base.routes, prefix) {
        route_of(base.routes, prefix)
    } else if base.routes.len() < ROUTE_CACHE_CAPACITY {
        base.routes.len() as int
    } else {
        base.cursor as int % ROUTE_CACHE_CAPACITY as int
    };
    assert(t.routes[at] == Route { prefix, hit });
    assert(applies(t.routes, other, at));
}

/// A lookup right after a crossing was learned serves every key that goes the same
/// way down to it: with that crossing, or with a deeper one. At another version it
/// serves nothing, and a crossing that is too deep changes no lookup.
pub proof fn a_learned_crossing_is_looked_up(
    s: RouteState,
    key: Seq<u8>,
    root_version: u64,
    hit: RouteHit,
    other: Seq<u8>,
    version: u64,
    found: Option<RouteHit>,
)
    requires
        routes_wf(s.routes),
        lookup_gives(learned(s, key, root_version, hit), other, version, found),
    ensures
        hit.child_depth > key.len() || hit.child_depth > 96 ==> lookup_gives(
            s,
            other,
            version,
            found,
        ),
        hit.child_depth <= key.len() && hit.child_depth <= 96 ==> {
            &&& version != root_version ==> found is None
            &&& version == root_version && hit.child_depth <= other.len() && (forall|i: int|
                0 <= i < hit.child_depth ==> #[trigger] other[i] == key[i]) ==> found is Some
                && found->0.child_depth >= hit.child_depth && (found->0.child_depth
                == hit.child_depth ==> found->0 == hit)
        },
{
    if hit.child_depth <= key.len() && hit.child_depth <= 96 {
        let t = learned(s, key, root_version, hit);
        let prefix = key.take(hit.child_depth as int);
        if version == root_version && hit.child_depth <= other.len() && (forall|i: int|
            0 <= i < hit.child_depth ==> #[trigger] other[i] == key[i]) {
            assert forall|i: int| 0 <= i < prefix.len() implies prefix[i] == other[i] by {
                assert(other[i] == key[i]);
            }
            assert(prefix =~= other.subrange(0, prefix.len() as int));
            learned_route_is_found(s, key, root_version, hit, other);
            let at = choose|i: int| #[trigger]
                applies(t.routes, other, i) && t.routes[i].hit == hit;
            assert(found is Some);
            let best = choose|i: int| #[trigger]
                is_best_route(t.routes, other, i) && t.routes[i].hit == found->0;
            assert(is_best_route(t.routes, other, best));
            lemma_learned_wf(s, key, root_version, hit);
            assert(applies(t.routes, other, at));
            if t.routes[best].prefix.len() == t.routes[at].prefix.len() {
                assert(is_best_route(t.routes, other, at));
                best_route_is_unique(t.routes, other, best, at);
            }
        }
    }
}

/// Learning keeps what holds of the routes of every cache.
proof fn lemma_learned_wf(s: RouteState, key: Seq<u8>, root_version: u64, hit: RouteHit)
    requires
        routes_wf(s.routes),
    ensures
        routes_wf(learned(s, key, root_version, hit).routes),
{
    let base = if s.root_version != root_version {
        RouteState { root_version, routes: Seq::empty(), cursor: 0 }
    } else {
        s
    };
    if hit.child_depth <= key.len() && hit.child_depth <= ROUTE_PREFIX_MAX {
        let prefix = key.take(hit.child_depth as int);
        if has_route(base.routes, prefix) {
            assert(is_route_of(base.routes, prefix, route_of(base.routes, prefix)));
        } else {
            assert forall|i: int| 0 <= i < base.routes.len() implies (
            #[trigger] base.routes[i]).prefix != prefix by {
                assert(!is_route_of(base.routes, prefix, i));
            }
        }
    }
}

/// What a lookup serves lies on the way of the key: the crossing is no deeper than
/// the key is long, and a key that agrees with it down to that depth is served the
/// same crossing or a deeper one.
pub proof fn a_served_crossing_lies_on_the_way(
    s: RouteState,
    key: Seq<u8>,
    root_version: u64,
    found: RouteHit,
    other: Seq<u8>,
    also: Option<RouteHit>,
)
    requires
        routes_wf(s.routes),
        lookup_gives(s, key, root_version, Some(found)),
        lookup_gives(s, other, root_version, also),
    ensures
        found.child_depth <= key.len(),
        found.child_depth <= 96,
        found.child_depth <= other.len() && (forall|i: int|
            0 <= i < found.child_depth ==> #[trigger] other[i] == key[i]) ==> also is Some
            && also->0.child_depth >= found.child_depth,
{
    let best = choose|i: int| #[trigger]
        is_best_route(s.routes, key, i) && s.routes[i].hit == found;
    assert(is_best_route(s.routes, key, best));
    assert(applies(s.routes, key, best));
    let prefix = s.routes[best].prefix;
    assert(prefix.len() == found.child_depth);
    if found.child_depth <= other.len() && (forall|i: int|
        0 <= i < found.child_depth ==> #[trigger] other[i] == key[i]) {
        assert forall|i: int| 0 <= i < prefix.len() implies prefix[i] == other[i] by {
            assert(other[i] == key[i]);
            assert(prefix[i] == key.subrange(0, prefix.len() as int)[i]);
        }
        assert(prefix =~= other.subrange(0, prefix.len() as int));
        assert(applies(s.routes, other, best));
        let b2 = choose|i: int| #[trigger]
            is_best_route(s.routes, other, i) && Some(s.routes[i].hit) == also;
        assert(is_best_route(s.routes, other, b2));
    }
}

/// Learning keeps every other route while fewer than 64 are kept. Once 64 are, a
/// new one takes the place of a single other, and the places go round in turn.
pub proof fn learning_replaces_one_route_at_most(
    s: RouteState,
    key: Seq<u8>,
    root_version: u64,
    hit: RouteHit,
)
    requires
        routes_wf(s.routes),
        s.root_version == root_version,
    ensures
        ({
            let t = learned(s, key, root_version, hit);
            &&& t.routes.len() <= 64
            &&& t.routes.len() == s.routes.len() || t.routes.len() == s.routes.len() + 1
            &&& forall|i: int|
                0 <= i < s.routes.len() && #[trigger] t.routes[i] != s.routes[i]
                    ==> s.routes[i].prefix == key.take(hit.child_depth as int) || (s.routes.len()
                    == 64 && i == s.cursor % 64)
            &&& t.cursor == s.cursor || (s.routes.len() == 64 && (s.cursor < usize::MAX ==> t.cursor
                == s.cursor + 1))
            &&& s.routes.len() == 64 && t.routes[s.cursor as int % 64] != s.routes[s.cursor as int
                % 64] && s.routes[s.cursor as int % 64].prefix != key.take(hit.child_depth as int)
                ==> t.cursor != s.cursor
        }),
{
    let prefix = key.take(hit.child_depth as int);
    if has_route(s.routes, prefix) {
        assert(is_route_of(s.routes, prefix, route_of(s.routes, prefix)));
    }
}

/// Learning under a new root version drops every route learned before.
pub proof fn new_version_drops_old_routes(
    s: RouteState,
    key: Seq<u8>,
    root_version: u64,
    hit: RouteHit,
)
    requires
        s.root_version != root_version,
        hit.child_depth <= key.len(),
        hit.child_depth <= ROUTE_PREFIX_MAX,
    ensures
        learned(s, key, root_version, hit).routes == seq![
            Route { prefix: key.take(hit.child_depth as int), hit },
        ],
{
    assert(learned(s, key, root_version, hit).routes =~= seq![
        Route { prefix: key.take(hit.child_depth as int), hit },
    ]);
}

/// Two routes that both apply to a key and are equally long are the same route,
/// so a key has at most one best route.
pub proof fn best_route_is_unique(routes: Seq<Route>, key: Seq<u8>, i: int, j: int)
    requires
        routes_wf(routes),
        is_best_route(routes, key, i),
        is_best_route(routes, key, j),
    ensures
        i == j,
{
    assert(applies(routes, key, i) && applies(routes, key, j));
    assert(routes[i].prefix =~= routes[j].prefix);
}

} // verus!
