//! Bounded, accounted cache of routed blobs' routing regions.
//!
//! A cold routed read needs the blob's routing region. This cache keeps the
//! regions of recently read blobs resident. Every entry is keyed by the blob's
//! guid and stamped with the `compact_times` of the header it was read under; a
//! region changes only when the blob is compacted, which bumps that number, so
//! an entry with another stamp is a miss and is never served. Each shard has a
//! fixed byte budget and is emptied when a new region would exceed it.
use std::collections::HashMap;

use vstd::prelude::*;
use vstd::slice::slice_to_vec;

use crate::layout::{guid_key, BlobGuid};

verus! {

/// Number of shards.
pub const SHARDS: usize = 16;

/// Smallest byte budget of a shard.
pub const MIN_SHARD_BUDGET: usize = 65536;

/// One cached region with its stamp.
pub struct RegionModel {
    pub compact_times: u32,
    pub region: Seq<u8>,
}

/// Bytes of all cached regions.
pub open spec fn total_bytes(entries: Map<u128, RegionModel>) -> nat
    decreases entries.dom().len(),
    when entries.dom().finite()
{
    if entries.dom().len() == 0 {
        0
    } else {
        let k = entries.dom().choose();
        entries[k].region.len() + total_bytes(entries.remove(k))
    }
}

/// Taking an entry out takes its bytes out of the total.
pub proof fn lemma_total_remove(entries: Map<u128, RegionModel>, k: u128)
    requires
        entries.dom().finite(),
        entries.dom().contains(k),
    ensures
        total_bytes(entries) == entries[k].region.len() + total_bytes(entries.remove(k)),
    decreases entries.dom().len(),
{
    let c = entries.dom().choose();
    if c != k {
        let rest = entries.remove(c);
        lemma_total_remove(rest, k);
        lemma_total_remove(entries.remove(k), c);
        assert(rest.remove(k) =~= entries.remove(k).remove(c));
    }
}

/// Putting an entry in adds its bytes to the total.
pub proof fn lemma_total_insert(entries: Map<u128, RegionModel>, k: u128, e: RegionModel)
    requires
        entries.dom().finite(),
        !entries.dom().contains(k),
    ensures
        total_bytes(entries.insert(k, e)) == e.region.len() + total_bytes(entries),
{
    let more = entries.insert(k, e);
    lemma_total_remove(more, k);
    assert(more.remove(k) =~= entries);
}

// ---------- one shard ----------

struct Entry {
    compact_times: u32,
    region: Vec<u8>,
}

struct Shard {
    map: HashMap<u128, Entry>,
    bytes: usize,
}

impl Shard {
    closed spec fn entries(&self) -> Map<u128, RegionModel> {
        self.map@.map_values(
            |e: Entry| RegionModel { compact_times: e.compact_times, region: e.region@ },
        )
    }

    closed spec fn wf(&self) -> bool {
        &&& self.map@.dom().finite()
        &&& self.bytes == total_bytes(self.entries())
    }

    fn new() -> (shard: Self)
        ensures
            shard.wf(),
            shard.entries() == Map::<u128, RegionModel>::empty(),
    {
        let shard = Shard { map: HashMap::new(), bytes: 0 };
        assert(shard.entries() =~= Map::<u128, RegionModel>::empty());
        shard
    }

    /// Drop the entry of `key`, if there is one.
    fn discard(&mut self, key: u128)
        requires
            old(self).wf(),
        ensures
            final(self).wf(),
            final(self).entries() == old(self).entries().remove(key),
    {
        let ghost before = self.entries();
        let removed = self.map.remove(&key);
        assert(self.entries() =~= before.remove(key));
        match removed {
            Some(e) => {
                proof {
                    assert(before.dom() =~= old(self).map@.dom());
                    lemma_total_remove(before, key);
                }
                self.bytes = self.bytes - e.region.len();
            },
            None => {
                assert(before.remove(key) =~= before);
            },
        }
    }

    /// Whether the region of `key` at `compact_times` is here with this length.
    fn has(&self, key: u128, compact_times: u32, len: usize) -> (found: Option<bool>)
        ensures
            found == (if self.entries().dom().contains(key) {
                Some(
                    self.entries()[key].compact_times == compact_times
                        && self.entries()[key].region.len() == len,
                )
            } else {
                None
            }),
    {
        match self.map.get(&key) {
            Some(e) => Some(e.compact_times == compact_times && e.region.len() == len),
            None => None,
        }
    }

    /// Copy the region of `key` into `dst`.
    fn copy_region(&self, key: u128, dst: &mut [u8])
        requires
            self.entries().dom().contains(key),
            self.entries()[key].region.len() == old(dst)@.len(),
        ensures
            final(dst)@ == self.entries()[key].region,
    {
        if let Some(e) = self.map.get(&key) {
            let mut i: usize = 0;
            while i < e.region.len()
                invariant
                    i <= e.region@.len() == dst@.len(),
                    forall|j: int| 0 <= j < i ==> dst@[j] == e.region@[j],
                decreases e.region@.len() - i,
            {
                dst[i] = e.region[i];
                i += 1;
            }
            assert(dst@ =~= e.region@);
        }
    }

    /// Put a region in, emptying the shard first if it would exceed `budget`. A
    /// region that exceeds it alone is not kept.
    fn store(&mut self, key: u128, compact_times: u32, region: &[u8], budget: usize)
        requires
            old(self).wf(),
        ensures
            final(self).wf(),
            final(self).entries() == stored(
                old(self).entries(),
                budget as nat,
                key,
                RegionModel { compact_times, region: region@ },
            ),
    {
        self.discard(key);
        if region.len() > budget || self.bytes > budget - region.len() {
            self.map.clear();
            self.bytes = 0;
            assert(self.entries() =~= Map::<u128, RegionModel>::empty());
        }
        if region.len() > budget {
            return;
        }
        let ghost before = self.entries();
        let ghost model = RegionModel { compact_times, region: region@ };
        assert(before.dom() =~= self.map@.dom());
        self.bytes = self.bytes + region.len();
        self.map.insert(key, Entry { compact_times, region: slice_to_vec(region) });
        proof {
            assert(self.entries() =~= before.insert(key, model));
            lemma_total_insert(before, key, model);
        }
    }
}

// ---------- the cache ----------

/// What a shard holds after a region was put.
pub open spec fn stored(
    entries: Map<u128, RegionModel>,
    budget: nat,
    key: u128,
    e: RegionModel,
) -> Map<u128, RegionModel> {
    let rest = entries.remove(key);
    if e.region.len() > budget {
        Map::empty()
    } else if total_bytes(rest) + e.region.len() > budget {
        Map::empty().insert(key, e)
    } else {
        rest.insert(key, e)
    }
}

/// Whether a shard serves the region of `key` at `compact_times` with length `len`.
pub open spec fn serves(
    entries: Map<u128, RegionModel>,
    key: u128,
    compact_times: u32,
    len: nat,
) -> bool {
    &&& entries.dom().contains(key)
    &&& entries[key].compact_times == compact_times
    &&& entries[key].region.len() == len
}

/// Everything a [`RoutingCache`] remembers.
pub struct RoutingState {
    /// What each shard holds, by guid.
    pub shards: Seq<Map<u128, RegionModel>>,
    /// Byte budget of a shard.
    pub budget: nat,
    pub hits: u64,
    pub misses: u64,
}

/// The shard of a guid: its high-entropy half spreads evenly.
pub open spec fn shard_of(guid: BlobGuid) -> int {
    guid[8] as int % SHARDS as int
}

/// The next value of a wrapping counter.
pub open spec fn bumped(n: u64) -> u64 {
    if n == u64::MAX {
        0
    } else {
        (n + 1) as u64
    }
}

/// A cache that holds nothing and splits `total` bytes evenly.
pub open spec fn fresh(total: usize) -> RoutingState {
    RoutingState {
        shards: Seq::new(SHARDS as nat, |i: int| Map::empty()),
        budget: if total / SHARDS < MIN_SHARD_BUDGET {
            MIN_SHARD_BUDGET as nat
        } else {
            (total / SHARDS) as nat
        },
        hits: 0,
        misses: 0,
    }
}

/// What a fill gives on a cache in state `s`: whether it hit, what became of the
/// buffer, and the state `t`.
pub open spec fn fill_gives(
    s: RoutingState,
    t: RoutingState,
    guid: BlobGuid,
    compact_times: u32,
    before: Seq<u8>,
    after: Seq<u8>,
    hit: bool,
) -> bool {
    let i = shard_of(guid);
    let key = crate::layout::guid_id(guid);
    let entries = s.shards[i];
    let served = serves(entries, key, compact_times, before.len());
    &&& hit == served
    &&& after == (if served {
        entries[key].region
    } else {
        before
    })
    &&& t == (if served {
        RoutingState { hits: bumped(s.hits), ..s }
    } else {
        RoutingState {
            shards: s.shards.update(i, entries.remove(key)),
            misses: bumped(s.misses),
            ..s
        }
    })
}

/// The state `s` once a region was put.
pub open spec fn after_put(
    s: RoutingState,
    guid: BlobGuid,
    compact_times: u32,
    region: Seq<u8>,
) -> RoutingState {
    RoutingState {
        shards: s.shards.update(
            shard_of(guid),
            stored(
                s.shards[shard_of(guid)],
                s.budget,
                crate::layout::guid_id(guid),
                RegionModel { compact_times, region },
            ),
        ),
        ..s
    }
}

/// A bounded, sharded, `compact_times`-validated cache of routing regions.
pub struct RoutingCache {
    shards: Vec<Shard>,
    shard_budget_bytes: usize,
    hits: u64,
    misses: u64,
}

impl View for RoutingCache {
    type V = RoutingState;

    closed spec fn view(&self) -> RoutingState {
        RoutingState {
            shards: self.shards@.map_values(|s: Shard| s.entries()),
            budget: self.shard_budget_bytes as nat,
            hits: self.hits,
            misses: self.misses,
        }
    }
}

impl RoutingCache {
    /// Whether every shard's byte count is the size of what it holds, and within
    /// the budget.
    pub closed spec fn wf(&self) -> bool {
        &&& self.shards@.len() == SHARDS
        &&& forall|i: int|
            0 <= i < SHARDS ==> (#[trigger] self.shards@[i]).wf() && self.shards@[i].bytes
                <= self.shard_budget_bytes
    }

    /// What holds of every well-formed cache.
    pub proof fn lemma_wf(&self)
        requires
            self.wf(),
        ensures
            self@.shards.len() == SHARDS,
            forall|i: int|
                0 <= i < SHARDS ==> (#[trigger] self@.shards[i]).dom().finite() && total_bytes(
                    self@.shards[i],
                ) <= self@.budget,
    {
        assert forall|i: int| 0 <= i < SHARDS implies (#[trigger] self@.shards[i]).dom().finite()
            && total_bytes(self@.shards[i]) <= self@.budget by {
            assert(self.shards@[i].wf());
            assert(self.shards@[i].entries().dom() =~= self.shards@[i].map@.dom());
        }
    }

    /// An empty cache whose shards split `total_budget_bytes` evenly, with at
    /// least 64 KiB each.
    pub fn new(total_budget_bytes: usize) -> (cache: Self)
        ensures
            cache.wf(),
            cache@ == fresh(total_budget_bytes),
    {
        let share: usize = total_budget_bytes / SHARDS;
        let shard_budget_bytes: usize = if share < MIN_SHARD_BUDGET {
            MIN_SHARD_BUDGET
        } else {
            share
        };
        let mut shards: Vec<Shard> = Vec::with_capacity(SHARDS);
        let mut i: usize = 0;
        while i < SHARDS
            invariant
                i <= SHARDS,
                shards@.len() == i,
                forall|j: int|
                    0 <= j < i ==> (#[trigger] shards@[j]).wf() && shards@[j].entries() == Map::<
                        u128,
                        RegionModel,
                    >::empty(),
            decreases SHARDS - i,
        {
            shards.push(Shard::new());
            i += 1;
        }
        let cache = RoutingCache { shards, shard_budget_bytes, hits: 0, misses: 0 };
        assert(cache@.shards =~= Seq::new(SHARDS as nat, |i: int| Map::empty()));
        cache
    }

    /// Index of the shard that holds `guid`.
    fn shard(&self, guid: &BlobGuid) -> (i: usize)
        ensures
            i == shard_of(*guid),
            i < SHARDS,
    {
        guid[8] as usize % SHARDS
    }

    /// If the region of `guid` at exactly `compact_times` and of exactly the
    /// length of `dst` is cached, copy it into `dst` and return `true`. An entry
    /// of another stamp or length is dropped.
    pub fn fill(&mut self, guid: BlobGuid, compact_times: u32, dst: &mut [u8]) -> (hit: bool)
        requires
            old(self).wf(),
        ensures
            final(self).wf(),
            fill_gives(
                old(self)@,
                final(self)@,
                guid,
                compact_times,
                old(dst)@,
                final(dst)@,
                hit,
            ),
    {
        let i: usize = self.shard(&guid);
        let key: u128 = guid_key(&guid);
        let ghost before = self@;
        assert(before.shards[i as int] == self.shards@[i as int].entries());
        match self.shards[i].has(key, compact_times, dst.len()) {
            Some(true) => {
                self.shards[i].copy_region(key, dst);
                self.hits = self.hits.wrapping_add(1);
                assert(self@.shards =~= before.shards);
                true
            },
            Some(false) => {
                proof {
                    assert(self.shards@[i as int].wf());
                    assert(self.shards@[i as int].entries().dom()
                        =~= self.shards@[i as int].map@.dom());
                    drop_keeps_the_budget(before.shards[i as int], key);
                }
                self.shards[i].discard(key);
                self.misses = self.misses.wrapping_add(1);
                assert(self@.shards =~= before.shards.update(
                    i as int,
                    before.shards[i as int].remove(key),
                ));
                false
            },
            None => {
                self.misses = self.misses.wrapping_add(1);
                assert(before.shards[i as int].remove(key) =~= before.shards[i as int]);
                assert(self@.shards =~= before.shards.update(
                    i as int,
                    before.shards[i as int].remove(key),
                ));
                false
            },
        }
    }

    /// Cache the routing `region` of `guid` at `compact_times`, if it fits a shard's
    /// budget.
    pub fn put(&mut self, guid: BlobGuid, compact_times: u32, region: &[u8])
        requires
            old(self).wf(),
        ensures
            final(self).wf(),
            final(self)@ == after_put(old(self)@, guid, compact_times, region@),
    {
        let i: usize = self.shard(&guid);
        let key: u128 = guid_key(&guid);
        let budget: usize = self.shard_budget_bytes;
        let ghost before = self@;
        assert(before.shards[i as int] == self.shards@[i as int].entries());
        proof {
            assert(self.shards@[i as int].wf());
            assert(self.shards@[i as int].entries().dom() =~= self.shards@[i as int].map@.dom());
            put_keeps_the_budget(
                before.shards[i as int],
                before.budget,
                key,
                RegionModel { compact_times, region: region@ },
            );
        }
        self.shards[i].store(key, compact_times, region, budget);
        assert(self@.shards =~= before.shards.update(
            i as int,
            stored(
                before.shards[i as int],
                before.budget,
                key,
                RegionModel { compact_times, region: region@ },
            ),
        ));
    }

    /// Lookups that were served.
    pub fn hits(&self) -> (n: u64)
        ensures
            n == self@.hits,
    {
        self.hits
    }

    /// Lookups that were not served.
    pub fn misses(&self) -> (n: u64)
        ensures
            n == self@.misses,
    {
        self.misses
    }

    /// Byte budget of each shard.
    pub fn shard_budget(&self) -> (n: usize)
        ensures
            n == self@.budget,
    {
        self.shard_budget_bytes
    }

    /// Accounted bytes of shard `i`.
    pub fn shard_bytes(&self, i: usize) -> (n: usize)
        requires
            self.wf(),
            i < SHARDS,
        ensures
            n == total_bytes(self@.shards[i as int]),
            n <= self@.budget,
    {
        assert(self@.shards[i as int] == self.shards@[i as int].entries());
        assert(self.shards@[i as int].wf());
        self.shards[i].bytes
    }
}

// ---------- laws ----------

/// A region that fits the budget of a shard is served right after it was put, byte
/// for byte, at its own stamp and length; at another stamp or length nothing is
/// served and the buffer stays as it was.
pub proof fn a_put_region_is_served_unchanged(
    s: RoutingState,
    t: RoutingState,
    guid: BlobGuid,
    stamp: u32,
    region: Seq<u8>,
    asked: u32,
    before: Seq<u8>,
    after: Seq<u8>,
    hit: bool,
)
    requires
        s.shards.len() == 16,
        fill_gives(after_put(s, guid, stamp, region), t, guid, asked, before, after, hit),
    ensures
        hit == (region.len() <= s.budget && asked == stamp && before.len() == region.len()),
        hit ==> after == region,
        !hit ==> after == before,
{
}

/// A put changes nothing of what is served of another blob, except that the whole
/// shard goes where the regions no longer fit it together.
pub proof fn a_put_region_leaves_the_others(
    s: RoutingState,
    guid: BlobGuid,
    stamp: u32,
    region: Seq<u8>,
    other: BlobGuid,
    asked: u32,
    t: RoutingState,
    u: RoutingState,
    x0: Seq<u8>,
    x1: Seq<u8>,
    y1: Seq<u8>,
    before: bool,
    after: bool,
)
    requires
        s.shards.len() == 16,
        other != guid,
        fill_gives(s, t, other, asked, x0, x1, before),
        fill_gives(after_put(s, guid, stamp, region), u, other, asked, x0, y1, after),
    ensures
        after ==> before && y1 == x1,
        before && !after ==> guid[8] % 16 == other[8] % 16 && total_bytes(
            s.shards[guid[8] as int % 16].remove(crate::layout::guid_id(guid)),
        ) + region.len() > s.budget,
{
    if crate::layout::guid_id(other) == crate::layout::guid_id(guid) {
        crate::layout::guid_id_is_injective(guid, other);
    }
}

/// What was served once is served again, and what was not stays unserved; every
/// fill counts once.
pub proof fn a_fill_can_be_repeated(
    s: RoutingState,
    t: RoutingState,
    u: RoutingState,
    guid: BlobGuid,
    asked: u32,
    x0: Seq<u8>,
    x1: Seq<u8>,
    y0: Seq<u8>,
    y1: Seq<u8>,
    first: bool,
    second: bool,
)
    requires
        s.shards.len() == 16,
        x0.len() == y0.len(),
        s.hits < u64::MAX,
        s.misses < u64::MAX,
        fill_gives(s, t, guid, asked, x0, x1, first),
        fill_gives(t, u, guid, asked, y0, y1, second),
    ensures
        second == first,
        first ==> y1 == x1,
        t.hits == s.hits + (if first {
            1int
        } else {
            0
        }),
        t.misses == s.misses + (if first {
            0int
        } else {
            1
        }),
{
}

/// A fresh cache serves nothing. Its 16 shards hold no more than the total
/// together, unless that is less than 64 KiB each.
pub proof fn a_fresh_cache_is_empty(
    total: usize,
    t: RoutingState,
    guid: BlobGuid,
    asked: u32,
    x0: Seq<u8>,
    x1: Seq<u8>,
    hit: bool,
)
    requires
        fill_gives(fresh(total), t, guid, asked, x0, x1, hit),
    ensures
        !hit,
        x1 == x0,
        fresh(total).shards.len() == 16,
        fresh(total).budget >= 65536,
        fresh(total).budget > 65536 ==> 16 * fresh(total).budget <= total,
        total < 16 * (fresh(total).budget + 1),
{
    assert(16 * (total / SHARDS) <= total < 16 * (total / SHARDS + 1)) by (nonlinear_arith)
        requires
            SHARDS == 16,
    ;
}

/// A put region that fits the budget is served at its own stamp and length, and
/// at no other stamp: a stale generation is never handed out. One that does not
/// fit is served at none.
pub proof fn put_is_served_at_its_stamp_only(
    entries: Map<u128, RegionModel>,
    budget: nat,
    key: u128,
    e: RegionModel,
    compact_times: u32,
    len: nat,
)
    ensures
        serves(stored(entries, budget, key, e), key, compact_times, len) <==> e.region.len()
            <= budget && compact_times == e.compact_times && len == e.region.len(),
        e.region.len() <= budget ==> stored(entries, budget, key, e)[key] == e,
{
}

/// A put leaves its shard within the budget, whatever the shard held.
pub proof fn put_keeps_the_budget(
    entries: Map<u128, RegionModel>,
    budget: nat,
    key: u128,
    e: RegionModel,
)
    requires
        entries.dom().finite(),
    ensures
        total_bytes(stored(entries, budget, key, e)) <= budget,
{
    let rest = entries.remove(key);
    if e.region.len() > budget {
        assert(Map::<u128, RegionModel>::empty().dom().len() == 0);
    } else if total_bytes(rest) + e.region.len() > budget {
        lemma_total_insert(Map::empty(), key, e);
        assert(Map::<u128, RegionModel>::empty().dom().len() == 0);
    } else {
        lemma_total_insert(rest, key, e);
    }
}

/// Dropping an entry never grows a shard.
pub proof fn drop_keeps_the_budget(entries: Map<u128, RegionModel>, key: u128)
    requires
        entries.dom().finite(),
    ensures
        total_bytes(entries.remove(key)) <= total_bytes(entries),
{
    if entries.dom().contains(key) {
        lemma_total_remove(entries, key);
    } else {
        assert(entries.remove(key) =~= entries);
    }
}

} // verus!
