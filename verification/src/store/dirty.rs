//! Lowest unflushed sequence number per blob.
use std::collections::HashMap;

use vstd::prelude::*;

use crate::layout::{guid_key, BlobGuid};
use crate::store::backend::map_keys;

verus! {

/// The smaller of two sequence numbers.
pub open spec fn lower(a: u64, b: u64) -> u64 {
    if a < b {
        a
    } else {
        b
    }
}

/// `m` with `txn` noted for `id`: the lowest number stays.
pub open spec fn noted(m: Map<u128, u64>, id: u128, txn: u64) -> Map<u128, u64> {
    if m.dom().contains(id) {
        m.insert(id, lower(m[id], txn))
    } else {
        m.insert(id, txn)
    }
}

/// Both maps in one, with the lowest number of each blob.
pub open spec fn merged(a: Map<u128, u64>, b: Map<u128, u64>) -> Map<u128, u64> {
    Map::new(
        |id: u128| a.dom().contains(id) || b.dom().contains(id),
        |id: u128|
            if a.dom().contains(id) && b.dom().contains(id) {
                lower(a[id], b[id])
            } else if a.dom().contains(id) {
                a[id]
            } else {
                b[id]
            },
    )
}

/// Whether `txn` is the lowest number in `m`.
pub open spec fn is_lowest(m: Map<u128, u64>, txn: u64) -> bool {
    &&& exists|id: u128| #[trigger] m.dom().contains(id) && m[id] == txn
    &&& forall|id: u128| #[trigger] m.dom().contains(id) ==> txn <= m[id]
}

/// Whether `low` is the lowest number in `m`, or `None` where there is none.
pub open spec fn lowest_of(m: Map<u128, u64>, low: Option<u64>) -> bool {
    match low {
        Some(t) => is_lowest(m, t),
        None => m == Map::<u128, u64>::empty(),
    }
}

/// Which blobs are dirty, with the lowest sequence number not yet flushed.
pub struct DirtyMap {
    map: HashMap<u128, u64>,
}

impl View for DirtyMap {
    type V = Map<u128, u64>;

    closed spec fn view(&self) -> Map<u128, u64> {
        self.map@
    }
}

impl DirtyMap {
    /// No blob is dirty.
    pub fn new() -> (d: Self)
        ensures
            d@ == Map::<u128, u64>::empty(),
    {
        DirtyMap { map: HashMap::new() }
    }

    /// Number of dirty blobs.
    pub fn len(&self) -> (n: usize)
        ensures
            n == self@.len(),
            self@.dom().finite(),
    {
        self.map.len()
    }

    /// The number of `guid`.
    pub fn get(&self, guid: &BlobGuid) -> (txn: Option<u64>)
        ensures
            txn == (if self@.dom().contains(crate::layout::guid_id(*guid)) {
                Some(self@[crate::layout::guid_id(*guid)])
            } else {
                None
            }),
    {
        match self.map.get(&guid_key(guid)) {
            Some(t) => Some(*t),
            None => None,
        }
    }

    /// Whether the blob numbered `id` is dirty.
    pub fn has(&self, id: u128) -> (yes: bool)
        ensures
            yes == self@.dom().contains(id),
    {
        self.map.contains_key(&id)
    }

    /// Set the number of `guid`, whatever it was.
    pub fn insert(&mut self, guid: BlobGuid, txn: u64)
        ensures
            final(self)@ == old(self)@.insert(crate::layout::guid_id(guid), txn),
    {
        self.map.insert(guid_key(&guid), txn);
    }

    fn note(&mut self, id: u128, txn: u64)
        ensures
            final(self)@ == noted(old(self)@, id, txn),
    {
        let low: u64 = match self.map.get(&id) {
            Some(cur) => if *cur < txn {
                *cur
            } else {
                txn
            },
            None => txn,
        };
        self.map.insert(id, low);
    }

    /// Note `txn` for `guid`, keeping the lowest number.
    pub fn mark(&mut self, guid: BlobGuid, txn: u64)
        ensures
            final(self)@ == noted(old(self)@, crate::layout::guid_id(guid), txn),
    {
        self.note(guid_key(&guid), txn);
    }

    /// Forget `guid`; gives the number it had.
    pub fn remove(&mut self, guid: &BlobGuid) -> (txn: Option<u64>)
        ensures
            final(self)@ == old(self)@.remove(crate::layout::guid_id(*guid)),
            txn == (if old(self)@.dom().contains(crate::layout::guid_id(*guid)) {
                Some(old(self)@[crate::layout::guid_id(*guid)])
            } else {
                None
            }),
    {
        let id: u128 = guid_key(guid);
        let txn = self.map.remove(&id);
        proof {
            if txn is None {
                assert(old(self)@.remove(id) =~= old(self)@);
            }
        }
        txn
    }

    /// Hand everything out and be empty.
    pub fn take(&mut self) -> (all: DirtyMap)
        ensures
            all@ == old(self)@,
            final(self)@ == Map::<u128, u64>::empty(),
    {
        let mut all = DirtyMap::new();
        core::mem::swap(&mut all.map, &mut self.map);
        all
    }

    /// Forget everything.
    pub fn clear(&mut self)
        ensures
            final(self)@ == Map::<u128, u64>::empty(),
    {
        self.map.clear();
    }

    /// Take `other` in, keeping the lowest number of each blob.
    pub fn merge(&mut self, other: DirtyMap)
        ensures
            final(self)@ == merged(old(self)@, other@),
    {
        let keys: Vec<u128> = map_keys(&other.map);
        let ghost start = self@;
        let ghost mut done: Map<u128, u64> = Map::empty();
        let mut i: usize = 0;
        assert(self@ =~= merged(start, done));
        while i < keys.len()
            invariant
                i <= keys@.len(),
                keys@.no_duplicates(),
                keys@.to_set() == other.map@.dom(),
                done.submap_of(other@),
                forall|j: int| 0 <= j < i ==> done.dom().contains(#[trigger] keys@[j]),
                forall|j: int| i <= j < keys@.len() ==> !done.dom().contains(#[trigger] keys@[j]),
                self@ == merged(start, done),
            decreases keys@.len() - i,
        {
            let id: u128 = keys[i];
            assert(keys@.to_set().contains(id));
            if let Some(txn) = other.map.get(&id) {
                let t: u64 = *txn;
                self.note(id, t);
                assert(!done.dom().contains(id));
                assert(self@ =~= merged(start, done.insert(id, t)));
                proof {
                    done = done.insert(id, t);
                }
            }
            i += 1;
        }
        assert(done =~= other@) by {
            assert forall|id: u128| other@.dom().contains(id) implies done.dom().contains(id) by {
                assert(keys@.to_set().contains(id));
                let n = choose|n: int| 0 <= n < keys@.len() && keys@[n] == id;
                assert(done.dom().contains(keys@[n]));
            }
        }
    }

    /// The lowest number of all, if any blob is dirty.
    pub fn lowest(&self) -> (txn: Option<u64>)
        ensures
            lowest_of(self@, txn),
    {
        let keys: Vec<u128> = map_keys(&self.map);
        let mut best: Option<u64> = None;
        let mut i: usize = 0;
        while i < keys.len()
            invariant
                i <= keys@.len(),
                keys@.to_set() == self.map@.dom(),
                match best {
                    Some(t) => {
                        &&& exists|j: int| 0 <= j < i && self.map@[#[trigger] keys@[j]] == t
                        &&& forall|j: int| 0 <= j < i ==> t <= self.map@[#[trigger] keys@[j]]
                    },
                    None => i == 0,
                },
            decreases keys@.len() - i,
        {
            let id: u128 = keys[i];
            assert(keys@.to_set().contains(id));
            if let Some(txn) = self.map.get(&id) {
                let t: u64 = *txn;
                let ghost prev = best;
                best = match best {
                    Some(b) => if b < t {
                        Some(b)
                    } else {
                        Some(t)
                    },
                    None => Some(t),
                };
                proof {
                    let now = best->0;
                    if now == t {
                        assert(self.map@[keys@[i as int]] == now);
                    } else {
                        let j = choose|j: int|
                            0 <= j < i && self.map@[#[trigger] keys@[j]] == prev->0;
                        assert(self.map@[keys@[j]] == now);
                    }
                }
            }
            i += 1;
        }
        proof {
            match best {
                Some(t) => {
                    let j = choose|j: int| 0 <= j < i && self.map@[#[trigger] keys@[j]] == t;
                    assert(keys@.to_set().contains(keys@[j]));
                    assert forall|id: u128| #[trigger] self@.dom().contains(id) implies t
                        <= self@[id] by {
                        assert(keys@.to_set().contains(id));
                        let n = choose|n: int| 0 <= n < keys@.len() && keys@[n] == id;
                        assert(t <= self.map@[keys@[n]]);
                    }
                },
                None => {
                    assert(self@.dom() =~= Set::empty()) by {
                        assert forall|id: u128| !self@.dom().contains(id) by {
                            if self@.dom().contains(id) {
                                assert(keys@.to_set().contains(id));
                            }
                        }
                    }
                    assert(self@ =~= Map::empty());
                },
            }
        }
        best
    }
}

// ---------- laws ----------

/// There is no lowest number exactly where no blob is counted as dirty.
pub proof fn nothing_lowest_where_nothing_is_counted(m: Map<u128, u64>, low: Option<u64>)
    requires
        m.dom().finite(),
        lowest_of(m, low),
    ensures
        (low is None) == (m.len() == 0),
{
    if m.len() == 0 {
        assert(m.dom() =~= Set::<u128>::empty());
    }
}

/// The lowest number of all after a mark is the lower of the one before it and
/// the one marked: marking never raises it.
pub proof fn marking_never_raises_the_lowest(
    m: Map<u128, u64>,
    id: u128,
    txn: u64,
    before: Option<u64>,
    after: Option<u64>,
)
    requires
        lowest_of(m, before),
        lowest_of(noted(m, id, txn), after),
    ensures
        after == Some(
            match before {
                Some(t) => lower(t, txn),
                None => txn,
            },
        ),
{
    let n = noted(m, id, txn);
    assert(n.dom().contains(id));
    assert(after is Some);
    let low = after->0;
    let x = choose|x: u128| #[trigger] n.dom().contains(x) && n[x] == low;
    if let Some(t) = before {
        let y = choose|y: u128| #[trigger] m.dom().contains(y) && m[y] == t;
        assert(n.dom().contains(y));
        if x != id {
            assert(m.dom().contains(x));
        }
    }
}

/// A mark leaves the blob dirty with the lower of its number and the one marked,
/// and changes no other blob.
pub proof fn a_mark_keeps_the_lowest_number(m: Map<u128, u64>, id: u128, txn: u64, other: u128)
    ensures
        noted(m, id, txn).dom().contains(id),
        noted(m, id, txn)[id] <= txn,
        !m.dom().contains(id) ==> noted(m, id, txn)[id] == txn,
        m.dom().contains(id) ==> noted(m, id, txn)[id] <= m[id] && (noted(m, id, txn)[id] == m[id]
            || noted(m, id, txn)[id] == txn),
        other != id ==> noted(m, id, txn).dom().contains(other) == m.dom().contains(other) && (
        m.dom().contains(other) ==> noted(m, id, txn)[other] == m[other]),
{
}

/// A map that was taken in adds its blobs and no others, each with a number that
/// one of the two maps had.
pub proof fn merging_invents_nothing(a: Map<u128, u64>, b: Map<u128, u64>, id: u128)
    ensures
        merged(a, b).dom().contains(id) == (a.dom().contains(id) || b.dom().contains(id)),
        merged(a, b).dom().contains(id) ==> (a.dom().contains(id) && merged(a, b)[id] == a[id]) || (
        b.dom().contains(id) && merged(a, b)[id] == b[id]),
        a.dom().contains(id) ==> merged(a, b)[id] <= a[id],
        b.dom().contains(id) ==> merged(a, b)[id] <= b[id],
{
}

/// There is one lowest number at most, and none below it.
pub proof fn the_lowest_number_is_the_least(
    m: Map<u128, u64>,
    low: Option<u64>,
    also: Option<u64>,
    id: u128,
)
    requires
        lowest_of(m, low),
        lowest_of(m, also),
    ensures
        low == also,
        m.dom().contains(id) ==> low is Some && low->0 <= m[id],
        low matches Some(t) ==> exists|k: u128| #[trigger] m.dom().contains(k) && m[k] == t,
{
    if low is Some && also is Some {
        let x = choose|x: u128| #[trigger] m.dom().contains(x) && m[x] == low->0;
        let y = choose|y: u128| #[trigger] m.dom().contains(y) && m[y] == also->0;
        assert(m.dom().contains(x) && m.dom().contains(y));
    } else if low is Some {
        let x = choose|x: u128| #[trigger] m.dom().contains(x) && m[x] == low->0;
    } else if also is Some {
        let y = choose|y: u128| #[trigger] m.dom().contains(y) && m[y] == also->0;
    }
}

/// Noting numbers in any order leaves the same map.
pub proof fn noting_commutes(m: Map<u128, u64>, id: u128, a: u64, b: u64)
    ensures
        noted(noted(m, id, a), id, b) == noted(noted(m, id, b), id, a),
        noted(noted(m, id, a), id, a) == noted(m, id, a),
{
    assert(noted(noted(m, id, a), id, b) =~= noted(noted(m, id, b), id, a));
    assert(noted(noted(m, id, a), id, a) =~= noted(m, id, a));
}

/// Taking a drained map back in loses no number: every blob keeps the lower of
/// the one it was drained with and the one it got since.
pub proof fn restoring_keeps_the_lowest(since: Map<u128, u64>, drained: Map<u128, u64>, id: u128)
    requires
        drained.dom().contains(id),
    ensures
        merged(since, drained).dom().contains(id),
        merged(since, drained)[id] <= drained[id],
        since.dom().contains(id) ==> merged(since, drained)[id] <= since[id],
{
}

/// Draining and restoring with nothing in between changes nothing.
pub proof fn restore_undoes_drain(m: Map<u128, u64>)
    ensures
        merged(Map::empty(), m) == m,
{
    assert(merged(Map::empty(), m) =~= m);
}

} // verus!
