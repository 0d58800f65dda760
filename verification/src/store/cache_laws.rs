//! What a buffer manager's cache does from one call to the next: which entries
//! stay, which one goes, and what a reader sees.
use vstd::prelude::*;

use crate::store::buffer_manager::{BufferState, CachedModel, Pin};

verus! {

/// A manager starts empty: nothing is cached, dirty or staged, no snapshot is
/// alive, and it keeps one blob at least.
pub proof fn a_manager_starts_empty(capacity: nat)
    ensures
        ({
            let s = crate::store::buffer_manager::started(capacity);
            &&& s.cache.len() == 0 && s.aside.len() == 0
            &&& s.dirty.dom() == Set::<u128>::empty()
            &&& s.deletes.len() == 0 && s.structural.len() == 0 && s.cow.len() == 0
            &&& s.fork_barrier == 0 && s.epoch > 0
            &&& s.capacity >= 1 && s.capacity >= capacity && (capacity > 0 ==> s.capacity
                == capacity)
        }),
{
    assert(crate::store::buffer_manager::started(capacity).dirty.dom() =~= Set::<u128>::empty());
}

/// A lookup of a cached blob changes none of its bytes and no other entry. The
/// entry becomes the last one, stamped with the tick; the others stay in order.
pub proof fn a_lookup_makes_its_entry_the_latest(s: BufferState, id: u128, i: int)
    requires
        crate::store::buffer_manager::cache_ok(s.cache),
        0 <= i < s.cache.len(),
        s.cache[i].id == id,
    ensures
        ({
            let t = crate::store::buffer_manager::looked_up(s, id);
            let n = s.cache.len() - 1;
            &&& t.cache.len() == s.cache.len()
            &&& t.cache[n].id == id
            &&& t.cache[n].blob.bytes == s.cache[i].blob.bytes
            &&& t.cache[n].blob.version == s.cache[i].blob.version
            &&& t.cache[n].blob.last_touched == s.clock
            &&& t.cache[n].pins == s.cache[i].pins
            &&& t.cache[n].serial == s.cache[i].serial
            &&& forall|j: int| 0 <= j < i ==> #[trigger] t.cache[j] == s.cache[j]
            &&& forall|j: int| i <= j < n ==> #[trigger] t.cache[j] == s.cache[j + 1]
            &&& t.dirty == s.dirty && t.aside == s.aside && t.capacity == s.capacity
            &&& s.clock < u64::MAX ==> t.clock == s.clock + 1
        }),
{
    assert(crate::store::buffer_manager::is_entry(s.cache, id, i));
    crate::store::buffer_manager::lemma_place(s.cache, id, i);
}

/// While fewer blobs are cached than the capacity, a load evicts nothing: the new
/// image comes last, and everything else stays as it was.
pub proof fn nothing_is_evicted_while_there_is_room(s: BufferState, id: u128, bytes: Seq<u8>)
    requires
        !crate::store::buffer_manager::is_cached(s.cache, id),
        s.cache.len() < s.capacity,
    ensures
        ({
            let t = crate::store::buffer_manager::loaded(s, id, bytes);
            let n = s.cache.len() as int;
            &&& t.cache.len() == n + 1
            &&& forall|j: int| 0 <= j < n ==> #[trigger] t.cache[j] == s.cache[j]
            &&& t.cache[n].id == id && t.cache[n].blob.bytes == bytes && t.cache[n].pins == 0
        }),
{
}

/// Where the cache is full, a load evicts the least recently used blob that is
/// neither pinned nor dirty, and only that one.
pub proof fn the_least_recently_used_goes(s: BufferState, id: u128, bytes: Seq<u8>, i: int)
    requires
        !crate::store::buffer_manager::is_cached(s.cache, id),
        s.cache.len() == s.capacity,
        0 <= i < s.cache.len(),
        s.cache[i].pins == 0 && !s.dirty.dom().contains(s.cache[i].id),
        forall|j: int|
            0 <= j < i ==> (#[trigger] s.cache[j]).pins > 0 || s.dirty.dom().contains(
                s.cache[j].id,
            ),
    ensures
        ({
            let t = crate::store::buffer_manager::loaded(s, id, bytes);
            let n = s.cache.len() - 1;
            &&& t.cache.len() == s.cache.len()
            &&& forall|j: int| 0 <= j < i ==> #[trigger] t.cache[j] == s.cache[j]
            &&& forall|j: int| i <= j < n ==> #[trigger] t.cache[j] == s.cache[j + 1]
            &&& t.cache[n].id == id && t.cache[n].blob.bytes == bytes
        }),
{
    let new = crate::store::buffer_manager::fresh(id, bytes, s.clock, 0, s.next_serial);
    let full = s.cache.push(new);
    crate::store::buffer_manager::lemma_idle_from(full, s.dirty, 0);
    let j = crate::store::buffer_manager::idle_from(full, s.dirty, 0);
    assert(full[i] == s.cache[i]);
    if j > i {
        assert(!crate::store::buffer_manager::idle(full[i], s.dirty));
    }
    if j < i {
        assert(full[j] == s.cache[j]);
    }
    assert(crate::store::buffer_manager::trimmed(full.remove(j), s.dirty, s.capacity)
        == full.remove(j));
}

/// Where all that is cached is pinned or dirty and the cache is full, a load keeps
/// what is cached.
pub proof fn a_busy_cache_keeps_what_it_has(s: BufferState, id: u128, bytes: Seq<u8>)
    requires
        !crate::store::buffer_manager::is_cached(s.cache, id),
        s.cache.len() >= s.capacity,
        !s.dirty.dom().contains(id),
        forall|j: int|
            0 <= j < s.cache.len() ==> (#[trigger] s.cache[j]).pins > 0 || s.dirty.dom().contains(
                s.cache[j].id,
            ),
    ensures
        crate::store::buffer_manager::loaded(s, id, bytes).cache == s.cache,
{
    let new = crate::store::buffer_manager::fresh(id, bytes, s.clock, 0, s.next_serial);
    let full = s.cache.push(new);
    let n = s.cache.len() as int;
    crate::store::buffer_manager::lemma_idle_from(full, s.dirty, 0);
    let j = crate::store::buffer_manager::idle_from(full, s.dirty, 0);
    assert(full[n] == new);
    assert(crate::store::buffer_manager::idle(full[n], s.dirty));
    if j < n {
        assert(full[j] == s.cache[j]);
    }
    if j > n {
        assert(!crate::store::buffer_manager::idle(full[n], s.dirty));
    }
    assert(full.remove(n) =~= s.cache);
    let k = crate::store::buffer_manager::idle_from(s.cache, s.dirty, 0);
    crate::store::buffer_manager::lemma_idle_from(s.cache, s.dirty, 0);
    if k < s.cache.len() {
        assert(crate::store::buffer_manager::idle(s.cache[k], s.dirty));
    }
    assert(crate::store::buffer_manager::trimmed(full.remove(n), s.dirty, s.capacity) == s.cache);
    assert(crate::store::buffer_manager::trimmed(full, s.dirty, s.capacity) == s.cache);
}

/// However many entries go, an older one that is neither pinned nor dirty goes
/// before a newer one.
pub proof fn older_entries_go_first(
    cache: Seq<CachedModel>,
    dirty: Map<u128, u64>,
    capacity: nat,
    i: int,
    j: int,
)
    requires
        crate::store::buffer_manager::cache_ok(cache),
        0 <= i < j < cache.len(),
        cache[i].pins == 0 && !dirty.dom().contains(cache[i].id),
        cache[j].pins == 0 && !dirty.dom().contains(cache[j].id),
        crate::store::buffer_manager::trimmed(cache, dirty, capacity).contains(cache[i]),
    ensures
        crate::store::buffer_manager::trimmed(cache, dirty, capacity).contains(cache[j]),
    decreases cache.len(),
{
    let k = crate::store::buffer_manager::idle_from(cache, dirty, 0);
    crate::store::buffer_manager::lemma_idle_from(cache, dirty, 0);
    if k > i {
        assert(!crate::store::buffer_manager::idle(cache[i], dirty));
    }
    if cache.len() <= capacity {
        assert(cache.contains(cache[j]));
    } else {
        let less = cache.remove(k);
        crate::store::buffer_manager::lemma_cache_remove(cache, k);
        if k == i {
            crate::store::buffer_manager::lemma_trimmed(less, dirty, capacity);
            assert(less.contains(cache[i]));
            let n = choose|n: int| 0 <= n < less.len() && less[n] == cache[i];
            assert(crate::store::buffer_manager::is_entry(less, cache[i].id, n));
        } else {
            assert(less[i - 1] == cache[i] && less[j - 1] == cache[j]);
            older_entries_go_first(less, dirty, capacity, i - 1, j - 1);
        }
    }
}

/// A cache over its capacity after a load holds nothing but pinned and dirty
/// entries.
pub proof fn only_busy_entries_exceed_the_capacity(
    s: BufferState,
    id: u128,
    bytes: Seq<u8>,
    i: int,
)
    requires
        crate::store::buffer_manager::cache_ok(s.cache),
        !crate::store::buffer_manager::is_cached(s.cache, id),
        bytes.len() == 524288,
        crate::store::buffer_manager::loaded(s, id, bytes).cache.len() > s.capacity,
        0 <= i < crate::store::buffer_manager::loaded(s, id, bytes).cache.len(),
    ensures
        ({
            let e = crate::store::buffer_manager::loaded(s, id, bytes).cache[i];
            e.pins > 0 || s.dirty.dom().contains(e.id)
        }),
{
    crate::store::buffer_manager::cache_stays_within_capacity(s, id, bytes);
}

/// A reader sees the cached image of a blob where there is one, and the stored one
/// otherwise.
pub proof fn a_reader_sees_the_cached_image(
    cache: Seq<CachedModel>,
    blobs: Map<u128, Seq<u8>>,
    id: u128,
    i: int,
)
    requires
        crate::store::buffer_manager::cache_ok(cache),
    ensures
        0 <= i < cache.len() && cache[i].id == id ==> crate::store::buffer_manager::contents(
            cache,
            blobs,
        ).dom().contains(id) && crate::store::buffer_manager::contents(cache, blobs)[id]
            == cache[i].blob.bytes,
        (forall|j: int| 0 <= j < cache.len() ==> (#[trigger] cache[j]).id != id) ==> (
        crate::store::buffer_manager::contents(cache, blobs).dom().contains(id)
            == blobs.dom().contains(id) && (blobs.dom().contains(id)
            ==> crate::store::buffer_manager::contents(cache, blobs)[id] == blobs[id])),
{
    if 0 <= i < cache.len() && cache[i].id == id {
        assert(crate::store::buffer_manager::is_entry(cache, id, i));
        crate::store::buffer_manager::lemma_place(cache, id, i);
    }
    if forall|j: int| 0 <= j < cache.len() ==> (#[trigger] cache[j]).id != id {
        if crate::store::buffer_manager::is_cached(cache, id) {
            let j = crate::store::buffer_manager::place(cache, id);
            assert(crate::store::buffer_manager::is_entry(cache, id, j));
        }
    }
}

/// A pin counts once on the entry of its blob, whose bytes are the cached ones, or
/// those that were loaded; and giving it back takes it off again.
pub proof fn a_pin_counts_until_it_is_given_back(
    s: BufferState,
    id: u128,
    bytes: Seq<u8>,
    i: int,
    pin: Pin,
)
    requires
        crate::store::buffer_manager::state_ok(s),
        0 <= i < s.cache.len(),
        s.cache[i].id == id,
        s.cache[i].pins < u64::MAX,
        pin.id() == id,
        pin.serial() == s.cache[i].serial,
    ensures
        ({
            let t = crate::store::buffer_manager::pinned(s, id, bytes);
            let n = s.cache.len() - 1;
            &&& t.cache.len() == s.cache.len()
            &&& t.cache[n].id == id
            &&& t.cache[n].pins == s.cache[i].pins + 1
            &&& t.cache[n].blob.bytes == s.cache[i].blob.bytes
            &&& crate::store::buffer_manager::unpinned(t, pin)
                == crate::store::buffer_manager::looked_up(s, id)
        }),
{
    assert(crate::store::buffer_manager::is_entry(s.cache, id, i));
    crate::store::buffer_manager::lemma_place(s.cache, id, i);
    let l = crate::store::buffer_manager::looked_up(s, id);
    let n = s.cache.len() - 1;
    a_lookup_makes_its_entry_the_latest(s, id, i);
    lemma_latest_alone(s, id, i);
    assert(crate::store::buffer_manager::is_entry(l.cache, id, n));
    lemma_only_place(l.cache, id, n);
    let t = crate::store::buffer_manager::pinned(s, id, bytes);
    assert(crate::store::buffer_manager::claims(t.cache, pin, n));
    crate::store::buffer_manager::lemma_claim_from(t.cache, pin, 0);
    let c = crate::store::buffer_manager::claim_from(t.cache, pin, 0);
    if c < n {
        assert(t.cache[c] == l.cache[c]);
        assert(l.cache[c].id != id);
    }
    if c > n {
        assert(!crate::store::buffer_manager::claims(t.cache, pin, n));
    }
    assert(crate::store::buffer_manager::unpinned(t, pin).cache =~= l.cache);
}

proof fn lemma_only_place(cache: Seq<CachedModel>, id: u128, n: int)
    requires
        crate::store::buffer_manager::is_entry(cache, id, n),
        forall|j: int| 0 <= j < cache.len() && j != n ==> (#[trigger] cache[j]).id != id,
    ensures
        crate::store::buffer_manager::is_cached(cache, id),
        crate::store::buffer_manager::place(cache, id) == n,
{
    let p = crate::store::buffer_manager::place(cache, id);
    assert(crate::store::buffer_manager::is_entry(cache, id, p));
}

proof fn lemma_latest_alone(s: BufferState, id: u128, i: int)
    requires
        crate::store::buffer_manager::cache_ok(s.cache),
        0 <= i < s.cache.len(),
        s.cache[i].id == id,
    ensures
        ({
            let t = crate::store::buffer_manager::looked_up(s, id);
            forall|j: int|
                0 <= j < t.cache.len() && j != s.cache.len() - 1 ==> (#[trigger] t.cache[j]).id
                    != id
        }),
{
    a_lookup_makes_its_entry_the_latest(s, id, i);
    let t = crate::store::buffer_manager::looked_up(s, id);
    assert forall|j: int| 0 <= j < t.cache.len() && j != s.cache.len() - 1 implies (
    #[trigger] t.cache[j]).id != id by {
        if j < i {
            assert(t.cache[j] == s.cache[j]);
        } else {
            assert(t.cache[j] == s.cache[j + 1]);
        }
    }
}

/// A pin leads to an entry of its blob and serial, or to none.
pub proof fn a_pin_leads_to_its_blob(s: BufferState, pin: Pin)
    ensures
        crate::store::buffer_manager::held(s, pin) matches Some(e) ==> e.id == pin.id() && e.serial
            == pin.serial() && (s.cache.contains(e) || s.aside.contains(e)),
        crate::store::buffer_manager::held(s, pin) is None ==> forall|j: int|
            0 <= j < s.cache.len() ==> (#[trigger] s.cache[j]).id != pin.id() || s.cache[j].serial
                != pin.serial(),
{
    crate::store::buffer_manager::lemma_claim_from(s.cache, pin, 0);
    crate::store::buffer_manager::lemma_claim_from(s.aside, pin, 0);
    if crate::store::buffer_manager::held(s, pin) is None {
        assert forall|j: int| 0 <= j < s.cache.len() implies (#[trigger] s.cache[j]).id != pin.id()
            || s.cache[j].serial != pin.serial() by {
            assert(!crate::store::buffer_manager::claims(s.cache, pin, j));
        }
    }
}

/// A commit takes the mark of its blob off where the backend took the image, and no
/// mark where it did not. It changes no image.
pub proof fn a_commit_takes_one_mark_off(s: BufferState, id: u128, ok: bool, other: u128)
    ensures
        ({
            let t = crate::store::buffer_manager::committed(s, id, ok);
            &&& ok ==> !t.dirty.dom().contains(id)
            &&& !ok ==> t.dirty == s.dirty
            &&& other != id ==> t.dirty.dom().contains(other) == s.dirty.dom().contains(other) && (
            s.dirty.dom().contains(other) ==> t.dirty[other] == s.dirty[other])
            &&& t.cache == crate::store::buffer_manager::looked_up(s, id).cache
            &&& t.aside == s.aside
        }),
{
}

/// Bytes that were written past the cache take the mark of their blob off, unless
/// another image of it is cached; nothing else changes.
pub proof fn a_write_takes_one_mark_off(
    s: BufferState,
    id: u128,
    bytes: Seq<u8>,
    i: int,
    other: u128,
)
    requires
        crate::store::buffer_manager::cache_ok(s.cache),
    ensures
        ({
            let t = crate::store::buffer_manager::wrote_through(s, id, bytes);
            &&& t.cache == s.cache && t.aside == s.aside
            &&& (forall|j: int| 0 <= j < s.cache.len() ==> (#[trigger] s.cache[j]).id != id)
                ==> !t.dirty.dom().contains(id)
            &&& 0 <= i < s.cache.len() && s.cache[i].id == id && s.cache[i].blob.bytes == bytes
                ==> !t.dirty.dom().contains(id)
            &&& 0 <= i < s.cache.len() && s.cache[i].id == id && s.cache[i].blob.bytes != bytes
                ==> t.dirty == s.dirty
            &&& other != id ==> t.dirty.dom().contains(other) == s.dirty.dom().contains(other) && (
            s.dirty.dom().contains(other) ==> t.dirty[other] == s.dirty[other])
        }),
{
    if 0 <= i < s.cache.len() && s.cache[i].id == id {
        assert(crate::store::buffer_manager::is_entry(s.cache, id, i));
        crate::store::buffer_manager::lemma_place(s.cache, id, i);
    }
    if crate::store::buffer_manager::is_cached(s.cache, id) {
        let p = crate::store::buffer_manager::place(s.cache, id);
        assert(crate::store::buffer_manager::is_entry(s.cache, id, p));
    }
}

/// A blob that was taken out is neither cached nor dirty; every other entry and
/// mark stays.
pub proof fn an_eviction_takes_one_blob_out(s: BufferState, id: u128, e: CachedModel, other: u128)
    requires
        crate::store::buffer_manager::cache_ok(s.cache),
    ensures
        ({
            let t = crate::store::buffer_manager::evicted(s, id);
            &&& forall|j: int| 0 <= j < t.cache.len() ==> (#[trigger] t.cache[j]).id != id
            &&& !t.dirty.dom().contains(id)
            &&& e.id != id ==> t.cache.contains(e) == s.cache.contains(e)
            &&& other != id ==> t.dirty.dom().contains(other) == s.dirty.dom().contains(other) && (
            s.dirty.dom().contains(other) ==> t.dirty[other] == s.dirty[other])
            &&& e.id == id && e.pins > 0 && s.cache.contains(e) ==> t.aside.contains(e)
            &&& s.aside.is_prefix_of(t.aside)
        }),
{
    let t = crate::store::buffer_manager::evicted(s, id);
    assert(s.aside.is_prefix_of(t.aside)) by {
        assert(t.aside.subrange(0, s.aside.len() as int) =~= s.aside);
    }
    if crate::store::buffer_manager::is_cached(s.cache, id) {
        let p = crate::store::buffer_manager::place(s.cache, id);
        assert(crate::store::buffer_manager::is_entry(s.cache, id, p));
        crate::store::buffer_manager::lemma_cache_remove(s.cache, p);
        assert forall|j: int| 0 <= j < t.cache.len() implies (#[trigger] t.cache[j]).id != id by {
            assert(!crate::store::buffer_manager::is_entry(t.cache, id, j));
        }
        if s.cache.contains(e) {
            let k = choose|k: int| 0 <= k < s.cache.len() && s.cache[k] == e;
            if e.id == id {
                assert(k == p);
                if e.pins > 0 {
                    assert(t.aside[s.aside.len() as int] == e);
                }
            } else {
                assert(t.cache[if k < p {
                    k
                } else {
                    k - 1
                }] == e);
            }
        }
        if t.cache.contains(e) {
            let k = choose|k: int| 0 <= k < t.cache.len() && t.cache[k] == e;
            assert(s.cache[if k < p {
                k
            } else {
                k + 1
            }] == e);
        }
    } else {
        assert forall|j: int| 0 <= j < t.cache.len() implies (#[trigger] t.cache[j]).id != id by {
            assert(!crate::store::buffer_manager::is_entry(s.cache, id, j));
        }
        if s.cache.contains(e) && e.id == id {
            let k = choose|k: int| 0 <= k < s.cache.len() && s.cache[k] == e;
            assert(crate::store::buffer_manager::is_entry(s.cache, id, k));
        }
    }
}

/// A cleared manager caches nothing and has nothing dirty; what was staged stays.
pub proof fn clearing_takes_everything_out(s: BufferState)
    ensures
        ({
            let t = crate::store::buffer_manager::cleared(s);
            &&& t.cache.len() == 0
            &&& t.dirty.dom() == Set::<u128>::empty()
            &&& t.capacity == s.capacity && t.epoch == s.epoch && t.fork_barrier == s.fork_barrier
            &&& t.deletes == s.deletes && t.structural == s.structural && t.cow == s.cow
        }),
{
    assert(crate::store::buffer_manager::cleared(s).dirty.dom() =~= Set::<u128>::empty());
}

/// A snapshot moves the epoch on: every frame so far is at or below its barrier,
/// and every frame from now on above it. Its end takes the barrier away. Neither
/// touches the cache or a mark.
pub proof fn a_snapshot_separates_epochs(s: BufferState)
    requires
        s.epoch < u64::MAX,
    ensures
        ({
            let t = crate::store::buffer_manager::snapshotted(s);
            let u = crate::store::buffer_manager::unsnapshotted(t);
            &&& t.fork_barrier == s.epoch && t.epoch > t.fork_barrier
            &&& u.fork_barrier == 0 && u.epoch == t.epoch
            &&& t.cache == s.cache && t.dirty == s.dirty && t.aside == s.aside
            &&& u.cache == s.cache && u.dirty == s.dirty && u.aside == s.aside
            &&& t.deletes == s.deletes && t.structural == s.structural && t.cow == s.cow
        }),
{
}

/// A forked frame is cached under its guid with its own image, pinned once and
/// dirty at its number, and no pinned or dirty entry of another blob goes for it.
pub proof fn a_fork_is_pinned_and_dirty(
    s: BufferState,
    id: u128,
    image: Seq<u8>,
    seq: u64,
    e: CachedModel,
    other: u128,
)
    requires
        crate::store::buffer_manager::cache_ok(s.cache),
        image.len() == 524288,
    ensures
        ({
            let t = crate::store::buffer_manager::fork_cached(s, id, image, seq);
            &&& exists|i: int|
                0 <= i < t.cache.len() && (#[trigger] t.cache[i]).id == id && t.cache[i].blob.bytes
                    == image && t.cache[i].pins == 1
            &&& t.dirty.dom().contains(id) && t.dirty[id] == seq
            &&& other != id ==> t.dirty.dom().contains(other) == s.dirty.dom().contains(other) && (
            s.dirty.dom().contains(other) ==> t.dirty[other] == s.dirty[other])
            &&& e.id != id && s.cache.contains(e) && (e.pins > 0 || s.dirty.dom().contains(e.id))
                ==> t.cache.contains(e)
        }),
{
    let t = crate::store::buffer_manager::fork_cached(s, id, image, seq);
    let less = crate::store::buffer_manager::dropped(s.cache, id);
    let new = crate::store::buffer_manager::fresh(id, image, s.clock, 1, s.next_serial);
    let full = less.push(new);
    an_eviction_takes_one_blob_out(s, id, e, other);
    if crate::store::buffer_manager::is_cached(s.cache, id) {
        let p = crate::store::buffer_manager::place(s.cache, id);
        assert(crate::store::buffer_manager::is_entry(s.cache, id, p));
        crate::store::buffer_manager::lemma_cache_remove(s.cache, p);
    }
    crate::store::buffer_manager::lemma_cache_push(less, new);
    crate::store::buffer_manager::lemma_trimmed(full, t.dirty, s.capacity);
    assert(full[less.len() as int] == new);
    assert(full.contains(new));
    assert(t.cache.contains(new));
    let i = choose|i: int| 0 <= i < t.cache.len() && t.cache[i] == new;
    assert(t.cache[i].id == id);
    if e.id != id && s.cache.contains(e) && (e.pins > 0 || s.dirty.dom().contains(e.id)) {
        assert(less.contains(e));
        let k = choose|k: int| 0 <= k < less.len() && less[k] == e;
        assert(full[k] == e);
        assert(full.contains(e));
    }
}

/// A cold entry is dropped exactly where its blob is cached, not dirty and not
/// pinned; nothing is dropped otherwise, and never another entry.
pub proof fn only_a_cold_entry_is_dropped(s: BufferState, id: u128, i: int, e: CachedModel)
    requires
        crate::store::buffer_manager::cache_ok(s.cache),
    ensures
        ({
            let t = crate::store::buffer_manager::cold_evicted(s, id);
            &&& 0 <= i < s.cache.len() && s.cache[i].id == id ==> (
            crate::store::buffer_manager::is_cold(s, id) <==> s.cache[i].pins == 0
                && !s.dirty.dom().contains(id))
            &&& (forall|j: int| 0 <= j < s.cache.len() ==> (#[trigger] s.cache[j]).id != id)
                ==> !crate::store::buffer_manager::is_cold(s, id)
            &&& !crate::store::buffer_manager::is_cold(s, id) ==> t == s
            &&& crate::store::buffer_manager::is_cold(s, id) ==> forall|j: int|
                0 <= j < t.cache.len() ==> (#[trigger] t.cache[j]).id != id
            &&& e.id != id ==> t.cache.contains(e) == s.cache.contains(e)
            &&& t.dirty == s.dirty && t.aside == s.aside
        }),
{
    an_eviction_takes_one_blob_out(s, id, e, id);
    if 0 <= i < s.cache.len() && s.cache[i].id == id {
        assert(crate::store::buffer_manager::is_entry(s.cache, id, i));
        crate::store::buffer_manager::lemma_place(s.cache, id, i);
    }
    if crate::store::buffer_manager::is_cached(s.cache, id) {
        let p = crate::store::buffer_manager::place(s.cache, id);
        assert(crate::store::buffer_manager::is_entry(s.cache, id, p));
    }
}

/// A mark leaves its blob dirty at the lower number, and changes no other mark and
/// no image.
pub proof fn a_mark_is_the_lowest_number(s: BufferState, id: u128, txn: u64, other: u128)
    ensures
        ({
            let t = crate::store::buffer_manager::marked(s, id, txn);
            &&& t.dirty.dom().contains(id) && t.dirty[id] <= txn
            &&& s.dirty.dom().contains(id) ==> t.dirty[id] <= s.dirty[id] && (t.dirty[id]
                == s.dirty[id] || t.dirty[id] == txn)
            &&& !s.dirty.dom().contains(id) ==> t.dirty[id] == txn
            &&& other != id ==> t.dirty.dom().contains(other) == s.dirty.dom().contains(other) && (
            s.dirty.dom().contains(other) ==> t.dirty[other] == s.dirty[other])
            &&& t.cache == s.cache && t.aside == s.aside
        }),
{
}

/// Marks that were taken and put back are those that were there, and so is the
/// lowest number; marks that came in between are kept beside them.
pub proof fn taken_marks_can_be_put_back(
    s: BufferState,
    id: u128,
    txn: u64,
    before: Option<u64>,
    after: Option<u64>,
)
    requires
        crate::store::dirty::lowest_of(s.dirty, before),
        crate::store::dirty::lowest_of(
            crate::store::buffer_manager::restored(
                crate::store::buffer_manager::drained(s),
                s.dirty,
            ).dirty,
            after,
        ),
    ensures
        crate::store::buffer_manager::restored(
            crate::store::buffer_manager::drained(s),
            s.dirty,
        ) == s,
        after == before,
        crate::store::buffer_manager::drained(s).dirty.dom() == Set::<u128>::empty(),
        ({
            let t = crate::store::buffer_manager::restored(
                crate::store::buffer_manager::marked(
                    crate::store::buffer_manager::drained(s),
                    id,
                    txn,
                ),
                s.dirty,
            );
            t == crate::store::buffer_manager::marked(s, id, txn)
        }),
{
    let d = crate::store::buffer_manager::drained(s);
    assert(d.dirty.dom() =~= Set::<u128>::empty());
    assert(crate::store::buffer_manager::restored(d, s.dirty).dirty =~= s.dirty);
    crate::store::dirty::the_lowest_number_is_the_least(s.dirty, before, after, id);
    let m = crate::store::buffer_manager::marked(d, id, txn);
    assert(crate::store::buffer_manager::restored(m, s.dirty).dirty
        =~= crate::store::buffer_manager::marked(s, id, txn).dirty);
}

/// A write that the backend took leaves a cached blob with the bytes that were
/// written and no mark; no other image and no other mark changes. Readers that held
/// the entry before notice.
pub proof fn a_write_reaches_the_cache(
    s: BufferState,
    id: u128,
    bytes: Seq<u8>,
    ok: bool,
    i: int,
    other: u128,
)
    requires
        crate::store::buffer_manager::cache_ok(s.cache),
    ensures
        ({
            let t = crate::store::buffer_manager::blob_written(s, id, bytes, ok);
            let n = s.cache.len() - 1;
            &&& t.cache.len() == s.cache.len()
            &&& 0 <= i < s.cache.len() && s.cache[i].id == id ==> {
                &&& t.cache[n].id == id && t.cache[n].blob.bytes == bytes
                &&& t.cache[n].blob.version != s.cache[i].blob.version
                &&& t.cache[n].pins == s.cache[i].pins
                &&& forall|j: int| 0 <= j < i ==> #[trigger] t.cache[j] == s.cache[j]
                &&& forall|j: int| i <= j < n ==> #[trigger] t.cache[j] == s.cache[j + 1]
            }
            &&& (forall|j: int| 0 <= j < s.cache.len() ==> (#[trigger] s.cache[j]).id != id)
                ==> t.cache == s.cache
            &&& ok ==> !t.dirty.dom().contains(id)
            &&& !ok ==> t.dirty == s.dirty
            &&& other != id ==> t.dirty.dom().contains(other) == s.dirty.dom().contains(other)
        }),
{
    let t = crate::store::buffer_manager::blob_written(s, id, bytes, ok);
    let l = crate::store::buffer_manager::looked_up(s, id);
    let n = s.cache.len() - 1;
    if crate::store::buffer_manager::is_cached(s.cache, id) {
        let p = crate::store::buffer_manager::place(s.cache, id);
        assert(crate::store::buffer_manager::is_entry(s.cache, id, p));
        a_lookup_makes_its_entry_the_latest(s, id, p);
        lemma_latest_alone(s, id, p);
        assert(crate::store::buffer_manager::is_entry(l.cache, id, n));
        lemma_only_place(l.cache, id, n);
    } else {
        assert(t.cache == s.cache);
    }
    if 0 <= i < s.cache.len() && s.cache[i].id == id {
        assert(crate::store::buffer_manager::is_entry(s.cache, id, i));
        crate::store::buffer_manager::lemma_place(s.cache, id, i);
        assert(t.cache[n].blob.version == crate::store::cached_blob::next_version(
            s.cache[i].blob.version,
        ));
        assert forall|j: int| 0 <= j < i implies #[trigger] t.cache[j] == s.cache[j] by {
            assert(t.cache[j] == l.cache[j]);
        }
        assert forall|j: int| i <= j < n implies #[trigger] t.cache[j] == s.cache[j + 1] by {
            assert(t.cache[j] == l.cache[j]);
        }
    }
}

/// A pin of a blob that was not cached leaves it cached, pinned once, with the bytes
/// that were loaded.
pub proof fn a_pin_loads_its_blob(s: BufferState, id: u128, bytes: Seq<u8>)
    requires
        crate::store::buffer_manager::cache_ok(s.cache),
        !crate::store::buffer_manager::is_cached(s.cache, id),
        bytes.len() == 524288,
    ensures
        ({
            let t = crate::store::buffer_manager::pinned(s, id, bytes);
            exists|i: int|
                0 <= i < t.cache.len() && (#[trigger] t.cache[i]).id == id && t.cache[i].blob.bytes
                    == bytes && t.cache[i].pins == 1
        }),
{
    let t = crate::store::buffer_manager::pinned(s, id, bytes);
    let l = crate::store::buffer_manager::loaded(s, id, bytes);
    let new = crate::store::buffer_manager::fresh(id, bytes, s.clock, 0, s.next_serial);
    let full = s.cache.push(new);
    crate::store::buffer_manager::lemma_cache_push(s.cache, new);
    crate::store::buffer_manager::lemma_trimmed(full, s.dirty, s.capacity);
    if crate::store::buffer_manager::is_cached(l.cache, id) {
        let p = crate::store::buffer_manager::place(l.cache, id);
        assert(crate::store::buffer_manager::is_entry(l.cache, id, p));
        assert(l.cache.contains(l.cache[p]));
        assert(full.contains(l.cache[p]));
        let k = choose|k: int| 0 <= k < full.len() && full[k] == l.cache[p];
        if k < s.cache.len() {
            assert(crate::store::buffer_manager::is_entry(s.cache, id, k));
        }
        assert(l.cache[p] == new);
        let u = crate::store::buffer_manager::looked_up(l, id);
        let n = l.cache.len() - 1;
        a_lookup_makes_its_entry_the_latest(l, id, p);
        lemma_latest_alone(l, id, p);
        assert(crate::store::buffer_manager::is_entry(u.cache, id, n));
        lemma_only_place(u.cache, id, n);
        assert(t.cache[n].id == id);
    } else {
        assert(t.cache[l.cache.len() as int].id == id);
    }
}

/// Giving a pin back takes one off the entry it leads to. An entry that left the
/// cache stays aside until its last pin is given back, and then goes; one in the
/// cache stays.
pub proof fn the_last_pin_lets_an_entry_go(s: BufferState, pin: Pin, e: CachedModel)
    requires
        crate::store::buffer_manager::held(s, pin) == Some(e),
        e.pins > 0,
    ensures
        ({
            let t = crate::store::buffer_manager::unpinned(s, pin);
            let less = CachedModel { pins: (e.pins - 1) as u64, ..e };
            &&& s.cache.len() == t.cache.len()
            &&& t.dirty == s.dirty
            &&& t.cache == s.cache ==> (e.pins == 1 ==> t.aside.len() == s.aside.len() - 1) && (
            e.pins > 1 ==> t.aside.len() == s.aside.len() && t.aside.contains(less))
            &&& t.cache != s.cache ==> t.cache.contains(less) && t.aside == s.aside
        }),
{
    crate::store::buffer_manager::lemma_claim_from(s.cache, pin, 0);
    crate::store::buffer_manager::lemma_claim_from(s.aside, pin, 0);
    let i = crate::store::buffer_manager::claim_from(s.cache, pin, 0);
    let j = crate::store::buffer_manager::claim_from(s.aside, pin, 0);
    let t = crate::store::buffer_manager::unpinned(s, pin);
    let less = CachedModel { pins: (e.pins - 1) as u64, ..e };
    if i < s.cache.len() {
        assert(t.cache[i] == less);
        assert(s.cache[i] == e);
    } else if e.pins > 1 {
        assert(t.aside[j] == less);
    }
}

/// An edit under a pin changes the image of that entry and nothing else.
pub proof fn an_edit_changes_one_image(
    cache: Seq<CachedModel>,
    i: int,
    blob: crate::store::cached_blob::BlobState,
    j: int,
)
    requires
        0 <= i < cache.len(),
        0 <= j < cache.len(),
    ensures
        ({
            let t = crate::store::buffer_manager::with_blob(cache, i, blob);
            &&& t.len() == cache.len()
            &&& t[i].blob == blob && t[i].id == cache[i].id && t[i].pins == cache[i].pins
            &&& t[i].serial == cache[i].serial
            &&& j != i ==> t[j] == cache[j]
        }),
{
}

} // verus!
