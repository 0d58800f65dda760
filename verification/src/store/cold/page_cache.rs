//! Bounded cache for cold-read 4 KiB pages.
//!
//! Navigation pages are admitted at once because they are shared by many keys
//! of the same blob. Leaf pages are admitted on their second touch: a one-shot
//! read leaves only a bounded ghost entry, while a repeated cold hit can reuse
//! the leaf page without pinning the full blob.
use vstd::prelude::*;
use vstd::slice::slice_to_vec;

use crate::layout::{guid_key, BlobGuid};
use crate::store::cold::aged::{AgedMap, AgedTable, PageKey};

verus! {

/// Number of shards.
pub const SHARDS: usize = 16;

/// Bytes of one page.
pub const PAGE_BYTES: usize = 4096;

/// Smallest byte budget of an enabled shard.
pub const MIN_SHARD_BUDGET: usize = 65536;

/// Smallest number of ghosts a shard remembers.
pub const MIN_GHOSTS: usize = 64;

/// What one shard holds.
pub struct PageShard {
    /// Resident pages, with the tick of their last use.
    pub pages: AgedMap<Seq<u8>>,
    /// Leaf pages seen once, with the tick of that touch.
    pub ghosts: AgedMap<()>,
}

/// Everything a [`ColdPageCache`] remembers.
pub struct ColdState {
    pub shards: Seq<PageShard>,
    /// Byte budget of a shard; zero disables admission.
    pub budget: nat,
    /// The next tick.
    pub clock: u64,
}

/// The key of a page.
pub open spec fn page_key(guid: BlobGuid, page: u16) -> PageKey {
    PageKey { blob: crate::layout::guid_id(guid), page }
}

/// The shard of a guid.
pub open spec fn shard_of(guid: BlobGuid) -> int {
    guid[8] as int % SHARDS as int
}

/// How many pages a shard of this budget can hold.
pub open spec fn page_capacity(budget: nat) -> nat {
    budget / PAGE_BYTES as nat
}

/// How many ghosts a shard of this budget remembers.
pub open spec fn ghost_capacity(budget: nat) -> nat {
    let twice = page_capacity(budget) * 2;
    if twice < MIN_GHOSTS {
        MIN_GHOSTS as nat
    } else {
        twice
    }
}

/// The next tick of a wrapping clock.
pub open spec fn ticked(clock: u64) -> u64 {
    if clock == u64::MAX {
        0
    } else {
        (clock + 1) as u64
    }
}

/// `t` is `s` with the page `bytes` admitted: the oldest pages make room.
pub open spec fn admitted(
    s: PageShard,
    t: PageShard,
    budget: nat,
    key: PageKey,
    tick: u64,
    bytes: Seq<u8>,
) -> bool {
    &&& t.ghosts == s.ghosts.remove(key)
    &&& t.pages.dom().contains(key)
    &&& t.pages[key] == (tick, bytes)
    &&& crate::store::cold::aged::most_recent(
        s.pages,
        t.pages.remove(key),
        (page_capacity(budget) - 1) as nat,
    )
}

/// `t` is `s` with `key` remembered as seen once: the oldest ghosts make room.
pub open spec fn remembered(
    s: PageShard,
    t: PageShard,
    budget: nat,
    key: PageKey,
    tick: u64,
) -> bool {
    &&& t.pages == s.pages
    &&& crate::store::cold::aged::most_recent(
        s.ghosts.insert(key, (tick, ())),
        t.ghosts,
        ghost_capacity(budget),
    )
}

/// A cache that holds nothing and splits `total` bytes evenly.
pub open spec fn fresh(total: usize) -> ColdState {
    ColdState {
        shards: Seq::new(
            SHARDS as nat,
            |i: int| PageShard { pages: Map::empty(), ghosts: Map::empty() },
        ),
        budget: if total == 0 {
            0
        } else if total / SHARDS < MIN_SHARD_BUDGET {
            MIN_SHARD_BUDGET as nat
        } else {
            (total / SHARDS) as nat
        },
        clock: 1,
    }
}

/// What a fill gives on a cache in state `s`: whether it hit, what became of the
/// buffer, and the state `t`.
pub open spec fn fill_gives(
    s: ColdState,
    t: ColdState,
    guid: BlobGuid,
    page: u16,
    before: Seq<u8>,
    after: Seq<u8>,
    hit: bool,
) -> bool {
    let i = shard_of(guid);
    let key = page_key(guid, page);
    let shard = s.shards[i];
    &&& hit == shard.pages.dom().contains(key)
    &&& hit ==> {
        &&& after == shard.pages[key].1
        &&& t == (ColdState {
            shards: s.shards.update(
                i,
                PageShard {
                    pages: shard.pages.insert(key, (s.clock, shard.pages[key].1)),
                    ..shard
                },
            ),
            clock: ticked(s.clock),
            ..s
        })
    }
    &&& !hit ==> after == before && t == s
}

/// What a put leaves of the state `s`.
pub open spec fn put_leaves(
    s: ColdState,
    t: ColdState,
    guid: BlobGuid,
    page: u16,
    src: Seq<u8>,
) -> bool {
    let i = shard_of(guid);
    let key = page_key(guid, page);
    let shard = s.shards[i];
    if s.budget == 0 || shard.pages.dom().contains(key) {
        t == s
    } else {
        &&& t.budget == s.budget
        &&& t.clock == ticked(s.clock)
        &&& t.shards == s.shards.update(i, t.shards[i])
        &&& admitted(shard, t.shards[i], s.budget, key, s.clock, src)
    }
}

/// What a put that waits for the second touch leaves of the state `s`.
pub open spec fn touch_leaves(
    s: ColdState,
    t: ColdState,
    guid: BlobGuid,
    page: u16,
    src: Seq<u8>,
) -> bool {
    let i = shard_of(guid);
    let key = page_key(guid, page);
    let shard = s.shards[i];
    if s.budget == 0 || shard.pages.dom().contains(key) {
        t == s
    } else {
        &&& t.budget == s.budget
        &&& t.clock == ticked(s.clock)
        &&& t.shards == s.shards.update(i, t.shards[i])
        &&& if shard.ghosts.dom().contains(key) {
            admitted(shard, t.shards[i], s.budget, key, s.clock, src)
        } else {
            remembered(shard, t.shards[i], s.budget, key, s.clock)
        }
    }
}

/// The state `s` once a blob is invalidated.
pub open spec fn invalidated(s: ColdState, guid: BlobGuid) -> ColdState {
    ColdState {
        shards: s.shards.update(
            shard_of(guid),
            PageShard {
                pages: crate::store::cold::aged::without_blob(
                    s.shards[shard_of(guid)].pages,
                    crate::layout::guid_id(guid),
                ),
                ghosts: crate::store::cold::aged::without_blob(
                    s.shards[shard_of(guid)].ghosts,
                    crate::layout::guid_id(guid),
                ),
            },
        ),
        ..s
    }
}

struct Shard {
    pages: AgedTable<Vec<u8>>,
    ghosts: AgedTable<()>,
    bytes: usize,
}

impl Shard {
    closed spec fn model(&self) -> PageShard {
        PageShard { pages: self.pages@, ghosts: self.ghosts@ }
    }

    closed spec fn wf(&self, budget: nat) -> bool {
        &&& self.pages.wf()
        &&& self.ghosts.wf()
        &&& self.bytes == PAGE_BYTES * self.pages@.len()
        &&& self.bytes <= budget
        &&& self.ghosts@.len() <= ghost_capacity(budget)
        &&& forall|k: PageKey| #[trigger]
            self.pages@.dom().contains(k) ==> self.pages@[k].1.len() == PAGE_BYTES
    }

    /// Admit a page that is not resident, with the oldest pages making room.
    fn insert_page(&mut self, budget: usize, key: PageKey, src: &[u8], tick: u64)
        requires
            old(self).wf(budget as nat),
            budget >= PAGE_BYTES,
            src@.len() == PAGE_BYTES,
            !old(self).pages@.dom().contains(key),
            !old(self).ghosts@.dom().contains(key),
        ensures
            final(self).wf(budget as nat),
            admitted(old(self).model(), final(self).model(), budget as nat, key, tick, src@),
    {
        let capacity: usize = budget / PAGE_BYTES;
        self.pages.trim(capacity - 1);
        let ghost kept = self.pages@;
        self.pages.push(key, tick, slice_to_vec(src));
        proof {
            self.pages.lemma_wf();
            assert(self.pages@.remove(key) =~= kept);
            assert(self.ghosts@.remove(key) =~= self.ghosts@);
            assert(self.pages@.len() == kept.len() + 1) by {
                assert(kept.dom() =~= self.pages@.dom().remove(key));
            }
            assert(self.pages@.len() <= capacity);
        }
        let left: usize = self.pages.len();
        assert(PAGE_BYTES * left <= budget) by (nonlinear_arith)
            requires
                PAGE_BYTES == 4096,
                left <= capacity,
                capacity == budget / PAGE_BYTES,
        ;
        self.bytes = PAGE_BYTES * left;
        assert forall|k: PageKey| #[trigger] self.pages@.dom().contains(k) implies self.pages@[k].1.len()
            == PAGE_BYTES by {
            if k != key {
                assert(kept.dom().contains(k));
                assert(old(self).pages@.dom().contains(k));
            }
        }
    }
}

/// A bounded, sharded cache of cold-read pages.
pub struct ColdPageCache {
    shards: Vec<Shard>,
    shard_budget_bytes: usize,
    clock: u64,
}

impl View for ColdPageCache {
    type V = ColdState;

    closed spec fn view(&self) -> ColdState {
        ColdState {
            shards: self.shards@.map_values(|s: Shard| s.model()),
            budget: self.shard_budget_bytes as nat,
            clock: self.clock,
        }
    }
}

impl ColdPageCache {
    /// Every shard keeps to its budgets, and holds whole pages only.
    pub closed spec fn wf(&self) -> bool {
        &&& self.shards@.len() == SHARDS
        &&& self.shard_budget_bytes == 0 || self.shard_budget_bytes >= MIN_SHARD_BUDGET
        &&& forall|i: int|
            0 <= i < SHARDS ==> (#[trigger] self.shards@[i]).wf(self.shard_budget_bytes as nat)
    }

    /// What holds of every well-formed cache.
    pub proof fn lemma_wf(&self)
        requires
            self.wf(),
        ensures
            self@.shards.len() == SHARDS,
            self@.budget == 0 || self@.budget >= MIN_SHARD_BUDGET,
    {
    }

    /// An empty cache whose shards split `total_budget_bytes` evenly, with at
    /// least 64 KiB each; a budget of zero disables admission.
    pub fn new(total_budget_bytes: usize) -> (cache: Self)
        ensures
            cache.wf(),
            cache@ == fresh(total_budget_bytes),
    {
        let share: usize = total_budget_bytes / SHARDS;
        let shard_budget_bytes: usize = if total_budget_bytes == 0 {
            0
        } else if share < MIN_SHARD_BUDGET {
            MIN_SHARD_BUDGET
        } else {
            share
        };
        let mut shards: Vec<Shard> = Vec::with_capacity(SHARDS);
        let mut i: usize = 0;
        while i < SHARDS
            invariant
                i <= SHARDS,
                shards@.len() == i,
                forall|j: int|
                    0 <= j < i ==> (#[trigger] shards@[j]).wf(shard_budget_bytes as nat)
                        && shards@[j].model() == (PageShard {
                        pages: Map::empty(),
                        ghosts: Map::empty(),
                    }),
            decreases SHARDS - i,
        {
            let pages: AgedTable<Vec<u8>> = AgedTable::new();
            let ghosts: AgedTable<()> = AgedTable::new();
            shards.push(Shard { pages, ghosts, bytes: 0 });
            i += 1;
        }
        let cache = ColdPageCache { shards, shard_budget_bytes, clock: 1 };
        assert(cache@.shards =~= Seq::new(
            SHARDS as nat,
            |i: int| PageShard { pages: Map::empty(), ghosts: Map::empty() },
        ));
        cache
    }

    /// Index of the shard that holds `guid`.
    fn shard(&self, guid: &BlobGuid) -> (i: usize)
        ensures
            i == shard_of(*guid),
            i < SHARDS,
    {
        guid[8] as usize % SHARDS
    }

    fn tick(&mut self) -> (now: u64)
        ensures
            now == old(self).clock,
            final(self).clock == ticked(now),
            final(self).shards == old(self).shards,
            final(self).shard_budget_bytes == old(self).shard_budget_bytes,
    {
        let now: u64 = self.clock;
        self.clock = self.clock.wrapping_add(1);
        now
    }

    /// Copy the page into `dst` if it is resident, and make it the most recent.
    pub fn fill(&mut self, guid: BlobGuid, page: u16, dst: &mut [u8]) -> (hit: bool)
        requires
            old(self).wf(),
            old(dst)@.len() == PAGE_BYTES,
        ensures
            final(self).wf(),
            fill_gives(old(self)@, final(self)@, guid, page, old(dst)@, final(dst)@, hit),
    {
        let i: usize = self.shard(&guid);
        let key = PageKey { blob: guid_key(&guid), page };
        let ghost before = self@;
        let ghost shard = self.shards@[i as int];
        assert(before.shards[i as int] == shard.model());
        assert(shard.wf(self.shard_budget_bytes as nat));
        match self.shards[i].pages.get(key) {
            Some(bytes) => {
                let mut n: usize = 0;
                while n < PAGE_BYTES
                    invariant
                        n <= PAGE_BYTES == dst@.len() == bytes@.len(),
                        forall|j: int| 0 <= j < n ==> dst@[j] == bytes@[j],
                    decreases PAGE_BYTES - n,
                {
                    dst[n] = bytes[n];
                    n += 1;
                }
                assert(dst@ =~= bytes@);
            },
            None => {
                return false;
            },
        }
        let now: u64 = self.tick();
        self.shards[i].pages.touch(key, now);
        proof {
            let touched = self.shards@[i as int];
            assert(touched.pages@.dom() =~= shard.pages@.dom());
            assert(touched.wf(self.shard_budget_bytes as nat));
            assert(self@.shards =~= before.shards.update(i as int, touched.model()));
        }
        true
    }

    /// Admit a page at once, unless it is resident or the cache is disabled.
    pub fn put(&mut self, guid: BlobGuid, page: u16, src: &[u8])
        requires
            old(self).wf(),
            src@.len() == PAGE_BYTES,
        ensures
            final(self).wf(),
            put_leaves(old(self)@, final(self)@, guid, page, src@),
    {
        if self.shard_budget_bytes == 0 {
            return;
        }
        let i: usize = self.shard(&guid);
        let key = PageKey { blob: guid_key(&guid), page };
        let ghost before = self@;
        let ghost shard = self.shards@[i as int];
        assert(before.shards[i as int] == shard.model());
        assert(shard.wf(self.shard_budget_bytes as nat));
        if self.shards[i].pages.contains(key) {
            return;
        }
        self.shards[i].ghosts.remove(key);
        proof {
            shard.ghosts.lemma_wf();
            assert(self.shards@[i as int].ghosts@.dom() =~= shard.ghosts@.dom().remove(key));
            assert(self.shards@[i as int].wf(self.shard_budget_bytes as nat));
        }
        let budget: usize = self.shard_budget_bytes;
        let now: u64 = self.tick();
        self.shards[i].insert_page(budget, key, src, now);
        proof {
            let after = self.shards@[i as int];
            assert(self@.shards =~= before.shards.update(i as int, after.model()));
            assert(after.model().ghosts =~= shard.ghosts@.remove(key));
        }
    }

    /// Admit a page on its second touch; the first is only remembered.
    pub fn put_after_second_touch(&mut self, guid: BlobGuid, page: u16, src: &[u8])
        requires
            old(self).wf(),
            src@.len() == PAGE_BYTES,
        ensures
            final(self).wf(),
            touch_leaves(old(self)@, final(self)@, guid, page, src@),
    {
        if self.shard_budget_bytes == 0 {
            return;
        }
        let i: usize = self.shard(&guid);
        let key = PageKey { blob: guid_key(&guid), page };
        let ghost before = self@;
        let ghost shard = self.shards@[i as int];
        assert(before.shards[i as int] == shard.model());
        assert(shard.wf(self.shard_budget_bytes as nat));
        if self.shards[i].pages.contains(key) {
            return;
        }
        let budget: usize = self.shard_budget_bytes;
        let now: u64 = self.tick();
        if !self.shards[i].ghosts.remove(key) {
            proof {
                assert(shard.ghosts@.remove(key) =~= shard.ghosts@);
            }
            self.shards[i].ghosts.push(key, now, ());
            let pages: usize = budget / PAGE_BYTES;
            let capacity: usize = if pages * 2 < MIN_GHOSTS {
                MIN_GHOSTS
            } else {
                pages * 2
            };
            self.shards[i].ghosts.trim(capacity);
            proof {
                let after = self.shards@[i as int];
                assert(after.wf(budget as nat));
                assert(self@.shards =~= before.shards.update(i as int, after.model()));
            }
            return;
        }
        proof {
            shard.ghosts.lemma_wf();
            assert(self.shards@[i as int].ghosts@.dom() =~= shard.ghosts@.dom().remove(key));
            assert(self.shards@[i as int].wf(self.shard_budget_bytes as nat));
        }
        self.shards[i].insert_page(budget, key, src, now);
        proof {
            let after = self.shards@[i as int];
            assert(self@.shards =~= before.shards.update(i as int, after.model()));
            assert(after.model().ghosts =~= shard.ghosts@.remove(key));
        }
    }

    /// Forget every page and every ghost of `guid`.
    pub fn invalidate(&mut self, guid: BlobGuid)
        requires
            old(self).wf(),
        ensures
            final(self).wf(),
            final(self)@ == invalidated(old(self)@, guid),
    {
        let i: usize = self.shard(&guid);
        let blob: u128 = guid_key(&guid);
        let ghost before = self@;
        let ghost shard = self.shards@[i as int];
        assert(before.shards[i as int] == shard.model());
        assert(shard.wf(self.shard_budget_bytes as nat));
        self.shards[i].pages.drop_blob(blob);
        self.shards[i].ghosts.drop_blob(blob);
        proof {
            let after = self.shards@[i as int];
            shard.pages.lemma_wf();
            shard.ghosts.lemma_wf();
            vstd::set_lib::lemma_len_subset(after.pages@.dom(), shard.pages@.dom());
            vstd::set_lib::lemma_len_subset(after.ghosts@.dom(), shard.ghosts@.dom());
        }
        let left: usize = self.shards[i].pages.len();
        assert(PAGE_BYTES * left <= shard.bytes);
        self.shards[i].bytes = PAGE_BYTES * left;
        proof {
            let after = self.shards@[i as int];
            assert(after.wf(self.shard_budget_bytes as nat));
            assert(self@.shards =~= before.shards.update(i as int, after.model()));
        }
    }

    /// Byte budget of each shard.
    pub fn shard_budget(&self) -> (n: usize)
        ensures
            n == self@.budget,
    {
        self.shard_budget_bytes
    }

    /// Accounted bytes of shard `i`: whole pages, within the budget.
    pub fn shard_bytes(&self, i: usize) -> (n: usize)
        requires
            self.wf(),
            i < SHARDS,
        ensures
            n == PAGE_BYTES * self@.shards[i as int].pages.len(),
            n <= self@.budget,
    {
        assert(self@.shards[i as int] == self.shards@[i as int].model());
        assert(self.shards@[i as int].wf(self.shard_budget_bytes as nat));
        self.shards[i].bytes
    }
}

// ---------- laws ----------

impl ColdPageCache {
    /// No sequence of operations takes a shard over its page budget or its ghost
    /// budget.
    pub proof fn stays_bounded(&self, i: int)
        requires
            self.wf(),
            0 <= i < SHARDS,
        ensures
            PAGE_BYTES * self@.shards[i].pages.len() <= self@.budget,
            self@.shards[i].ghosts.len() <= ghost_capacity(self@.budget),
    {
        assert(self@.shards[i] == self.shards@[i].model());
        assert(self.shards@[i].wf(self.shard_budget_bytes as nat));
    }
}

/// Until the clock wraps, two touches of a leaf page in a row admit it: the
/// ghost that the first one leaves is the most recent, so the second finds it.
pub proof fn second_touch_admits(
    s: PageShard,
    t: PageShard,
    budget: nat,
    key: PageKey,
    tick: u64,
)
    requires
        remembered(s, t, budget, key, tick),
        s.ghosts.dom().finite(),
        s.ghosts.len() <= ghost_capacity(budget),
        forall|k: PageKey| #[trigger] s.ghosts.dom().contains(k) ==> s.ghosts[k].0 < tick,
    ensures
        t.ghosts.dom().contains(key),
{
    let all = s.ghosts.insert(key, (tick, ()));
    assert(all.dom().finite());
    if !t.ghosts.dom().contains(key) {
        assert(all.dom().contains(key));
        if exists|k: PageKey| t.ghosts.dom().contains(k) {
            let k = choose|k: PageKey| t.ghosts.dom().contains(k);
            assert(all[key].0 <= all[k].0);
            assert(all.dom().contains(k));
            assert(s.ghosts.dom().contains(k));
        } else {
            assert(t.ghosts.dom() =~= Set::empty());
            assert(t.ghosts.len() == 0);
            assert(all.len() >= 1) by {
                assert(all.dom().remove(key).len() + 1 == all.dom().len());
            }
        }
        assert(false);
    }
}

/// The state of every cache: its shards, and stamps that a clock which has not
/// wrapped gave out.
pub open spec fn state_ok(s: ColdState) -> bool {
    &&& s.shards.len() == SHARDS
    &&& s.budget == 0 || s.budget >= MIN_SHARD_BUDGET
    &&& forall|i: int|
        0 <= i < SHARDS ==> (#[trigger] s.shards[i]).ghosts.dom().finite() && s.shards[i].ghosts.len()
            <= ghost_capacity(s.budget) && forall|k: PageKey| #[trigger]
            s.shards[i].ghosts.dom().contains(k) ==> s.shards[i].ghosts[k].0 < s.clock
}

/// A page that is put into an enabled cache is served right after it byte for
/// byte: the bytes that were put, or those that a fill gave before the put.
pub proof fn a_put_page_is_served_unchanged(
    s: ColdState,
    t: ColdState,
    u: ColdState,
    v: ColdState,
    guid: BlobGuid,
    page: u16,
    src: Seq<u8>,
    x0: Seq<u8>,
    x1: Seq<u8>,
    y0: Seq<u8>,
    y1: Seq<u8>,
    before: bool,
    hit: bool,
)
    requires
        s.shards.len() == 16,
        s.budget > 0,
        fill_gives(s, u, guid, page, x0, x1, before),
        put_leaves(s, t, guid, page, src),
        fill_gives(t, v, guid, page, y0, y1, hit),
    ensures
        hit,
        !before ==> y1 == src,
        before ==> y1 == x1,
{
}

/// The first touch of a page does not admit it, and the second one serves the
/// bytes that came with it, byte for byte.
pub proof fn a_page_is_served_from_its_second_touch_on(
    s: ColdState,
    t: ColdState,
    u: ColdState,
    t1: ColdState,
    u1: ColdState,
    guid: BlobGuid,
    page: u16,
    first: Seq<u8>,
    second: Seq<u8>,
    x0: Seq<u8>,
    x1: Seq<u8>,
    y0: Seq<u8>,
    y1: Seq<u8>,
    early: bool,
    late: bool,
)
    requires
        state_ok(s),
        s.budget > 0,
        // The page was neither resident nor seen.
        !s.shards[guid[8] as int % 16].pages.dom().contains(page_key(guid, page)),
        !s.shards[guid[8] as int % 16].ghosts.dom().contains(page_key(guid, page)),
        touch_leaves(s, t, guid, page, first),
        fill_gives(t, t1, guid, page, x0, x1, early),
        touch_leaves(t, u, guid, page, second),
        fill_gives(u, u1, guid, page, y0, y1, late),
    ensures
        !early && x1 == x0,
        late && y1 == second,
{
    let i = shard_of(guid);
    let key = page_key(guid, page);
    second_touch_admits(s.shards[i], t.shards[i], s.budget, key, s.clock);
}

/// No put serves wrong bytes for another page: what a fill gives of it afterwards
/// is what it gave before.
pub proof fn a_put_changes_no_other_page(
    s: ColdState,
    t: ColdState,
    u: ColdState,
    v: ColdState,
    guid: BlobGuid,
    page: u16,
    src: Seq<u8>,
    other: BlobGuid,
    other_page: u16,
    x0: Seq<u8>,
    x1: Seq<u8>,
    y0: Seq<u8>,
    y1: Seq<u8>,
    before: bool,
    after: bool,
)
    requires
        s.shards.len() == 16,
        put_leaves(s, t, guid, page, src) || touch_leaves(s, t, guid, page, src),
        other != guid || other_page != page,
        fill_gives(s, u, other, other_page, x0, x1, before),
        fill_gives(t, v, other, other_page, y0, y1, after),
    ensures
        after ==> before && y1 == x1,
{
    let i = shard_of(guid);
    let (key, key2) = (page_key(guid, page), page_key(other, other_page));
    if key2.blob == key.blob {
        crate::layout::guid_id_is_injective(guid, other);
    }
    if after && t != s && shard_of(other) == i && t.shards[i].pages != s.shards[i].pages {
        assert(t.shards[i].pages.remove(key).dom().contains(key2));
    }
}

/// A put that leaves a shard within its budget drops no page.
pub proof fn nothing_is_dropped_while_there_is_room(
    s: ColdState,
    t: ColdState,
    guid: BlobGuid,
    page: u16,
    src: Seq<u8>,
    k: PageKey,
)
    requires
        s.shards.len() == 16,
        put_leaves(s, t, guid, page, src) || touch_leaves(s, t, guid, page, src),
        s.shards[guid[8] as int % 16].pages.dom().finite(),
        s.shards[guid[8] as int % 16].pages.dom().contains(k),
        4096 * (s.shards[guid[8] as int % 16].pages.len() + 1) <= s.budget,
    ensures
        t.shards[guid[8] as int % 16].pages.dom().contains(k),
{
    let i = shard_of(guid);
    let key = page_key(guid, page);
    let (p, q) = (s.shards[i].pages, t.shards[i].pages);
    assert(page_capacity(s.budget) >= p.len() + 1) by (nonlinear_arith)
        requires
            4096 * (p.len() + 1) <= s.budget,
            page_capacity(s.budget) == s.budget / 4096,
    ;
    if q != p {
        let left = q.remove(key);
        assert(left.len() == p.len());
        assert(left.dom().subset_of(p.dom()));
        if !left.dom().contains(k) {
            vstd::set_lib::lemma_len_subset(left.dom(), p.dom().remove(k));
        }
    }
}

/// A page that makes room was used no later than any that stays.
pub proof fn the_oldest_pages_make_room(
    s: ColdState,
    t: ColdState,
    guid: BlobGuid,
    page: u16,
    src: Seq<u8>,
    gone: PageKey,
    kept: PageKey,
)
    requires
        s.shards.len() == 16,
        put_leaves(s, t, guid, page, src) || touch_leaves(s, t, guid, page, src),
        s.shards[guid[8] as int % 16].pages.dom().contains(gone),
        s.shards[guid[8] as int % 16].pages.dom().contains(kept),
        !t.shards[guid[8] as int % 16].pages.dom().contains(gone),
        t.shards[guid[8] as int % 16].pages.dom().contains(kept),
    ensures
        s.shards[guid[8] as int % 16].pages[gone].0 <= s.shards[guid[8] as int % 16].pages[kept].0,
{
    let i = shard_of(guid);
    let key = page_key(guid, page);
    if t.shards[i].pages != s.shards[i].pages {
        assert(t.shards[i].pages.remove(key).dom().contains(kept));
        assert(!t.shards[i].pages.remove(key).dom().contains(gone));
    }
}

/// A fill gives its page the tick of the call and leaves every other stamp alone.
pub proof fn a_fill_makes_its_page_the_latest(
    s: ColdState,
    t: ColdState,
    guid: BlobGuid,
    page: u16,
    x0: Seq<u8>,
    x1: Seq<u8>,
    k: PageKey,
)
    requires
        s.shards.len() == 16,
        fill_gives(s, t, guid, page, x0, x1, true),
        s.shards[guid[8] as int % 16].pages.dom().contains(k),
    ensures
        t.shards[guid[8] as int % 16].pages.dom().contains(k),
        t.shards[guid[8] as int % 16].pages[k].1 == s.shards[guid[8] as int % 16].pages[k].1,
        t.shards[guid[8] as int % 16].pages[k].0 == (if k == (PageKey {
            blob: crate::layout::guid_id(guid),
            page,
        }) {
            s.clock
        } else {
            s.shards[guid[8] as int % 16].pages[k].0
        }),
{
}

/// After an invalidation no page of the blob is served, and every page of another
/// blob is served as before.
pub proof fn an_invalidation_takes_one_blob_out(
    s: ColdState,
    u: ColdState,
    v: ColdState,
    guid: BlobGuid,
    other: BlobGuid,
    page: u16,
    x0: Seq<u8>,
    x1: Seq<u8>,
    y0: Seq<u8>,
    y1: Seq<u8>,
    before: bool,
    after: bool,
)
    requires
        s.shards.len() == 16,
        fill_gives(s, u, other, page, x0, x1, before),
        fill_gives(invalidated(s, guid), v, other, page, y0, y1, after),
    ensures
        other == guid ==> !after,
        other != guid ==> after == before && (after ==> y1 == x1),
{
    if other != guid && crate::layout::guid_id(other) == crate::layout::guid_id(guid) {
        crate::layout::guid_id_is_injective(guid, other);
    }
}

/// After an invalidation no page of the blob is served.
pub proof fn invalidated_pages_miss(pages: AgedMap<Seq<u8>>, guid: BlobGuid, page: u16)
    ensures
        !crate::store::cold::aged::without_blob(
            pages,
            crate::layout::guid_id(guid),
        ).dom().contains(page_key(guid, page)),
{
}

/// A fresh cache serves nothing. One of no bytes admits nothing; any other has 16
/// shards of 64 KiB at least, which take no more than the total together otherwise.
pub proof fn a_fresh_cache_is_empty(
    total: usize,
    t: ColdState,
    guid: BlobGuid,
    page: u16,
    x0: Seq<u8>,
    x1: Seq<u8>,
    hit: bool,
)
    requires
        fill_gives(fresh(total), t, guid, page, x0, x1, hit),
    ensures
        !hit,
        x1 == x0,
        fresh(total).shards.len() == 16,
        state_ok(fresh(total)),
        total == 0 <==> fresh(total).budget == 0,
        total > 0 ==> fresh(total).budget >= 65536 && total < 16 * (fresh(total).budget + 1),
        fresh(total).budget > 65536 ==> 16 * fresh(total).budget <= total,
{
    assert(16 * (total / SHARDS) <= total < 16 * (total / SHARDS + 1)) by (nonlinear_arith)
        requires
            SHARDS == 16,
    ;
    assert forall|i: int| 0 <= i < SHARDS implies (
    #[trigger] fresh(total).shards[i]).ghosts.dom().finite() && fresh(total).shards[i].ghosts.len()
        <= ghost_capacity(fresh(total).budget) && forall|k: PageKey| #[trigger]
        fresh(total).shards[i].ghosts.dom().contains(k) ==> fresh(total).shards[i].ghosts[k].0
            < fresh(total).clock by {
        assert(fresh(total).shards[i].ghosts =~= Map::empty());
    }
}

/// A disabled cache admits nothing, however often a page is touched.
pub proof fn a_disabled_cache_admits_nothing(
    s: ColdState,
    t: ColdState,
    guid: BlobGuid,
    page: u16,
    src: Seq<u8>,
)
    requires
        s.budget == 0,
        put_leaves(s, t, guid, page, src) || touch_leaves(s, t, guid, page, src),
    ensures
        t == s,
{
}

/// A put drops no more than it must: afterwards the shard holds one page more, or
/// as many as the budget has room for.
pub proof fn a_put_drops_no_more_than_it_must(
    s: ColdState,
    t: ColdState,
    guid: BlobGuid,
    page: u16,
    src: Seq<u8>,
)
    requires
        s.shards.len() == 16,
        s.budget >= 4096,
        put_leaves(s, t, guid, page, src),
        s.shards[guid[8] as int % 16].pages.dom().finite(),
        4096 * s.shards[guid[8] as int % 16].pages.len() <= s.budget,
        !s.shards[guid[8] as int % 16].pages.dom().contains(page_key(guid, page)),
    ensures
        ({
            let n = s.shards[guid[8] as int % 16].pages.len();
            let m = t.shards[guid[8] as int % 16].pages.len();
            if 4096 * (n + 1) <= s.budget {
                m == n + 1
            } else {
                m == n
            }
        }),
{
    let i = shard_of(guid);
    let key = page_key(guid, page);
    let (p, q) = (s.shards[i].pages, t.shards[i].pages);
    let left = q.remove(key);
    let cap = page_capacity(s.budget);
    assert(cap == s.budget / 4096);
    assert(cap >= 1 && 4096 * cap <= s.budget < 4096 * (cap + 1)) by (nonlinear_arith)
        requires
            cap == s.budget / 4096,
            s.budget >= 4096,
    ;
    assert(left.dom().subset_of(p.dom()));
    vstd::set_lib::lemma_len_subset(left.dom(), p.dom());
    assert(q.dom() =~= left.dom().insert(key));
}

/// The first touch of a page forgets no other one while fewer are remembered than
/// 64, or than twice the pages that the shard holds.
pub proof fn touches_are_remembered(
    s: ColdState,
    t: ColdState,
    guid: BlobGuid,
    page: u16,
    src: Seq<u8>,
    k: PageKey,
)
    requires
        s.shards.len() == 16,
        s.budget > 0,
        touch_leaves(s, t, guid, page, src),
        k != page_key(guid, page),
        s.shards[guid[8] as int % 16].ghosts.dom().finite(),
        s.shards[guid[8] as int % 16].ghosts.dom().contains(k),
        s.shards[guid[8] as int % 16].ghosts.len() < 64 || s.shards[guid[8] as int % 16].ghosts.len()
            < 2 * (s.budget / 4096),
    ensures
        t.shards[guid[8] as int % 16].ghosts.dom().contains(k),
{
    let i = shard_of(guid);
    let key = page_key(guid, page);
    let (g, h) = (s.shards[i].ghosts, t.shards[i].ghosts);
    if h != g && !g.dom().contains(key) {
        let all = g.insert(key, (s.clock, ()));
        assert(all.len() == g.len() + 1);
        assert(h.len() == all.len());
        assert(h.dom().subset_of(all.dom()));
        if !h.dom().contains(k) {
            vstd::set_lib::lemma_len_subset(h.dom(), all.dom().remove(k));
        }
    }
}

/// Of the pages seen once those touched longest ago are forgotten first.
pub proof fn the_oldest_touches_are_forgotten(
    s: ColdState,
    t: ColdState,
    guid: BlobGuid,
    page: u16,
    src: Seq<u8>,
    gone: PageKey,
    kept: PageKey,
)
    requires
        s.shards.len() == 16,
        touch_leaves(s, t, guid, page, src),
        gone != page_key(guid, page),
        kept != page_key(guid, page),
        s.shards[guid[8] as int % 16].ghosts.dom().contains(gone),
        s.shards[guid[8] as int % 16].ghosts.dom().contains(kept),
        !t.shards[guid[8] as int % 16].ghosts.dom().contains(gone),
        t.shards[guid[8] as int % 16].ghosts.dom().contains(kept),
    ensures
        s.shards[guid[8] as int % 16].ghosts[gone].0 <= s.shards[guid[8] as int
            % 16].ghosts[kept].0,
{
    let i = shard_of(guid);
    let key = page_key(guid, page);
    let all = s.shards[i].ghosts.insert(key, (s.clock, ()));
    assert(all.dom().contains(gone));
}

/// A page that was just served outlives every other one of its shard: where it
/// makes room for a put, no other resident page is left.
pub proof fn a_served_page_outlives_the_others(
    s: ColdState,
    t: ColdState,
    u: ColdState,
    guid: BlobGuid,
    page: u16,
    x0: Seq<u8>,
    x1: Seq<u8>,
    new: BlobGuid,
    new_page: u16,
    src: Seq<u8>,
    k: PageKey,
)
    requires
        s.shards.len() == 16,
        fill_gives(s, t, guid, page, x0, x1, true),
        put_leaves(t, u, new, new_page, src),
        new[8] % 16 == guid[8] % 16,
        forall|x: PageKey| #[trigger]
            s.shards[guid[8] as int % 16].pages.dom().contains(x) ==> s.shards[guid[8] as int
                % 16].pages[x].0 < s.clock,
        !u.shards[guid[8] as int % 16].pages.dom().contains(page_key(guid, page)),
        s.shards[guid[8] as int % 16].pages.dom().contains(k),
        k != page_key(guid, page),
    ensures
        !u.shards[guid[8] as int % 16].pages.dom().contains(k),
{
    a_fill_makes_its_page_the_latest(s, t, guid, page, x0, x1, k);
    a_fill_makes_its_page_the_latest(s, t, guid, page, x0, x1, page_key(guid, page));
    if u.shards[guid[8] as int % 16].pages.dom().contains(k) {
        the_oldest_pages_make_room(t, u, new, new_page, src, page_key(guid, page), k);
    }
}

/// After an invalidation a page of the blob counts as never seen: its next touch is
/// its first one, and does not admit it.
pub proof fn an_invalidated_page_is_forgotten(
    s: ColdState,
    t: ColdState,
    u: ColdState,
    guid: BlobGuid,
    page: u16,
    src: Seq<u8>,
    x0: Seq<u8>,
    x1: Seq<u8>,
    hit: bool,
)
    requires
        s.shards.len() == 16,
        touch_leaves(invalidated(s, guid), t, guid, page, src),
        fill_gives(t, u, guid, page, x0, x1, hit),
    ensures
        !hit,
{
}

} // verus!
