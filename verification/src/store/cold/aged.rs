//! A small table of page keys whose entries carry an age stamp, from which the
//! oldest entries can be trimmed.
use vstd::prelude::*;

verus! {

/// One page of one blob.
#[derive(Debug, Clone, Copy, PartialEq, Eq, Structural)]
pub struct PageKey {
    /// Map key of the blob's guid.
    pub blob: u128,
    pub page: u16,
}

/// What a table holds: per key, the stamp and the value.
pub type AgedMap<T> = Map<PageKey, (u64, T)>;

/// `after` is what is left of `before` when all but the `keep` most recently
/// stamped entries are dropped.
pub open spec fn most_recent<T>(before: AgedMap<T>, after: AgedMap<T>, keep: nat) -> bool {
    &&& after.submap_of(before)
    &&& after.len() == (if before.len() < keep {
        before.len()
    } else {
        keep
    })
    &&& forall|gone: PageKey, kept: PageKey|
        #![trigger before.dom().contains(gone), after.dom().contains(kept)]
        before.dom().contains(gone) && !after.dom().contains(gone) && after.dom().contains(kept)
            ==> before[gone].0 <= before[kept].0
}

/// `entries` without the pages of `blob`.
pub open spec fn without_blob<T>(entries: AgedMap<T>, blob: u128) -> AgedMap<T> {
    Map::new(
        |k: PageKey| entries.dom().contains(k) && k.blob != blob,
        |k: PageKey| entries[k],
    )
}

struct Aged<V> {
    key: PageKey,
    tick: u64,
    value: V,
}

spec fn distinct<V>(items: Seq<Aged<V>>) -> bool {
    forall|i: int, j: int|
        #![trigger items[i], items[j]]
        0 <= i < j < items.len() ==> items[i].key != items[j].key
}

spec fn holds<V>(items: Seq<Aged<V>>, k: PageKey) -> bool {
    exists|i: int| 0 <= i < items.len() && (#[trigger] items[i]).key == k
}

spec fn place<V>(items: Seq<Aged<V>>, k: PageKey) -> int {
    choose|i: int| 0 <= i < items.len() && (#[trigger] items[i]).key == k
}

spec fn table<V: View>(items: Seq<Aged<V>>) -> AgedMap<V::V> {
    Map::new(
        |k: PageKey| holds(items, k),
        |k: PageKey| (items[place(items, k)].tick, items[place(items, k)].value@),
    )
}

proof fn lemma_table_at<V: View>(items: Seq<Aged<V>>, i: int)
    requires
        distinct(items),
        0 <= i < items.len(),
    ensures
        table(items).dom().contains(items[i].key),
        table(items)[items[i].key] == (items[i].tick, items[i].value@),
        place(items, items[i].key) == i,
{
    assert(holds(items, items[i].key));
    let p = place(items, items[i].key);
    assert(0 <= p < items.len() && items[p].key == items[i].key);
}

proof fn lemma_table_push<V: View>(items: Seq<Aged<V>>, x: Aged<V>)
    requires
        distinct(items),
        !table(items).dom().contains(x.key),
    ensures
        distinct(items.push(x)),
        table(items.push(x)) == table(items).insert(x.key, (x.tick, x.value@)),
{
    let more = items.push(x);
    assert forall|i: int, j: int|
        #![trigger more[i], more[j]]
        0 <= i < j < more.len() implies more[i].key != more[j].key by {
        if j == items.len() {
            assert(items[i].key != x.key) by {
                if items[i].key == x.key {
                    assert(holds(items, x.key));
                }
            }
        }
    }
    assert forall|k: PageKey| #![auto]
        table(more).dom().contains(k) <==> table(items).insert(
            x.key,
            (x.tick, x.value@),
        ).dom().contains(k) by {
        if k == x.key {
            assert(more[items.len() as int].key == k);
        } else if holds(items, k) {
            assert(more[place(items, k)].key == k);
        } else if holds(more, k) {
            assert(items[place(more, k)].key == k);
        }
    }
    assert forall|k: PageKey| table(more).dom().contains(k) implies #[trigger] table(more)[k]
        == table(items).insert(x.key, (x.tick, x.value@))[k] by {
        lemma_table_at(more, place(more, k));
        if k != x.key {
            lemma_table_at(items, place(more, k));
        }
    }
    assert(table(more) =~= table(items).insert(x.key, (x.tick, x.value@)));
}

proof fn lemma_table_remove<V: View>(items: Seq<Aged<V>>, n: int)
    requires
        distinct(items),
        0 <= n < items.len(),
    ensures
        distinct(items.remove(n)),
        table(items.remove(n)) == table(items).remove(items[n].key),
{
    let less = items.remove(n);
    assert(forall|i: int|
        0 <= i < less.len() ==> #[trigger] less[i] == (if i < n {
            items[i]
        } else {
            items[i + 1]
        }));
    assert(distinct(less));
    let gone = items[n].key;
    assert forall|k: PageKey| #![auto]
        table(less).dom().contains(k) <==> table(items).remove(gone).dom().contains(k) by {
        if holds(less, k) {
            let i = place(less, k);
            assert(items[if i < n { i } else { i + 1 }].key == k);
        } else if holds(items, k) && k != gone {
            let i = place(items, k);
            assert(less[if i < n { i } else { i - 1 }].key == k);
        }
    }
    assert forall|k: PageKey| table(less).dom().contains(k) implies #[trigger] table(less)[k]
        == table(items).remove(gone)[k] by {
        let i = place(less, k);
        lemma_table_at(less, i);
        lemma_table_at(items, if i < n { i } else { i + 1 });
    }
    assert(table(less) =~= table(items).remove(gone));
}

proof fn lemma_table_len<V: View>(items: Seq<Aged<V>>)
    requires
        distinct(items),
    ensures
        table(items).dom().finite(),
        table(items).len() == items.len(),
    decreases items.len(),
{
    if items.len() == 0 {
        assert(table(items).dom() =~= Set::empty());
    } else {
        let front = items.drop_last();
        let x = items.last();
        assert(distinct(front));
        lemma_table_len(front);
        assert(!holds(front, x.key)) by {
            if holds(front, x.key) {
                let i = place(front, x.key);
                assert(items[i].key == items[items.len() - 1].key);
            }
        }
        lemma_table_push(front, x);
        assert(front.push(x) =~= items);
        assert(table(items).dom() =~= table(front).dom().insert(x.key));
    }
}

proof fn lemma_table_stamp<V: View>(items: Seq<Aged<V>>, n: int, x: Aged<V>)
    requires
        distinct(items),
        0 <= n < items.len(),
        x.key == items[n].key,
    ensures
        distinct(items.update(n, x)),
        table(items.update(n, x)) == table(items).insert(x.key, (x.tick, x.value@)),
{
    let new = items.update(n, x);
    assert(forall|i: int| 0 <= i < new.len() ==> (#[trigger] new[i]).key == items[i].key);
    assert(distinct(new));
    assert forall|k: PageKey| #![auto]
        table(new).dom().contains(k) <==> table(items).insert(
            x.key,
            (x.tick, x.value@),
        ).dom().contains(k) by {
        if holds(new, k) {
            assert(items[place(new, k)].key == k);
        } else if holds(items, k) {
            assert(new[place(items, k)].key == k);
        } else if k == x.key {
            assert(items[n].key == k);
        }
    }
    assert forall|k: PageKey| table(new).dom().contains(k) implies #[trigger] table(new)[k]
        == table(items).insert(x.key, (x.tick, x.value@))[k] by {
        lemma_table_at(new, place(new, k));
        lemma_table_at(items, place(new, k));
    }
    assert(table(new) =~= table(items).insert(x.key, (x.tick, x.value@)));
}

/// A table of page keys with stamps, holding each key at most once.
pub struct AgedTable<V> {
    items: Vec<Aged<V>>,
}

impl<V: View> View for AgedTable<V> {
    type V = AgedMap<V::V>;

    closed spec fn view(&self) -> AgedMap<V::V> {
        table(self.items@)
    }
}

impl<V: View> AgedTable<V> {
    /// No key occurs twice.
    pub closed spec fn wf(&self) -> bool {
        distinct(self.items@)
    }

    /// A table is finite.
    pub proof fn lemma_wf(&self)
        requires
            self.wf(),
        ensures
            self@.dom().finite(),
    {
        lemma_table_len(self.items@);
    }

    /// An empty table.
    pub fn new() -> (t: Self)
        ensures
            t.wf(),
            t@ == AgedMap::<V::V>::empty(),
    {
        let t = AgedTable { items: Vec::new() };
        assert(t@ =~= AgedMap::<V::V>::empty());
        t
    }

    /// Number of entries.
    pub fn len(&self) -> (n: usize)
        requires
            self.wf(),
        ensures
            n == self@.len(),
    {
        proof {
            lemma_table_len(self.items@);
        }
        self.items.len()
    }

    fn find(&self, key: PageKey) -> (found: Option<usize>)
        ensures
            match found {
                Some(i) => i < self.items@.len() && self.items@[i as int].key == key,
                None => !self@.dom().contains(key),
            },
    {
        let mut i: usize = 0;
        while i < self.items.len()
            invariant
                i <= self.items@.len(),
                forall|j: int| 0 <= j < i ==> (#[trigger] self.items@[j]).key != key,
            decreases self.items@.len() - i,
        {
            if self.items[i].key == key {
                return Some(i);
            }
            i += 1;
        }
        None
    }

    /// Whether `key` has an entry.
    pub fn contains(&self, key: PageKey) -> (found: bool)
        ensures
            found == self@.dom().contains(key),
    {
        match self.find(key) {
            Some(i) => {
                assert(holds(self.items@, key)) by {
                    assert(self.items@[i as int].key == key);
                }
                true
            },
            None => false,
        }
    }

    /// The value of `key`.
    pub fn get(&self, key: PageKey) -> (value: Option<&V>)
        requires
            self.wf(),
        ensures
            match value {
                Some(v) => self@.dom().contains(key) && v@ == self@[key].1,
                None => !self@.dom().contains(key),
            },
    {
        match self.find(key) {
            Some(i) => {
                proof {
                    lemma_table_at(self.items@, i as int);
                }
                Some(&self.items[i].value)
            },
            None => None,
        }
    }

    /// Give the entry of `key` a new stamp.
    pub fn touch(&mut self, key: PageKey, tick: u64)
        requires
            old(self).wf(),
            old(self)@.dom().contains(key),
        ensures
            final(self).wf(),
            final(self)@ == old(self)@.insert(key, (tick, old(self)@[key].1)),
    {
        if let Some(i) = self.find(key) {
            let ghost x = Aged { tick, ..self.items@[i as int] };
            proof {
                lemma_table_at(self.items@, i as int);
                lemma_table_stamp(self.items@, i as int, x);
            }
            self.items[i].tick = tick;
            assert(self.items@ =~= old(self).items@.update(i as int, x));
        }
    }

    /// Add an entry for a key that has none.
    pub fn push(&mut self, key: PageKey, tick: u64, value: V)
        requires
            old(self).wf(),
            !old(self)@.dom().contains(key),
        ensures
            final(self).wf(),
            final(self)@ == old(self)@.insert(key, (tick, value@)),
    {
        proof {
            lemma_table_push(self.items@, Aged { key, tick, value });
        }
        self.items.push(Aged { key, tick, value });
    }

    /// Drop the entry of `key`; says whether there was one.
    pub fn remove(&mut self, key: PageKey) -> (found: bool)
        requires
            old(self).wf(),
        ensures
            final(self).wf(),
            found == old(self)@.dom().contains(key),
            final(self)@ == old(self)@.remove(key),
    {
        match self.find(key) {
            Some(i) => {
                proof {
                    lemma_table_at(self.items@, i as int);
                    lemma_table_remove(self.items@, i as int);
                }
                self.items.remove(i);
                true
            },
            None => {
                assert(self@.remove(key) =~= self@);
                false
            },
        }
    }

    /// Index of an entry with the lowest stamp.
    fn oldest(&self) -> (n: usize)
        requires
            self.items@.len() > 0,
        ensures
            n < self.items@.len(),
            forall|j: int|
                0 <= j < self.items@.len() ==> self.items@[n as int].tick <= (
                #[trigger] self.items@[j]).tick,
    {
        let mut n: usize = 0;
        let mut i: usize = 1;
        while i < self.items.len()
            invariant
                n < i <= self.items@.len(),
                forall|j: int|
                    0 <= j < i ==> self.items@[n as int].tick <= (#[trigger] self.items@[j]).tick,
            decreases self.items@.len() - i,
        {
            if self.items[i].tick < self.items[n].tick {
                n = i;
            }
            i += 1;
        }
        n
    }

    /// Drop the oldest entries until at most `keep` are left.
    pub fn trim(&mut self, keep: usize)
        requires
            old(self).wf(),
        ensures
            final(self).wf(),
            most_recent(old(self)@, final(self)@, keep as nat),
    {
        proof {
            lemma_table_len(self.items@);
        }
        while self.items.len() > keep
            invariant
                self.wf(),
                self@.submap_of(old(self)@),
                self.items@.len() <= old(self)@.len(),
                self.items@.len() < old(self)@.len() ==> self.items@.len() >= keep,
                forall|gone: PageKey, kept: PageKey|
                    #![trigger old(self)@.dom().contains(gone), self@.dom().contains(kept)]
                    old(self)@.dom().contains(gone) && !self@.dom().contains(gone)
                        && self@.dom().contains(kept) ==> old(self)@[gone].0 <= old(self)@[kept].0,
            decreases self.items@.len(),
        {
            let n: usize = self.oldest();
            let ghost before = self.items@;
            proof {
                lemma_table_at(before, n as int);
                lemma_table_remove(before, n as int);
            }
            self.items.remove(n);
            assert forall|gone: PageKey, kept: PageKey|
                #![trigger old(self)@.dom().contains(gone), self@.dom().contains(kept)]
                old(self)@.dom().contains(gone) && !self@.dom().contains(gone)
                    && self@.dom().contains(kept) implies old(self)@[gone].0 <= old(self)@[kept].0 by {
                assert(table(before).dom().contains(kept));
                if gone == before[n as int].key {
                    let j = place(before, kept);
                    assert(holds(before, kept));
                    lemma_table_at(before, j);
                    assert(before[n as int].tick <= before[j].tick);
                    assert(old(self)@.dom().contains(kept));
                    assert(old(self)@[kept] == table(before)[kept]);
                    assert(old(self)@[gone] == table(before)[gone]);
                } else {
                    assert(!table(before).dom().contains(gone));
                }
            }
        }
        proof {
            lemma_table_len(self.items@);
        }
    }

    /// Drop every page of `blob`.
    pub fn drop_blob(&mut self, blob: u128)
        requires
            old(self).wf(),
        ensures
            final(self).wf(),
            final(self)@ == without_blob(old(self)@, blob),
    {
        let mut i: usize = 0;
        while i < self.items.len()
            invariant
                self.wf(),
                i <= self.items@.len(),
                self@.submap_of(old(self)@),
                forall|k: PageKey| #[trigger]
                    old(self)@.dom().contains(k) && k.blob != blob ==> self@.dom().contains(k),
                forall|j: int| 0 <= j < i ==> (#[trigger] self.items@[j]).key.blob != blob,
            decreases self.items@.len() - i,
        {
            if self.items[i].key.blob == blob {
                proof {
                    lemma_table_remove(self.items@, i as int);
                }
                let ghost before = self.items@;
                self.items.remove(i);
                assert(forall|j: int| 0 <= j < i ==> self.items@[j] == before[j]);
            } else {
                i += 1;
            }
        }
        assert(self@ =~= without_blob(old(self)@, blob)) by {
            assert forall|k: PageKey| self@.dom().contains(k) implies k.blob != blob by {
                let j = place(self.items@, k);
                assert(holds(self.items@, k));
                assert(self.items@[j].key == k);
            }
        }
    }
}

} // verus!
