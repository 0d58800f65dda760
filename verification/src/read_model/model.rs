//! The sorted list of entries that a tree is compared with.
use vstd::prelude::*;
use vstd::slice::{slice_subrange, slice_to_vec};

use super::keys::{delimiter, key, missing_key, prefix, value};
use super::{Action, DIRS, FILES_PER_DIR};
use crate::bytes::{same_bytes, starts_with};

verus! {

// ---------- key order ----------

/// Whether `a` stands before `b` in byte order.
pub open spec fn lex_before(a: Seq<u8>, b: Seq<u8>) -> bool
    decreases a.len(),
{
    if b.len() == 0 {
        false
    } else if a.len() == 0 {
        true
    } else if a[0] != b[0] {
        a[0] < b[0]
    } else {
        lex_before(a.skip(1), b.skip(1))
    }
}

/// Of two keys one stands before the other, unless they are the same.
pub proof fn key_order_is_total(a: Seq<u8>, b: Seq<u8>)
    ensures
        a == b || lex_before(a, b) || lex_before(b, a),
        !(lex_before(a, b) && lex_before(b, a)),
        lex_before(a, b) ==> a != b,
    decreases a.len(),
{
    if a.len() > 0 && b.len() > 0 && a[0] == b[0] {
        key_order_is_total(a.skip(1), b.skip(1));
        if a.skip(1) == b.skip(1) {
            assert(a =~= seq![a[0]] + a.skip(1));
            assert(b =~= seq![b[0]] + b.skip(1));
        }
    } else if a.len() == 0 && b.len() == 0 {
        assert(a =~= b);
    }
}

/// Key order chains.
pub proof fn key_order_is_transitive(a: Seq<u8>, b: Seq<u8>, c: Seq<u8>)
    requires
        lex_before(a, b),
        lex_before(b, c),
    ensures
        lex_before(a, c),
    decreases a.len(),
{
    if a.len() > 0 && a[0] == b[0] && b[0] == c[0] {
        key_order_is_transitive(a.skip(1), b.skip(1), c.skip(1));
    }
}

/// Whether `a` stands before `b` in byte order.
fn is_before(a: &[u8], b: &[u8]) -> (yes: bool)
    ensures
        yes == lex_before(a@, b@),
{
    let mut i: usize = 0;
    assert(a@.skip(0) =~= a@);
    assert(b@.skip(0) =~= b@);
    while i < a.len() && i < b.len()
        invariant
            i <= a@.len(),
            i <= b@.len(),
            lex_before(a@, b@) == lex_before(a@.skip(i as int), b@.skip(i as int)),
        decreases a@.len() - i,
    {
        assert(a@.skip(i as int).skip(1) =~= a@.skip(i + 1));
        assert(b@.skip(i as int).skip(1) =~= b@.skip(i + 1));
        if a[i] != b[i] {
            return a[i] < b[i];
        }
        i += 1;
    }
    i < b.len()
}

// ---------- entries ----------

/// A list of keys with their values.
pub type Pairs = Seq<(Seq<u8>, Seq<u8>)>;

/// Whether the keys stand in rising order, none twice.
pub open spec fn in_key_order(pairs: Pairs) -> bool {
    forall|i: int, j: int|
        0 <= i < j < pairs.len() ==> lex_before(#[trigger] pairs[i].0, #[trigger] pairs[j].0)
}

/// Whether a key is listed.
pub open spec fn lists_key(pairs: Pairs, k: Seq<u8>) -> bool {
    exists|i: int| 0 <= i < pairs.len() && (#[trigger] pairs[i]).0 == k
}

/// Where a key is listed.
pub open spec fn place_of(pairs: Pairs, k: Seq<u8>) -> int {
    choose|i: int| 0 <= i < pairs.len() && (#[trigger] pairs[i]).0 == k
}

/// The map that a list stands for.
pub open spec fn as_map(pairs: Pairs) -> Map<Seq<u8>, Seq<u8>> {
    Map::new(|k: Seq<u8>| lists_key(pairs, k), |k: Seq<u8>| pairs[place_of(pairs, k)].1)
}

/// A listed pair is in the map.
proof fn lemma_listed(pairs: Pairs, i: int)
    requires
        in_key_order(pairs),
        0 <= i < pairs.len(),
    ensures
        as_map(pairs).dom().contains(pairs[i].0),
        as_map(pairs)[pairs[i].0] == pairs[i].1,
{
    let k = pairs[i].0;
    assert(lists_key(pairs, k));
    let j = place_of(pairs, k);
    assert(0 <= j < pairs.len() && pairs[j].0 == k);
    if i < j {
        key_order_is_total(pairs[i].0, pairs[j].0);
    } else if j < i {
        key_order_is_total(pairs[j].0, pairs[i].0);
    }
}

/// The entries that the tree has to hold, in key order.
pub struct ReadModel {
    items: Vec<(Vec<u8>, Vec<u8>)>,
}

impl View for ReadModel {
    type V = Map<Seq<u8>, Seq<u8>>;

    open spec fn view(&self) -> Map<Seq<u8>, Seq<u8>> {
        as_map(self.pairs())
    }
}

impl ReadModel {
    /// The entries, in key order.
    pub closed spec fn pairs(&self) -> Pairs {
        self.items@.map_values(|p: (Vec<u8>, Vec<u8>)| (p.0@, p.1@))
    }

    /// The keys, in key order.
    pub open spec fn keys(&self) -> Seq<Seq<u8>> {
        self.pairs().map_values(|p: (Seq<u8>, Seq<u8>)| p.0)
    }

    /// Structural invariant.
    pub open spec fn wf(&self) -> bool {
        in_key_order(self.pairs())
    }

    /// No entries.
    pub fn new() -> (m: Self)
        ensures
            m.wf(),
            m@ == Map::<Seq<u8>, Seq<u8>>::empty(),
    {
        let m = ReadModel { items: Vec::new() };
        assert(m@ =~= Map::<Seq<u8>, Seq<u8>>::empty());
        m
    }

    /// Where `key` stands or would stand.
    fn place(&self, key: &[u8]) -> (r: (usize, bool))
        requires
            self.wf(),
        ensures
            r.0 <= self.pairs().len(),
            self.pairs().len() == self.items@.len(),
            forall|j: int| 0 <= j < r.0 ==> lex_before(#[trigger] self.pairs()[j].0, key@),
            if r.1 {
                r.0 < self.pairs().len() && self.pairs()[r.0 as int].0 == key@
            } else {
                &&& forall|j: int|
                    r.0 <= j < self.pairs().len() ==> lex_before(
                        key@,
                        #[trigger] self.pairs()[j].0,
                    )
                &&& !self@.dom().contains(key@)
            },
    {
        let ghost pairs = self.pairs();
        let mut i: usize = 0;
        while i < self.items.len() && is_before(self.items[i].0.as_slice(), key)
            invariant
                i <= self.items@.len(),
                pairs == self.pairs(),
                forall|j: int| 0 <= j < i ==> lex_before(#[trigger] pairs[j].0, key@),
            decreases self.items@.len() - i,
        {
            assert(pairs[i as int].0 == self.items@[i as int].0@);
            i += 1;
        }
        if i < self.items.len() {
            assert(pairs[i as int].0 == self.items@[i as int].0@);
            if same_bytes(self.items[i].0.as_slice(), key) {
                return (i, true);
            }
        }
        proof {
            assert forall|j: int| i <= j < pairs.len() implies lex_before(
                key@,
                #[trigger] pairs[j].0,
            ) by {
                key_order_is_total(pairs[i as int].0, key@);
                if j > i {
                    key_order_is_transitive(key@, pairs[i as int].0, pairs[j].0);
                }
            }
            if lists_key(pairs, key@) {
                let j = place_of(pairs, key@);
                key_order_is_total(pairs[j].0, key@);
                key_order_is_total(key@, pairs[j].0);
            }
        }
        (i, false)
    }

    /// The value of `key`.
    pub fn get(&self, key: &[u8]) -> (r: Option<Vec<u8>>)
        requires
            self.wf(),
        ensures
            match r {
                Some(v) => self@.dom().contains(key@) && v@ == self@[key@],
                None => !self@.dom().contains(key@),
            },
    {
        let (i, found): (usize, bool) = self.place(key);
        if found {
            proof {
                lemma_listed(self.pairs(), i as int);
            }
            Some(slice_to_vec(self.items[i].1.as_slice()))
        } else {
            None
        }
    }

    /// Set the value of `key`.
    pub fn insert(&mut self, key: Vec<u8>, value: Vec<u8>)
        requires
            old(self).wf(),
        ensures
            final(self).wf(),
            final(self)@ == old(self)@.insert(key@, value@),
    {
        let ghost before = self.pairs();
        let (i, found): (usize, bool) = self.place(key.as_slice());
        let ghost pair = (key@, value@);
        if found {
            let ghost items = self.items@;
            self.items.set(i, (key, value));
            proof {
                assert(self.pairs() =~= before.update(i as int, pair));
                lemma_updated(before, i as int, pair);
            }
        } else {
            self.items.insert(i, (key, value));
            proof {
                assert(self.pairs() =~= before.insert(i as int, pair));
                lemma_inserted(before, i as int, pair);
            }
        }
    }

    /// Drop `key`. Says whether it was there.
    pub fn remove(&mut self, key: &[u8]) -> (was: bool)
        requires
            old(self).wf(),
        ensures
            final(self).wf(),
            was == old(self)@.dom().contains(key@),
            final(self)@ == old(self)@.remove(key@),
    {
        let ghost before = self.pairs();
        let (i, found): (usize, bool) = self.place(key);
        if found {
            let _old = self.items.remove(i);
            proof {
                lemma_listed(before, i as int);
                assert(self.pairs() =~= before.remove(i as int));
                lemma_removed(before, i as int);
            }
            true
        } else {
            assert(self@.remove(key@) =~= self@);
            false
        }
    }
}

proof fn lemma_updated(pairs: Pairs, i: int, pair: (Seq<u8>, Seq<u8>))
    requires
        in_key_order(pairs),
        0 <= i < pairs.len(),
        pairs[i].0 == pair.0,
    ensures
        in_key_order(pairs.update(i, pair)),
        as_map(pairs.update(i, pair)) == as_map(pairs).insert(pair.0, pair.1),
{
    let new = pairs.update(i, pair);
    assert forall|a: int, b: int| 0 <= a < b < new.len() implies lex_before(
        #[trigger] new[a].0,
        #[trigger] new[b].0,
    ) by {
        assert(new[a].0 == pairs[a].0 && new[b].0 == pairs[b].0);
    }
    assert forall|k: Seq<u8>| #[trigger] lists_key(new, k) == lists_key(pairs, k) by {
        if lists_key(pairs, k) {
            let j = place_of(pairs, k);
            assert(new[j].0 == k);
        }
        if lists_key(new, k) {
            let j = place_of(new, k);
            assert(pairs[j].0 == k);
        }
    }
    assert forall|k: Seq<u8>| lists_key(pairs, k) implies #[trigger] as_map(new)[k] == as_map(
        pairs,
    ).insert(pair.0, pair.1)[k] by {
        let j = place_of(pairs, k);
        lemma_listed(pairs, j);
        lemma_listed(new, j);
        if j < i {
            key_order_is_total(pairs[j].0, pairs[i].0);
        } else if i < j {
            key_order_is_total(pairs[i].0, pairs[j].0);
        }
    }
    lemma_listed(pairs, i);
    assert(as_map(new) =~= as_map(pairs).insert(pair.0, pair.1));
}

proof fn lemma_inserted(pairs: Pairs, i: int, pair: (Seq<u8>, Seq<u8>))
    requires
        in_key_order(pairs),
        0 <= i <= pairs.len(),
        forall|j: int| 0 <= j < i ==> lex_before(#[trigger] pairs[j].0, pair.0),
        forall|j: int| i <= j < pairs.len() ==> lex_before(pair.0, #[trigger] pairs[j].0),
    ensures
        in_key_order(pairs.insert(i, pair)),
        as_map(pairs.insert(i, pair)) == as_map(pairs).insert(pair.0, pair.1),
{
    let new = pairs.insert(i, pair);
    assert forall|a: int, b: int| 0 <= a < b < new.len() implies lex_before(
        #[trigger] new[a].0,
        #[trigger] new[b].0,
    ) by {
        let x = if a < i {
            a
        } else {
            a - 1
        };
        let y = if b < i {
            b
        } else {
            b - 1
        };
        if a != i {
            assert(new[a] == pairs[x]);
        }
        if b != i {
            assert(new[b] == pairs[y]);
        }
        if a != i && b != i {
            assert(lex_before(pairs[x].0, pairs[y].0));
        }
    }
    assert(new[i] == pair);
    assert forall|k: Seq<u8>| #[trigger] lists_key(new, k) == (k == pair.0 || lists_key(pairs, k)) by {
        if lists_key(pairs, k) {
            let j = place_of(pairs, k);
            if j < i {
                assert(new[j].0 == k);
            } else {
                assert(new[j + 1].0 == k);
            }
        }
        if lists_key(new, k) {
            let j = place_of(new, k);
            if j < i {
                assert(pairs[j].0 == k);
            } else if j > i {
                assert(pairs[j - 1].0 == k);
            }
        }
    }
    lemma_listed(new, i);
    assert forall|k: Seq<u8>| lists_key(pairs, k) implies #[trigger] as_map(new)[k] == as_map(
        pairs,
    ).insert(pair.0, pair.1)[k] by {
        let j = place_of(pairs, k);
        lemma_listed(pairs, j);
        key_order_is_total(pairs[j].0, pair.0);
        key_order_is_total(pair.0, pairs[j].0);
        if j < i {
            lemma_listed(new, j);
            assert(new[j] == pairs[j]);
        } else {
            lemma_listed(new, j + 1);
            assert(new[j + 1] == pairs[j]);
        }
    }
    assert(as_map(new) =~= as_map(pairs).insert(pair.0, pair.1));
}

proof fn lemma_removed(pairs: Pairs, i: int)
    requires
        in_key_order(pairs),
        0 <= i < pairs.len(),
    ensures
        in_key_order(pairs.remove(i)),
        as_map(pairs.remove(i)) == as_map(pairs).remove(pairs[i].0),
{
    let new = pairs.remove(i);
    assert forall|a: int, b: int| 0 <= a < b < new.len() implies lex_before(
        #[trigger] new[a].0,
        #[trigger] new[b].0,
    ) by {
        let x = if a < i {
            a
        } else {
            a + 1
        };
        let y = if b < i {
            b
        } else {
            b + 1
        };
        assert(new[a] == pairs[x] && new[b] == pairs[y]);
        assert(lex_before(pairs[x].0, pairs[y].0));
    }
    assert forall|k: Seq<u8>| #[trigger] lists_key(new, k) == (k != pairs[i].0 && lists_key(
        pairs,
        k,
    )) by {
        if k != pairs[i].0 && lists_key(pairs, k) {
            let j = place_of(pairs, k);
            if j < i {
                assert(new[j].0 == k);
            } else {
                assert(new[j - 1].0 == k);
            }
        }
        if lists_key(new, k) {
            let j = place_of(new, k);
            if j < i {
                assert(pairs[j].0 == k);
                key_order_is_total(pairs[j].0, pairs[i].0);
            } else {
                assert(pairs[j + 1].0 == k);
                key_order_is_total(pairs[i].0, pairs[j + 1].0);
            }
        }
    }
    assert forall|k: Seq<u8>| lists_key(new, k) implies #[trigger] as_map(new)[k] == as_map(
        pairs,
    ).remove(pairs[i].0)[k] by {
        let j = place_of(new, k);
        lemma_listed(new, j);
        if j < i {
            lemma_listed(pairs, j);
        } else {
            lemma_listed(pairs, j + 1);
        }
    }
    assert(as_map(new) =~= as_map(pairs).remove(pairs[i].0));
}

// ---------- listing a directory ----------

/// One line of a listing.
#[derive(Debug, Clone, PartialEq, Eq)]
pub enum ExpectedKeyEntry {
    /// A key without the delimiter behind the prefix.
    Key(Vec<u8>),
    /// What keys with the delimiter share, up to and with the first one.
    CommonPrefix(Vec<u8>),
}

/// What one line of a listing stands for.
pub enum Line {
    Key(Seq<u8>),
    CommonPrefix(Seq<u8>),
}

impl View for ExpectedKeyEntry {
    type V = Line;

    open spec fn view(&self) -> Line {
        match self {
            ExpectedKeyEntry::Key(k) => Line::Key(k@),
            ExpectedKeyEntry::CommonPrefix(p) => Line::CommonPrefix(p@),
        }
    }
}

/// Whether `d` first occurs in `k` at `i`, from `from` on.
pub open spec fn first_at(k: Seq<u8>, from: int, d: u8, i: int) -> bool {
    &&& from <= i < k.len()
    &&& k[i] == d
    &&& forall|j: int| from <= j < i ==> #[trigger] k[j] != d
}

/// The line that a key with the prefix goes to: the key itself, or what it
/// starts with up to the first delimiter behind the prefix.
pub open spec fn line_of(k: Seq<u8>, prefix_len: int, d: u8) -> Line {
    if exists|i: int| #[trigger] first_at(k, prefix_len, d, i) {
        let i = choose|i: int| #[trigger] first_at(k, prefix_len, d, i);
        Line::CommonPrefix(k.take(i + 1))
    } else {
        Line::Key(k)
    }
}

/// The listing of `keys` below `prefix`, rolled up by `d`: a line for every key
/// with the prefix, in their order, each common prefix once.
pub open spec fn listing(keys: Seq<Seq<u8>>, prefix: Seq<u8>, d: u8) -> Seq<Line>
    decreases keys.len(),
{
    if keys.len() == 0 {
        Seq::empty()
    } else {
        let before = listing(keys.drop_last(), prefix, d);
        let k = keys.last();
        let line = line_of(k, prefix.len() as int, d);
        if !prefix.is_prefix_of(k) || (line is CommonPrefix && before.contains(line)) {
            before
        } else {
            before.push(line)
        }
    }
}

/// Where `d` first occurs in `k` from `from` on.
fn position(k: &[u8], from: usize, d: u8) -> (r: Option<usize>)
    requires
        from <= k@.len(),
    ensures
        match r {
            Some(i) => first_at(k@, from as int, d, i as int) && line_of(k@, from as int, d)
                == Line::CommonPrefix(k@.take(i + 1)),
            None => line_of(k@, from as int, d) == Line::Key(k@),
        },
{
    let mut i: usize = from;
    while i < k.len()
        invariant
            from <= i <= k@.len(),
            forall|j: int| from <= j < i ==> #[trigger] k@[j] != d,
        decreases k@.len() - i,
    {
        if k[i] == d {
            proof {
                assert(first_at(k@, from as int, d, i as int));
                let c = choose|c: int| #[trigger] first_at(k@, from as int, d, c);
                assert(c == i);
            }
            return Some(i);
        }
        i += 1;
    }
    proof {
        if exists|c: int| #[trigger] first_at(k@, from as int, d, c) {
            let c = choose|c: int| #[trigger] first_at(k@, from as int, d, c);
            assert(k@[c] != d);
        }
    }
    None
}

/// The lines of a listing.
pub open spec fn lines_of(entries: Seq<ExpectedKeyEntry>) -> Seq<Line> {
    entries.map_values(|e: ExpectedKeyEntry| e@)
}

/// Whether a common prefix is among `entries`.
fn emitted(entries: &[ExpectedKeyEntry], common: &[u8]) -> (yes: bool)
    ensures
        yes == lines_of(entries@).contains(Line::CommonPrefix(common@)),
{
    let ghost lines = lines_of(entries@);
    let mut i: usize = 0;
    while i < entries.len()
        invariant
            i <= entries@.len(),
            lines == lines_of(entries@),
            forall|j: int| 0 <= j < i ==> #[trigger] lines[j] != Line::CommonPrefix(common@),
        decreases entries@.len() - i,
    {
        match &entries[i] {
            ExpectedKeyEntry::CommonPrefix(p) => {
                if same_bytes(p.as_slice(), common) {
                    assert(lines[i as int] == Line::CommonPrefix(common@));
                    return true;
                }
            },
            ExpectedKeyEntry::Key(_) => {},
        }
        i += 1;
    }
    false
}

impl ReadModel {
    /// What listing a directory, rolled up by `d`, has to give.
    pub fn expected_key_entries(&self, dir: u8, d: u8) -> (expected: Vec<ExpectedKeyEntry>)
        requires
            self.wf(),
        ensures
            lines_of(expected@) == listing(
                self.keys(),
                crate::read_model::keys::prefix_of(dir),
                d,
            ),
    {
        let start: Vec<u8> = prefix(dir);
        let ghost keys = self.keys();
        let mut expected: Vec<ExpectedKeyEntry> = Vec::new();
        assert(lines_of(expected@) =~= listing(keys.take(0), start@, d));
        let mut i: usize = 0;
        while i < self.items.len()
            invariant
                i <= self.items@.len(),
                keys == self.keys(),
                keys.len() == self.items@.len(),
                lines_of(expected@) == listing(keys.take(i as int), start@, d),
            decreases self.items@.len() - i,
        {
            let k: &Vec<u8> = &self.items[i].0;
            proof {
                assert(keys[i as int] == k@);
                assert(keys.take(i + 1).drop_last() =~= keys.take(i as int));
                assert(keys.take(i + 1).last() == k@);
            }
            let ghost before = lines_of(expected@);
            if starts_with(k.as_slice(), start.as_slice()) {
                match position(k.as_slice(), start.len(), d) {
                    Some(pos) => {
                        assert(pos < k.len());
                        let common: &[u8] = slice_subrange(k.as_slice(), 0, pos + 1);
                        assert(common@ =~= k@.take(pos + 1));
                        if !emitted(expected.as_slice(), common) {
                            expected.push(ExpectedKeyEntry::CommonPrefix(slice_to_vec(common)));
                            assert(lines_of(expected@) =~= before.push(
                                Line::CommonPrefix(common@),
                            ));
                        }
                    },
                    None => {
                        expected.push(ExpectedKeyEntry::Key(slice_to_vec(k.as_slice())));
                        assert(lines_of(expected@) =~= before.push(Line::Key(k@)));
                    },
                }
            }
            i += 1;
        }
        assert(keys.take(i as int) =~= keys);
        expected
    }

    /// Whether no key stands below a directory.
    pub fn is_prefix_empty(&self, dir: u8) -> (empty: bool)
        requires
            self.wf(),
        ensures
            empty == !(exists|k: Seq<u8>| #[trigger]
                self@.dom().contains(k) && crate::read_model::keys::prefix_of(dir).is_prefix_of(k)),
    {
        let start: Vec<u8> = prefix(dir);
        let ghost pairs = self.pairs();
        let mut i: usize = 0;
        while i < self.items.len()
            invariant
                i <= self.items@.len(),
                pairs == self.pairs(),
                self.wf(),
                start@ == crate::read_model::keys::prefix_of(dir),
                forall|j: int| 0 <= j < i ==> !start@.is_prefix_of(#[trigger] pairs[j].0),
            decreases self.items@.len() - i,
        {
            assert(pairs[i as int].0 == self.items@[i as int].0@);
            if starts_with(self.items[i].0.as_slice(), start.as_slice()) {
                proof {
                    lemma_listed(pairs, i as int);
                    assert(self@.dom().contains(pairs[i as int].0));
                }
                return false;
            }
            i += 1;
        }
        proof {
            if exists|k: Seq<u8>| #[trigger]
                self@.dom().contains(k) && start@.is_prefix_of(k) {
                let k = choose|k: Seq<u8>| #[trigger]
                    self@.dom().contains(k) && start@.is_prefix_of(k);
                assert(pairs[place_of(pairs, k)].0 == k);
            }
        }
        true
    }
}

// ---------- playing a run ----------

/// The first `n` files, directory by directory, with their first revision.
pub open spec fn loaded(n: nat) -> Map<Seq<u8>, Seq<u8>>
    decreases n,
{
    if n == 0 {
        Map::empty()
    } else {
        let dir = ((n - 1) / 256) as u8;
        let file = ((n - 1) % 256) as u16;
        loaded((n - 1) as nat).insert(
            crate::read_model::keys::key_of(dir, file),
            crate::read_model::keys::value_of(dir, file, 0),
        )
    }
}

/// What a tree has to answer to an action.
pub enum Expected {
    /// The value of a key.
    Value(Option<Vec<u8>>),
    /// Whether a directory is empty.
    PrefixEmpty(bool),
    /// The listing of a directory.
    Entries(Vec<ExpectedKeyEntry>),
    /// Whether the key was there to delete.
    Removed(bool),
    /// The put is done.
    Stored,
    /// Every entry is there after reopening.
    Kept,
}

/// The entries after an action.
pub open spec fn played(m: Map<Seq<u8>, Seq<u8>>, action: Action) -> Map<Seq<u8>, Seq<u8>> {
    match action {
        Action::Delete { dir, file } => m.remove(crate::read_model::keys::key_of(dir, file)),
        Action::Put { dir, file, rev } => m.insert(
            crate::read_model::keys::key_of(dir, file),
            crate::read_model::keys::value_of(dir, file, rev),
        ),
        _ => m,
    }
}

/// Whether `expected` is the answer to an action where the entries are `m` and the
/// keys, in order, are `keys`.
pub open spec fn answers(
    m: Map<Seq<u8>, Seq<u8>>,
    keys: Seq<Seq<u8>>,
    action: Action,
    expected: Expected,
) -> bool {
    match action {
        Action::Get { dir, file } => {
            let k = crate::read_model::keys::key_of(dir, file);
            expected matches Expected::Value(v) && match v {
                Some(b) => m.dom().contains(k) && b@ == m[k],
                None => !m.dom().contains(k),
            }
        },
        Action::GetMissing { dir, file } => {
            let k = crate::read_model::keys::missing_key_of(dir, file);
            expected matches Expected::Value(v) && match v {
                Some(b) => m.dom().contains(k) && b@ == m[k],
                None => !m.dom().contains(k),
            }
        },
        Action::PrefixEmpty { dir } => {
            expected matches Expected::PrefixEmpty(empty) && empty == !(exists|k: Seq<u8>|
             #[trigger]
                m.dom().contains(k) && crate::read_model::keys::prefix_of(dir).is_prefix_of(k))
        },
        Action::ScanDelimiter { dir, delimiter } => {
            expected matches Expected::Entries(entries) && lines_of(entries@) == listing(
                keys,
                crate::read_model::keys::prefix_of(dir),
                crate::read_model::keys::delimiter_byte(delimiter),
            )
        },
        Action::Delete { dir, file } => {
            expected matches Expected::Removed(was) && was == m.dom().contains(
                crate::read_model::keys::key_of(dir, file),
            )
        },
        Action::Put { dir, file, rev } => expected is Stored,
        Action::CheckpointReopen => expected is Kept,
        Action::Reopen => expected is Kept,
    }
}

impl ReadModel {
    /// The entries that every run starts with.
    pub fn preload() -> (m: Self)
        ensures
            m.wf(),
            m@ == loaded(2048),
    {
        let mut m = ReadModel::new();
        let mut n: u16 = 0;
        while n < DIRS as u16 * FILES_PER_DIR
            invariant
                n <= 2048,
                m.wf(),
                m@ == loaded(n as nat),
            decreases 2048 - n,
        {
            let dir: u8 = (n / FILES_PER_DIR) as u8;
            let file: u16 = n % FILES_PER_DIR;
            m.insert(key(dir, file), value(dir, file, 0));
            n += 1;
        }
        m
    }

    /// Play one action: what the tree has to answer to it.
    pub fn apply(&mut self, action: Action) -> (expected: Expected)
        requires
            old(self).wf(),
            action matches Action::GetMissing { dir, file } ==> dir < DIRS ==> file + FILES_PER_DIR
                <= u16::MAX,
        ensures
            final(self).wf(),
            final(self)@ == played(old(self)@, action),
            answers(old(self)@, old(self).keys(), action, expected),
    {
        match action {
            Action::Get { dir, file } => Expected::Value(self.get(key(dir, file).as_slice())),
            Action::GetMissing { dir, file } => Expected::Value(
                self.get(missing_key(dir, file).as_slice()),
            ),
            Action::PrefixEmpty { dir } => Expected::PrefixEmpty(self.is_prefix_empty(dir)),
            Action::ScanDelimiter { dir, delimiter: id } => Expected::Entries(
                self.expected_key_entries(dir, delimiter(id)),
            ),
            Action::Delete { dir, file } => Expected::Removed(
                self.remove(key(dir, file).as_slice()),
            ),
            Action::Put { dir, file, rev } => {
                self.insert(key(dir, file), value(dir, file, rev));
                Expected::Stored
            },
            Action::CheckpointReopen => Expected::Kept,
            Action::Reopen => Expected::Kept,
        }
    }
}

// ---------- laws ----------

/// Every preloaded file is there, with its first revision.
pub proof fn preloaded_files_are_there(dir: u8, file: u16)
    requires
        dir < DIRS,
        file < FILES_PER_DIR,
    ensures
        loaded(2048).dom().contains(crate::read_model::keys::key_of(dir, file)),
        loaded(2048)[crate::read_model::keys::key_of(dir, file)]
            == crate::read_model::keys::value_of(dir, file, 0),
{
    lemma_loaded(2048, dir, file);
}

proof fn lemma_loaded(n: nat, dir: u8, file: u16)
    requires
        dir < DIRS,
        file < FILES_PER_DIR,
        256 * dir + file < n <= 2048,
    ensures
        loaded(n).dom().contains(crate::read_model::keys::key_of(dir, file)),
        loaded(n)[crate::read_model::keys::key_of(dir, file)]
            == crate::read_model::keys::value_of(dir, file, 0),
    decreases n,
{
    let last = n - 1;
    if 256 * dir + file < last {
        lemma_loaded(last as nat, dir, file);
        let d = (last / 256) as u8;
        let f = (last % 256) as u16;
        if crate::read_model::keys::key_of(d, f) == crate::read_model::keys::key_of(dir, file) {
            crate::read_model::keys::files_have_different_keys(d, f, dir, file);
        }
    }
}

/// A missing key is never there, whatever files are.
pub proof fn missing_keys_stay_missing(m: Map<Seq<u8>, Seq<u8>>, dir: u8, file: u16)
    requires
        forall|k: Seq<u8>| #[trigger]
            m.dom().contains(k) ==> exists|d: u8, f: u16|
                k == #[trigger] crate::read_model::keys::key_of(d, f),
    ensures
        !m.dom().contains(crate::read_model::keys::missing_key_of(dir, file)),
{
    let k = crate::read_model::keys::missing_key_of(dir, file);
    if m.dom().contains(k) {
        let (d, f) = choose|d: u8, f: u16| k == #[trigger] crate::read_model::keys::key_of(d, f);
        crate::read_model::keys::a_missing_key_is_no_files_key(dir, file, d, f);
    }
}

/// Every key below a prefix is covered by a line of the listing.
pub proof fn every_key_is_listed(keys: Seq<Seq<u8>>, prefix: Seq<u8>, d: u8, i: int)
    requires
        0 <= i < keys.len(),
        prefix.is_prefix_of(keys[i]),
    ensures
        listing(keys, prefix, d).contains(line_of(keys[i], prefix.len() as int, d)),
    decreases keys.len(),
{
    let before = listing(keys.drop_last(), prefix, d);
    let line = line_of(keys[i], prefix.len() as int, d);
    if i < keys.len() - 1 {
        every_key_is_listed(keys.drop_last(), prefix, d, i);
        let j = choose|j: int| 0 <= j < before.len() && before[j] == line;
        let last = line_of(keys.last(), prefix.len() as int, d);
        assert(before.push(last)[j] == line);
    } else {
        assert(before.push(line)[before.len() as int] == line);
    }
}

/// Every line of a listing covers a key below the prefix.
pub proof fn every_line_covers_a_key(keys: Seq<Seq<u8>>, prefix: Seq<u8>, d: u8, line: Line)
    requires
        listing(keys, prefix, d).contains(line),
    ensures
        exists|i: int|
            0 <= i < keys.len() && prefix.is_prefix_of(#[trigger] keys[i]) && line == line_of(
                keys[i],
                prefix.len() as int,
                d,
            ),
    decreases keys.len(),
{
    if keys.len() > 0 {
        let before = listing(keys.drop_last(), prefix, d);
        let n = keys.len() - 1;
        if before.contains(line) {
            every_line_covers_a_key(keys.drop_last(), prefix, d, line);
            let i = choose|i: int|
                0 <= i < keys.drop_last().len() && prefix.is_prefix_of(
                    #[trigger] keys.drop_last()[i],
                ) && line == line_of(keys.drop_last()[i], prefix.len() as int, d);
            assert(keys[i] == keys.drop_last()[i]);
        } else {
            let all = listing(keys, prefix, d);
            let j = choose|j: int| 0 <= j < all.len() && all[j] == line;
            if j < before.len() {
                assert(before[j] == line);
            }
            assert(keys[n] == keys.last());
        }
    }
}

/// A common prefix of a listing ends in the delimiter, holds no other one behind
/// the prefix, and starts a key.
pub proof fn a_common_prefix_ends_at_the_first_delimiter(
    keys: Seq<Seq<u8>>,
    prefix: Seq<u8>,
    d: u8,
    p: Seq<u8>,
)
    requires
        listing(keys, prefix, d).contains(Line::CommonPrefix(p)),
    ensures
        prefix.len() < p.len(),
        prefix.is_prefix_of(p),
        p[p.len() - 1] == d,
        forall|j: int| prefix.len() <= j < p.len() - 1 ==> #[trigger] p[j] != d,
        exists|i: int| 0 <= i < keys.len() && p.is_prefix_of(#[trigger] keys[i]),
{
    every_line_covers_a_key(keys, prefix, d, Line::CommonPrefix(p));
    let i = choose|i: int|
        0 <= i < keys.len() && prefix.is_prefix_of(#[trigger] keys[i]) && Line::CommonPrefix(p)
            == line_of(keys[i], prefix.len() as int, d);
    let k = keys[i];
    let c = choose|c: int| #[trigger] first_at(k, prefix.len() as int, d, c);
    assert(p == k.take(c + 1));
    assert(p =~= k.subrange(0, p.len() as int));
    assert(p.subrange(0, prefix.len() as int) =~= k.subrange(0, prefix.len() as int));
    assert(p.is_prefix_of(keys[i]));
    assert forall|j: int| prefix.len() <= j < p.len() - 1 implies #[trigger] p[j] != d by {
        assert(p[j] == k[j]);
    }
}

/// A key that a listing names is one of the keys below the prefix, and holds no
/// delimiter behind it.
pub proof fn a_listed_key_has_no_delimiter(
    keys: Seq<Seq<u8>>,
    prefix: Seq<u8>,
    d: u8,
    k: Seq<u8>,
)
    requires
        listing(keys, prefix, d).contains(Line::Key(k)),
    ensures
        keys.contains(k),
        prefix.is_prefix_of(k),
        forall|j: int| prefix.len() <= j < k.len() ==> #[trigger] k[j] != d,
{
    every_line_covers_a_key(keys, prefix, d, Line::Key(k));
    let i = choose|i: int|
        0 <= i < keys.len() && prefix.is_prefix_of(#[trigger] keys[i]) && Line::Key(k) == line_of(
            keys[i],
            prefix.len() as int,
            d,
        );
    assert(keys[i] == k);
    if exists|j: int| prefix.len() <= j < k.len() && #[trigger] k[j] == d {
        let j = choose|j: int| prefix.len() <= j < k.len() && #[trigger] k[j] == d;
        let c = lemma_first(k, prefix.len() as int, d, j);
        assert(first_at(k, prefix.len() as int, d, c));
    }
}

/// Where `d` occurs, it occurs first somewhere.
proof fn lemma_first(k: Seq<u8>, from: int, d: u8, j: int) -> (c: int)
    requires
        0 <= from <= j < k.len(),
        k[j] == d,
    ensures
        from <= c <= j,
        k[c] == d,
        forall|i: int| from <= i < c ==> #[trigger] k[i] != d,
    decreases j - from,
{
    if k[from] == d {
        from
    } else {
        lemma_first(k, from + 1, d, j)
    }
}

/// Every key below the prefix is named by a listing, or starts with a common
/// prefix of it.
pub proof fn every_key_below_a_prefix_is_covered(
    keys: Seq<Seq<u8>>,
    prefix: Seq<u8>,
    d: u8,
    i: int,
)
    requires
        0 <= i < keys.len(),
        prefix.is_prefix_of(keys[i]),
    ensures
        listing(keys, prefix, d).contains(Line::Key(keys[i])) || exists|p: Seq<u8>|
            p.is_prefix_of(keys[i]) && #[trigger] listing(keys, prefix, d).contains(
                Line::CommonPrefix(p),
            ),
{
    let k = keys[i];
    every_key_is_listed(keys, prefix, d, i);
    if let Line::CommonPrefix(p) = line_of(k, prefix.len() as int, d) {
        a_common_prefix_ends_at_the_first_delimiter(keys, prefix, d, p);
        let c = choose|c: int| #[trigger] first_at(k, prefix.len() as int, d, c);
        assert(p =~= k.subrange(0, p.len() as int));
        assert(listing(keys, prefix, d).contains(Line::CommonPrefix(p)));
    }
}

/// The bytes of a line.
pub open spec fn bytes_of(line: Line) -> Seq<u8> {
    match line {
        Line::Key(k) => k,
        Line::CommonPrefix(p) => p,
    }
}

/// What two different bytes say of the order of two keys.
proof fn lemma_order_at(a: Seq<u8>, b: Seq<u8>, i: int)
    requires
        0 <= i < a.len(),
        i < b.len(),
        forall|j: int| 0 <= j < i ==> a[j] == b[j],
        a[i] != b[i],
    ensures
        lex_before(a, b) == (a[i] < b[i]),
    decreases i,
{
    if i > 0 {
        assert(a[0] == b[0]);
        let (x, y) = (a.skip(1), b.skip(1));
        assert forall|j: int| 0 <= j < i - 1 implies x[j] == y[j] by {
            assert(a[j + 1] == b[j + 1]);
        }
        lemma_order_at(x, y, i - 1);
    }
}

/// A strict prefix stands first.
proof fn lemma_order_prefix(a: Seq<u8>, b: Seq<u8>)
    requires
        a.len() < b.len(),
        forall|j: int| 0 <= j < a.len() ==> a[j] == b[j],
    ensures
        lex_before(a, b),
    decreases a.len(),
{
    if a.len() > 0 {
        assert(a[0] == b[0]);
        let (x, y) = (a.skip(1), b.skip(1));
        assert forall|j: int| 0 <= j < x.len() implies x[j] == y[j] by {
            assert(a[j + 1] == b[j + 1]);
        }
        lemma_order_prefix(x, y);
    }
}

/// Whether all bytes of the shorter one are those of the other, or where they
/// first differ.
proof fn lemma_differ(a: Seq<u8>, b: Seq<u8>, from: int) -> (i: int)
    requires
        0 <= from <= a.len(),
        from <= b.len(),
        forall|j: int| 0 <= j < from ==> a[j] == b[j],
    ensures
        from <= i <= a.len(),
        i <= b.len(),
        forall|j: int| 0 <= j < i ==> a[j] == b[j],
        i < a.len() && i < b.len() ==> a[i] != b[i],
    decreases a.len() - from,
{
    if from < a.len() && from < b.len() && a[from] == b[from] {
        lemma_differ(a, b, from + 1)
    } else {
        from
    }
}

/// The line of an earlier key does not stand behind that of a later one.
proof fn lemma_lines_in_order(keys: Seq<Seq<u8>>, prefix: Seq<u8>, d: u8, x: Line, y: Line, i: int, j: int)
    requires
        listing(keys, prefix, d).contains(x),
        listing(keys, prefix, d).contains(y),
        0 <= i < keys.len(),
        0 <= j < keys.len(),
        lex_before(keys[i], keys[j]),
        x == line_of(keys[i], prefix.len() as int, d),
        y == line_of(keys[j], prefix.len() as int, d),
        prefix.is_prefix_of(keys[i]),
        prefix.is_prefix_of(keys[j]),
        x != y,
    ensures
        lex_before(bytes_of(x), bytes_of(y)),
{
    let (k1, k2) = (keys[i], keys[j]);
    let (a, b) = (bytes_of(x), bytes_of(y));
    match x {
        Line::CommonPrefix(p) => {
            a_common_prefix_ends_at_the_first_delimiter(keys, prefix, d, p);
            let c = choose|c: int| #[trigger] first_at(k1, prefix.len() as int, d, c);
        },
        Line::Key(k) => {
            a_listed_key_has_no_delimiter(keys, prefix, d, k);
        },
    }
    match y {
        Line::CommonPrefix(p) => {
            a_common_prefix_ends_at_the_first_delimiter(keys, prefix, d, p);
            let c = choose|c: int| #[trigger] first_at(k2, prefix.len() as int, d, c);
        },
        Line::Key(k) => {
            a_listed_key_has_no_delimiter(keys, prefix, d, k);
        },
    }
    assert(a.len() <= k1.len() && forall|m: int| 0 <= m < a.len() ==> a[m] == k1[m]);
    assert(b.len() <= k2.len() && forall|m: int| 0 <= m < b.len() ==> b[m] == k2[m]);
    let m = lemma_differ(a, b, 0);
    if m < a.len() && m < b.len() {
        lemma_order_at(k1, k2, m);
        lemma_order_at(a, b, m);
    } else if m < b.len() {
        lemma_order_prefix(a, b);
    } else if m < a.len() {
        // The later line would start the earlier one.
        match y {
            Line::CommonPrefix(p) => {
                assert(a[b.len() - 1] == b[b.len() - 1]);
                assert(a[b.len() - 1] == d);
                assert(prefix.len() <= b.len() - 1 < a.len() - 1);
            },
            Line::Key(k) => {
                assert(forall|n: int| 0 <= n < k2.len() ==> k2[n] == k1[n]);
                if k2.len() < k1.len() {
                    lemma_order_prefix(k2, k1);
                }
                key_order_is_total(k1, k2);
                assert(k1.len() >= a.len() > b.len());
            },
        }
        assert(false);
    } else {
        assert(a =~= b);
        match (x, y) {
            (Line::Key(_), Line::CommonPrefix(_)) => {
                assert(a[a.len() - 1] == d);
            },
            (Line::CommonPrefix(_), Line::Key(_)) => {
                assert(b[b.len() - 1] == d);
            },
            _ => {},
        }
        assert(false);
    }
}

/// The lines of a listing of keys in order stand in byte order.
pub proof fn a_listing_is_in_order(keys: Seq<Seq<u8>>, prefix: Seq<u8>, d: u8, a: int, b: int)
    requires
        forall|i: int, j: int|
            0 <= i < j < keys.len() ==> lex_before(#[trigger] keys[i], #[trigger] keys[j]),
        0 <= a < b < listing(keys, prefix, d).len(),
    ensures
        lex_before(
            bytes_of(listing(keys, prefix, d)[a]),
            bytes_of(listing(keys, prefix, d)[b]),
        ),
    decreases keys.len(),
{
    if keys.len() > 0 {
        let rest = keys.drop_last();
        let before = listing(rest, prefix, d);
        let all = listing(keys, prefix, d);
        let n = keys.len() - 1;
        assert forall|i: int, j: int| 0 <= i < j < rest.len() implies lex_before(
            #[trigger] rest[i],
            #[trigger] rest[j],
        ) by {
            assert(rest[i] == keys[i] && rest[j] == keys[j]);
        }
        if b < before.len() {
            a_listing_is_in_order(rest, prefix, d, a, b);
        } else {
            let x = all[a];
            let y = all[b];
            assert(before.contains(x)) by {
                assert(before[a] == x);
            }
            every_line_covers_a_key(rest, prefix, d, x);
            let i = choose|i: int|
                0 <= i < rest.len() && prefix.is_prefix_of(#[trigger] rest[i]) && x == line_of(
                    rest[i],
                    prefix.len() as int,
                    d,
                );
            assert(rest[i] == keys[i]);
            assert(lex_before(keys[i], keys[n]));
            assert(all.contains(x) && all.contains(y));
            if x == y {
                if let Line::Key(k) = y {
                    key_order_is_total(keys[i], keys[n]);
                }
                assert(false);
            }
            lemma_lines_in_order(keys, prefix, d, x, y, i, n);
        }
    }
}

/// No line of a listing of distinct keys comes twice.
pub proof fn no_line_comes_twice(keys: Seq<Seq<u8>>, prefix: Seq<u8>, d: u8)
    requires
        keys.no_duplicates(),
    ensures
        listing(keys, prefix, d).no_duplicates(),
    decreases keys.len(),
{
    if keys.len() > 0 {
        let rest = keys.drop_last();
        let before = listing(rest, prefix, d);
        no_line_comes_twice(rest, prefix, d);
        let k = keys.last();
        let line = line_of(k, prefix.len() as int, d);
        if prefix.is_prefix_of(k) && !(line is CommonPrefix && before.contains(line)) {
            if before.contains(line) {
                every_line_covers_a_key(rest, prefix, d, line);
                let i = choose|i: int|
                    0 <= i < rest.len() && prefix.is_prefix_of(#[trigger] rest[i]) && line
                        == line_of(rest[i], prefix.len() as int, d);
                assert(rest[i] == k);
                assert(keys[i] == keys[keys.len() - 1]);
            }
            let all = before.push(line);
            assert forall|a: int, b: int| 0 <= a < b < all.len() implies all[a] != all[b] by {
                if b == before.len() {
                    assert(before.contains(all[a]));
                }
            }
        }
    }
}

/// Keys stand in byte order: the first byte in which they differ decides, and
/// where there is none the shorter one comes first.
pub proof fn key_order_is_byte_order(a: Seq<u8>, b: Seq<u8>, i: int)
    requires
        0 <= i <= a.len(),
        i <= b.len(),
        forall|j: int| 0 <= j < i ==> a[j] == b[j],
    ensures
        i < a.len() && i < b.len() && a[i] != b[i] ==> lex_before(a, b) == (a[i] < b[i]),
        i == a.len() ==> lex_before(a, b) == (a.len() < b.len()),
{
    if i < a.len() && i < b.len() && a[i] != b[i] {
        lemma_order_at(a, b, i);
    }
    if i == a.len() {
        if a.len() < b.len() {
            lemma_order_prefix(a, b);
        } else {
            assert(a =~= b);
            key_order_is_total(a, b);
        }
    }
}

/// A file that was put is answered with the value of its last revision, whatever
/// was there, and no other file's answer changes.
pub proof fn a_put_file_is_answered(
    m: Map<Seq<u8>, Seq<u8>>,
    dir: u8,
    file: u16,
    rev: u8,
    keys0: Seq<Seq<u8>>,
    keys1: Seq<Seq<u8>>,
    asked_dir: u8,
    asked_file: u16,
    before: Expected,
    after: Expected,
)
    requires
        dir < 8,
        asked_dir < 8,
        answers(m, keys0, Action::Get { dir: asked_dir, file: asked_file }, before),
        answers(
            played(m, Action::Put { dir, file, rev }),
            keys1,
            Action::Get { dir: asked_dir, file: asked_file },
            after,
        ),
    ensures
        after is Value && before is Value,
        asked_dir == dir && asked_file == file ==> after->Value_0 is Some
            && after->Value_0->0@.len() == 256 && after->Value_0->0@[0] == dir
            && after->Value_0->0@[1] + 256 * after->Value_0->0@[2] == file
            && after->Value_0->0@[255] == rev,
        asked_dir != dir || asked_file != file ==> (after->Value_0 is Some) == (before->Value_0
            is Some) && (after->Value_0 is Some ==> after->Value_0->0@ == before->Value_0->0@),
{
    let k = crate::read_model::keys::key_of(dir, file);
    let asked = crate::read_model::keys::key_of(asked_dir, asked_file);
    if k == asked {
        crate::read_model::keys::files_have_different_keys(dir, file, asked_dir, asked_file);
        crate::read_model::keys::values_tell_their_file(dir, file, rev, dir, file, rev);
    }
}

/// A file that was deleted is gone, and deleting it again finds nothing; no other
/// file's answer changes.
pub proof fn a_deleted_file_is_gone(
    m: Map<Seq<u8>, Seq<u8>>,
    dir: u8,
    file: u16,
    keys0: Seq<Seq<u8>>,
    keys1: Seq<Seq<u8>>,
    asked_dir: u8,
    asked_file: u16,
    first: Expected,
    again: Expected,
    before: Expected,
    after: Expected,
)
    requires
        dir < 8,
        asked_dir < 8,
        answers(m, keys0, Action::Delete { dir, file }, first),
        answers(
            played(m, Action::Delete { dir, file }),
            keys1,
            Action::Delete { dir, file },
            again,
        ),
        answers(m, keys0, Action::Get { dir: asked_dir, file: asked_file }, before),
        answers(
            played(m, Action::Delete { dir, file }),
            keys1,
            Action::Get { dir: asked_dir, file: asked_file },
            after,
        ),
    ensures
        again == Expected::Removed(false),
        after is Value && before is Value,
        asked_dir == dir && asked_file == file ==> after->Value_0 is None && first
            == Expected::Removed(before->Value_0 is Some),
        asked_dir != dir || asked_file != file ==> (after->Value_0 is Some) == (before->Value_0
            is Some) && (after->Value_0 is Some ==> after->Value_0->0@ == before->Value_0->0@),
{
    let k = crate::read_model::keys::key_of(dir, file);
    let asked = crate::read_model::keys::key_of(asked_dir, asked_file);
    if k == asked {
        crate::read_model::keys::files_have_different_keys(dir, file, asked_dir, asked_file);
    }
}

/// A directory with a file in it is not empty, and a put changes the answer of no
/// other directory.
pub proof fn a_directory_with_a_file_is_not_empty(
    m: Map<Seq<u8>, Seq<u8>>,
    dir: u8,
    file: u16,
    rev: u8,
    keys0: Seq<Seq<u8>>,
    keys1: Seq<Seq<u8>>,
    asked: u8,
    before: Expected,
    after: Expected,
)
    requires
        dir < 8,
        asked < 10,
        answers(m, keys0, Action::PrefixEmpty { dir: asked }, before),
        answers(
            played(m, Action::Put { dir, file, rev }),
            keys1,
            Action::PrefixEmpty { dir: asked },
            after,
        ),
    ensures
        asked == dir ==> after == Expected::PrefixEmpty(false),
        asked != dir ==> after == before,
{
    let n = played(m, Action::Put { dir, file, rev });
    let k = crate::read_model::keys::key_of(dir, file);
    let p = crate::read_model::keys::prefix_of(asked);
    assert(n.dom().contains(k));
    if asked == dir {
        crate::read_model::keys::a_key_stands_below_its_directory(dir, file);
    } else {
        if p.is_prefix_of(k) {
            crate::read_model::keys::a_key_stands_below_no_other_directory(dir, file, asked);
        }
        if exists|x: Seq<u8>| #[trigger] n.dom().contains(x) && p.is_prefix_of(x) {
            let x = choose|x: Seq<u8>| #[trigger] n.dom().contains(x) && p.is_prefix_of(x);
            assert(m.dom().contains(x));
        }
        if exists|x: Seq<u8>| #[trigger] m.dom().contains(x) && p.is_prefix_of(x) {
            let x = choose|x: Seq<u8>| #[trigger] m.dom().contains(x) && p.is_prefix_of(x);
            assert(n.dom().contains(x));
        }
    }
}

/// Only a put and a delete change an entry.
pub proof fn reads_change_nothing(m: Map<Seq<u8>, Seq<u8>>, action: Action)
    requires
        !(action is Put),
        !(action is Delete),
    ensures
        played(m, action) == m,
{
}

/// Nothing but the files of the directories is preloaded.
pub proof fn nothing_else_is_preloaded(k: Seq<u8>)
    requires
        loaded(2048).dom().contains(k),
    ensures
        exists|dir: u8, file: u16|
            dir < 8 && file < 256 && k == #[trigger] crate::read_model::keys::key_of(dir, file),
{
    lemma_loaded_only(2048, k);
}

proof fn lemma_loaded_only(n: nat, k: Seq<u8>)
    requires
        n <= 2048,
        loaded(n).dom().contains(k),
    ensures
        exists|dir: u8, file: u16|
            dir < 8 && file < 256 && k == #[trigger] crate::read_model::keys::key_of(dir, file),
    decreases n,
{
    if n > 0 {
        let dir = ((n - 1) / 256) as u8;
        let file = ((n - 1) % 256) as u16;
        if k == crate::read_model::keys::key_of(dir, file) {
            assert(dir < 8 && file < 256);
        } else {
            lemma_loaded_only((n - 1) as nat, k);
        }
    }
}

} // verus!
