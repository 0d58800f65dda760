//! Blob-addressed storage.
use std::collections::HashMap;

use vstd::prelude::*;
use vstd::slice::slice_to_vec;

use crate::api::errors::{Error, Result, StoreFault};
use crate::layout::{guid_key, key_guid, BlobGuid, PAGE_SIZE};

verus! {

// ---------- blob buffers ----------

/// A buffer for one blob.
pub struct AlignedBlobBuf {
    bytes: Vec<u8>,
}

impl View for AlignedBlobBuf {
    type V = Seq<u8>;

    closed spec fn view(&self) -> Seq<u8> {
        self.bytes@
    }
}

impl AlignedBlobBuf {
    /// A buffer of zeros.
    pub fn zeroed() -> (buf: Self)
        ensures
            buf@ == Seq::new(PAGE_SIZE as nat, |i: int| 0u8),
    {
        let buf = AlignedBlobBuf { bytes: vec![0u8; PAGE_SIZE as usize] };
        assert(buf@ =~= Seq::new(PAGE_SIZE as nat, |i: int| 0u8));
        buf
    }

    /// A buffer that takes over `bytes`.
    pub fn from_bytes(bytes: Vec<u8>) -> (buf: Self)
        ensures
            buf@ == bytes@,
    {
        AlignedBlobBuf { bytes }
    }

    /// Give the bytes up.
    pub fn into_bytes(self) -> (bytes: Vec<u8>)
        ensures
            bytes@ == self@,
    {
        self.bytes
    }

    /// The bytes.
    pub fn as_slice(&self) -> (bytes: &[u8])
        ensures
            bytes@ == self@,
    {
        self.bytes.as_slice()
    }

    /// The bytes, for writing.
    pub fn as_mut_slice(&mut self) -> (bytes: &mut [u8])
        ensures
            bytes@ == old(self)@,
            final(self)@ == final(bytes)@,
    {
        self.bytes.as_mut_slice()
    }

    /// Make this buffer a copy of `src`.
    pub fn copy_from(&mut self, src: &AlignedBlobBuf)
        ensures
            final(self)@ == src@,
    {
        self.bytes = slice_to_vec(src.bytes.as_slice());
    }
}

impl Clone for AlignedBlobBuf {
    fn clone(&self) -> (copy: Self)
        ensures
            copy@ == self@,
    {
        AlignedBlobBuf { bytes: slice_to_vec(self.bytes.as_slice()) }
    }
}

// ---------- the storage trait ----------

/// The answer for a blob that is not there.
pub open spec fn missing_blob() -> Error {
    Error::BlobStoreIo(StoreFault::NotFound)
}

/// A call of a [`Backend`], with the number of the guid it is for.
pub enum Call {
    Read(u128),
    Write(u128),
    Delete(u128),
    List,
    Flush,
    Has(u128),
}

/// What a call gives that cannot fail but by `fault`.
pub open spec fn outcome(fault: Option<Error>) -> Result<()> {
    match fault {
        Some(e) => Err(e),
        None => Ok(()),
    }
}

/// Storage that holds whole blobs by guid.
///
/// What the implementation stores is `blobs`, and what of it outlives a crash is
/// `durable`. A write or a delete may reach the durable images at any time up to
/// the next flush; a flush that succeeds has them all there. The implementation
/// is `faithful` while reads give back what was written. A call that fails for
/// reasons of the implementation's own, such as a broken device, fails with its
/// `fault`; the implementation is `steady` while there is none to come.
pub trait Backend: Sized {
    /// Structural invariant of the implementation.
    spec fn wf(&self) -> bool;

    /// The stored images, by the number of their guid.
    spec fn blobs(&self) -> Map<u128, Seq<u8>>;

    /// The images that outlive a crash, by the number of their guid.
    spec fn durable(&self) -> Map<u128, Seq<u8>>;

    /// Whether reads give back what was written.
    spec fn faithful(&self) -> bool;

    /// What the next call fails with, if it is `call` and fails for reasons of the
    /// implementation's own.
    spec fn fault(&self, call: Call) -> Option<Error>;

    /// Whether no call fails for reasons of its own.
    spec fn steady(&self) -> bool;

    /// Read the image of `guid` into `dst`.
    fn read_blob(&mut self, guid: BlobGuid, dst: &mut AlignedBlobBuf) -> (r: Result<()>)
        requires
            old(self).wf(),
            old(dst)@.len() == PAGE_SIZE,
        ensures
            final(self).wf(),
            final(dst)@.len() == PAGE_SIZE,
            old(self).faithful() ==> {
                &&& final(self).faithful()
                &&& final(self).blobs() == old(self).blobs()
                &&& final(self).durable() == old(self).durable()
                &&& r is Ok ==> old(self).blobs().dom().contains(crate::layout::guid_id(guid))
                    && final(dst)@ == old(self).blobs()[crate::layout::guid_id(guid)]
            },
            match old(self).fault(Call::Read(crate::layout::guid_id(guid))) {
                Some(e) => r == Err::<(), Error>(e),
                None => old(self).faithful() ==> r == (if old(self).blobs().dom().contains(
                    crate::layout::guid_id(guid),
                ) {
                    Ok(())
                } else {
                    Err::<(), Error>(missing_blob())
                }),
            },
            old(self).faithful() && old(self).steady() ==> {
                &&& final(self).steady()
                &&& old(self).blobs().dom().contains(crate::layout::guid_id(guid)) ==> r is Ok
                &&& !old(self).blobs().dom().contains(crate::layout::guid_id(guid)) ==> r == Err::<
                    (),
                    Error,
                >(missing_blob())
            },
    ;

    /// Store `src` as the image of `guid`.
    fn write_blob(&mut self, guid: BlobGuid, src: &AlignedBlobBuf) -> (r: Result<()>)
        requires
            old(self).wf(),
            src@.len() == PAGE_SIZE,
        ensures
            final(self).wf(),
            old(self).faithful() && r is Ok ==> {
                &&& final(self).faithful()
                &&& final(self).blobs() == old(self).blobs().insert(
                    crate::layout::guid_id(guid),
                    src@,
                )
            },
            r == outcome(old(self).fault(Call::Write(crate::layout::guid_id(guid)))),
            old(self).faithful() && old(self).steady() ==> final(self).steady() && r is Ok,
    ;

    /// Drop the image of `guid`, if there is one.
    fn delete_blob(&mut self, guid: BlobGuid) -> (r: Result<()>)
        requires
            old(self).wf(),
        ensures
            final(self).wf(),
            old(self).faithful() && r is Ok ==> {
                &&& final(self).faithful()
                &&& final(self).blobs() == old(self).blobs().remove(crate::layout::guid_id(guid))
            },
            r == outcome(old(self).fault(Call::Delete(crate::layout::guid_id(guid)))),
            old(self).faithful() && old(self).steady() ==> final(self).steady() && r is Ok,
    ;

    /// The guids of all stored images, each once.
    fn list_blobs(&mut self) -> (r: Result<Vec<BlobGuid>>)
        requires
            old(self).wf(),
        ensures
            final(self).wf(),
            old(self).faithful() ==> {
                &&& final(self).faithful()
                &&& final(self).blobs() == old(self).blobs()
                &&& final(self).durable() == old(self).durable()
                &&& r matches Ok(v) ==> lists(v@, old(self).blobs())
            },
            match old(self).fault(Call::List) {
                Some(e) => r == Err::<Vec<BlobGuid>, Error>(e),
                None => r is Ok,
            },
            old(self).faithful() && old(self).steady() ==> final(self).steady() && r is Ok,
    ;

    /// Make everything written so far durable.
    fn flush(&mut self) -> (r: Result<()>)
        requires
            old(self).wf(),
        ensures
            final(self).wf(),
            old(self).faithful() ==> final(self).faithful() && final(self).blobs() == old(self).blobs(),
            old(self).faithful() && r is Ok ==> final(self).durable() == old(self).blobs(),
            r == outcome(old(self).fault(Call::Flush)),
            old(self).faithful() && old(self).steady() ==> final(self).steady() && r is Ok,
    ;

    /// Whether `guid` has an image.
    fn has_blob(&mut self, guid: BlobGuid) -> (r: Result<bool>)
        requires
            old(self).wf(),
        ensures
            final(self).wf(),
            old(self).faithful() ==> {
                &&& final(self).faithful()
                &&& final(self).blobs() == old(self).blobs()
                &&& final(self).durable() == old(self).durable()
                &&& r matches Ok(found) ==> found == old(self).blobs().dom().contains(
                    crate::layout::guid_id(guid),
                )
            },
            match old(self).fault(Call::Has(crate::layout::guid_id(guid))) {
                Some(e) => r == Err::<bool, Error>(e),
                None => r is Ok,
            },
            old(self).faithful() && old(self).steady() ==> final(self).steady() && r is Ok,
    ;
}

/// `guids` names every key of `blobs`, each once.
pub open spec fn lists(guids: Seq<BlobGuid>, blobs: Map<u128, Seq<u8>>) -> bool {
    let ids = guids.map_values(|g: BlobGuid| crate::layout::guid_id(g));
    ids.no_duplicates() && ids.to_set() == blobs.dom()
}

/// The keys of a map, each once.
pub fn map_keys<V>(m: &HashMap<u128, V>) -> (keys: Vec<u128>)
    ensures
        keys@.no_duplicates(),
        keys@.to_set() == m@.dom(),
{
    broadcast use vstd::std_specs::hash::group_hash_axioms;

    let mut keys: Vec<u128> = Vec::new();
    let ghost all = vstd::std_specs::iter::IteratorSpec::remaining(
        &vstd::std_specs::hash::spec_keys_iter(m),
    ).unref();
    for k in it: m.keys()
        invariant
            it.seq().unref() == all,
            keys@ == it.seq().unref().take(it.index() as int),
            it.seq().unref().to_set() == m@.dom(),
            it.seq().no_duplicates(),
    {
        keys.push(*k);
        assert(keys@ =~= it.seq().unref().take(it.index() + 1));
    }
    assert(keys@ =~= all);
    keys
}

// ---------- memory ----------

/// Storage that lives as long as its value.
pub struct MemoryBackend {
    blobs: HashMap<u128, AlignedBlobBuf>,
}

impl MemoryBackend {
    /// Storage that holds nothing.
    pub fn new() -> (b: Self)
        ensures
            b.wf(),
            b.faithful(),
            b.steady(),
            b.blobs() == Map::<u128, Seq<u8>>::empty(),
    {
        let b = MemoryBackend { blobs: HashMap::new() };
        assert(b.blobs() =~= Map::<u128, Seq<u8>>::empty());
        b
    }
}

impl Backend for MemoryBackend {
    closed spec fn wf(&self) -> bool {
        forall|id: u128| #[trigger]
            self.blobs@.dom().contains(id) ==> self.blobs@[id]@.len() == PAGE_SIZE
    }

    closed spec fn blobs(&self) -> Map<u128, Seq<u8>> {
        self.blobs@.map_values(|b: AlignedBlobBuf| b@)
    }

    /// Nothing but the value itself holds the images, so none is ahead of the
    /// durable ones.
    open spec fn durable(&self) -> Map<u128, Seq<u8>> {
        self.blobs()
    }

    open spec fn faithful(&self) -> bool {
        true
    }

    open spec fn fault(&self, call: Call) -> Option<Error> {
        None
    }

    open spec fn steady(&self) -> bool {
        true
    }

    fn read_blob(&mut self, guid: BlobGuid, dst: &mut AlignedBlobBuf) -> (r: Result<()>) {
        match self.blobs.get(&guid_key(&guid)) {
            Some(b) => {
                dst.copy_from(b);
                Ok(())
            },
            None => Err(Error::BlobStoreIo(StoreFault::NotFound)),
        }
    }

    fn write_blob(&mut self, guid: BlobGuid, src: &AlignedBlobBuf) -> (r: Result<()>) {
        let ghost before = self.blobs();
        self.blobs.insert(guid_key(&guid), src.clone());
        assert(self.blobs() =~= before.insert(crate::layout::guid_id(guid), src@));
        Ok(())
    }

    fn delete_blob(&mut self, guid: BlobGuid) -> (r: Result<()>) {
        let ghost before = self.blobs();
        self.blobs.remove(&guid_key(&guid));
        assert(self.blobs() =~= before.remove(crate::layout::guid_id(guid)));
        Ok(())
    }

    fn list_blobs(&mut self) -> (r: Result<Vec<BlobGuid>>) {
        let keys: Vec<u128> = map_keys(&self.blobs);
        let guids: Vec<BlobGuid> = guids_of(keys.as_slice());
        proof {
            let ids = guids@.map_values(|g: BlobGuid| crate::layout::guid_id(g));
            assert(ids =~= keys@);
            assert(self.blobs().dom() =~= self.blobs@.dom());
        }
        Ok(guids)
    }

    fn flush(&mut self) -> (r: Result<()>) {
        Ok(())
    }

    fn has_blob(&mut self, guid: BlobGuid) -> (r: Result<bool>) {
        Ok(self.blobs.contains_key(&guid_key(&guid)))
    }
}

/// The guids of map keys.
pub fn guids_of(keys: &[u128]) -> (guids: Vec<BlobGuid>)
    ensures
        guids@.len() == keys@.len(),
        forall|i: int|
            0 <= i < keys@.len() ==> crate::layout::guid_id(#[trigger] guids@[i]) == keys@[i],
{
    let mut guids: Vec<BlobGuid> = Vec::with_capacity(keys.len());
    let mut i: usize = 0;
    while i < keys.len()
        invariant
            i <= keys@.len(),
            guids@.len() == i,
            forall|j: int|
                0 <= j < i ==> crate::layout::guid_id(#[trigger] guids@[j]) == keys@[j],
        decreases keys@.len() - i,
    {
        guids.push(key_guid(keys[i]));
        i += 1;
    }
    guids
}

/// A listing names every stored blob, each once, and no other.
pub proof fn a_listing_names_every_blob_once(
    guids: Seq<BlobGuid>,
    blobs: Map<u128, Seq<u8>>,
    guid: BlobGuid,
    i: int,
    j: int,
)
    requires
        lists(guids, blobs),
    ensures
        blobs.dom().contains(crate::layout::guid_id(guid)) <==> guids.contains(guid),
        0 <= i < j < guids.len() ==> guids[i] != guids[j],
{
    let ids = guids.map_values(|g: BlobGuid| crate::layout::guid_id(g));
    let id = crate::layout::guid_id(guid);
    if blobs.dom().contains(id) {
        assert(ids.to_set().contains(id));
        let k = choose|k: int| 0 <= k < ids.len() && ids[k] == id;
        crate::layout::guid_id_is_injective(guids[k], guid);
    }
    if guids.contains(guid) {
        let k = choose|k: int| 0 <= k < guids.len() && guids[k] == guid;
        assert(ids[k] == id);
        assert(ids.to_set().contains(id));
    }
    if 0 <= i < j < guids.len() && guids[i] == guids[j] {
        assert(ids[i] == ids[j]);
    }
}

/// A missing blob is told from every other error, and a call without a fault
/// succeeds.
pub proof fn a_missing_blob_is_told_apart(e: Error)
    ensures
        crate::api::errors::not_found(missing_blob()),
        crate::api::errors::not_found(e) <==> e == missing_blob(),
        outcome(None) is Ok,
        outcome(Some(e)) == Err::<(), Error>(e),
        !crate::api::errors::not_found(Error::BlobStoreIo(StoreFault::StorageFull)),
{
}

} // verus!
