//! The tree: the main user-facing API.
//!
//! A tree maps keys to values. It lives in one root blob of a [`Backend`]: a get
//! reads that blob, a put reads it, changes it and writes it back.
use vstd::prelude::*;

use super::config::TreeConfig;
use super::errors::{Error, Result};
use super::value::{Value, ValueModel};
use crate::engine::walker::put::{get_in_frame, put_in_frame};
use crate::layout::{BlobGuid, PAGE_SIZE};
use crate::store::backend::{AlignedBlobBuf, Backend, Call, MemoryBackend};
use crate::store::blob_frame::BlobFrame;

verus! {

/// Bytes of the guid of the blob that holds the root of a tree.
pub open spec fn root_bytes() -> Seq<u8> {
    Seq::new(16, |i: int| 0u8)
}

/// Guid of the blob that holds the root of a tree.
pub fn root_blob_guid() -> (guid: BlobGuid)
    ensures
        guid@ == root_bytes(),
        crate::layout::guid_id(guid) == root_id(),
{
    let guid: BlobGuid = [0u8; 16];
    assert(guid@ =~= root_bytes());
    guid
}

/// A tree: your handle to one metadata store.
///
/// Calls that change the tree take it exclusively, so they run one at a time.
pub struct Tree<B: Backend> {
    cfg: TreeConfig,
    backend: B,
    /// Stamped on the next new leaf.
    next_seq: u64,
}

/// Under which number backends keep the root blob.
pub open spec fn root_id() -> u128 {
    vstd::bytes::spec_u128_from_le_bytes(root_bytes())
}

impl<B: Backend> Tree<B> {
    /// The configuration.
    pub closed spec fn cfg(&self) -> TreeConfig {
        self.cfg
    }

    /// The storage.
    pub closed spec fn backend(&self) -> B {
        self.backend
    }

    /// The stamp of the next new leaf.
    pub closed spec fn next_seq(&self) -> u64 {
        self.next_seq
    }

    /// Structural invariant.
    pub open spec fn wf(&self) -> bool {
        self.backend().wf()
    }

    /// Whether no call of the backend fails for reasons of its own.
    pub open spec fn steady(&self) -> bool {
        self.backend().steady()
    }

    /// Whether the root blob is there.
    pub open spec fn has_root(&self) -> bool {
        self.backend().blobs().dom().contains(root_id())
    }

    /// The root blob.
    pub open spec fn image(&self) -> Seq<u8> {
        self.backend().blobs()[root_id()]
    }

    /// Whether the backend gives back what was written, and what was written is
    /// a tree.
    pub open spec fn sound(&self) -> bool {
        &&& self.wf()
        &&& self.backend().faithful()
        &&& self.has_root()
        &&& crate::engine::walker::laws::valid_tree(self.image())
    }
}

impl<B: Backend> View for Tree<B> {
    type V = Map<Seq<u8>, Seq<u8>>;

    /// The stored keys with their values.
    open spec fn view(&self) -> Map<Seq<u8>, Seq<u8>> {
        crate::engine::walker::put::entries(self.image())
    }
}

/// Whether `after` may be what a call that only reads left of `before`.
pub open spec fn only_read<B: Backend>(before: B, after: B) -> bool {
    &&& after.wf()
    &&& before.faithful() ==> after.faithful() && after.blobs() == before.blobs()
        && after.durable() == before.durable()
}

/// Whether `after` may be what storing a fresh root left of `before`.
pub open spec fn root_written<B: Backend>(before: B, after: B) -> bool {
    &&& after.wf()
    &&& before.faithful() ==> after.faithful() && after.blobs() == before.blobs().insert(
        root_id(),
        crate::store::blob_frame::empty_image(root_bytes(), 0),
    )
}

/// What opening a tree gives where the root blob is not there: `asked` is the
/// backend once it said so, `wrote` once it took the fresh root. The first fault
/// is handed on.
pub open spec fn root_laid<B: Backend>(
    backend: B,
    asked: B,
    wrote: B,
    r: Result<Tree<B>>,
) -> bool {
    &&& only_read(backend, asked)
    &&& match asked.fault(Call::Write(root_id())) {
        Some(e) => r == Err::<Tree<B>, Error>(e),
        None => root_written(asked, wrote) && match wrote.fault(Call::Flush) {
            Some(e) => r == Err::<Tree<B>, Error>(e),
            None => r is Ok,
        },
    }
}

/// What opening a tree on `backend` gives.
pub open spec fn opened<B: Backend>(cfg: TreeConfig, backend: B, r: Result<Tree<B>>) -> bool {
    &&& backend.faithful() && backend.steady() ==> r is Ok
    &&& match backend.fault(Call::Has(root_id())) {
        Some(e) => r == Err::<Tree<B>, Error>(e),
        None => backend.faithful() ==> (if backend.blobs().dom().contains(root_id()) {
            r is Ok
        } else {
            exists|asked: B, wrote: B| #[trigger] root_laid(backend, asked, wrote, r)
        }),
    }
    &&& r matches Ok(t) ==> {
        &&& t.wf()
        &&& t.cfg() == cfg
        &&& t.next_seq() == 1
        &&& backend.faithful() ==> {
            &&& t.backend().faithful()
            &&& backend.steady() ==> t.steady()
            &&& if backend.blobs().dom().contains(root_id()) {
                t.backend().blobs() == backend.blobs() && t.backend().durable()
                    == backend.durable()
            } else {
                t.backend().blobs() == backend.blobs().insert(
                    root_id(),
                    crate::store::blob_frame::empty_image(root_bytes(), 0),
                ) && t.backend().durable() == t.backend().blobs() && t.sound() && t@ == Map::<
                    Seq<u8>,
                    Seq<u8>,
                >::empty()
            }
        }
    }
}

/// A fresh root blob is an empty tree.
pub proof fn a_fresh_root_is_empty()
    ensures
        crate::engine::walker::laws::valid_tree(
            crate::store::blob_frame::empty_image(root_bytes(), 0),
        ),
        crate::engine::walker::put::entries(
            crate::store::blob_frame::empty_image(root_bytes(), 0),
        ) == Map::<Seq<u8>, Seq<u8>>::empty(),
{
    let img = crate::store::blob_frame::empty_image(root_bytes(), 0);
    crate::store::blob_frame::lemma_empty_image(root_bytes(), 0);
    assert(crate::engine::walker::model::node(img, 1) is Empty);
    assert forall|k: Seq<u8>| #[trigger] crate::engine::walker::put::search(img, k) is Missing by {}
    assert(crate::engine::walker::put::entries(img) =~= Map::<Seq<u8>, Seq<u8>>::empty());
}

/// What a get from the root blob `img` gives.
pub open spec fn got(img: Seq<u8>, key: Seq<u8>, r: Result<Option<Vec<u8>>>) -> bool {
    if !crate::store::blob_frame::frame_ok(img) {
        r == Err::<Option<Vec<u8>>, Error>(Error::corrupt("blob frame: bad layout"))
    } else {
        match crate::engine::walker::put::search(img, key) {
            crate::engine::walker::model::Outcome::Found(v) => r matches Ok(Some(b)) && b@
                == v.bytes,
            crate::engine::walker::model::Outcome::Missing => r matches Ok(None),
            crate::engine::walker::model::Outcome::Cross { guid, depth } => r == Err::<
                Option<Vec<u8>>,
                Error,
            >(Error::NotYetImplemented("lookup: crossing into another blob")),
            crate::engine::walker::model::Outcome::Corrupt => r matches Err(
                Error::NodeCorrupt { .. },
            ),
        }
    }
}

/// What a put of `key` with `value` gives on a tree that stores `m`: the result,
/// and what it stores then. `fits` says that the root blob has room.
pub open spec fn put_gives(
    m: Map<Seq<u8>, Seq<u8>>,
    now: Map<Seq<u8>, Seq<u8>>,
    key: Seq<u8>,
    value: Seq<u8>,
    fits: bool,
    r: Result<Option<Vec<u8>>>,
) -> bool {
    match r {
        Ok(previous) => {
            &&& key.len() <= 65535 && value.len() <= 65535
            &&& !crate::engine::walker::put::clashes(m, key)
            &&& fits
            &&& now == m.insert(key, value)
            &&& match previous {
                Some(p) => m.dom().contains(key) && p@ == m[key],
                None => !m.dom().contains(key),
            }
        },
        Err(e) => {
            &&& now == m
            &&& match e {
                Error::KeyTooLong => key.len() > 65535,
                Error::ValueTooLong => key.len() <= 65535 && value.len() > 65535,
                Error::NotYetImplemented(_) => key.len() <= 65535 && value.len() <= 65535
                    && crate::engine::walker::put::clashes(m, key),
                Error::OutOfSpace => key.len() <= 65535 && value.len() <= 65535 && !fits,
                _ => false,
            }
        },
    }
}

/// How a put runs where the root blob was read: `tried` is what the put into its
/// image gave, `image` the image then, and `read` the backend after the read. An
/// image that changed is written back, and a fault of that is handed on.
pub open spec fn put_runs<B: Backend>(
    backend: B,
    read: B,
    image: Seq<u8>,
    tried: Result<Option<Vec<u8>>>,
    key: Seq<u8>,
    value: Seq<u8>,
    seq: u64,
    r: Result<Option<Vec<u8>>>,
) -> bool {
    &&& only_read(backend, read)
    &&& crate::engine::walker::put::put_outcome(
        backend.blobs()[root_id()],
        image,
        tried,
        key,
        value,
        seq,
    )
    &&& match tried {
        Ok(_) => match read.fault(Call::Write(root_id())) {
            Some(e) => r == Err::<Option<Vec<u8>>, Error>(e),
            None => r == tried,
        },
        Err(_) => r == tried,
    }
}

/// What a put gives where the root blob was read.
pub open spec fn put_ran<B: Backend>(
    backend: B,
    key: Seq<u8>,
    value: Seq<u8>,
    seq: u64,
    r: Result<Option<Vec<u8>>>,
) -> bool {
    exists|read: B, image: Seq<u8>, tried: Result<Option<Vec<u8>>>| #[trigger]
        put_runs(backend, read, image, tried, key, value, seq, r)
}

proof fn lemma_put_ran<B: Backend>(
    backend: B,
    read: B,
    image: Seq<u8>,
    tried: Result<Option<Vec<u8>>>,
    key: Seq<u8>,
    value: Seq<u8>,
    seq: u64,
    r: Result<Option<Vec<u8>>>,
)
    requires
        put_runs(backend, read, image, tried, key, value, seq, r),
    ensures
        put_ran(backend, key, value, seq, r),
{
}

/// Whether a put fits the root blob `img`, as it is or compacted.
pub open spec fn fits_root(img: Seq<u8>, key: Seq<u8>, value: Seq<u8>) -> bool {
    crate::engine::walker::put::fits(img, key, value)
}

/// What a get of a tagged value gives, given the stored bytes.
pub open spec fn decodes(bytes: Option<Seq<u8>>, r: Result<Option<Value>>) -> bool {
    match bytes {
        None => r matches Ok(None),
        Some(b) => match crate::api::value::decoded(b) {
            Ok(v) => r matches Ok(Some(value)) && value@ == v,
            Err(context) => r == Err::<Option<Value>, Error>(
                Error::InvalidValueEncoding { context },
            ),
        },
    }
}

/// What `m` stores for `key`.
pub open spec fn stored(m: Map<Seq<u8>, Seq<u8>>, key: Seq<u8>) -> Option<Seq<u8>> {
    if m.dom().contains(key) {
        Some(m[key])
    } else {
        None
    }
}

/// What a put of the tagged value `value` gives on a tree that stores `m`.
pub open spec fn put_value_gives(
    m: Map<Seq<u8>, Seq<u8>>,
    now: Map<Seq<u8>, Seq<u8>>,
    key: Seq<u8>,
    value: ValueModel,
    fits: bool,
    r: Result<Option<Value>>,
) -> bool {
    let bytes = crate::api::value::encoded(value);
    if r is Ok || r->Err_0 is InvalidValueEncoding {
        &&& key.len() <= 65535 && bytes.len() <= 65535
        &&& !crate::engine::walker::put::clashes(m, key)
        &&& now == m.insert(key, bytes)
        &&& decodes(stored(m, key), r)
    } else {
        put_gives(m, now, key, bytes, fits, Err(r->Err_0))
    }
}

impl Tree<MemoryBackend> {
    /// Open an empty tree in memory, gone with its handle.
    pub fn open_in_memory() -> (r: Result<Self>)
        ensures
            r matches Ok(t) && t.sound() && t.steady() && t@ == Map::<Seq<u8>, Seq<u8>>::empty()
                && t.cfg().data_dir@ == "(in-memory)"@,
    {
        let cfg = TreeConfig::new("(in-memory)");
        Tree::open_with_backend(cfg, MemoryBackend::new())
    }
}

impl<B: Backend> Tree<B> {
    /// Open a tree on `backend`.
    ///
    /// Where the root blob does not exist yet, an empty one is written and
    /// flushed first.
    pub fn open_with_backend(cfg: TreeConfig, backend: B) -> (r: Result<Self>)
        requires
            backend.wf(),
        ensures
            opened(cfg, backend, r),
    {
        let mut store = backend;
        proof {
            a_fresh_root_is_empty();
        }
        match store.has_blob(root_blob_guid()) {
            Ok(true) => {},
            Ok(false) => {
                let ghost asked = store;
                let root: BlobFrame = BlobFrame::init(root_blob_guid(), 0);
                let buf: AlignedBlobBuf = AlignedBlobBuf::from_bytes(root.into_bytes());
                match store.write_blob(root_blob_guid(), &buf) {
                    Ok(()) => {},
                    Err(e) => {
                        assert(root_laid(backend, asked, store, Err::<Self, Error>(e)));
                        return Err(e);
                    },
                }
                let ghost wrote = store;
                match store.flush() {
                    Ok(()) => {},
                    Err(e) => {
                        assert(root_laid(backend, asked, wrote, Err::<Self, Error>(e)));
                        return Err(e);
                    },
                }
                assert(root_laid(
                    backend,
                    asked,
                    wrote,
                    Ok::<Self, Error>(Tree { cfg, backend: store, next_seq: 1 }),
                ));
            },
            Err(e) => {
                return Err(e);
            },
        }
        Ok(Tree { cfg, backend: store, next_seq: 1 })
    }

    /// Look `key` up. Gives the value, or `None` if no leaf matches.
    pub fn get(&mut self, key: &[u8]) -> (r: Result<Option<Vec<u8>>>)
        requires
            old(self).wf(),
        ensures
            final(self).wf(),
            final(self).cfg() == old(self).cfg(),
            final(self).next_seq() == old(self).next_seq(),
            old(self).backend().faithful() ==> {
                &&& final(self).backend().faithful()
                &&& final(self).backend().blobs() == old(self).backend().blobs()
                &&& final(self).backend().durable() == old(self).backend().durable()
                &&& r is Ok ==> old(self).has_root() && got(old(self).image(), key@, r)
            },
            old(self).backend().faithful() && old(self).steady() ==> {
                &&& final(self).steady()
                &&& if old(self).has_root() {
                    got(old(self).image(), key@, r)
                } else {
                    r == Err::<Option<Vec<u8>>, Error>(crate::store::backend::missing_blob())
                }
            },
            match old(self).backend().fault(Call::Read(root_id())) {
                Some(e) => r == Err::<Option<Vec<u8>>, Error>(e),
                None => old(self).backend().faithful() ==> (if old(self).has_root() {
                    got(old(self).image(), key@, r)
                } else {
                    r == Err::<Option<Vec<u8>>, Error>(crate::store::backend::missing_blob())
                }),
            },
            old(self).sound() ==> final(self).sound() && final(self)@ == old(self)@ && (r matches Ok(
                v,
            ) ==> match v {
                Some(b) => old(self)@.dom().contains(key@) && b@ == old(self)@[key@],
                None => !old(self)@.dom().contains(key@),
            }) && (old(self).steady() ==> r is Ok),
    {
        let buf: AlignedBlobBuf = match self.root_image() {
            Ok(buf) => buf,
            Err(e) => {
                return Err(e);
            },
        };
        let frame: BlobFrame = match BlobFrame::wrap(buf.into_bytes()) {
            Ok(f) => f,
            Err(e) => {
                return Err(e);
            },
        };
        proof {
            if old(self).sound() {
                crate::engine::walker::put::lemma_search_valid(old(self).image(), key@);
            }
        }
        get_in_frame(&frame, key)
    }

    /// Insert or replace `(key, value)`. Gives the previous value.
    ///
    /// A key that is a strict prefix of a stored one, or the other way round, is
    /// not supported. A put that fails leaves the tree as it was.
    pub fn put(&mut self, key: &[u8], value: &[u8]) -> (r: Result<Option<Vec<u8>>>)
        requires
            old(self).wf(),
        ensures
            final(self).wf(),
            final(self).cfg() == old(self).cfg(),
            final(self).next_seq() == (if old(self).next_seq() == u64::MAX {
                0
            } else {
                (old(self).next_seq() + 1) as u64
            }),
            old(self).backend().faithful() && r is Ok ==> {
                &&& final(self).backend().faithful()
                &&& old(self).has_root() && final(self).has_root()
                &&& final(self).backend().blobs() == old(self).backend().blobs().insert(
                    root_id(),
                    final(self).image(),
                )
                &&& crate::engine::walker::put::put_result(
                    old(self).image(),
                    final(self).image(),
                    r,
                    key@,
                    value@,
                    old(self).next_seq(),
                )
            },
            old(self).backend().faithful() && old(self).steady() ==> {
                &&& final(self).backend().faithful()
                &&& final(self).steady()
                &&& r is Err ==> final(self).backend().blobs() == old(self).backend().blobs()
                &&& !old(self).has_root() ==> r == Err::<Option<Vec<u8>>, Error>(
                    crate::store::backend::missing_blob(),
                )
                &&& old(self).has_root() && !crate::store::blob_frame::frame_ok(old(self).image())
                    ==> r == Err::<Option<Vec<u8>>, Error>(Error::corrupt("blob frame: bad layout"))
                &&& old(self).has_root() && crate::store::blob_frame::frame_ok(old(self).image())
                    && key@.len() > 65535 ==> r == Err::<Option<Vec<u8>>, Error>(Error::KeyTooLong)
                &&& old(self).has_root() && crate::store::blob_frame::frame_ok(old(self).image())
                    && key@.len() <= 65535 && value@.len() > 65535 ==> r == Err::<
                    Option<Vec<u8>>,
                    Error,
                >(Error::ValueTooLong)
            },
            match old(self).backend().fault(Call::Read(root_id())) {
                Some(e) => r == Err::<Option<Vec<u8>>, Error>(e),
                None => old(self).backend().faithful() ==> (if !old(self).has_root() {
                    r == Err::<Option<Vec<u8>>, Error>(crate::store::backend::missing_blob())
                } else if !crate::store::blob_frame::frame_ok(old(self).image()) {
                    r == Err::<Option<Vec<u8>>, Error>(Error::corrupt("blob frame: bad layout"))
                } else {
                    put_ran(old(self).backend(), key@, value@, old(self).next_seq(), r)
                }),
            },
            old(self).sound() && r is Ok ==> final(self).sound() && put_gives(
                old(self)@,
                final(self)@,
                key@,
                value@,
                fits_root(old(self).image(), key@, value@),
                r,
            ),
            old(self).sound() && old(self).steady() ==> final(self).sound() && put_gives(
                old(self)@,
                final(self)@,
                key@,
                value@,
                fits_root(old(self).image(), key@, value@),
                r,
            ),
    {
        let seq: u64 = self.next_seq;
        self.next_seq = self.next_seq.wrapping_add(1);
        let buf: AlignedBlobBuf = match self.root_image() {
            Ok(buf) => buf,
            Err(e) => {
                return Err(e);
            },
        };
        let mut frame: BlobFrame = match BlobFrame::wrap(buf.into_bytes()) {
            Ok(f) => f,
            Err(e) => {
                return Err(e);
            },
        };
        let ghost read = self.backend;
        let tried = put_in_frame(&mut frame, key, value, seq);
        let ghost image = frame@;
        let ghost b0 = old(self).backend();
        let previous: Option<Vec<u8>> = match tried {
            Ok(p) => p,
            Err(e) => {
                let failed: Result<Option<Vec<u8>>> = Err(e);
                proof {
                    if b0.faithful() {
                        lemma_put_ran(b0, read, image, failed, key@, value@, seq, failed);
                    }
                }
                return failed;
            },
        };
        let out: AlignedBlobBuf = AlignedBlobBuf::from_bytes(frame.into_bytes());
        match self.backend.write_blob(root_blob_guid(), &out) {
            Ok(()) => {},
            Err(e) => {
                let failed: Result<Option<Vec<u8>>> = Err(e);
                proof {
                    if b0.faithful() {
                        lemma_put_ran(b0, read, image, tried, key@, value@, seq, failed);
                    }
                }
                return failed;
            },
        }
        proof {
            if b0.faithful() {
                lemma_put_ran(b0, read, image, tried, key@, value@, seq, tried);
            }
        }
        Ok(previous)
    }

    /// Insert or replace `key` with an inline payload.
    pub fn put_inline(&mut self, key: &[u8], data: &[u8]) -> (r: Result<Option<Value>>)
        requires
            old(self).wf(),
        ensures
            final(self).wf(),
            final(self).cfg() == old(self).cfg(),
            final(self).next_seq() == crate::store::buffer_manager::ticked(old(self).next_seq()),
            old(self).backend().fault(Call::Read(root_id())) matches Some(e) ==> r == Err::<
                Option<Value>,
                Error,
            >(e),
            old(self).sound() && (r is Ok || old(self).steady()) ==> final(self).sound()
                && put_value_gives(
                old(self)@,
                final(self)@,
                key@,
                ValueModel::Inline(data@),
                fits_root(
                    old(self).image(),
                    key@,
                    crate::api::value::encoded(ValueModel::Inline(data@)),
                ),
                r,
            ),
            old(self).backend().faithful() && old(self).steady() ==> final(self).backend().faithful() && final(self).steady(),
    {
        self.put_value(key, &Value::Inline(vstd::slice::slice_to_vec(data)))
    }

    /// Insert or replace `key` with an external reference: an opaque URL, which
    /// the caller resolves.
    pub fn put_ref(&mut self, key: &[u8], url: &str) -> (r: Result<Option<Value>>)
        requires
            old(self).wf(),
        ensures
            final(self).wf(),
            final(self).cfg() == old(self).cfg(),
            final(self).next_seq() == crate::store::buffer_manager::ticked(old(self).next_seq()),
            old(self).backend().fault(Call::Read(root_id())) matches Some(e) ==> r == Err::<
                Option<Value>,
                Error,
            >(e),
            old(self).sound() && (r is Ok || old(self).steady()) ==> final(self).sound()
                && put_value_gives(
                old(self)@,
                final(self)@,
                key@,
                ValueModel::External(url@),
                fits_root(
                    old(self).image(),
                    key@,
                    crate::api::value::encoded(ValueModel::External(url@)),
                ),
                r,
            ),
            old(self).backend().faithful() && old(self).steady() ==> final(self).backend().faithful() && final(self).steady(),
    {
        self.put_value(key, &Value::External(url.to_owned()))
    }

    /// Insert or replace `key` with a tagged value. Gives the previous one.
    ///
    /// The put is done even where the bytes stored before are no tagged value.
    pub fn put_value(&mut self, key: &[u8], value: &Value) -> (r: Result<Option<Value>>)
        requires
            old(self).wf(),
        ensures
            final(self).wf(),
            final(self).cfg() == old(self).cfg(),
            final(self).next_seq() == crate::store::buffer_manager::ticked(old(self).next_seq()),
            old(self).backend().fault(Call::Read(root_id())) matches Some(e) ==> r == Err::<
                Option<Value>,
                Error,
            >(e),
            old(self).sound() && (r is Ok || old(self).steady()) ==> final(self).sound()
                && put_value_gives(
                old(self)@,
                final(self)@,
                key@,
                value@,
                fits_root(old(self).image(), key@, crate::api::value::encoded(value@)),
                r,
            ),
            old(self).backend().faithful() && old(self).steady() ==> final(self).backend().faithful() && final(self).steady(),
    {
        let encoded: Vec<u8> = value.encode();
        match self.put(key, encoded.as_slice()) {
            Ok(Some(bytes)) => match Value::decode(bytes.as_slice()) {
                Ok(v) => Ok(Some(v)),
                Err(e) => Err(e),
            },
            Ok(None) => Ok(None),
            Err(e) => Err(e),
        }
    }

    /// Look `key` up as a tagged value.
    pub fn get_value(&mut self, key: &[u8]) -> (r: Result<Option<Value>>)
        requires
            old(self).wf(),
        ensures
            final(self).wf(),
            final(self).cfg() == old(self).cfg(),
            final(self).next_seq() == old(self).next_seq(),
            old(self).backend().fault(Call::Read(root_id())) matches Some(e) ==> r == Err::<
                Option<Value>,
                Error,
            >(e),
            old(self).backend().faithful() ==> {
                &&& final(self).backend().faithful()
                &&& final(self).backend().blobs() == old(self).backend().blobs()
                &&& final(self).backend().durable() == old(self).backend().durable()
            },
            old(self).sound() ==> final(self).sound() && final(self)@ == old(self)@,
            old(self).sound() && (r is Ok || old(self).steady()) ==> decodes(
                stored(old(self)@, key@),
                r,
            ),
            old(self).backend().faithful() && old(self).steady() ==> final(self).steady(),
    {
        match self.get(key) {
            Ok(Some(bytes)) => match Value::decode(bytes.as_slice()) {
                Ok(v) => Ok(Some(v)),
                Err(e) => Err(e),
            },
            Ok(None) => Ok(None),
            Err(e) => Err(e),
        }
    }

    /// Remove `key`. Not supported.
    pub fn delete(&mut self, _key: &[u8]) -> (r: Result<Option<Vec<u8>>>)
        ensures
            *final(self) == *old(self),
            r == Err::<Option<Vec<u8>>, Error>(
                Error::NotYetImplemented("Tree::delete — Stage 2c"),
            ),
    {
        Err(Error::NotYetImplemented("Tree::delete — Stage 2c"))
    }

    /// Rename a key inside the tree. Not supported.
    pub fn rename(&mut self, _src: &[u8], _dst: &[u8], _force: bool) -> (r: Result<()>)
        ensures
            *final(self) == *old(self),
            r == Err::<(), Error>(Error::NotYetImplemented("Tree::rename — Stage 2c")),
    {
        Err(Error::NotYetImplemented("Tree::rename — Stage 2c"))
    }

    /// Flush every write made so far through the backend: all of them are durable
    /// then.
    pub fn checkpoint(&mut self) -> (r: Result<()>)
        requires
            old(self).wf(),
        ensures
            final(self).wf(),
            final(self).cfg() == old(self).cfg(),
            final(self).next_seq() == old(self).next_seq(),
            old(self).backend().faithful() ==> final(self).backend().faithful() && final(self).backend().blobs() == old(self).backend().blobs(),
            old(self).backend().faithful() && r is Ok ==> final(self).backend().durable() == old(
                self).backend().blobs(),
            r == crate::store::backend::outcome(old(self).backend().fault(Call::Flush)),
            old(self).backend().faithful() && old(self).steady() ==> final(self).steady() && r
                is Ok,
    {
        self.backend.flush()
    }

    /// The active configuration.
    #[must_use]
    pub fn config(&self) -> (cfg: &TreeConfig)
        ensures
            *cfg == self.cfg(),
    {
        &self.cfg
    }

    /// Bytes that one blob frame takes.
    #[must_use]
    pub fn page_size() -> (n: u32)
        ensures
            n == PAGE_SIZE,
    {
        PAGE_SIZE
    }

    /// The bytes of the root blob.
    pub fn root_image(&mut self) -> (r: Result<AlignedBlobBuf>)
        requires
            old(self).wf(),
        ensures
            final(self).wf(),
            final(self).cfg() == old(self).cfg(),
            final(self).next_seq() == old(self).next_seq(),
            r matches Ok(buf) ==> buf@.len() == PAGE_SIZE,
            old(self).backend().faithful() ==> {
                &&& final(self).backend().faithful()
                &&& final(self).backend().blobs() == old(self).backend().blobs()
                &&& final(self).backend().durable() == old(self).backend().durable()
                &&& r matches Ok(buf) ==> old(self).has_root() && buf@ == old(self).image()
            },
            match old(self).backend().fault(Call::Read(root_id())) {
                Some(e) => r == Err::<AlignedBlobBuf, Error>(e),
                None => old(self).backend().faithful() ==> (if old(self).has_root() {
                    r is Ok
                } else {
                    r == Err::<AlignedBlobBuf, Error>(crate::store::backend::missing_blob())
                }),
            },
            old(self).backend().faithful() && old(self).steady() ==> {
                &&& final(self).steady()
                &&& old(self).has_root() ==> r is Ok
                &&& !old(self).has_root() ==> r == Err::<AlignedBlobBuf, Error>(
                    crate::store::backend::missing_blob(),
                )
            },
    {
        let mut buf: AlignedBlobBuf = AlignedBlobBuf::zeroed();
        match self.backend.read_blob(root_blob_guid(), &mut buf) {
            Ok(()) => Ok(buf),
            Err(e) => Err(e),
        }
    }

    /// Give the backend back.
    pub fn into_backend(self) -> (backend: B)
        ensures
            backend == self.backend(),
    {
        self.backend
    }
}

// ---------- laws ----------

/// A put is read back, and nothing else changes.
pub proof fn a_put_is_read_back(
    m: Map<Seq<u8>, Seq<u8>>,
    now: Map<Seq<u8>, Seq<u8>>,
    key: Seq<u8>,
    value: Seq<u8>,
    fits: bool,
    r: Result<Option<Vec<u8>>>,
    other: Seq<u8>,
)
    requires
        put_gives(m, now, key, value, fits, r),
    ensures
        r is Ok ==> stored(now, key) == Some(value),
        r is Err ==> stored(now, key) == stored(m, key),
        other != key ==> stored(now, other) == stored(m, other),
{
}

/// A put of a key and a value that are not too long, where no stored key stands
/// in the strict-prefix relation to the key, succeeds if it fits and finds no
/// space if it does not.
pub proof fn a_put_that_fits_succeeds(
    m: Map<Seq<u8>, Seq<u8>>,
    now: Map<Seq<u8>, Seq<u8>>,
    key: Seq<u8>,
    value: Seq<u8>,
    fits: bool,
    r: Result<Option<Vec<u8>>>,
)
    requires
        put_gives(m, now, key, value, fits, r),
        key.len() <= 65535,
        value.len() <= 65535,
        !crate::engine::walker::put::clashes(m, key),
    ensures
        fits ==> r is Ok,
        !fits ==> r == Err::<Option<Vec<u8>>, Error>(Error::OutOfSpace),
{
}

/// A put into a tree whose root blob is `img` succeeds where the key clashes with
/// none that is stored and `img` has room for the leaf, for one inner node per
/// byte of the key and for 672 bytes and four slots besides.
pub proof fn a_put_with_room_succeeds(
    img: Seq<u8>,
    m: Map<Seq<u8>, Seq<u8>>,
    now: Map<Seq<u8>, Seq<u8>>,
    key: Seq<u8>,
    value: Seq<u8>,
    r: Result<Option<Vec<u8>>>,
)
    requires
        put_gives(m, now, key, value, fits_root(img, key, value), r),
        key.len() <= 65535,
        value.len() <= 65535,
        forall|k: Seq<u8>| #[trigger]
            m.dom().contains(k) && k != key ==> !k.is_prefix_of(key) && !key.is_prefix_of(k),
        crate::store::blob_frame::bump_of(img) + (key.len() + value.len() + 24) + 520 * key.len()
            + 672 <= 524288,
        crate::store::blob_frame::slots_of(img) + key.len() + 4 <= 10240,
    ensures
        r is Ok,
        now.dom().contains(key) && now[key] == value,
        forall|k: Seq<u8>|
            k != key ==> (#[trigger] now.dom().contains(k) == m.dom().contains(k)) && (
            m.dom().contains(k) ==> now[k] == m[k]),
{
    crate::engine::walker::put::a_put_takes_bounded_room(img, key, value);
    crate::layout::leaf::leaf_size_is_tight(key.len() as int, value.len() as int);
}

/// A tagged value is read back with its tag.
pub proof fn a_tagged_value_is_read_back(
    m: Map<Seq<u8>, Seq<u8>>,
    now: Map<Seq<u8>, Seq<u8>>,
    key: Seq<u8>,
    value: ValueModel,
    fits: bool,
    put: Result<Option<Value>>,
    got: Result<Option<Value>>,
)
    requires
        put_value_gives(m, now, key, value, fits, put),
        put is Ok,
        decodes(stored(now, key), got),
    ensures
        got matches Ok(Some(v)) && v@ == value,
{
    crate::api::value::decode_inverts_encode(value);
}

/// Opening a tree again on its backend finds what it stored.
pub proof fn reopening_keeps_the_entries<B: Backend>(
    t: Tree<B>,
    cfg: TreeConfig,
    again: Result<Tree<B>>,
)
    requires
        t.sound(),
        t.steady(),
        opened(cfg, t.backend(), again),
    ensures
        again matches Ok(t2) && t2.sound() && t2@ == t@,
{
}

/// After a checkpoint, opening a tree on what outlived a crash finds all that was
/// stored.
pub proof fn a_checkpoint_outlives_a_crash<B: Backend>(
    t: Tree<B>,
    left: B,
    cfg: TreeConfig,
    again: Result<Tree<B>>,
)
    requires
        t.sound(),
        t.backend().durable() == t.backend().blobs(),
        left.wf(),
        left.faithful(),
        left.steady(),
        left.blobs() == t.backend().durable(),
        opened(cfg, left, again),
    ensures
        again matches Ok(t2) && t2.sound() && t2@ == t@,
{
}

/// No stored key of a tree is a strict prefix of another.
pub proof fn tree_keys_are_prefix_free<B: Backend>(t: Tree<B>, k1: Seq<u8>, k2: Seq<u8>)
    requires
        t.sound(),
        t@.dom().contains(k1),
        t@.dom().contains(k2),
        k1.is_prefix_of(k2),
    ensures
        k1 == k2,
{
    crate::engine::walker::put::stored_keys_are_prefix_free(t.image(), k1, k2);
}

/// A put gives the value that was stored before, and none where there was none.
pub proof fn a_put_gives_the_previous_value(
    m: Map<Seq<u8>, Seq<u8>>,
    m1: Map<Seq<u8>, Seq<u8>>,
    m2: Map<Seq<u8>, Seq<u8>>,
    key: Seq<u8>,
    first: Seq<u8>,
    second: Seq<u8>,
    fits1: bool,
    fits2: bool,
    r1: Option<Vec<u8>>,
    r2: Option<Vec<u8>>,
)
    requires
        put_gives(m, m1, key, first, fits1, Ok(r1)),
        put_gives(m1, m2, key, second, fits2, Ok(r2)),
    ensures
        r2 is Some && r2->0@ == first,
        m2.dom().contains(key) && m2[key] == second,
        (r1 is Some) == m.dom().contains(key),
        r1 is Some ==> r1->0@ == m[key],
{
}

/// A put fails for what is too long, for a stored key in the strict-prefix relation
/// to its own, or for want of space, and for nothing else; it changes nothing then.
pub proof fn a_put_says_why_it_fails(
    m: Map<Seq<u8>, Seq<u8>>,
    now: Map<Seq<u8>, Seq<u8>>,
    key: Seq<u8>,
    value: Seq<u8>,
    fits: bool,
    r: Result<Option<Vec<u8>>>,
    k: Seq<u8>,
)
    requires
        put_gives(m, now, key, value, fits, r),
    ensures
        r == Err::<Option<Vec<u8>>, Error>(Error::KeyTooLong) <==> key.len() > 65535,
        r == Err::<Option<Vec<u8>>, Error>(Error::ValueTooLong) <==> key.len() <= 65535
            && value.len() > 65535,
        r matches Err(Error::NotYetImplemented(_)) ==> exists|x: Seq<u8>| #[trigger]
            m.dom().contains(x) && x != key && (x.is_prefix_of(key) || key.is_prefix_of(x)),
        m.dom().contains(k) && k != key && (k.is_prefix_of(key) || key.is_prefix_of(k)) ==> r
            is Err,
        r is Err ==> now == m,
{
    if m.dom().contains(k) && k != key && (k.is_prefix_of(key) || key.is_prefix_of(k)) {
        assert(crate::engine::walker::insert::prefix_related(k, key));
        assert(crate::engine::walker::put::clashes(m, key));
    }
    if r matches Err(Error::NotYetImplemented(_)) {
        let x = choose|x: Seq<u8>| #[trigger]
            m.dom().contains(x) && crate::engine::walker::insert::prefix_related(x, key);
        assert(m.dom().contains(x));
    }
}

/// A get from a valid root gives what is stored, byte for byte, and nothing for a
/// key that is not; from bytes that are no frame it gives an error.
pub proof fn a_get_gives_what_is_stored(
    img: Seq<u8>,
    key: Seq<u8>,
    r: Result<Option<Vec<u8>>>,
)
    requires
        got(img, key, r),
    ensures
        crate::engine::walker::laws::valid_tree(img) ==> {
            &&& r is Ok
            &&& (r->Ok_0 is Some) == crate::engine::walker::put::entries(img).dom().contains(key)
            &&& r->Ok_0 is Some ==> r->Ok_0->0@ == crate::engine::walker::put::entries(img)[key]
        },
        !crate::store::blob_frame::frame_ok(img) ==> r is Err,
{
    if crate::engine::walker::laws::valid_tree(img) {
        crate::engine::walker::put::lemma_search_valid(img, key);
    }
}

/// The second put of a tagged value gives the first one back, with its tag.
pub proof fn a_tagged_put_gives_the_previous_value(
    m: Map<Seq<u8>, Seq<u8>>,
    m1: Map<Seq<u8>, Seq<u8>>,
    m2: Map<Seq<u8>, Seq<u8>>,
    key: Seq<u8>,
    first: ValueModel,
    second: ValueModel,
    fits1: bool,
    fits2: bool,
    r1: Result<Option<Value>>,
    r2: Result<Option<Value>>,
)
    requires
        put_value_gives(m, m1, key, first, fits1, r1),
        put_value_gives(m1, m2, key, second, fits2, r2),
        r1 is Ok,
        r2 is Ok,
    ensures
        r2->Ok_0 is Some && r2->Ok_0->0@ == first,
        !m.dom().contains(key) ==> r1->Ok_0 is None,
{
    crate::api::value::decode_inverts_encode(first);
}

/// A tagged value takes one byte more than its body, so one of up to 65534 bytes is
/// not too long; an untagged value that was stored before is no reason to fail the
/// put, only its answer.
pub proof fn a_tagged_put_is_done(
    m: Map<Seq<u8>, Seq<u8>>,
    now: Map<Seq<u8>, Seq<u8>>,
    key: Seq<u8>,
    data: Seq<u8>,
    fits: bool,
    r: Result<Option<Value>>,
)
    requires
        put_value_gives(m, now, key, ValueModel::Inline(data), fits, r),
    ensures
        data.len() <= 65534 && key.len() <= 65535 ==> !(r matches Err(Error::ValueTooLong)) && !(
        r matches Err(Error::KeyTooLong)),
        data.len() > 65534 && key.len() <= 65535 ==> r == Err::<Option<Value>, Error>(
            Error::ValueTooLong,
        ),
        r is Ok || r->Err_0 is InvalidValueEncoding ==> now.dom().contains(key) && now[key].len()
            == data.len() + 1 && now[key][0] == 0 && now[key].subrange(
            1,
            now[key].len() as int,
        ) == data,
        r is Err && !(r->Err_0 is InvalidValueEncoding) ==> now == m,
        r matches Err(Error::InvalidValueEncoding { context }) ==> m.dom().contains(key) && (
        m[key].len() == 0 || m[key][0] != 0),
{
    crate::api::value::the_first_byte_tells_the_kind(ValueModel::Inline(data), m[key]);
}

/// A tree that is opened on a backend without a root is empty and durable, and it
/// touches no other blob; one that is opened on a backend with a root changes
/// nothing.
pub proof fn opening_lays_a_root_once<B: Backend>(
    cfg: TreeConfig,
    backend: B,
    r: Result<Tree<B>>,
    id: u128,
    key: Seq<u8>,
)
    requires
        backend.faithful(),
        backend.steady(),
        opened(cfg, backend, r),
    ensures
        r is Ok,
        r->Ok_0.cfg() == cfg,
        r->Ok_0.has_root(),
        id != root_id() || backend.blobs().dom().contains(root_id()) ==> (
        r->Ok_0.backend().blobs().dom().contains(id) == backend.blobs().dom().contains(id)) && (
        backend.blobs().dom().contains(id) ==> r->Ok_0.backend().blobs()[id] == backend.blobs()[id]),
        !backend.blobs().dom().contains(root_id()) ==> !r->Ok_0@.dom().contains(key)
            && r->Ok_0.backend().durable() == r->Ok_0.backend().blobs(),
{
}

/// The root blob is the one whose guid is all zeros.
pub proof fn the_root_has_the_zero_guid(guid: BlobGuid)
    requires
        forall|i: int| 0 <= i < 16 ==> #[trigger] guid@[i] == 0,
    ensures
        root_bytes() == guid@,
        root_id() == crate::layout::guid_id(guid),
{
    assert(root_bytes() =~= guid@);
}

/// A put that fails in the image is answered with that failure. One that succeeds
/// there is written back, and the backend's fault, where it has one, is the answer.
pub proof fn a_put_hands_a_fault_on<B: Backend>(
    backend: B,
    read: B,
    image: Seq<u8>,
    tried: Result<Option<Vec<u8>>>,
    key: Seq<u8>,
    value: Seq<u8>,
    seq: u64,
    r: Result<Option<Vec<u8>>>,
)
    requires
        put_runs(backend, read, image, tried, key, value, seq, r),
    ensures
        tried is Err ==> r == tried,
        tried is Ok && read.fault(Call::Write(root_id())) is None ==> r == tried,
        tried is Ok && read.fault(Call::Write(root_id())) is Some ==> r == Err::<
            Option<Vec<u8>>,
            Error,
        >(read.fault(Call::Write(root_id()))->0),
        key.len() > 65535 ==> r == Err::<Option<Vec<u8>>, Error>(Error::KeyTooLong),
{
}

} // verus!
