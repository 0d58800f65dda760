//! Checkpoint image: a serialized point-in-time image of a whole database,
//! that is every live family's key/values plus the applied log index the image
//! reflects.
//!
//! Layout (little-endian):
//! ```text
//!   magic[8] "holtckp1" | applied_index:u64 | family_count:u32
//!   family*: name_len:u32 name | block_len:u32 block
//!   block = (key_len:u32 key  val_len:u32 val)*
//! ```
use vstd::prelude::*;
use vstd::slice::slice_subrange;

use crate::api::errors::{Error, Result};
use crate::bytes::{push_slice, push_u32, push_u64, read_u32, read_u64};

verus! {

/// Bytes of the fixed header.
pub const HEADER_LEN: usize = 20;

// ---------- what an image holds ----------

/// The eight bytes every image starts with: `holtckp1`.
pub open spec fn magic() -> Seq<u8> {
    seq![0x68u8, 0x6f, 0x6c, 0x74, 0x63, 0x6b, 0x70, 0x31]
}

/// One key with its value.
pub struct KvModel {
    pub key: Seq<u8>,
    pub value: Seq<u8>,
}

/// One family: its name and its key/values in order.
pub struct FamilyModel {
    pub name: Seq<u8>,
    pub kvs: Seq<KvModel>,
}

/// A whole checkpoint.
pub struct ImageModel {
    pub applied_index: u64,
    pub families: Seq<FamilyModel>,
}

/// A length-prefixed byte string. The prefix holds the low 32 bits of the length.
pub open spec fn sized_bytes(s: Seq<u8>) -> Seq<u8> {
    crate::bytes::u32_bytes(s.len() as int % 0x1_0000_0000) + s
}

/// One encoded key/value.
pub open spec fn kv_bytes(key: Seq<u8>, value: Seq<u8>) -> Seq<u8> {
    sized_bytes(key) + sized_bytes(value)
}

/// The block of a family: its key/values one behind the other.
pub open spec fn block_bytes(kvs: Seq<KvModel>) -> Seq<u8>
    decreases kvs.len(),
{
    if kvs.len() == 0 {
        Seq::empty()
    } else {
        kv_bytes(kvs[0].key, kvs[0].value) + block_bytes(kvs.skip(1))
    }
}

/// The encoded families one behind the other.
pub open spec fn families_bytes(families: Seq<FamilyModel>) -> Seq<u8>
    decreases families.len(),
{
    if families.len() == 0 {
        Seq::empty()
    } else {
        sized_bytes(families[0].name) + sized_bytes(block_bytes(families[0].kvs)) + families_bytes(
            families.skip(1),
        )
    }
}

/// The fixed header.
pub open spec fn header_bytes(applied_index: u64, family_count: u32) -> Seq<u8> {
    magic() + crate::bytes::u64_bytes(applied_index as int) + crate::bytes::u32_bytes(
        family_count as int,
    )
}

/// The bytes of a whole checkpoint.
pub open spec fn image_bytes(image: ImageModel) -> Seq<u8> {
    header_bytes(image.applied_index, image.families.len() as u32) + families_bytes(image.families)
}

/// Whether every length of the image fits its 32-bit field.
pub open spec fn encodable(image: ImageModel) -> bool {
    &&& image.families.len() <= u32::MAX
    &&& forall|i: int|
        0 <= i < image.families.len() ==> {
            &&& (#[trigger] image.families[i]).name.len() <= u32::MAX
            &&& block_bytes(image.families[i].kvs).len() <= u32::MAX
        }
}

// ---------- what decoding gives ----------

/// The byte string that starts at `off`, and the offset behind it.
pub open spec fn taken(bytes: Seq<u8>, off: int) -> core::result::Result<(Seq<u8>, int), &'static str> {
    if off + 4 > bytes.len() {
        Err("checkpoint image: truncated length")
    } else if off + 4 + crate::bytes::le32(bytes, off) > bytes.len() {
        Err("checkpoint image: truncated body")
    } else {
        let end = off + 4 + crate::bytes::le32(bytes, off);
        Ok((bytes.subrange(off + 4, end), end))
    }
}

/// The key/values from `off` to the end of a block.
pub open spec fn block_kvs(block: Seq<u8>, off: int) -> core::result::Result<
    Seq<KvModel>,
    &'static str,
>
    decreases block.len() - off,
{
    if off >= block.len() || off < 0 {
        Ok(Seq::empty())
    } else {
        match taken(block, off) {
            Err(what) => Err(what),
            Ok((key, mid)) => match taken(block, mid) {
                Err(what) => Err(what),
                Ok((value, end)) => match block_kvs(block, end) {
                    Err(what) => Err(what),
                    Ok(rest) => Ok(seq![KvModel { key, value }] + rest),
                },
            },
        }
    }
}

/// `count` families from `off`, and the offset behind them.
pub open spec fn families_at(bytes: Seq<u8>, off: int, count: nat) -> core::result::Result<
    (Seq<FamilyModel>, int),
    &'static str,
>
    decreases count,
{
    if count == 0 {
        Ok((Seq::empty(), off))
    } else {
        match taken(bytes, off) {
            Err(what) => Err(what),
            Ok((name, mid)) => match taken(bytes, mid) {
                Err(what) => Err(what),
                Ok((block, end)) => match block_kvs(block, 0) {
                    Err(what) => Err(what),
                    Ok(kvs) => match families_at(bytes, end, (count - 1) as nat) {
                        Err(what) => Err(what),
                        Ok((rest, last)) => Ok((seq![FamilyModel { name, kvs }] + rest, last)),
                    },
                },
            },
        }
    }
}

/// Whether the bytes start with a complete header.
pub open spec fn has_header(bytes: Seq<u8>) -> bool {
    bytes.len() >= 20 && bytes.subrange(0, 8) == magic()
}

/// The image that `bytes` hold, or what is wrong with them.
pub open spec fn decoded(bytes: Seq<u8>) -> core::result::Result<ImageModel, &'static str> {
    if !has_header(bytes) {
        Err("checkpoint image: bad magic or truncated header")
    } else {
        match families_at(bytes, 20, crate::bytes::le32(bytes, 16) as nat) {
            Err(what) => Err(what),
            Ok((families, end)) => if end != bytes.len() {
                Err("checkpoint image: trailing bytes")
            } else {
                Ok(ImageModel { applied_index: crate::bytes::le64(bytes, 8) as u64, families })
            },
        }
    }
}

// ---------- the image type ----------

/// A serialized whole-database checkpoint.
#[derive(Debug, Clone)]
pub struct CheckpointImage {
    bytes: Vec<u8>,
}

impl View for CheckpointImage {
    type V = Seq<u8>;

    closed spec fn view(&self) -> Seq<u8> {
        self.bytes@
    }
}

impl CheckpointImage {
    /// Wrap raw checkpoint bytes.
    pub fn from_bytes(bytes: Vec<u8>) -> (image: Self)
        ensures
            image@ == bytes@,
    {
        CheckpointImage { bytes }
    }

    /// The serialized bytes.
    pub fn as_bytes(&self) -> (bytes: &[u8])
        ensures
            bytes@ == self@,
    {
        self.bytes.as_slice()
    }

    /// Consume into the raw bytes.
    pub fn into_bytes(self) -> (bytes: Vec<u8>)
        ensures
            bytes@ == self@,
    {
        self.bytes
    }

    /// The applied log index this checkpoint reflects. Reads the header only.
    pub fn applied_index(&self) -> (r: Result<u64>)
        ensures
            r is Ok <==> has_header(self@),
            r matches Ok(index) ==> index == crate::bytes::le64(self@, 8),
            r matches Err(e) ==> e == Error::corrupt(
                "checkpoint image: bad magic or truncated header",
            ),
    {
        match parse_header(self.bytes.as_slice()) {
            Ok((applied_index, _)) => Ok(applied_index),
            Err(e) => Err(e),
        }
    }

    /// Validate the complete image and return its applied index.
    ///
    /// Unlike [`CheckpointImage::applied_index`] this walks every family and
    /// key/value block, so truncated bodies, trailing bytes and malformed
    /// length prefixes are caught.
    pub fn validate(&self) -> (r: Result<u64>)
        ensures
            r == match decoded(self@) {
                Ok(image) => Ok::<u64, Error>(image.applied_index),
                Err(what) => Err(Error::corrupt(what)),
            },
    {
        match decode(self.bytes.as_slice()) {
            Ok(d) => Ok(d.applied_index),
            Err(e) => Err(e),
        }
    }

    /// Wrap bytes that the encoder below produced.
    pub fn from_raw(bytes: Vec<u8>) -> (image: Self)
        ensures
            image@ == bytes@,
    {
        CheckpointImage { bytes }
    }
}

// ---------- encode ----------

/// Append `s` behind the low 32 bits of its length.
fn push_sized(out: &mut Vec<u8>, s: &[u8])
    ensures
        final(out)@ == old(out)@ + sized_bytes(s@),
{
    let len: u32 = (s.len() as u64 % 0x1_0000_0000) as u32;
    push_u32(out, len);
    push_slice(out, s);
    assert(out@ =~= old(out)@ + sized_bytes(s@));
}

/// Start a checkpoint buffer with the header. Families are appended with
/// [`put_family`].
pub fn begin(applied_index: u64, family_count: u32) -> (buf: Vec<u8>)
    ensures
        buf@ == header_bytes(applied_index, family_count),
{
    let mut buf: Vec<u8> = Vec::with_capacity(HEADER_LEN);
    let magic_bytes: [u8; 8] = [0x68, 0x6f, 0x6c, 0x74, 0x63, 0x6b, 0x70, 0x31];
    push_slice(&mut buf, magic_bytes.as_slice());
    push_u64(&mut buf, applied_index);
    push_u32(&mut buf, family_count);
    assert(magic_bytes@ =~= magic());
    assert(buf@ =~= header_bytes(applied_index, family_count));
    buf
}

/// Append a length-prefixed key/value to a family `block`.
pub fn put_kv(block: &mut Vec<u8>, key: &[u8], value: &[u8])
    ensures
        final(block)@ == old(block)@ + kv_bytes(key@, value@),
{
    push_sized(block, key);
    push_sized(block, value);
    assert(block@ =~= old(block)@ + kv_bytes(key@, value@));
}

/// Append a family (name and key/value block) to the buffer.
pub fn put_family(buf: &mut Vec<u8>, name: &[u8], block: &[u8])
    ensures
        final(buf)@ == old(buf)@ + (sized_bytes(name@) + sized_bytes(block@)),
{
    push_sized(buf, name);
    push_sized(buf, block);
    assert(buf@ =~= old(buf)@ + (sized_bytes(name@) + sized_bytes(block@)));
}

// ---------- decode ----------

fn corrupt(what: &'static str) -> (e: Error)
    ensures
        e == Error::corrupt(what),
{
    Error::node_corrupt(what)
}

/// The applied index and the family count of the header.
pub fn parse_header(bytes: &[u8]) -> (r: Result<(u64, u32)>)
    ensures
        r is Ok <==> has_header(bytes@),
        r matches Ok(h) ==> h.0 == crate::bytes::le64(bytes@, 8) && h.1 == crate::bytes::le32(
            bytes@,
            16,
        ),
        r matches Err(e) ==> e == Error::corrupt("checkpoint image: bad magic or truncated header"),
{
    let magic_bytes: [u8; 8] = [0x68, 0x6f, 0x6c, 0x74, 0x63, 0x6b, 0x70, 0x31];
    assert(magic_bytes@ =~= magic());
    if bytes.len() < HEADER_LEN || !crate::bytes::same_bytes(
        slice_subrange(bytes, 0, 8),
        magic_bytes.as_slice(),
    ) {
        return Err(corrupt("checkpoint image: bad magic or truncated header"));
    }
    let applied_index: u64 = read_u64(bytes, 8);
    let family_count: u32 = read_u32(bytes, 16);
    Ok((applied_index, family_count))
}

/// Read a `u32` length and that many bytes at `*off`, advancing `*off`.
pub fn take<'a>(bytes: &'a [u8], off: &mut usize) -> (r: Result<&'a [u8]>)
    ensures
        match taken(bytes@, *old(off) as int) {
            Ok((s, end)) => r is Ok && r->Ok_0@ == s && *final(off) == end,
            Err(what) => r == Err::<&'a [u8], Error>(Error::corrupt(what)) && *final(off) == *old(off),
        },
{
    let start: usize = *off;
    if start > bytes.len() || bytes.len() - start < 4 {
        return Err(corrupt("checkpoint image: truncated length"));
    }
    let len: u32 = read_u32(bytes, start);
    let data_start: usize = start + 4;
    if len as u64 > (bytes.len() - data_start) as u64 {
        return Err(corrupt("checkpoint image: truncated body"));
    }
    let data_end: usize = data_start + len as usize;
    *off = data_end;
    Ok(slice_subrange(bytes, data_start, data_end))
}

/// One key/value pair borrowed from the image.
pub type Kv<'a> = (&'a [u8], &'a [u8]);

/// One decoded family, borrowed from the image.
pub type Family<'a> = (&'a [u8], Vec<Kv<'a>>);

/// Decoded view of a checkpoint. Borrows the image bytes.
pub struct Decoded<'a> {
    pub applied_index: u64,
    pub families: Vec<Family<'a>>,
}

/// The key/values that a list of borrowed pairs stands for.
pub open spec fn kvs_view(kvs: Seq<Kv<'_>>) -> Seq<KvModel> {
    Seq::new(kvs.len(), |i: int| KvModel { key: kvs[i].0@, value: kvs[i].1@ })
}

/// The families that a list of borrowed families stands for.
pub open spec fn families_view(families: Seq<Family<'_>>) -> Seq<FamilyModel> {
    Seq::new(
        families.len(),
        |i: int| FamilyModel { name: families[i].0@, kvs: kvs_view(families[i].1@) },
    )
}

impl<'a> View for Decoded<'a> {
    type V = ImageModel;

    open spec fn view(&self) -> ImageModel {
        ImageModel {
            applied_index: self.applied_index,
            families: families_view(self.families@),
        }
    }
}

/// Prepend what a loop has collected to what is still to come.
spec fn after_kvs(done: Seq<KvModel>, rest: core::result::Result<Seq<KvModel>, &'static str>) -> core::result::Result<
    Seq<KvModel>,
    &'static str,
> {
    match rest {
        Err(what) => Err(what),
        Ok(kvs) => Ok(done + kvs),
    }
}

spec fn after_families(
    done: Seq<FamilyModel>,
    rest: core::result::Result<(Seq<FamilyModel>, int), &'static str>,
) -> core::result::Result<(Seq<FamilyModel>, int), &'static str> {
    match rest {
        Err(what) => Err(what),
        Ok((families, end)) => Ok((done + families, end)),
    }
}

/// Decode one family block into borrowed key/value pairs.
fn decode_block<'a>(block: &'a [u8]) -> (r: Result<Vec<Kv<'a>>>)
    ensures
        match block_kvs(block@, 0) {
            Ok(kvs) => r is Ok && kvs_view(r->Ok_0@) == kvs,
            Err(what) => r == Err::<Vec<Kv<'a>>, Error>(Error::corrupt(what)),
        },
{
    let mut kv: Vec<Kv<'a>> = Vec::new();
    let mut boff: usize = 0;
    proof {
        lemma_after_nothing(block@);
        assert(kvs_view(kv@) =~= Seq::empty());
    }
    while boff < block.len()
        invariant
            boff <= block@.len(),
            block_kvs(block@, 0) == after_kvs(kvs_view(kv@), block_kvs(block@, boff as int)),
        decreases block@.len() - boff,
    {
        let ghost before = kvs_view(kv@);
        let ghost start = boff as int;
        let key = match take(block, &mut boff) {
            Ok(k) => k,
            Err(e) => {
                return Err(e);
            },
        };
        let value = match take(block, &mut boff) {
            Ok(v) => v,
            Err(e) => {
                return Err(e);
            },
        };
        proof {
            crate::bytes::lemma_le32(block@, start);
            crate::bytes::lemma_le32(block@, start + 4 + key@.len());
        }
        kv.push((key, value));
        proof {
            let one = KvModel { key: key@, value: value@ };
            assert(kvs_view(kv@) =~= before.push(one));
            match block_kvs(block@, boff as int) {
                Ok(rest) => {
                    assert(before + (seq![one] + rest) =~= before.push(one) + rest);
                },
                Err(_) => {},
            }
        }
    }
    proof {
        assert(kvs_view(kv@) + Seq::<KvModel>::empty() =~= kvs_view(kv@));
    }
    Ok(kv)
}

proof fn lemma_after_nothing(block: Seq<u8>)
    ensures
        after_kvs(Seq::empty(), block_kvs(block, 0)) == block_kvs(block, 0),
{
    match block_kvs(block, 0) {
        Ok(kvs) => {
            assert(Seq::<KvModel>::empty() + kvs =~= kvs);
        },
        Err(_) => {},
    }
}

/// Decode a whole image.
pub fn decode<'a>(bytes: &'a [u8]) -> (r: Result<Decoded<'a>>)
    ensures
        match decoded(bytes@) {
            Ok(image) => r is Ok && r->Ok_0@ == image,
            Err(what) => r is Err && r->Err_0 == Error::corrupt(what),
        },
{
    let (applied_index, family_count) = match parse_header(bytes) {
        Ok(h) => h,
        Err(e) => {
            return Err(e);
        },
    };
    let mut off: usize = HEADER_LEN;
    let mut families: Vec<Family<'a>> = Vec::new();
    let mut n: u32 = 0;
    let ghost whole = families_at(bytes@, 20, family_count as nat);
    proof {
        assert(families_view(families@) =~= Seq::empty());
        match whole {
            Ok((f, end)) => {
                assert(Seq::<FamilyModel>::empty() + f =~= f);
            },
            Err(_) => {},
        }
    }
    while n < family_count
        invariant
            n <= family_count,
            has_header(bytes@),
            family_count == crate::bytes::le32(bytes@, 16),
            whole == families_at(bytes@, 20, family_count as nat),
            whole == after_families(
                families_view(families@),
                families_at(bytes@, off as int, (family_count - n) as nat),
            ),
        decreases family_count - n,
    {
        let ghost before = families_view(families@);
        let name = match take(bytes, &mut off) {
            Ok(s) => s,
            Err(e) => {
                return Err(e);
            },
        };
        let block = match take(bytes, &mut off) {
            Ok(s) => s,
            Err(e) => {
                return Err(e);
            },
        };
        let kv = match decode_block(block) {
            Ok(kv) => kv,
            Err(e) => {
                return Err(e);
            },
        };
        let ghost one = FamilyModel { name: name@, kvs: kvs_view(kv@) };
        families.push((name, kv));
        n += 1;
        proof {
            assert(families_view(families@) =~= before.push(one));
            match families_at(bytes@, off as int, (family_count - n) as nat) {
                Ok((rest, end)) => {
                    assert(before + (seq![one] + rest) =~= before.push(one) + rest);
                },
                Err(_) => {},
            }
        }
    }
    proof {
        assert(families_view(families@) + Seq::<FamilyModel>::empty() =~= families_view(families@));
    }
    if off != bytes.len() {
        return Err(corrupt("checkpoint image: trailing bytes"));
    }
    Ok(Decoded { applied_index, families })
}

// ---------- laws ----------

/// A length-prefixed string that stands at `off` is the one that is taken there.
proof fn lemma_take_sized(bytes: Seq<u8>, off: int, s: Seq<u8>)
    requires
        0 <= off,
        s.len() <= u32::MAX,
        off + 4 + s.len() <= bytes.len(),
        bytes.subrange(off, off + 4 + s.len()) == sized_bytes(s),
    ensures
        taken(bytes, off) == Ok::<(Seq<u8>, int), &'static str>((s, off + 4 + s.len())),
{
    let n = s.len() as int;
    let window = bytes.subrange(off, off + 4 + n);
    crate::bytes::lemma_u32_bytes(n);
    assert(crate::bytes::le32(window, 0) == crate::bytes::le32(crate::bytes::u32_bytes(n), 0));
    crate::bytes::lemma_le_window(bytes, off, off + 4 + n, 0);
    assert(bytes.subrange(off + 4, off + 4 + n) =~= window.subrange(4, 4 + n));
    assert(window.subrange(4, 4 + n) =~= s);
}

/// What is taken at `off` stands there with its length prefix.
proof fn lemma_taken_sized(bytes: Seq<u8>, off: int)
    requires
        0 <= off,
        taken(bytes, off) is Ok,
    ensures
        ({
            let (s, end) = taken(bytes, off)->Ok_0;
            &&& s.len() <= u32::MAX
            &&& end == off + 4 + s.len()
            &&& end <= bytes.len()
            &&& bytes.subrange(off, end) == sized_bytes(s)
        }),
{
    let (s, end) = taken(bytes, off)->Ok_0;
    crate::bytes::lemma_le32(bytes, off);
    assert(bytes.subrange(off, end) =~= bytes.subrange(off, off + 4) + s);
}

/// Two length-prefixed strings in a row are taken one after the other.
proof fn lemma_take_pair(bytes: Seq<u8>, off: int, a: Seq<u8>, b: Seq<u8>, rest: Seq<u8>)
    requires
        0 <= off <= bytes.len(),
        a.len() <= u32::MAX,
        b.len() <= u32::MAX,
        bytes.skip(off) == sized_bytes(a) + sized_bytes(b) + rest,
    ensures
        ({
            let mid = off + 4 + a.len();
            let end = mid + 4 + b.len();
            &&& taken(bytes, off) == Ok::<(Seq<u8>, int), &'static str>((a, mid))
            &&& taken(bytes, mid) == Ok::<(Seq<u8>, int), &'static str>((b, end))
            &&& end <= bytes.len()
            &&& bytes.skip(end) == rest
            &&& bytes.len() == end + rest.len()
        }),
{
    let mid = off + 4 + a.len();
    let end = mid + 4 + b.len();
    let tail = bytes.skip(off);
    assert(tail.len() == bytes.len() - off);
    assert(bytes.subrange(off, mid) =~= tail.subrange(0, mid - off));
    assert(tail.subrange(0, mid - off) =~= sized_bytes(a));
    lemma_take_sized(bytes, off, a);
    assert(bytes.subrange(mid, end) =~= tail.subrange(mid - off, end - off));
    assert(tail.subrange(mid - off, end - off) =~= sized_bytes(b));
    lemma_take_sized(bytes, mid, b);
    assert(bytes.skip(end) =~= tail.skip(end - off));
    assert(tail.skip(end - off) =~= rest);
}

/// Two strings taken one after the other stand there in a row.
proof fn lemma_taken_pair(bytes: Seq<u8>, off: int)
    requires
        0 <= off,
        taken(bytes, off) is Ok,
        taken(bytes, taken(bytes, off)->Ok_0.1) is Ok,
    ensures
        ({
            let (a, mid) = taken(bytes, off)->Ok_0;
            let (b, end) = taken(bytes, mid)->Ok_0;
            &&& a.len() <= u32::MAX
            &&& b.len() <= u32::MAX
            &&& off < mid < end <= bytes.len()
            &&& forall|last: int|
                end <= last <= bytes.len() ==> #[trigger] bytes.subrange(off, last) == sized_bytes(
                    a,
                ) + sized_bytes(b) + bytes.subrange(end, last)
        }),
{
    let (a, mid) = taken(bytes, off)->Ok_0;
    lemma_taken_sized(bytes, off);
    let (b, end) = taken(bytes, mid)->Ok_0;
    lemma_taken_sized(bytes, mid);
    assert forall|last: int| end <= last <= bytes.len() implies #[trigger] bytes.subrange(off, last)
        == sized_bytes(a) + sized_bytes(b) + bytes.subrange(end, last) by {
        assert(bytes.subrange(off, last) =~= bytes.subrange(off, mid) + bytes.subrange(mid, end)
            + bytes.subrange(end, last));
    }
}

/// A block decodes to the key/values it was built from.
proof fn lemma_block_round_trip(block: Seq<u8>, off: int, kvs: Seq<KvModel>)
    requires
        0 <= off <= block.len() <= u32::MAX,
        block.skip(off) == block_bytes(kvs),
    ensures
        block_kvs(block, off) == Ok::<Seq<KvModel>, &'static str>(kvs),
    decreases kvs.len(),
{
    if kvs.len() == 0 {
        assert(block.skip(off).len() == block.len() - off);
        assert(kvs =~= Seq::empty());
    } else {
        let key = kvs[0].key;
        let value = kvs[0].value;
        let rest = block_bytes(kvs.skip(1));
        assert(block.skip(off).len() == block.len() - off);
        lemma_take_pair(block, off, key, value, rest);
        lemma_block_round_trip(block, off + 8 + key.len() + value.len(), kvs.skip(1));
        assert(seq![KvModel { key, value }] + kvs.skip(1) =~= kvs);
    }
}

/// A block that decodes is the block of what it decodes to.
proof fn lemma_block_canonical(block: Seq<u8>, off: int)
    requires
        0 <= off <= block.len(),
        block_kvs(block, off) is Ok,
    ensures
        block.subrange(off, block.len() as int) == block_bytes(block_kvs(block, off)->Ok_0),
    decreases block.len() - off,
{
    if off >= block.len() {
        assert(block.subrange(off, block.len() as int) =~= Seq::empty());
    } else {
        lemma_taken_pair(block, off);
        let (key, mid) = taken(block, off)->Ok_0;
        let (value, end) = taken(block, mid)->Ok_0;
        lemma_block_canonical(block, end);
        let rest = block_kvs(block, end)->Ok_0;
        let all = seq![KvModel { key, value }] + rest;
        assert(all.skip(1) =~= rest);
        assert(block.subrange(off, block.len() as int) == kv_bytes(key, value) + block_bytes(rest));
    }
}

proof fn lemma_families_round_trip(bytes: Seq<u8>, off: int, families: Seq<FamilyModel>)
    requires
        0 <= off <= bytes.len(),
        bytes.skip(off) == families_bytes(families),
        forall|i: int|
            0 <= i < families.len() ==> {
                &&& (#[trigger] families[i]).name.len() <= u32::MAX
                &&& block_bytes(families[i].kvs).len() <= u32::MAX
            },
    ensures
        families_at(bytes, off, families.len()) == Ok::<(Seq<FamilyModel>, int), &'static str>(
            (families, bytes.len() as int),
        ),
    decreases families.len(),
{
    if families.len() == 0 {
        assert(bytes.skip(off).len() == bytes.len() - off);
        assert(families =~= Seq::empty());
    } else {
        let name = families[0].name;
        let block = block_bytes(families[0].kvs);
        let rest = families_bytes(families.skip(1));
        lemma_take_pair(bytes, off, name, block, rest);
        assert(block.skip(0) =~= block);
        lemma_block_round_trip(block, 0, families[0].kvs);
        assert forall|i: int| 0 <= i < families.skip(1).len() implies {
            &&& (#[trigger] families.skip(1)[i]).name.len() <= u32::MAX
            &&& block_bytes(families.skip(1)[i].kvs).len() <= u32::MAX
        } by {
            assert(families.skip(1)[i] == families[i + 1]);
        }
        lemma_families_round_trip(bytes, off + 8 + name.len() + block.len(), families.skip(1));
        assert(seq![families[0]] + families.skip(1) =~= families);
    }
}

proof fn lemma_families_canonical(bytes: Seq<u8>, off: int, count: nat)
    requires
        0 <= off <= bytes.len(),
        families_at(bytes, off, count) is Ok,
    ensures
        ({
            let (families, end) = families_at(bytes, off, count)->Ok_0;
            &&& families.len() == count
            &&& off <= end <= bytes.len()
            &&& bytes.subrange(off, end) == families_bytes(families)
            &&& forall|i: int|
                0 <= i < families.len() ==> {
                    &&& (#[trigger] families[i]).name.len() <= u32::MAX
                    &&& block_bytes(families[i].kvs).len() <= u32::MAX
                }
        }),
    decreases count,
{
    if count == 0 {
        assert(bytes.subrange(off, off) =~= Seq::empty());
    } else {
        lemma_taken_pair(bytes, off);
        let (name, mid) = taken(bytes, off)->Ok_0;
        let (block, end) = taken(bytes, mid)->Ok_0;
        lemma_block_canonical(block, 0);
        assert(block.subrange(0, block.len() as int) =~= block);
        lemma_families_canonical(bytes, end, (count - 1) as nat);
        let (rest, last) = families_at(bytes, end, (count - 1) as nat)->Ok_0;
        let kvs = block_kvs(block, 0)->Ok_0;
        let all = seq![FamilyModel { name, kvs }] + rest;
        assert(all.skip(1) =~= rest);
        assert(all[0] == FamilyModel { name, kvs });
        assert(bytes.subrange(off, last) == sized_bytes(name) + sized_bytes(block)
            + families_bytes(rest));
        assert forall|i: int| 0 <= i < all.len() implies {
            &&& (#[trigger] all[i]).name.len() <= u32::MAX
            &&& block_bytes(all[i].kvs).len() <= u32::MAX
        } by {
            if i > 0 {
                assert(all[i] == rest[i - 1]);
            }
        }
    }
}

/// A complete header is the encoding of the two numbers it holds.
proof fn lemma_header_canonical(bytes: Seq<u8>)
    requires
        has_header(bytes),
    ensures
        bytes.subrange(0, 20) == header_bytes(
            crate::bytes::le64(bytes, 8) as u64,
            crate::bytes::le32(bytes, 16) as u32,
        ),
{
    crate::bytes::lemma_le64(bytes, 8);
    crate::bytes::lemma_le32(bytes, 16);
    assert(bytes.subrange(0, 20) =~= bytes.subrange(0, 8) + bytes.subrange(8, 16)
        + bytes.subrange(16, 20));
}

/// Decoding gives back what was encoded: an image whose lengths fit their
/// fields survives the trip through its bytes.
pub proof fn decode_inverts_encode(image: ImageModel)
    requires
        encodable(image),
    ensures
        decoded(image_bytes(image)) == Ok::<ImageModel, &'static str>(image),
{
    let bytes = image_bytes(image);
    let index = image.applied_index as int;
    let count = image.families.len() as int;
    let m = magic();
    let ib = crate::bytes::u64_bytes(index);
    let cb = crate::bytes::u32_bytes(count);
    crate::bytes::lemma_u64_bytes(index);
    crate::bytes::lemma_u32_bytes(count);
    assert(bytes == m + ib + cb + families_bytes(image.families));
    assert(bytes.subrange(0, 8) =~= m);
    assert(bytes.subrange(8, 16) =~= ib);
    crate::bytes::lemma_le_window(bytes, 8, 16, 0);
    assert(bytes.subrange(16, 20) =~= cb);
    crate::bytes::lemma_le_window(bytes, 16, 20, 0);
    assert(bytes.skip(20) =~= families_bytes(image.families));
    lemma_families_round_trip(bytes, 20, image.families);
}

/// Every byte string that decodes is exactly the encoding of what it decodes
/// to, so an image has only one serialized form and nothing else is accepted.
#[verifier::spinoff_prover]
#[verifier::rlimit(40)]
pub proof fn encode_inverts_decode(bytes: Seq<u8>)
    requires
        decoded(bytes) is Ok,
    ensures
        encodable(decoded(bytes)->Ok_0),
        image_bytes(decoded(bytes)->Ok_0) == bytes,
{
    crate::bytes::lemma_le32(bytes, 16);
    lemma_header_canonical(bytes);
    lemma_families_canonical(bytes, 20, crate::bytes::le32(bytes, 16) as nat);
    assert(bytes =~= bytes.subrange(0, 20) + bytes.subrange(20, bytes.len() as int));
}

/// The applied index that the header alone gives is the one that the whole
/// image gives.
pub proof fn header_index_agrees(bytes: Seq<u8>)
    requires
        decoded(bytes) is Ok,
    ensures
        has_header(bytes),
        decoded(bytes)->Ok_0.applied_index == crate::bytes::le64(bytes, 8),
{
    crate::bytes::lemma_le64(bytes, 8);
}

/// The layout of an image: `holtckp1`, the applied index in eight bytes and the
/// number of families in four, the lowest byte first.
pub proof fn an_image_starts_with_its_header(image: ImageModel)
    requires
        encodable(image),
    ensures
        ({
            let b = image_bytes(image);
            &&& b.len() >= 20
            &&& b[0] == 104 && b[1] == 111 && b[2] == 108 && b[3] == 116
            &&& b[4] == 99 && b[5] == 107 && b[6] == 112 && b[7] == 49
            &&& image.applied_index == b[8] + 0x100 * b[9] + 0x1_0000 * b[10] + 0x100_0000 * b[11]
                + 0x1_0000_0000 * b[12] + 0x100_0000_0000 * b[13] + 0x1_0000_0000_0000 * b[14]
                + 0x100_0000_0000_0000 * b[15]
            &&& image.families.len() == b[16] + 0x100 * b[17] + 0x1_0000 * b[18] + 0x100_0000
                * b[19]
        }),
{
    let b = image_bytes(image);
    decode_inverts_encode(image);
    header_index_agrees(b);
    crate::bytes::numbers_are_little_endian(b, 8);
    crate::bytes::lemma_le32(b, 16);
    lemma_families_canonical(b, 20, crate::bytes::le32(b, 16) as nat);
    assert(b.subrange(0, 8) == magic());
    assert forall|i: int| 0 <= i < 8 implies b[i] == magic()[i] by {
        assert(b.subrange(0, 8)[i] == b[i]);
    }
}

/// A string is stored behind its length in four bytes, the lowest byte first.
pub proof fn a_string_stands_behind_its_length(s: Seq<u8>)
    requires
        s.len() <= u32::MAX,
    ensures
        ({
            let b = sized_bytes(s);
            &&& b.len() == s.len() + 4
            &&& s.len() == b[0] + 0x100 * b[1] + 0x1_0000 * b[2] + 0x100_0000 * b[3]
            &&& b.subrange(4, b.len() as int) == s
        }),
{
    let b = sized_bytes(s);
    crate::bytes::lemma_u32_bytes(s.len() as int);
    assert(crate::bytes::le32(b, 0) == crate::bytes::le32(
        crate::bytes::u32_bytes(s.len() as int),
        0,
    ));
    assert(b.subrange(4, b.len() as int) =~= s);
}

/// Entries that are put one behind the other make up the block of all of them, the
/// last one last; and so do families. What is built call by call is what decodes.
pub proof fn an_image_is_built_call_by_call(
    kvs: Seq<KvModel>,
    kv: KvModel,
    families: Seq<FamilyModel>,
    family: FamilyModel,
)
    ensures
        block_bytes(kvs.push(kv)) == block_bytes(kvs) + kv_bytes(kv.key, kv.value),
        families_bytes(families.push(family)) == families_bytes(families) + (sized_bytes(
            family.name,
        ) + sized_bytes(block_bytes(family.kvs))),
        kv_bytes(kv.key, kv.value) == sized_bytes(kv.key) + sized_bytes(kv.value),
    decreases kvs.len() + families.len(),
{
    reveal_with_fuel(block_bytes, 2);
    reveal_with_fuel(families_bytes, 2);
    if kvs.len() > 0 {
        an_image_is_built_call_by_call(kvs.skip(1), kv, families, family);
        assert(kvs.push(kv).skip(1) =~= kvs.skip(1).push(kv));
        assert(block_bytes(kvs.push(kv)) =~= block_bytes(kvs) + kv_bytes(kv.key, kv.value));
    } else {
        assert(kvs.push(kv).skip(1) =~= Seq::empty());
        assert(block_bytes(kvs.push(kv)) =~= block_bytes(kvs) + kv_bytes(kv.key, kv.value));
    }
    let part = sized_bytes(family.name) + sized_bytes(block_bytes(family.kvs));
    if families.len() > 0 {
        an_image_is_built_call_by_call(kvs, kv, families.skip(1), family);
        assert(families.push(family).skip(1) =~= families.skip(1).push(family));
        assert(families_bytes(families.push(family)) =~= families_bytes(families) + part);
    } else {
        assert(families.push(family).skip(1) =~= Seq::empty());
        assert(families_bytes(families.push(family)) =~= families_bytes(families) + part);
    }
}

} // verus!
