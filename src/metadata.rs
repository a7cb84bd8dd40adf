use crate::codec::le32;
use crate::pager::zeros;
use crate::BtreeError;
use vstd::bytes::{
    spec_u64_to_le_bytes, u32_from_le_bytes, u32_to_le_bytes, u64_from_le_bytes, u64_to_le_bytes,
};
use vstd::prelude::*;
use vstd::slice::slice_subrange;

verus! {

/// Bytes of the metadata record that carry meaning; the page it is
/// stored on is padded with zeros.
pub const METADATA_LEN: usize = 28;

/// Format version written by this library.
pub const FORMAT_VERSION: u32 = 1;

/// The ASCII bytes `BTRE` that open a metadata page.
pub open spec fn magic_bytes() -> Seq<u8> {
    seq![66u8, 84u8, 82u8, 69u8]
}

/// Little-endian bytes of a `u64`.
pub open spec fn le64(x: u64) -> Seq<u8> {
    spec_u64_to_le_bytes(x)
}

/// The record that anchors a snapshot: where the root is, the page size
/// and page count, and when it was taken.
#[derive(Debug, Clone)]
pub struct BtreeMetadata {
    pub magic: [u8; 4],
    pub version: u32,
    pub root_page_id: u32,
    pub page_size: u32,
    pub num_pages: u32,
    pub created_at: u64,
}

/// The record laid out: magic, version, root page id, page size, page
/// count, timestamp.
pub open spec fn meta_bytes(m: BtreeMetadata) -> Seq<u8> {
    m.magic@ + le32(m.version) + le32(m.root_page_id) + le32(m.page_size) + le32(m.num_pages) + le64(
        m.created_at,
    )
}

/// Relies on `SystemTime::elapsed` from `UNIX_EPOCH`: whole seconds since
/// the epoch, or nothing for a clock set before it.
#[verifier::external_body]
fn seconds_since_epoch() -> (r: Option<u64>) {
    std::time::UNIX_EPOCH.elapsed().ok().map(|d| d.as_secs())
}

/// Reads a `u32` stored little-endian at `offset`.
pub fn read_u32_le(data: &[u8], offset: usize) -> (r: u32)
    requires
        offset + 4 <= data@.len(),
    ensures
        le32(r) == data@.subrange(offset as int, offset + 4),
{
    proof {
        vstd::bytes::lemma_auto_spec_u32_to_from_le_bytes();
    }
    let n = data.len();
    assert(offset + 4 <= n);
    u32_from_le_bytes(slice_subrange(data, offset, offset + 4))
}

/// Reads a `u64` stored little-endian at `offset`.
pub fn read_u64_le(data: &[u8], offset: usize) -> (r: u64)
    requires
        offset + 8 <= data@.len(),
    ensures
        le64(r) == data@.subrange(offset as int, offset + 8),
{
    proof {
        vstd::bytes::lemma_auto_spec_u64_to_from_le_bytes();
    }
    let n = data.len();
    assert(offset + 8 <= n);
    u64_from_le_bytes(slice_subrange(data, offset, offset + 8))
}

/// Appends all of `b`.
fn extend(buf: &mut Vec<u8>, b: Vec<u8>)
    ensures
        final(buf)@ == old(buf)@ + b@,
{
    let mut b = b;
    buf.append(&mut b);
}

impl BtreeMetadata {
    /// A record of the current format for the given root, page size and
    /// page count, stamped with the current time (0 when the clock reads
    /// before the epoch).
    pub fn new(root_page_id: u32, page_size: u32, num_pages: u32) -> (r: BtreeMetadata)
        ensures
            r.magic@ == magic_bytes(),
            r.version == FORMAT_VERSION,
            r.root_page_id == root_page_id,
            r.page_size == page_size,
            r.num_pages == num_pages,
    {
        let created_at = match seconds_since_epoch() {
            Some(s) => s,
            None => 0,
        };
        Self::with_timestamp(root_page_id, page_size, num_pages, created_at)
    }

    /// A record of the current format for the given root, page size and
    /// page count, stamped with `created_at` seconds since the epoch.
    pub fn with_timestamp(root_page_id: u32, page_size: u32, num_pages: u32, created_at: u64) -> (r:
        BtreeMetadata)
        ensures
            r.magic@ == magic_bytes(),
            r.version == FORMAT_VERSION,
            r.root_page_id == root_page_id,
            r.page_size == page_size,
            r.num_pages == num_pages,
            r.created_at == created_at,
    {
        let r = BtreeMetadata {
            magic: [66u8, 84u8, 82u8, 69u8],
            version: FORMAT_VERSION,
            root_page_id,
            page_size,
            num_pages,
            created_at,
        };
        assert(r.magic@ =~= magic_bytes());
        r
    }

    /// The record laid out and padded with zeros to the page size, or to
    /// nothing when the page size is below the record's length.
    pub fn serialize(&self) -> (r: Vec<u8>)
        ensures
            r@ == meta_bytes(*self) + zeros(
                if self.page_size >= METADATA_LEN {
                    (self.page_size - METADATA_LEN) as nat
                } else {
                    0
                },
            ),
    {
        let mut buf: Vec<u8> = Vec::new();
        buf.push(self.magic[0]);
        buf.push(self.magic[1]);
        buf.push(self.magic[2]);
        buf.push(self.magic[3]);
        proof {
            assert(buf@ =~= self.magic@);
        }
        extend(&mut buf, u32_to_le_bytes(self.version));
        extend(&mut buf, u32_to_le_bytes(self.root_page_id));
        extend(&mut buf, u32_to_le_bytes(self.page_size));
        extend(&mut buf, u32_to_le_bytes(self.num_pages));
        extend(&mut buf, u64_to_le_bytes(self.created_at));
        proof {
            vstd::bytes::lemma_auto_spec_u64_to_from_le_bytes();
        }
        let ghost laid = buf@;
        assert(laid == meta_bytes(*self));
        let target = self.page_size as usize;
        let mut k: usize = METADATA_LEN;
        while k < target
            invariant
                laid.len() == METADATA_LEN,
                METADATA_LEN <= k,
                k <= target || k == METADATA_LEN,
                target == self.page_size,
                buf@ == laid + zeros((k - METADATA_LEN) as nat),
            decreases target - k,
        {
            buf.push(0u8);
            k = k + 1;
            proof {
                assert(buf@ =~= laid + zeros((k - METADATA_LEN) as nat));
            }
        }
        proof {
            if self.page_size < METADATA_LEN {
                assert(buf@ =~= laid + zeros(0));
            }
        }
        buf
    }

    /// Reads a record from the start of `data`; `InvalidData` when `data`
    /// is shorter than the record or does not open with the magic bytes.
    pub fn deserialize(data: &[u8]) -> (r: Result<BtreeMetadata, BtreeError>)
        ensures
            r is Ok <==> data@.len() >= METADATA_LEN && data@.subrange(0, 4) == magic_bytes(),
            r is Ok ==> meta_bytes(r->Ok_0) == data@.subrange(0, METADATA_LEN as int),
            r is Err ==> r->Err_0 == BtreeError::InvalidData,
    {
        if data.len() < METADATA_LEN {
            return Err(BtreeError::InvalidData);
        }
        if data[0] != 66u8 || data[1] != 84u8 || data[2] != 82u8 || data[3] != 69u8 {
            proof {
                assert(data@.subrange(0, 4) != magic_bytes()) by {
                    if data@.subrange(0, 4) == magic_bytes() {
                        assert(data@.subrange(0, 4)[0] == data@[0]);
                        assert(data@.subrange(0, 4)[1] == data@[1]);
                        assert(data@.subrange(0, 4)[2] == data@[2]);
                        assert(data@.subrange(0, 4)[3] == data@[3]);
                    }
                }
            }
            return Err(BtreeError::InvalidData);
        }
        let magic = [data[0], data[1], data[2], data[3]];
        let version = read_u32_le(data, 4);
        let root_page_id = read_u32_le(data, 8);
        let page_size = read_u32_le(data, 12);
        let num_pages = read_u32_le(data, 16);
        let created_at = read_u64_le(data, 20);
        let r = BtreeMetadata { magic, version, root_page_id, page_size, num_pages, created_at };
        proof {
            assert(magic@ =~= data@.subrange(0, 4));
            assert(data@.subrange(0, 4) =~= magic_bytes());
            assert(meta_bytes(r) =~= data@.subrange(0, METADATA_LEN as int));
        }
        Ok(r)
    }
}

} // verus!
