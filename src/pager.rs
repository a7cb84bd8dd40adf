use crate::codec::{decode_page, decodes_to, encode_page, laid_out, page_bytes, read_as, Page};
use crate::metadata::{magic_bytes, meta_bytes, BtreeMetadata, METADATA_LEN};
use crate::BtreeError;
use vstd::prelude::*;
use vstd::slice::slice_subrange;

verus! {

/// Largest page size that a pager accepts.
pub const MAX_PAGE_SIZE: usize = 1048576;

/// Page sizes that a pager can allocate pages of.
pub open spec fn valid_page_size(ps: usize) -> bool {
    0 < ps <= MAX_PAGE_SIZE
}

/// `n` zero bytes.
pub open spec fn zeros(n: nat) -> Seq<u8> {
    Seq::new(n, |i: int| 0u8)
}

/// `img` with the bytes from `off` on replaced by `b`.
pub open spec fn overwrite(img: Seq<u8>, off: int, b: Seq<u8>) -> Seq<u8> {
    img.subrange(0, off) + b + img.subrange(off + b.len(), img.len() as int)
}

/// The page store behind a tree: the image of its backing file, made of a
/// metadata page at offset 0 followed by `num_pages` data pages, page `i`
/// at byte offset `i * page_size`.
#[derive(Debug)]
pub struct Pager {
    pub page_size: usize,
    pub num_pages: u32,
    pub data: Vec<u8>,
}

impl Pager {
    /// The bytes of the backing file.
    pub open spec fn image(&self) -> Seq<u8> {
        self.data@
    }

    /// The image holds the metadata page and every allocated page.
    pub open spec fn wf(&self) -> bool {
        &&& valid_page_size(self.page_size) ==> self.image().len() == (self.num_pages + 1)
            * self.page_size
        &&& !valid_page_size(self.page_size) ==> self.num_pages == 0 && self.image().len() == 0
    }

    /// `n` more pages can be allocated.
    pub open spec fn room(&self, n: nat) -> bool {
        &&& valid_page_size(self.page_size)
        &&& self.num_pages + n <= u32::MAX
        &&& (self.num_pages + n + 1) * self.page_size <= usize::MAX
    }

    /// Room for `a` pages is room for fewer.
    pub proof fn lemma_room_mono(&self, a: nat, b: nat)
        requires
            self.room(a),
            b <= a,
        ensures
            self.room(b),
    {
        let np = self.num_pages as int;
        let ps = self.page_size as int;
        assert((np + b + 1) * ps <= (np + a + 1) * ps) by (nonlinear_arith)
            requires
                b <= a,
                ps >= 0,
        ;
    }

    /// Whether `n` more pages can be allocated.
    pub fn has_room(&self, n: u32) -> (r: bool)
        ensures
            r == self.room(n as nat),
    {
        if self.page_size == 0 || self.page_size > MAX_PAGE_SIZE {
            return false;
        }
        if self.num_pages as u64 + n as u64 > u32::MAX as u64 {
            return false;
        }
        let total = self.num_pages as u64 + n as u64 + 1;
        let ps = self.page_size as u64;
        if total > 0x1_0000_0000 {
            return false;
        }
        proof {
            assert(total * ps <= 0x1_0000_0000 * 0x10_0000) by (nonlinear_arith)
                requires
                    total <= 0x1_0000_0000,
                    ps <= 0x10_0000,
            ;
        }
        let bytes: u64 = total * ps;
        bytes <= usize::MAX as u64
    }

    /// The bytes of page `id`.
    pub open spec fn page_region(&self, id: int) -> Seq<u8> {
        self.image().subrange(id * self.page_size, (id + 1) * self.page_size)
    }

    /// Overwrites `b.len()` bytes of the image from `off` on.
    fn write_at(&mut self, off: usize, b: &Vec<u8>)
        requires
            off + b@.len() <= old(self).data@.len(),
        ensures
            final(self).page_size == old(self).page_size,
            final(self).num_pages == old(self).num_pages,
            final(self).image() == overwrite(old(self).image(), off as int, b@),
            final(self).image().len() == old(self).image().len(),
    {
        let n = self.data.len();
        let mut i: usize = 0;
        while i < b.len()
            invariant
                0 <= i <= b@.len(),
                n == old(self).data@.len(),
                off + b@.len() <= old(self).data@.len(),
                self.page_size == old(self).page_size,
                self.num_pages == old(self).num_pages,
                self.data@ == overwrite(old(self).data@, off as int, b@.subrange(0, i as int)),
            decreases b@.len() - i,
        {
            self.data.set(off + i, b[i]);
            i = i + 1;
            proof {
                assert(self.data@ =~= overwrite(old(self).data@, off as int, b@.subrange(0, i as int)));
            }
        }
        proof {
            assert(b@.subrange(0, b@.len() as int) =~= b@);
        }
    }

    /// Writes the page, laid out and padded, at its id's offset. Fails with
    /// `InvalidInput` when its id is not that of an allocated page or its
    /// layout is longer than a page.
    pub fn write_page(&mut self, page: &Page) -> (r: Result<(), BtreeError>)
        requires
            old(self).wf(),
        ensures
            final(self).wf(),
            final(self).page_size == old(self).page_size,
            final(self).num_pages == old(self).num_pages,
            r is Ok <==> {
                &&& valid_page_size(old(self).page_size)
                &&& 1 <= page.page_id() <= old(self).num_pages
                &&& page_bytes(*page).len() <= old(self).page_size
            },
            r is Ok ==> final(self).image() == overwrite(
                old(self).image(),
                page.page_id() * old(self).page_size,
                page_bytes(*page) + zeros((old(self).page_size - page_bytes(*page).len()) as nat),
            ),
            r is Err ==> *final(self) == *old(self) && r->Err_0 == BtreeError::InvalidInput,
    {
        let id = match page {
            Page::Internal { id, .. } => *id,
            Page::Leaf { id, .. } => *id,
        };
        if self.page_size == 0 || self.page_size > MAX_PAGE_SIZE || id == 0 || id > self.num_pages {
            return Err(BtreeError::InvalidInput);
        }
        let buf = match encode_page(page, self.page_size) {
            Ok(b) => b,
            Err(e) => {
                return Err(e);
            },
        };
        proof {
            let ps = self.page_size as int;
            assert((id as int + 1) * ps <= (self.num_pages as int + 1) * ps) by (nonlinear_arith)
                requires
                    id <= self.num_pages,
                    ps >= 0,
            ;
            assert((id as int + 1) * ps == id as int * ps + ps) by (nonlinear_arith);
        }
        let n = self.data.len();
        assert(id as int * self.page_size + self.page_size <= n);
        let off = id as usize * self.page_size;
        self.write_at(off, &buf);
        Ok(())
    }

    /// Reads and decodes page `id`; `InvalidData` when it is not an
    /// allocated page or does not decode.
    pub fn read_page(&self, id: u32) -> (r: Result<Page, BtreeError>)
        requires
            self.wf(),
        ensures
            match r {
                Ok(p) => {
                    &&& valid_page_size(self.page_size)
                    &&& 1 <= id <= self.num_pages
                    &&& p.page_id() == id
                    &&& exists|raw: Seq<(i32, Seq<u8>)>| decodes_to(self.page_region(id as int), p, raw)
                },
                Err(e) => e == BtreeError::InvalidData,
            },
            valid_page_size(self.page_size) && 1 <= id <= self.num_pages ==> forall|t: u8, raw: Seq<(i32, Seq<u8>)>, ids: Seq<u32>|
                #[trigger] laid_out(self.page_region(id as int), t, raw, ids) ==> r is Ok && read_as(r->Ok_0, t, raw, ids),
    {
        if self.page_size == 0 || self.page_size > MAX_PAGE_SIZE || id == 0 || id > self.num_pages {
            return Err(BtreeError::InvalidData);
        }
        proof {
            let ps = self.page_size as int;
            assert((id as int + 1) * ps <= (self.num_pages as int + 1) * ps) by (nonlinear_arith)
                requires
                    id <= self.num_pages,
                    ps >= 0,
            ;
            assert((id as int + 1) * ps == id as int * ps + ps) by (nonlinear_arith);
        }
        let n = self.data.len();
        assert(id as int * self.page_size + self.page_size <= n);
        let off = id as usize * self.page_size;
        let region = slice_subrange(self.data.as_slice(), off, off + self.page_size);
        assert(region@ == self.page_region(id as int));
        decode_page(region, id)
    }

    /// Writes the metadata record, padded, as page 0. Fails with
    /// `InvalidInput` when the page size is invalid, below the record's
    /// length, or not the record's.
    pub fn write_metadata(&mut self, metadata: &BtreeMetadata) -> (r: Result<(), BtreeError>)
        requires
            old(self).wf(),
        ensures
            final(self).wf(),
            final(self).page_size == old(self).page_size,
            final(self).num_pages == old(self).num_pages,
            r is Ok <==> {
                &&& valid_page_size(old(self).page_size)
                &&& old(self).page_size >= METADATA_LEN
                &&& metadata.page_size == old(self).page_size
            },
            r is Ok ==> final(self).image() == overwrite(
                old(self).image(),
                0,
                meta_bytes(*metadata) + zeros((old(self).page_size - METADATA_LEN) as nat),
            ),
            r is Err ==> *final(self) == *old(self) && r->Err_0 == BtreeError::InvalidInput,
    {
        if self.page_size == 0 || self.page_size > MAX_PAGE_SIZE || self.page_size < METADATA_LEN
            || metadata.page_size as usize != self.page_size {
            return Err(BtreeError::InvalidInput);
        }
        let data = metadata.serialize();
        proof {
            vstd::bytes::lemma_auto_spec_u32_to_from_le_bytes();
            vstd::bytes::lemma_auto_spec_u64_to_from_le_bytes();
            assert(meta_bytes(*metadata).len() == METADATA_LEN);
            let ps = self.page_size as int;
            assert((self.num_pages as int + 1) * ps >= ps) by (nonlinear_arith)
                requires
                    ps >= 0,
            ;
        }
        self.write_at(0, &data);
        Ok(())
    }

    /// Reads the metadata record from page 0; `InvalidData` when the page
    /// size is invalid, the image is shorter than a page, or the record
    /// does not read (see `BtreeMetadata::deserialize`).
    pub fn read_metadata(&self) -> (r: Result<BtreeMetadata, BtreeError>)
        ensures
            r is Ok <==> {
                &&& valid_page_size(self.page_size)
                &&& self.image().len() >= self.page_size >= METADATA_LEN
                &&& self.image().subrange(0, 4) == magic_bytes()
            },
            r is Ok ==> meta_bytes(r->Ok_0) == self.image().subrange(0, METADATA_LEN as int),
            r is Err ==> r->Err_0 == BtreeError::InvalidData,
    {
        if self.page_size == 0 || self.page_size > MAX_PAGE_SIZE || self.data.len() < self.page_size {
            return Err(BtreeError::InvalidData);
        }
        let region = slice_subrange(self.data.as_slice(), 0, self.page_size);
        let r = BtreeMetadata::deserialize(region);
        proof {
            if self.page_size >= METADATA_LEN {
                assert(region@.subrange(0, 4) =~= self.image().subrange(0, 4));
                assert(region@.subrange(0, METADATA_LEN as int) =~= self.image().subrange(0, METADATA_LEN as int));
            }
        }
        r
    }

    /// A store over the bytes of a backing file that holds `num_pages`
    /// data pages; `InvalidData` when the page size is invalid or the bytes
    /// are fewer than the pages. Bytes past the last page are dropped.
    pub fn from_image(bytes: &[u8], page_size: usize, num_pages: u32) -> (r: Result<Pager, BtreeError>)
        ensures
            match r {
                Ok(p) => {
                    &&& p.wf()
                    &&& p.page_size == page_size
                    &&& p.num_pages == num_pages
                    &&& valid_page_size(page_size)
                    &&& p.image() == bytes@.subrange(0, p.image().len() as int)
                },
                Err(e) => e == BtreeError::InvalidData,
            },
            r is Ok <==> valid_page_size(page_size) && (num_pages + 1) * page_size <= bytes@.len(),
            r is Ok ==> r->Ok_0.image().len() == (num_pages + 1) * page_size,
    {
        if page_size == 0 || page_size > MAX_PAGE_SIZE {
            return Err(BtreeError::InvalidData);
        }
        let pages = num_pages as u64 + 1;
        proof {
            assert(pages * page_size <= 0x1_0000_0000 * 0x10_0000) by (nonlinear_arith)
                requires
                    pages <= 0x1_0000_0000,
                    page_size <= 0x10_0000,
            ;
        }
        let total = pages * page_size as u64;
        if total > bytes.len() as u64 {
            return Err(BtreeError::InvalidData);
        }
        let total = total as usize;
        let mut data: Vec<u8> = Vec::new();
        let mut i: usize = 0;
        while i < total
            invariant
                0 <= i <= total,
                total <= bytes@.len(),
                data@ == bytes@.subrange(0, i as int),
            decreases total - i,
        {
            data.push(bytes[i]);
            i = i + 1;
            proof {
                assert(data@ =~= bytes@.subrange(0, i as int));
            }
        }
        Ok(Pager { page_size, num_pages, data })
    }

    /// A store with no data page; its metadata page is zeroed.
    pub fn new(page_size: usize) -> (r: Pager)
        ensures
            r.wf(),
            r.page_size == page_size,
            r.num_pages == 0,
            r.image() == (if valid_page_size(page_size) {
                zeros(page_size as nat)
            } else {
                Seq::empty()
            }),
    {
        let mut data: Vec<u8> = Vec::new();
        if 0 < page_size && page_size <= MAX_PAGE_SIZE {
            extend_zeroed(&mut data, page_size);
        }
        proof {
            assert((0int + 1) * (page_size as int) == page_size as int);
            assert(data@ =~= (if valid_page_size(page_size) {
                zeros(page_size as nat)
            } else {
                Seq::empty()
            }));
        }
        Pager { page_size, num_pages: 0, data }
    }

    /// The bytes of the backing file.
    pub fn bytes(&self) -> (r: &[u8])
        ensures
            r@ == self.image(),
    {
        self.data.as_slice()
    }

    /// Appends a zeroed page and returns its id, one past the last page;
    /// fails with `InvalidInput` when the page size is invalid or the ids
    /// or the image would overflow.
    pub fn allocate_page(&mut self) -> (r: Result<u32, BtreeError>)
        requires
            old(self).wf(),
        ensures
            final(self).wf(),
            final(self).page_size == old(self).page_size,
            match r {
                Ok(id) => {
                    &&& old(self).room(1)
                    &&& id == old(self).num_pages + 1
                    &&& final(self).num_pages == id
                    &&& final(self).image() == old(self).image() + zeros(old(self).page_size as nat)
                },
                Err(e) => {
                    &&& !old(self).room(1)
                    &&& e == BtreeError::InvalidInput
                    &&& *final(self) == *old(self)
                },
            },
    {
        if self.page_size == 0 || self.page_size > MAX_PAGE_SIZE {
            return Err(BtreeError::InvalidInput);
        }
        if self.num_pages == u32::MAX || self.data.len() > usize::MAX - self.page_size {
            proof {
                let np = self.num_pages as int;
                let ps = self.page_size as int;
                assert((np + 2) * ps == (np + 1) * ps + ps) by (nonlinear_arith);
            }
            return Err(BtreeError::InvalidInput);
        }
        let new_id = self.num_pages + 1;
        let ghost before = self.data@;
        extend_zeroed(&mut self.data, self.page_size);
        self.num_pages = new_id;
        proof {
            let np = new_id as int;
            let ps = self.page_size as int;
            assert((np + 1) * ps == np * ps + ps) by (nonlinear_arith);
            assert(self.data@ =~= before + zeros(ps as nat));
        }
        Ok(new_id)
    }
}

/// Appends `n` zero bytes.
fn extend_zeroed(v: &mut Vec<u8>, n: usize)
    requires
        old(v)@.len() + n <= usize::MAX,
    ensures
        final(v)@ == old(v)@ + zeros(n as nat),
{
    let ghost start = v@;
    let mut i: usize = 0;
    while i < n
        invariant
            0 <= i <= n,
            start.len() + n <= usize::MAX,
            v@ =~= start + zeros(i as nat),
        decreases n - i,
    {
        v.push(0u8);
        i = i + 1;
    }
}

} // verus!
