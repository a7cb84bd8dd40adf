use crate::metadata::read_u32_le;
use crate::pager::zeros;
use crate::{BtreeError, Item};
use vstd::bytes::{spec_u32_from_le_bytes, spec_u32_to_le_bytes, u32_to_le_bytes};
use vstd::prelude::*;
use vstd::slice::slice_subrange;
use vstd::utf8::{encode_utf8, valid_utf8};

verus! {

/// A node as stored: a leaf page, or an internal page that also lists the
/// page ids of its children.
#[derive(Debug)]
pub enum Page {
    Internal { id: u32, items: Vec<Item>, children: Vec<u32> },
    Leaf { id: u32, items: Vec<Item> },
}

impl Page {
    pub open spec fn page_id(&self) -> u32 {
        match self {
            Page::Internal { id, .. } => *id,
            Page::Leaf { id, .. } => *id,
        }
    }

    pub open spec fn item_seq(&self) -> Seq<Item> {
        match self {
            Page::Internal { items, .. } => items@,
            Page::Leaf { items, .. } => items@,
        }
    }

    pub open spec fn child_seq(&self) -> Seq<u32> {
        match self {
            Page::Internal { children, .. } => children@,
            Page::Leaf { .. } => Seq::empty(),
        }
    }

    /// The items stored on the page.
    pub fn items(&self) -> (r: &Vec<Item>)
        ensures
            r@ == self.item_seq(),
    {
        match self {
            Page::Internal { items, .. } => items,
            Page::Leaf { items, .. } => items,
        }
    }

    /// The first byte of the page: 1 for internal, 0 for leaf.
    pub open spec fn tag(&self) -> u8 {
        match self {
            Page::Internal { .. } => 1,
            Page::Leaf { .. } => 0,
        }
    }
}

/// Little-endian bytes of a `u32`.
pub open spec fn le32(x: u32) -> Seq<u8> {
    spec_u32_to_le_bytes(x)
}

/// One stored item: key, value length, value bytes.
pub open spec fn item_bytes(key: i32, v: Seq<u8>) -> Seq<u8> {
    le32(key as u32) + le32(v.len() as u32) + v
}

/// Stored items one after another.
pub open spec fn items_bytes(raw: Seq<(i32, Seq<u8>)>) -> Seq<u8>
    decreases raw.len(),
{
    if raw.len() == 0 {
        Seq::empty()
    } else {
        items_bytes(raw.drop_last()) + item_bytes(raw.last().0, raw.last().1)
    }
}

/// Stored child page ids one after another.
pub open spec fn ids_bytes(ids: Seq<u32>) -> Seq<u8>
    decreases ids.len(),
{
    if ids.len() == 0 {
        Seq::empty()
    } else {
        ids_bytes(ids.drop_last()) + le32(ids.last())
    }
}

/// Each item's key with the UTF-8 bytes of its value.
pub open spec fn raw_items(s: Seq<Item>) -> Seq<(i32, Seq<u8>)> {
    Seq::new(s.len(), |i: int| (s[i].key, encode_utf8(s[i].val@)))
}

/// A page laid out: tag, item count, items, child ids.
pub open spec fn page_image(tag: u8, raw: Seq<(i32, Seq<u8>)>, ids: Seq<u32>) -> Seq<u8> {
    seq![tag] + le32(raw.len() as u32) + items_bytes(raw) + ids_bytes(ids)
}

/// The meaningful bytes of a page, before the zero padding.
pub open spec fn page_bytes(p: Page) -> Seq<u8> {
    page_image(p.tag(), raw_items(p.item_seq()), p.child_seq())
}

/// What `String::from_utf8_lossy` makes of some bytes.
pub uninterp spec fn lossy_utf8(b: Seq<u8>) -> Seq<char>;

/// Relies on `String::from_utf8_lossy`: the bytes decoded as UTF-8, each
/// invalid sequence replaced; bytes that are valid UTF-8 decode to the
/// characters whose encoding they are.
#[verifier::external_body]
fn utf8_lossy(b: &[u8]) -> (r: String)
    ensures
        r@ == lossy_utf8(b@),
        valid_utf8(b@) ==> encode_utf8(r@) == b@,
{
    String::from_utf8_lossy(b).into_owned()
}

/// Appends all of `b`.
fn push_all(buf: &mut Vec<u8>, b: &[u8])
    ensures
        final(buf)@ == old(buf)@ + b@,
{
    let mut i: usize = 0;
    while i < b.len()
        invariant
            0 <= i <= b@.len(),
            buf@ == old(buf)@ + b@.subrange(0, i as int),
        decreases b@.len() - i,
    {
        buf.push(b[i]);
        i = i + 1;
        proof {
            assert(b@.subrange(0, i as int) =~= b@.subrange(0, i - 1) + seq![b@[i - 1]]);
        }
    }
    proof {
        assert(b@.subrange(0, b@.len() as int) =~= b@);
    }
}

/// The page laid out and padded with zeros to `page_size` bytes; fails with
/// `InvalidInput` when the layout is longer than a page.
pub fn encode_page(page: &Page, page_size: usize) -> (r: Result<Vec<u8>, BtreeError>)
    ensures
        match r {
            Ok(buf) => {
                &&& page_bytes(*page).len() <= page_size
                &&& buf@ == page_bytes(*page) + zeros((page_size - page_bytes(*page).len()) as nat)
            },
            Err(e) => page_bytes(*page).len() > page_size && e == BtreeError::InvalidInput,
        },
{
    let (tag, items): (u8, &Vec<Item>) = match page {
        Page::Internal { items, .. } => (1u8, items),
        Page::Leaf { items, .. } => (0u8, items),
    };
    let mut buf: Vec<u8> = Vec::new();
    buf.push(tag);
    let count = u32_to_le_bytes(items.len() as u32);
    push_all(&mut buf, count.as_slice());
    let ghost raw = raw_items(items@);
    let ghost head = seq![tag] + le32(items@.len() as u32);
    proof {
        assert(buf@ =~= head + items_bytes(raw.subrange(0, 0)));
    }
    let mut i: usize = 0;
    while i < items.len()
        invariant
            0 <= i <= items@.len(),
            raw == raw_items(items@),
            buf@ == head + items_bytes(raw.subrange(0, i as int)),
        decreases items@.len() - i,
    {
        let it = &items[i];
        let b = it.val.as_str().as_bytes();
        let kb = u32_to_le_bytes(it.key as u32);
        let lb = u32_to_le_bytes(b.len() as u32);
        push_all(&mut buf, kb.as_slice());
        push_all(&mut buf, lb.as_slice());
        push_all(&mut buf, b);
        proof {
            let s1 = raw.subrange(0, i + 1);
            assert(s1.drop_last() =~= raw.subrange(0, i as int));
            assert(b@ == encode_utf8(it.val@));
            assert(s1.last() == raw[i as int]);
        }
        i = i + 1;
    }
    proof {
        assert(raw.subrange(0, items@.len() as int) =~= raw);
    }
    match page {
        Page::Internal { children, .. } => {
            let ghost base = buf@;
            let mut j: usize = 0;
            proof {
                assert(children@.subrange(0, 0) =~= Seq::<u32>::empty());
                assert(buf@ =~= base + ids_bytes(children@.subrange(0, 0)));
            }
            while j < children.len()
                invariant
                    0 <= j <= children@.len(),
                    buf@ == base + ids_bytes(children@.subrange(0, j as int)),
                decreases children@.len() - j,
            {
                let cb = u32_to_le_bytes(children[j]);
                push_all(&mut buf, cb.as_slice());
                proof {
                    let s1 = children@.subrange(0, j + 1);
                    assert(s1.drop_last() =~= children@.subrange(0, j as int));
                }
                j = j + 1;
            }
            proof {
                assert(children@.subrange(0, children@.len() as int) =~= children@);
            }
        },
        Page::Leaf { .. } => {
            proof {
                assert(buf@ =~= buf@ + ids_bytes(Seq::<u32>::empty()));
            }
        },
    }
    assert(buf@ == page_bytes(*page));
    if buf.len() > page_size {
        return Err(BtreeError::InvalidInput);
    }
    let ghost laid = buf@;
    let mut k: usize = buf.len();
    while k < page_size
        invariant
            laid.len() <= k <= page_size,
            buf@ == laid + zeros((k - laid.len()) as nat),
        decreases page_size - k,
    {
        buf.push(0u8);
        k = k + 1;
        proof {
            assert(buf@ =~= laid + zeros((k - laid.len()) as nat));
        }
    }
    Ok(buf)
}

/// `raw` is the stored form of `p`'s items, whose values are what lossy
/// UTF-8 decoding makes of the stored bytes, an internal page lists one
/// child more than items, and `b` begins with the page laid out.
pub open spec fn decodes_to(b: Seq<u8>, p: Page, raw: Seq<(i32, Seq<u8>)>) -> bool {
    &&& raw.len() == p.item_seq().len()
    &&& p.tag() == 1 ==> p.child_seq().len() == raw.len() + 1
    &&& forall|i: int|
        0 <= i < raw.len() ==> {
            &&& (#[trigger] raw[i]).0 == p.item_seq()[i].key
            &&& p.item_seq()[i].val@ == lossy_utf8(raw[i].1)
        }
    &&& page_image(p.tag(), raw, p.child_seq()).len() <= b.len()
    &&& b.subrange(0, page_image(p.tag(), raw, p.child_seq()).len() as int) == page_image(
        p.tag(),
        raw,
        p.child_seq(),
    )
}

/// Stored items of two runs are those of the first, then the second.
pub proof fn lemma_items_bytes_concat(a: Seq<(i32, Seq<u8>)>, b: Seq<(i32, Seq<u8>)>)
    ensures
        items_bytes(a + b) == items_bytes(a) + items_bytes(b),
    decreases b.len(),
{
    if b.len() == 0 {
        assert(a + b =~= a);
        assert(items_bytes(a) + items_bytes(b) =~= items_bytes(a));
    } else {
        lemma_items_bytes_concat(a, b.drop_last());
        assert((a + b).drop_last() =~= a + b.drop_last());
        assert((a + b).last() == b.last());
        assert(items_bytes(a + b) =~= items_bytes(a) + items_bytes(b));
    }
}

/// Stored ids take four bytes each, the `j`th at `4 * j`.
pub proof fn lemma_ids_bytes(ids: Seq<u32>, j: int)
    requires
        0 <= j <= ids.len(),
    ensures
        ids_bytes(ids).len() == 4 * ids.len(),
        ids_bytes(ids).subrange(0, 4 * j) == ids_bytes(ids.subrange(0, j)),
        j < ids.len() ==> ids_bytes(ids).subrange(4 * j, 4 * j + 4) == le32(ids[j]),
    decreases ids.len(),
{
    vstd::bytes::lemma_auto_spec_u32_to_from_le_bytes();
    if ids.len() > 0 {
        let p = ids.drop_last();
        let n = ids.len() - 1;
        if j <= n {
            lemma_ids_bytes(p, j);
            assert(p.subrange(0, j) =~= ids.subrange(0, j));
            assert(ids_bytes(ids).subrange(0, 4 * j) =~= ids_bytes(p).subrange(0, 4 * j));
            if j < n {
                assert(p[j] == ids[j]);
                assert(ids_bytes(ids).subrange(4 * j, 4 * j + 4) =~= ids_bytes(p).subrange(4 * j, 4 * j + 4));
            } else {
                assert(ids_bytes(ids).subrange(4 * j, 4 * j + 4) =~= le32(ids.last()));
            }
        } else {
            lemma_ids_bytes(p, n);
            assert(ids.subrange(0, j) =~= ids);
            assert(ids_bytes(ids).subrange(0, 4 * j) =~= ids_bytes(ids));
        }
    } else {
        assert(ids.subrange(0, j) =~= ids);
    }
}

/// `b` begins with a page laid out with tag `t`, stored items `raw` and
/// child ids `ids`, whose counts and lengths fit the format.
pub open spec fn laid_out(b: Seq<u8>, t: u8, raw: Seq<(i32, Seq<u8>)>, ids: Seq<u32>) -> bool {
    &&& (t == 0 && ids.len() == 0) || (t == 1 && ids.len() == raw.len() + 1)
    &&& raw.len() <= u32::MAX
    &&& forall|i: int| 0 <= i < raw.len() ==> (#[trigger] raw[i]).1.len() <= u32::MAX
    &&& page_image(t, raw, ids).len() <= b.len()
    &&& b.subrange(0, page_image(t, raw, ids).len() as int) == page_image(t, raw, ids)
}

/// `q` is the page read from a layout with tag `t`, stored items `raw` and
/// child ids `ids`.
pub open spec fn read_as(q: Page, t: u8, raw: Seq<(i32, Seq<u8>)>, ids: Seq<u32>) -> bool {
    &&& q.tag() == t
    &&& q.child_seq() == ids
    &&& q.item_seq().len() == raw.len()
    &&& forall|i: int|
        0 <= i < raw.len() ==> {
            &&& (#[trigger] q.item_seq()[i]).key == raw[i].0
            &&& q.item_seq()[i].val@ == lossy_utf8(raw[i].1)
            &&& valid_utf8(raw[i].1) ==> encode_utf8(q.item_seq()[i].val@) == raw[i].1
        }
}

/// Where the header and item `i` of a laid-out page stand.
proof fn lemma_layout_item(b: Seq<u8>, t: u8, raw: Seq<(i32, Seq<u8>)>, ids: Seq<u32>, i: int)
    requires
        laid_out(b, t, raw, ids),
        0 <= i < raw.len(),
    ensures
        ({
            let off: int = 5 + items_bytes(raw.subrange(0, i)).len() as int;
            let v = raw[i].1;
            let vl: int = v.len() as int;
            &&& off + 8 + vl <= b.len()
            &&& b.subrange(off, off + 4) == le32(raw[i].0 as u32)
            &&& b.subrange(off + 4, off + 8) == le32(v.len() as u32)
            &&& b.subrange(off + 8, off + 8 + vl) == v
            &&& items_bytes(raw.subrange(0, i + 1)) == items_bytes(raw.subrange(0, i)) + item_bytes(raw[i].0, v)
        }),
{
    vstd::bytes::lemma_auto_spec_u32_to_from_le_bytes();
    let a = raw.subrange(0, i);
    let c = raw.subrange(i + 1, raw.len() as int);
    let e = raw[i];
    assert(raw =~= a + seq![e] + c);
    lemma_items_bytes_concat(a + seq![e], c);
    lemma_items_bytes_concat(a, seq![e]);
    assert(seq![e].drop_last() =~= Seq::<(i32, Seq<u8>)>::empty());
    assert(seq![e].last() == e);
    assert(items_bytes(Seq::<(i32, Seq<u8>)>::empty()) == Seq::<u8>::empty());
    assert(items_bytes(seq![e]) =~= item_bytes(e.0, e.1));
    assert(raw.subrange(0, i + 1) =~= a + seq![e]);
    let img = page_image(t, raw, ids);
    let off: int = 5 + items_bytes(a).len() as int;
    let ib = item_bytes(e.0, e.1);
    let il: int = ib.len() as int;
    let el: int = e.1.len() as int;
    assert(img =~= seq![t] + le32(raw.len() as u32) + items_bytes(a) + ib + items_bytes(c) + ids_bytes(ids));
    assert(img.subrange(off, off + il) =~= ib);
    assert(b.subrange(off, off + il) =~= ib);
    assert(ib.subrange(0, 4) =~= le32(e.0 as u32));
    assert(ib.subrange(4, 8) =~= le32(e.1.len() as u32));
    assert(ib.subrange(8, 8 + el) =~= e.1);
    assert(b.subrange(off, off + 4) =~= ib.subrange(0, 4));
    assert(b.subrange(off + 4, off + 8) =~= ib.subrange(4, 8));
    assert(b.subrange(off + 8, off + 8 + el) =~= ib.subrange(8, 8 + el));
}

/// Where child id `j` of a laid-out internal page stands.
proof fn lemma_layout_id(b: Seq<u8>, t: u8, raw: Seq<(i32, Seq<u8>)>, ids: Seq<u32>, j: int)
    requires
        laid_out(b, t, raw, ids),
        0 <= j < ids.len(),
    ensures
        ({
            let off: int = 5 + items_bytes(raw).len() as int + 4 * j;
            &&& off + 4 <= b.len()
            &&& b.subrange(off, off + 4) == le32(ids[j])
        }),
{
    vstd::bytes::lemma_auto_spec_u32_to_from_le_bytes();
    lemma_ids_bytes(ids, j);
    let img = page_image(t, raw, ids);
    let base: int = 5 + items_bytes(raw).len() as int;
    let ib = ids_bytes(ids);
    assert(img =~= (seq![t] + le32(raw.len() as u32) + items_bytes(raw)) + ib);
    assert(img.subrange(base + 4 * j, base + 4 * j + 4) =~= ib.subrange(4 * j, 4 * j + 4));
    assert(b.subrange(base + 4 * j, base + 4 * j + 4) =~= img.subrange(base + 4 * j, base + 4 * j + 4));
}

/// Distinct `u32`s have distinct little-endian bytes.
proof fn lemma_le32_injective(a: u32, b: u32)
    requires
        le32(a) == le32(b),
    ensures
        a == b,
{
    vstd::bytes::lemma_auto_spec_u32_to_from_le_bytes();
    assert(le32(a).len() == 4 && le32(b).len() == 4);
    assert(spec_u32_from_le_bytes(le32(a)) == a);
    assert(spec_u32_from_le_bytes(le32(b)) == b);
}

/// A key stored as its bit pattern reads back as itself.
proof fn lemma_u32_i32(k: i32, u: u32)
    requires
        u == k as u32,
    ensures
        u as i32 == k,
{
    assert(u as i32 == k) by (bit_vector)
        requires
            u == k as u32,
    ;
}

/// Decodes the page stored in `buf` under page id `id`. Fails with
/// `InvalidData` on a tag other than 0 or 1, a value longer than the
/// buffer, or any read past its end; a buffer that begins with a page laid
/// out is read as that page.
pub fn decode_page(buf: &[u8], id: u32) -> (r: Result<Page, BtreeError>)
    ensures
        match r {
            Ok(p) => p.page_id() == id && exists|raw: Seq<(i32, Seq<u8>)>| decodes_to(buf@, p, raw),
            Err(e) => e == BtreeError::InvalidData,
        },
        forall|t: u8, raw: Seq<(i32, Seq<u8>)>, ids: Seq<u32>|
            #[trigger] laid_out(buf@, t, raw, ids) ==> r is Ok && read_as(r->Ok_0, t, raw, ids),
{
    proof {
        vstd::bytes::lemma_auto_spec_u32_to_from_le_bytes();
    }
    if buf.len() < 5 {
        proof {
            assert forall|t: u8, w: Seq<(i32, Seq<u8>)>, ids: Seq<u32>| #[trigger] laid_out(buf@, t, w, ids) implies false by {
                assert(page_image(t, w, ids).len() >= 5);
            }
        }
        return Err(BtreeError::InvalidData);
    }
    let tag = buf[0];
    proof {
        assert forall|t: u8, w: Seq<(i32, Seq<u8>)>, ids: Seq<u32>| #[trigger] laid_out(buf@, t, w, ids) implies t == tag
            && buf@.subrange(1, 5) == le32(w.len() as u32) by {
            let img = page_image(t, w, ids);
            assert(buf@.subrange(0, img.len() as int)[0] == img[0]);
            assert(buf@.subrange(1, 5) =~= img.subrange(1, 5));
        }
    }
    if tag != 0 && tag != 1 {
        return Err(BtreeError::InvalidData);
    }
    let count = read_u32_le(buf, 1);
    let mut items: Vec<Item> = Vec::new();
    let mut off: usize = 5;
    let ghost mut raw: Seq<(i32, Seq<u8>)> = Seq::empty();
    let ghost head = seq![tag] + le32(count);
    proof {
        assert(head.len() == 5);
        assert(buf@.subrange(0, 5) =~= head);
        assert forall|t: u8, w: Seq<(i32, Seq<u8>)>, ids: Seq<u32>| #[trigger] laid_out(buf@, t, w, ids) implies w.len() == count
            && raw == w.subrange(0, 0) by {
            assert(w.subrange(0, 0) =~= raw);
        }
    }
    let mut i: u32 = 0;
    while i < count
        invariant
            i <= count,
            off <= buf@.len(),
            raw.len() == i,
            items@.len() == i,
            forall|x: int|
                0 <= x < i ==> {
                    &&& (#[trigger] raw[x]).0 == items@[x].key
                    &&& items@[x].val@ == lossy_utf8(raw[x].1)
                    &&& valid_utf8(raw[x].1) ==> encode_utf8(items@[x].val@) == raw[x].1
                },
            head.len() == 5,
            off == head.len() + items_bytes(raw).len(),
            buf@.subrange(0, off as int) == head + items_bytes(raw),
            forall|t: u8, w: Seq<(i32, Seq<u8>)>, ids: Seq<u32>|
                #[trigger] laid_out(buf@, t, w, ids) ==> t == tag && w.len() == count && raw == w.subrange(0, i as int),
        decreases count - i,
    {
        proof {
            assert forall|t: u8, w: Seq<(i32, Seq<u8>)>, ids: Seq<u32>| #[trigger] laid_out(buf@, t, w, ids) implies off + 8
                + w[i as int].1.len() <= buf@.len() by {
                lemma_layout_item(buf@, t, w, ids, i as int);
            }
        }
        if buf.len() - off < 8 {
            return Err(BtreeError::InvalidData);
        }
        let kraw = read_u32_le(buf, off);
        let lraw = read_u32_le(buf, off + 4);
        let len = lraw as usize;
        proof {
            assert forall|t: u8, w: Seq<(i32, Seq<u8>)>, ids: Seq<u32>| #[trigger] laid_out(buf@, t, w, ids) implies len
                == w[i as int].1.len() && kraw == w[i as int].0 as u32 by {
                lemma_layout_item(buf@, t, w, ids, i as int);
                let e = w[i as int];
                lemma_le32_injective(lraw, e.1.len() as u32);
                lemma_le32_injective(kraw, e.0 as u32);
                assert(e.1.len() <= u32::MAX);
            }
        }
        if len > buf.len() - off - 8 {
            return Err(BtreeError::InvalidData);
        }
        let vb = slice_subrange(buf, off + 8, off + 8 + len);
        let val = utf8_lossy(vb);
        let key = kraw as i32;
        proof {
            assert((key as u32) == kraw) by (bit_vector)
                requires
                    key == kraw as i32,
            ;
            let old_raw = raw;
            raw = raw.push((key, vb@));
            assert(raw.drop_last() =~= old_raw);
            assert(buf@.subrange(0, off + 8 + len) =~= buf@.subrange(0, off as int) + buf@.subrange(
                off as int,
                off + 4,
            ) + buf@.subrange(off + 4, off + 8) + vb@);
            assert(vb@.len() as u32 == len as u32);
            assert forall|t: u8, w: Seq<(i32, Seq<u8>)>, ids: Seq<u32>| #[trigger] laid_out(buf@, t, w, ids) implies raw
                == w.subrange(0, i + 1) by {
                lemma_layout_item(buf@, t, w, ids, i as int);
                let e = w[i as int];
                lemma_u32_i32(e.0, kraw);
                assert(vb@ =~= e.1);
                assert(w.subrange(0, i + 1) =~= old_raw.push(e));
            }
        }
        items.push(Item { key, val });
        off = off + 8 + len;
        i = i + 1;
    }
    let ghost itemsv = items@;
    proof {
        assert forall|t: u8, w: Seq<(i32, Seq<u8>)>, ids: Seq<u32>| #[trigger] laid_out(buf@, t, w, ids) implies raw == w by {
            assert(w.subrange(0, count as int) =~= w);
        }
    }
    if tag == 0 {
        let p = Page::Leaf { id, items };
        proof {
            assert(page_image(p.tag(), raw, p.child_seq()) =~= head + items_bytes(raw));
            assert(decodes_to(buf@, p, raw));
            assert forall|t: u8, w: Seq<(i32, Seq<u8>)>, ids: Seq<u32>| #[trigger] laid_out(buf@, t, w, ids) implies read_as(
                p,
                t,
                w,
                ids,
            ) by {
                assert(p.child_seq() =~= ids);
            }
        }
        return Ok(p);
    }
    let mut children: Vec<u32> = Vec::new();
    let ghost base = head + items_bytes(raw);
    let mut j: u64 = 0;
    proof {
        assert(children@ =~= Seq::<u32>::empty());
        assert(base + ids_bytes(children@) =~= base);
        assert forall|t: u8, w: Seq<(i32, Seq<u8>)>, ids: Seq<u32>| #[trigger] laid_out(buf@, t, w, ids) implies children@
            == ids.subrange(0, 0) by {
            assert(ids.subrange(0, 0) =~= children@);
        }
    }
    while j <= count as u64
        invariant
            j <= count as u64 + 1,
            tag == 1,
            children@.len() == j,
            off <= buf@.len(),
            off == base.len() + ids_bytes(children@).len(),
            buf@.subrange(0, off as int) == base + ids_bytes(children@),
            base == head + items_bytes(raw),
            head.len() == 5,
            raw.len() == count,
            forall|t: u8, w: Seq<(i32, Seq<u8>)>, ids: Seq<u32>|
                #[trigger] laid_out(buf@, t, w, ids) ==> t == tag && w == raw && children@ == ids.subrange(0, j as int),
        decreases count as u64 + 1 - j,
    {
        proof {
            assert forall|t: u8, w: Seq<(i32, Seq<u8>)>, ids: Seq<u32>| #[trigger] laid_out(buf@, t, w, ids) implies off + 4
                <= buf@.len() by {
                lemma_ids_bytes(children@, 0);
                lemma_layout_id(buf@, t, w, ids, j as int);
            }
        }
        if buf.len() - off < 4 {
            return Err(BtreeError::InvalidData);
        }
        let c = read_u32_le(buf, off);
        let ghost before = children@;
        children.push(c);
        proof {
            assert(children@.drop_last() =~= before);
            assert(buf@.subrange(0, off + 4) =~= buf@.subrange(0, off as int) + buf@.subrange(
                off as int,
                off + 4,
            ));
            assert forall|t: u8, w: Seq<(i32, Seq<u8>)>, ids: Seq<u32>| #[trigger] laid_out(buf@, t, w, ids) implies children@
                == ids.subrange(0, j + 1) by {
                lemma_ids_bytes(before, 0);
                lemma_layout_id(buf@, t, w, ids, j as int);
                lemma_le32_injective(c, ids[j as int]);
                assert(children@ =~= ids.subrange(0, j + 1));
            }
        }
        off = off + 4;
        j = j + 1;
    }
    let p = Page::Internal { id, items, children };
    proof {
        assert(p.item_seq() == itemsv);
        assert(page_image(p.tag(), raw, p.child_seq()) =~= base + ids_bytes(p.child_seq()));
        assert(decodes_to(buf@, p, raw));
        assert forall|t: u8, w: Seq<(i32, Seq<u8>)>, ids: Seq<u32>| #[trigger] laid_out(buf@, t, w, ids) implies read_as(
            p,
            t,
            w,
            ids,
        ) by {
            assert(ids.subrange(0, count as int + 1) =~= ids);
        }
    }
    Ok(p)
}

} // verus!
