//! Byte images built by a sequence of writes, each an offset and the bytes
//! put there.

use crate::pager::overwrite;
use vstd::prelude::*;

verus! {

/// `img` after the writes of `w`, in order.
pub open spec fn apply_writes(img: Seq<u8>, w: Seq<(int, Seq<u8>)>) -> Seq<u8>
    decreases w.len(),
{
    if w.len() == 0 {
        img
    } else {
        overwrite(apply_writes(img, w.drop_last()), w.last().0, w.last().1)
    }
}

/// Every write lies within the first `len` bytes.
pub open spec fn writes_within(w: Seq<(int, Seq<u8>)>, len: int) -> bool {
    forall|i: int| 0 <= i < w.len() ==> 0 <= (#[trigger] w[i]).0 && w[i].0 + w[i].1.len() <= len
}

/// Write `e` puts a byte at position `x`.
pub open spec fn covers(e: (int, Seq<u8>), x: int) -> bool {
    e.0 <= x < e.0 + e.1.len()
}

/// Some write of `w` puts a byte at position `x`.
pub open spec fn covered(w: Seq<(int, Seq<u8>)>, x: int) -> bool {
    exists|i: int| 0 <= i < w.len() && covers(#[trigger] w[i], x)
}

/// The byte at `x` after the writes of `w` on `img`: that of the last
/// write that covers `x`, or else `img`'s.
pub open spec fn byte_after(img: Seq<u8>, w: Seq<(int, Seq<u8>)>, x: int) -> u8
    decreases w.len(),
{
    if w.len() == 0 {
        img[x]
    } else if covers(w.last(), x) {
        w.last().1[x - w.last().0]
    } else {
        byte_after(img, w.drop_last(), x)
    }
}

/// Writes within an image keep its length, and each byte is the one that
/// the last write covering it put there.
pub proof fn lemma_apply_writes(img: Seq<u8>, w: Seq<(int, Seq<u8>)>)
    requires
        writes_within(w, img.len() as int),
    ensures
        apply_writes(img, w).len() == img.len(),
        forall|x: int| 0 <= x < img.len() ==> #[trigger] apply_writes(img, w)[x] == byte_after(img, w, x),
    decreases w.len(),
{
    if w.len() > 0 {
        let p = w.drop_last();
        assert(writes_within(p, img.len() as int)) by {
            assert forall|i: int| 0 <= i < p.len() implies 0 <= (#[trigger] p[i]).0 && p[i].0 + p[i].1.len() <= img.len() by {
                assert(p[i] == w[i]);
            }
        }
        lemma_apply_writes(img, p);
        let e = w.last();
        assert(e == w[w.len() - 1]);
        let a = apply_writes(img, p);
        assert forall|x: int| 0 <= x < img.len() implies #[trigger] apply_writes(img, w)[x] == byte_after(img, w, x) by {
            assert(apply_writes(img, w) == overwrite(a, e.0, e.1));
            if x < e.0 {
            } else if x < e.0 + e.1.len() {
            } else {
            }
        }
    }
}

/// Without a write covering `x`, the byte at `x` is the image's.
pub proof fn lemma_byte_uncovered(img: Seq<u8>, w: Seq<(int, Seq<u8>)>, x: int)
    requires
        !covered(w, x),
    ensures
        byte_after(img, w, x) == img[x],
    decreases w.len(),
{
    if w.len() > 0 {
        let p = w.drop_last();
        assert(!covers(w[w.len() - 1], x));
        assert(!covered(p, x)) by {
            if covered(p, x) {
                let i = choose|i: int| 0 <= i < p.len() && covers(#[trigger] p[i], x);
                assert(w[i] == p[i]);
            }
        }
        lemma_byte_uncovered(img, p, x);
    }
}

/// Two runs of writes at the same places, putting the same byte at `x`,
/// leave at a covered `x` the same byte whatever they were applied to.
pub proof fn lemma_byte_same_writes(
    a: Seq<u8>,
    b: Seq<u8>,
    w1: Seq<(int, Seq<u8>)>,
    w2: Seq<(int, Seq<u8>)>,
    x: int,
)
    requires
        w1.len() == w2.len(),
        forall|i: int| 0 <= i < w1.len() ==> (#[trigger] w1[i]).0 == w2[i].0 && w1[i].1.len() == w2[i].1.len(),
        forall|i: int| 0 <= i < w1.len() && covers(#[trigger] w1[i], x) ==> w1[i].1[x - w1[i].0] == w2[i].1[x - w2[i].0],
        covered(w1, x),
    ensures
        byte_after(a, w1, x) == byte_after(b, w2, x),
    decreases w1.len(),
{
    let n = w1.len() - 1;
    assert(w1.last() == w1[n]);
    assert(w2.last() == w2[n]);
    if !covers(w1[n], x) {
        let pre1 = w1.drop_last();
        let pre2 = w2.drop_last();
        assert(covered(pre1, x)) by {
            let i = choose|i: int| 0 <= i < w1.len() && covers(#[trigger] w1[i], x);
            assert(pre1[i] == w1[i]);
        }
        assert forall|i: int| 0 <= i < pre1.len() implies (#[trigger] pre1[i]).0 == pre2[i].0 && pre1[i].1.len() == pre2[i].1.len() by {
            assert(pre1[i] == w1[i]);
            assert(pre2[i] == w2[i]);
        }
        assert forall|i: int| 0 <= i < pre1.len() && covers(#[trigger] pre1[i], x) implies pre1[i].1[x - pre1[i].0] == pre2[i].1[x - pre2[i].0] by {
            assert(pre1[i] == w1[i]);
            assert(pre2[i] == w2[i]);
        }
        lemma_byte_same_writes(a, b, pre1, pre2, x);
    }
}

} // verus!
