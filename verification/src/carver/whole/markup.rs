//! Files that end where what was opened is closed.

use crate::carver::documents::{rtf_from, rtf_len};
use crate::carver::images::{jpeg_from, jpeg_len};
use vstd::prelude::*;

verus! {

/// Byte `k` is what a backslash before it makes plain.
pub open spec fn escaped(f: Seq<u8>, k: int) -> bool
    decreases k,
{
    k > 0 && f[k - 1] == 0x5C && !escaped(f, k - 1)
}

/// How many groups are open before byte `k`: as many as were opened, less those that were closed.
pub open spec fn groups_open(f: Seq<u8>, k: int) -> int
    decreases k,
{
    if k <= 0 {
        0
    } else {
        groups_open(f, k - 1) + if escaped(f, k - 1) {
            0int
        } else if f[k - 1] == 0x7B {
            1
        } else if f[k - 1] == 0x7D {
            -1
        } else {
            0
        }
    }
}

proof fn lemma_rtf(f: Seq<u8>, avail: int, n: int, k: int)
    requires
        0 <= k < n <= avail <= f.len(),
        groups_open(f, n) == 0,
        f[n - 1] == 0x7D && !escaped(f, n - 1),
        forall|j: int| 0 < j < n ==> #[trigger] groups_open(f, j) > 0,
        k > 0 || f[0] == 0x7B,
    ensures
        rtf_from(f, avail, k, groups_open(f, k), escaped(f, k)) == Some(n),
    decreases n - k,
{
    assert(groups_open(f, k + 1) == groups_open(f, k) + if escaped(f, k) {
        0int
    } else if f[k] == 0x7B {
        1
    } else if f[k] == 0x7D {
        -1
    } else {
        0
    });
    assert(escaped(f, k + 1) == (f[k] == 0x5C && !escaped(f, k)));
    if k + 1 < n {
        assert(groups_open(f, k + 1) > 0);
        lemma_rtf(f, avail, n, k + 1);
    }
}

/// A document in Rich Text Format ends where the group that it begins with is closed: where for the first time as many groups
/// have been closed as were opened, braces behind a backslash not counted.
pub proof fn law_rtf(f: Seq<u8>, avail: int, n: int)
    requires
        2 <= n <= avail <= f.len(),
        f[0] == 0x7B,
        groups_open(f, n) == 0,
        f[n - 1] == 0x7D && !escaped(f, n - 1),
        forall|j: int| 0 < j < n ==> #[trigger] groups_open(f, j) > 0,
    ensures
        rtf_len(f, avail) == Some(n),
{
    lemma_rtf(f, avail, n, 0);
}

/// How many images are open inside a JPEG before byte `k`: as many as were started, less those that were ended.
pub open spec fn images_open(f: Seq<u8>, k: int) -> int
    decreases k,
{
    if k <= 2 {
        0
    } else {
        images_open(f, k - 1) + if f[k - 1] == 0xFF && f[k] == 0xD8 {
            1int
        } else if f[k - 1] == 0xFF && f[k] == 0xD9 {
            -1
        } else {
            0
        }
    }
}

proof fn lemma_jpeg(f: Seq<u8>, avail: int, i: int, k: int)
    requires
        2 <= k <= i,
        i + 2 <= avail <= f.len(),
        f[i] == 0xFF && f[i + 1] == 0xD9,
        images_open(f, i) == 0,
        forall|j: int|
            #![trigger images_open(f, j)]
            2 <= j < i && f[j] == 0xFF && f[j + 1] == 0xD9 ==> images_open(f, j) > 0,
    ensures
        jpeg_from(f, avail, k, images_open(f, k)) == Some(i + 2),
    decreases i - k,
{
    if k < i {
        assert(images_open(f, k + 1) == images_open(f, k) + if f[k] == 0xFF && f[k + 1] == 0xD8 {
            1int
        } else if f[k] == 0xFF && f[k + 1] == 0xD9 {
            -1
        } else {
            0
        });
        lemma_jpeg(f, avail, i, k + 1);
    }
}

/// A JPEG ends with the first end marker before which no image is open that was started inside it: the end marker of a
/// thumbnail, which follows its start marker, does not end it.
pub proof fn law_jpeg(f: Seq<u8>, avail: int, i: int)
    requires
        2 <= i,
        i + 2 <= avail <= f.len(),
        f[0] == 0xFF && f[1] == 0xD8,
        f[i] == 0xFF && f[i + 1] == 0xD9,
        images_open(f, i) == 0,
        forall|j: int|
            #![trigger images_open(f, j)]
            2 <= j < i && f[j] == 0xFF && f[j + 1] == 0xD9 ==> images_open(f, j) > 0,
    ensures
        jpeg_len(f, avail) == Some(i + 2),
{
    lemma_jpeg(f, avail, i, 2);
}

} // verus!
