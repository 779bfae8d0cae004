//! Recovery of deleted JPEG (JFIF) files from the free blocks of an ext2
//! filesystem: a free block that starts an image is found by the JFIF
//! header; the image runs to the end-of-image marker, in the same block or
//! over the following free blocks, passing over those that sit where a
//! file's indirect blocks would.

use vstd::prelude::*;
use crate::ext2::{Ext2FS, spec_block_size, indirect_limit, is_indirect_position};

verus! {

/// The start of a JFIF file.
pub const JFIF_HEADER: [u8; 11] = [0xFF, 0xD8, 0xFF, 0xE0, 0x00, 0x10, 0x4A, 0x46, 0x49, 0x46, 0x00];

/// The end-of-image marker.
pub const JFIF_EOI: [u8; 2] = [0xFF, 0xD9];

/// `pattern` occurs in `s` at position `i`.
pub open spec fn matches_at(s: Seq<u8>, pattern: Seq<u8>, i: int) -> bool {
    &&& 0 <= i
    &&& i + pattern.len() <= s.len()
    &&& s.subrange(i, i + pattern.len()) == pattern
}

/// The first occurrence of `pattern` at or after `offset` is `i` positions
/// after `offset`.
pub open spec fn first_match(s: Seq<u8>, pattern: Seq<u8>, offset: int, i: int) -> bool {
    &&& i >= 0
    &&& matches_at(s, pattern, offset + i)
    &&& forall|j: int| 0 <= j < i ==> !#[trigger] matches_at(s, pattern, offset + j)
}

/// `pattern` does not occur in `s` at or after `offset`.
pub open spec fn no_match(s: Seq<u8>, pattern: Seq<u8>, offset: int) -> bool {
    forall|j: int| offset <= j ==> !#[trigger] matches_at(s, pattern, j)
}

fn matches_here(slice: &[u8], pattern: &[u8], i: usize) -> (r: bool)
    requires
        i + pattern@.len() <= slice@.len(),
    ensures
        r == matches_at(slice@, pattern@, i as int),
{
    let n = slice.len();
    let mut k: usize = 0;
    while k < pattern.len()
        invariant
            k <= pattern@.len(),
            n == slice@.len(),
            i + pattern@.len() <= slice@.len(),
            forall|m: int| 0 <= m < k ==> slice@[i + m] == pattern@[m],
        decreases pattern@.len() - k,
    {
        if slice[i + k] != pattern[k] {
            proof {
                assert(slice@.subrange(i as int, i + pattern@.len())[k as int] != pattern@[k as int]);
            }
            return false;
        }
        k = k + 1;
    }
    proof {
        assert(slice@.subrange(i as int, i + pattern@.len()) =~= pattern@);
    }
    true
}

/// The position, counted from `offset`, of the first occurrence of
/// `pattern` in `slice` at or after `offset`.
pub fn pattern_position(slice: &[u8], pattern: &[u8], offset: usize) -> (r: Option<usize>)
    requires
        pattern@.len() > 0,
    ensures
        match r {
            Some(i) => first_match(slice@, pattern@, offset as int, i as int),
            None => no_match(slice@, pattern@, offset as int),
        },
{
    if slice.len() < pattern.len() {
        return None;
    }
    let n = slice.len();
    let last = n - pattern.len();
    let mut i = offset;
    while i <= last
        invariant
            offset <= i,
            last == slice@.len() - pattern@.len(),
            n == slice@.len(),
            pattern@.len() > 0,
            forall|j: int| offset <= j < i ==> !#[trigger] matches_at(slice@, pattern@, j),
        decreases last + 1 - i,
    {
        if matches_here(slice, pattern, i) {
            proof {
                assert forall|j: int| 0 <= j < i - offset implies !#[trigger] matches_at(
                    slice@,
                    pattern@,
                    offset + j,
                ) by {
                    assert(offset <= offset + j < i);
                }
            }
            return Some(i - offset);
        }
        i = i + 1;
    }
    None
}

/// Appends `data[from..to]` to `v`.
fn append_range(v: &mut Vec<u8>, data: &[u8], from: usize, to: usize)
    requires
        from <= to <= data@.len(),
    ensures
        final(v)@ == old(v)@ + data@.subrange(from as int, to as int),
{
    let mut i = from;
    while i < to
        invariant
            from <= i <= to <= data@.len(),
            v@ == old(v)@ + data@.subrange(from as int, i as int),
        decreases to - i,
    {
        v.push(data[i]);
        i = i + 1;
        proof {
            assert(v@ =~= old(v)@ + data@.subrange(from as int, i as int));
        }
    }
}

/// Every byte of `data` is zero.
pub fn all_zero(data: &[u8]) -> (r: bool)
    ensures
        r == forall|i: int| 0 <= i < data@.len() ==> data@[i] == 0,
{
    let mut i: usize = 0;
    while i < data.len()
        invariant
            i <= data@.len(),
            forall|k: int| 0 <= k < i ==> data@[k] == 0,
        decreases data@.len() - i,
    {
        if data[i] != 0 {
            return false;
        }
        i = i + 1;
    }
    true
}

/// The recovered images so far, and the image being collected over
/// several blocks together with how many blocks followed its first one.
pub struct Recovery {
    imgs: Vec<Vec<u8>>,
    img: Option<Vec<u8>>,
    block_cnt: usize,
}

impl Recovery {
    pub closed spec fn images(&self) -> Seq<Seq<u8>> {
        self.imgs@.map_values(|v: Vec<u8>| v@)
    }

    pub closed spec fn partial(&self) -> Option<Seq<u8>> {
        match self.img {
            Some(v) => Some(v@),
            None => None,
        }
    }

    pub closed spec fn block_cnt(&self) -> nat {
        self.block_cnt as nat
    }

    /// The block may be fed: a continuation block gets a position that
    /// `Ext2FS::block_is_indirect` accepts; any block may start an image.
    pub open spec fn can_feed(&self, fs: &Ext2FS, block: Seq<u8>) -> bool {
        let d = (spec_block_size(fs.superblock) / 4) as int;
        match self.partial() {
            Some(_) => {
                &&& fs.superblock.log_block_size() < usize::BITS
                &&& indirect_limit(d) <= usize::MAX
                &&& self.block_cnt() + 1 < indirect_limit(d)
                &&& d > 0 || self.block_cnt() + 1 <= 13
            },
            None => true,
        }
    }

    pub fn new() -> (r: Recovery)
        ensures
            r.images() == Seq::<Seq<u8>>::empty(),
            r.partial() is None,
            r.block_cnt() == 0,
    {
        let r = Recovery { imgs: Vec::new(), img: None, block_cnt: 0 };
        proof {
            assert(r.images() =~= Seq::<Seq<u8>>::empty());
        }
        r
    }

    /// Takes the next free block of the filesystem, in the order the walk
    /// over free blocks gives them.
    pub fn feed(&mut self, fs: &Ext2FS, block_data: &[u8])
        requires
            old(self).can_feed(fs, block_data@),
        ensures
            ({
                let o = old(self);
                let b = block_data@;
                match o.partial() {
                    None => {
                        if (forall|i: int| 0 <= i < b.len() ==> b[i] == 0) || (no_match(b, JFIF_HEADER@, 0)) {
                            final(self).images() == o.images() && final(self).partial() is None
                        } else {
                            exists|start: int|
                                #[trigger] first_match(b, JFIF_HEADER@, 0, start) && {
                                    ||| exists|end: int|
                                        #[trigger] first_match(b, JFIF_EOI@, start, end)
                                            && final(self).images() == o.images().push(
                                            b.subrange(start, start + end + 2),
                                        ) && final(self).partial() is None
                                    ||| no_match(b, JFIF_EOI@, start) && final(self).images()
                                        == o.images() && final(self).partial() == Some(
                                        b.subrange(start, b.len() as int),
                                    ) && final(self).block_cnt() == 0
                                }
                        }
                    },
                    Some(img) => {
                        let n = o.block_cnt() + 1;
                        let d = (spec_block_size(fs.superblock) / 4) as int;
                        &&& final(self).block_cnt() == n
                        &&& if is_indirect_position(n as int, d) {
                            final(self).images() == o.images() && final(self).partial() == Some(img)
                        } else if no_match(b, JFIF_EOI@, 0) {
                            final(self).images() == o.images() && final(self).partial() == Some(
                                img + b,
                            )
                        } else {
                            exists|end: int|
                                #[trigger] first_match(b, JFIF_EOI@, 0, end) && final(self).images()
                                    == o.images().push(img + b.subrange(0, end + 2))
                                    && final(self).partial() is None
                        }
                    },
                }
            }),
    {
        let header: &[u8] = JFIF_HEADER.as_slice();
        let eoi: &[u8] = JFIF_EOI.as_slice();
        assert(eoi@.len() == 2);
        assert(header@.len() == 11);
        let len = block_data.len();
        match self.img.take() {
            None => {
                if all_zero(block_data) {
                    return;
                }
                if let Some(start) = pattern_position(block_data, header, 0) {
                    self.block_cnt = 0;
                    if let Some(end) = pattern_position(block_data, eoi, start) {
                        let ghost pre = self.imgs@;
                        let mut found: Vec<u8> = Vec::new();
                        append_range(&mut found, block_data, start, start + end + 2);
                        self.imgs.push(found);
                        proof {
                            assert(self.images() =~= old(self).images().push(
                                block_data@.subrange(start as int, start + end + 2),
                            ));
                        }
                    } else {
                        let mut rest: Vec<u8> = Vec::new();
                        append_range(&mut rest, block_data, start, block_data.len());
                        self.img = Some(rest);
                    }
                }
            },
            Some(mut img) => {
                self.block_cnt = self.block_cnt + 1;
                if fs.block_is_indirect(self.block_cnt) {
                    self.img = Some(img);
                    return;
                }
                if let Some(end) = pattern_position(block_data, eoi, 0) {
                    append_range(&mut img, block_data, 0, end + 2);
                    self.imgs.push(img);
                    proof {
                        assert(self.images() =~= old(self).images().push(
                            old(self).partial()->Some_0 + block_data@.subrange(0, end + 2),
                        ));
                    }
                } else {
                    append_range(&mut img, block_data, 0, block_data.len());
                    self.img = Some(img);
                }
            },
        }
    }

    /// Whether an image is being collected over several blocks.
    pub fn is_collecting(&self) -> (r: bool)
        ensures
            r == self.partial() is Some,
    {
        self.img.is_some()
    }

    /// How many blocks followed the first block of the image being collected.
    pub fn blocks_after_first(&self) -> (r: usize)
        ensures
            r == self.block_cnt(),
    {
        self.block_cnt
    }

    /// The images recovered; an image still being collected is dropped.
    pub fn into_images(self) -> (r: Vec<Vec<u8>>)
        ensures
            r@.map_values(|v: Vec<u8>| v@) == self.images(),
    {
        self.imgs
    }
}

} // verus!
