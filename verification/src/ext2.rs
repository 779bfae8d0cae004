//! What the JPEG recovery needs of an ext2 file system: the superblock and
//! the block group descriptors decoded from their on-disk bytes, the walk
//! over the blocks that the block bitmaps mark free, and which positions of
//! a file's block sequence hold indirect blocks.

use vstd::prelude::*;
use vstd::std_specs::bits::{u8_trailing_zeros, axiom_u8_trailing_zeros};

verus! {

pub const EXT2_SUPER_MAGIC: u16 = 0xEF53;

/// Size of the superblock structure on disk, in bytes.
pub const SUPERBLOCK_SIZE: usize = 84;

/// Size of a block group descriptor on disk, in bytes.
pub const GROUP_DESCRIPTOR_SIZE: usize = 32;

/// Offset of the superblock on the device.
pub const SUPERBLOCK_OFFSET: u64 = 1024;

/// Little-endian `u16` at `off`.
pub open spec fn le16(b: Seq<u8>, off: int) -> u16 {
    (b[off] + b[off + 1] * 256) as u16
}

/// Little-endian `u32` at `off`.
pub open spec fn le32(b: Seq<u8>, off: int) -> u32 {
    (b[off] + b[off + 1] * 256 + b[off + 2] * 65536 + b[off + 3] * 16777216) as u32
}

fn read_le16(b: &[u8], off: usize) -> (r: u16)
    requires
        off + 2 <= b@.len(),
    ensures
        r == le16(b@, off as int),
{
    (b[off] as u16) + (b[off + 1] as u16) * 256
}

fn read_le32(b: &[u8], off: usize) -> (r: u32)
    requires
        off + 4 <= b@.len(),
    ensures
        r == le32(b@, off as int),
{
    (b[off] as u32) + (b[off + 1] as u32) * 256 + (b[off + 2] as u32) * 65536 + (b[off + 3] as u32)
        * 16777216
}

#[derive(Debug, Clone, Copy)]
pub struct Superblock {
    s_inodes_count: u32,
    s_blocks_count: u32,
    s_r_blocks_count: u32,
    s_free_blocks_count: u32,
    s_free_inodes_count: u32,
    s_first_data_block: u32,
    s_log_block_size: u32,
    s_log_frag_size: u32,
    s_blocks_per_group: u32,
    s_frags_per_group: u32,
    s_inodes_per_group: u32,
    s_mtime: u32,
    s_wtime: u32,
    s_mnt_count: u16,
    s_max_mnt_count: u16,
    s_magic: u16,
    s_state: u16,
    s_errors: u16,
    s_minor_rev_level: u16,
    s_lastcheck: u32,
    s_checkinterval: u32,
    s_creator_os: u32,
    s_rev_level: u32,
    s_def_resuid: u16,
    s_def_resgid: u16,
}

#[derive(Debug, Clone, Copy)]
pub struct BlockGroupDescriptor {
    bg_block_bitmap: u32,
    bg_inode_bitmap: u32,
    bg_inode_table: u32,
    bg_free_blocks_count: u16,
    bg_free_inodes_count: u16,
    bg_used_dirs_count: u16,
    bg_pad: u16,
    bg_reserved: [u8; 12],
}

impl Superblock {
    pub closed spec fn magic(&self) -> u16 {
        self.s_magic
    }

    pub closed spec fn blocks_count(&self) -> u32 {
        self.s_blocks_count
    }

    pub closed spec fn first_data(&self) -> u32 {
        self.s_first_data_block
    }

    pub closed spec fn log_block_size(&self) -> u32 {
        self.s_log_block_size
    }

    pub closed spec fn per_group(&self) -> u32 {
        self.s_blocks_per_group
    }

    /// The superblock whose on-disk image starts `b`, every field decoded
    /// little-endian at its offset.
    pub closed spec fn decode(b: Seq<u8>) -> Superblock {
        Superblock {
            s_inodes_count: le32(b, 0),
            s_blocks_count: le32(b, 4),
            s_r_blocks_count: le32(b, 8),
            s_free_blocks_count: le32(b, 12),
            s_free_inodes_count: le32(b, 16),
            s_first_data_block: le32(b, 20),
            s_log_block_size: le32(b, 24),
            s_log_frag_size: le32(b, 28),
            s_blocks_per_group: le32(b, 32),
            s_frags_per_group: le32(b, 36),
            s_inodes_per_group: le32(b, 40),
            s_mtime: le32(b, 44),
            s_wtime: le32(b, 48),
            s_mnt_count: le16(b, 52),
            s_max_mnt_count: le16(b, 54),
            s_magic: le16(b, 56),
            s_state: le16(b, 58),
            s_errors: le16(b, 60),
            s_minor_rev_level: le16(b, 62),
            s_lastcheck: le32(b, 64),
            s_checkinterval: le32(b, 68),
            s_creator_os: le32(b, 72),
            s_rev_level: le32(b, 76),
            s_def_resuid: le16(b, 80),
            s_def_resgid: le16(b, 82),
        }
    }

    /// Decodes the superblock from the `SUPERBLOCK_SIZE` bytes that start at
    /// `SUPERBLOCK_OFFSET` on the device.
    pub fn from_bytes(b: &[u8]) -> (r: Superblock)
        requires
            b@.len() >= SUPERBLOCK_SIZE,
        ensures
            r == Superblock::decode(b@),
            r.magic() == le16(b@, 56),
            r.blocks_count() == le32(b@, 4),
            r.first_data() == le32(b@, 20),
            r.log_block_size() == le32(b@, 24),
            r.per_group() == le32(b@, 32),
    {
        Superblock {
            s_inodes_count: read_le32(b, 0),
            s_blocks_count: read_le32(b, 4),
            s_r_blocks_count: read_le32(b, 8),
            s_free_blocks_count: read_le32(b, 12),
            s_free_inodes_count: read_le32(b, 16),
            s_first_data_block: read_le32(b, 20),
            s_log_block_size: read_le32(b, 24),
            s_log_frag_size: read_le32(b, 28),
            s_blocks_per_group: read_le32(b, 32),
            s_frags_per_group: read_le32(b, 36),
            s_inodes_per_group: read_le32(b, 40),
            s_mtime: read_le32(b, 44),
            s_wtime: read_le32(b, 48),
            s_mnt_count: read_le16(b, 52),
            s_max_mnt_count: read_le16(b, 54),
            s_magic: read_le16(b, 56),
            s_state: read_le16(b, 58),
            s_errors: read_le16(b, 60),
            s_minor_rev_level: read_le16(b, 62),
            s_lastcheck: read_le32(b, 64),
            s_checkinterval: read_le32(b, 68),
            s_creator_os: read_le32(b, 72),
            s_rev_level: read_le32(b, 76),
            s_def_resuid: read_le16(b, 80),
            s_def_resgid: read_le16(b, 82),
        }
    }

    pub fn is_ext2(&self) -> (r: bool)
        ensures
            r == (self.magic() == EXT2_SUPER_MAGIC),
    {
        self.s_magic == EXT2_SUPER_MAGIC
    }

    pub fn first_data_block(&self) -> (r: usize)
        ensures
            r == self.first_data(),
    {
        self.s_first_data_block as usize
    }

    /// `s_log_block_size`: the block size is 1024 shifted left by it.
    pub fn log_of_block_size(&self) -> (r: u32)
        ensures
            r == self.log_block_size(),
    {
        self.s_log_block_size
    }

    /// `1024 << s_log_block_size`; the shift amount must be below the width
    /// of `usize`.
    pub fn block_size(&self) -> (r: usize)
        requires
            self.log_block_size() < usize::BITS,
        ensures
            r == (1024usize << (self.log_block_size() as usize)),
    {
        1024usize << self.s_log_block_size as usize
    }

    /// Where the descriptor of `group` lies on the device: the table of
    /// descriptors fills the blocks after the first data block, one
    /// `GROUP_DESCRIPTOR_SIZE` entry per group.
    pub fn descriptor_offset(&self, group: usize) -> (r: usize)
        requires
            self.log_block_size() < usize::BITS,
            (self.first_data() + 1) * spec_block_size(*self) + GROUP_DESCRIPTOR_SIZE * group
                <= usize::MAX,
        ensures
            r == (self.first_data() + 1) * spec_block_size(*self) + GROUP_DESCRIPTOR_SIZE * group,
    {
        let bs = self.block_size();
        let f = self.first_data_block();
        proof {
            assert(f * bs + bs == (f + 1) * bs && f * bs <= (f + 1) * bs) by (nonlinear_arith)
                requires
                    bs >= 0,
                    f >= 0,
            ;
        }
        let table = f * bs + bs;
        table + GROUP_DESCRIPTOR_SIZE * group
    }

    pub fn blocks_per_group(&self) -> (r: usize)
        ensures
            r == self.per_group(),
    {
        self.s_blocks_per_group as usize
    }

    pub fn block_count(&self) -> (r: usize)
        ensures
            r == self.blocks_count(),
    {
        self.s_blocks_count as usize
    }

    /// The number of block groups: the block count divided by the blocks per
    /// group, rounded up.
    pub fn block_group_count(&self) -> (r: usize)
        requires
            self.blocks_count() > 0,
            self.per_group() > 0,
        ensures
            r == 1 + (self.blocks_count() - 1) / (self.per_group() as int),
            (r - 1) * self.per_group() < self.blocks_count() <= r * self.per_group(),
    {
        let r = 1 + (self.block_count() - 1) / self.blocks_per_group();
        proof {
            let c = self.blocks_count() as int;
            let g = self.per_group() as int;
            assert((r - 1) * g < c <= r * g) by (nonlinear_arith)
                requires
                    r == 1 + (c - 1) / g,
                    c > 0,
                    g > 0,
            {
                vstd::arithmetic::div_mod::lemma_fundamental_div_mod(c - 1, g);
            }
        }
        r
    }

    /// The bytes of a block bitmap that cover one group: the blocks per
    /// group divided by 8, rounded up.
    pub fn bitmap_size(&self) -> (r: usize)
        requires
            self.per_group() > 0,
        ensures
            r == 1 + (self.per_group() - 1) / 8,
            self.per_group() <= r * 8 < self.per_group() + 8,
    {
        1 + (self.blocks_per_group() - 1) / 8
    }
}

impl BlockGroupDescriptor {
    pub closed spec fn bitmap_block(&self) -> u32 {
        self.bg_block_bitmap
    }

    /// Every field is the little-endian value at its offset in `b`.
    pub closed spec fn decoded_from(&self, b: Seq<u8>) -> bool {
        &&& self.bg_block_bitmap == le32(b, 0)
        &&& self.bg_inode_bitmap == le32(b, 4)
        &&& self.bg_inode_table == le32(b, 8)
        &&& self.bg_free_blocks_count == le16(b, 12)
        &&& self.bg_free_inodes_count == le16(b, 14)
        &&& self.bg_used_dirs_count == le16(b, 16)
        &&& self.bg_pad == le16(b, 18)
        &&& self.bg_reserved@ == b.subrange(20, 32)
    }

    /// Decodes a block group descriptor from its `GROUP_DESCRIPTOR_SIZE`
    /// on-disk bytes.
    pub fn from_bytes(b: &[u8]) -> (r: BlockGroupDescriptor)
        requires
            b@.len() >= GROUP_DESCRIPTOR_SIZE,
        ensures
            r.bitmap_block() == le32(b@, 0),
            r.decoded_from(b@),
    {
        let mut reserved = [0u8; 12];
        let mut i: usize = 0;
        while i < 12
            invariant
                i <= 12,
                b@.len() >= 32,
                reserved@.len() == 12,
                forall|k: int| 0 <= k < i ==> reserved@[k] == b@[20 + k],
            decreases 12 - i,
        {
            reserved[i] = b[20 + i];
            i = i + 1;
        }
        proof {
            assert(reserved@ =~= b@.subrange(20, 32));
        }
        BlockGroupDescriptor {
            bg_block_bitmap: read_le32(b, 0),
            bg_inode_bitmap: read_le32(b, 4),
            bg_inode_table: read_le32(b, 8),
            bg_free_blocks_count: read_le16(b, 12),
            bg_free_inodes_count: read_le16(b, 14),
            bg_used_dirs_count: read_le16(b, 16),
            bg_pad: read_le16(b, 18),
            bg_reserved: reserved,
        }
    }

    pub fn block_bitmap(&self) -> (r: usize)
        ensures
            r == self.bitmap_block(),
    {
        self.bg_block_bitmap as usize
    }
}

/// Bit `i` of a block bitmap, counting from the least significant bit of
/// the first byte, is clear: block `i` of the group is free.
pub open spec fn is_free(bitmap: Seq<u8>, i: int) -> bool {
    (bitmap[i / 8] >> ((i % 8) as u8)) & 1u8 == 0u8
}

/// `k` is the first free block at or after `start` in `bitmap`.
pub open spec fn first_free(bitmap: Seq<u8>, start: int, k: int) -> bool {
    &&& start <= k < bitmap.len() * 8
    &&& is_free(bitmap, k)
    &&& forall|j: int| start <= j < k ==> !#[trigger] is_free(bitmap, j)
}

/// No block at or after `start` is free in `bitmap`.
pub open spec fn none_free(bitmap: Seq<u8>, start: int) -> bool {
    forall|j: int| start <= j < bitmap.len() * 8 ==> !#[trigger] is_free(bitmap, j)
}

proof fn lemma_shr_out(x: u8, a: u8, t: u8)
    by (bit_vector)
    requires
        a < 8,
        t < 8,
        a + t >= 8,
    ensures
        ((x >> a) >> t) & 1 == 0,
{
}

/// Bit `k - bit` of the complement shifted right by `bit` tells whether bit
/// `k` of `b` is clear.
proof fn lemma_byte_scan(b: u8, bit: u8, k: u8)
    by (bit_vector)
    requires
        bit <= k < 8,
    ensures
        (((!b) >> bit) >> ((k - bit) as u8)) & 1 == 1 <==> (b >> k) & 1 == 0,
{
}

/// The first free block at or after `start`, scanning byte by byte: the
/// set bits of the complemented byte are the free blocks.
fn scan_free(bitmap: &Vec<u8>, start: usize) -> (r: Option<usize>)
    requires
        bitmap@.len() * 8 <= usize::MAX,
    ensures
        match r {
            Some(k) => first_free(bitmap@, start as int, k as int),
            None => none_free(bitmap@, start as int),
        },
{
    let mut byte = start / 8;
    let mut bit: u8 = (start % 8) as u8;
    loop
        invariant
            bitmap@.len() * 8 <= usize::MAX,
            bit < 8,
            bit > 0 ==> byte * 8 + bit == start,
            bit == 0 ==> start <= byte * 8,
            forall|j: int| start <= j < byte * 8 + bit ==> !#[trigger] is_free(bitmap@, j),
        decreases bitmap@.len() - byte, 8 - bit,
    {
        if byte >= bitmap.len() {
            proof {
                assert forall|j: int| start <= j < bitmap@.len() * 8 implies !#[trigger] is_free(bitmap@, j) by {
                    assert(j < byte * 8 + bit);
                }
            }
            return None;
        }
        let b = bitmap[byte];
        let bits = (!b) >> bit;
        if bits != 0 {
            let t = bits.trailing_zeros();
            proof {
                axiom_u8_trailing_zeros(bits);
                let tz = t as u8;
                if bit + tz >= 8 {
                    lemma_shr_out(!b, bit, tz);
                }
                assert(bit + tz < 8);
                lemma_byte_scan(b, bit, (bit + tz) as u8);
                assert forall|j: int| start <= j < byte * 8 + bit + tz implies !#[trigger] is_free(bitmap@, j) by {
                    if j >= byte * 8 + bit {
                        let jj = (j - byte * 8 - bit) as u8;
                        assert(jj < tz);
                        assert((bits >> jj) & 1u8 == 0u8);
                        lemma_byte_scan(b, bit, (bit + jj) as u8);
                        assert(j / 8 == byte && j % 8 == bit + jj);
                    }
                }
                assert((byte * 8 + bit + tz) / 8 == byte && (byte * 8 + bit + tz) % 8 == bit + tz);
            }
            return Some(byte * 8 + bit as usize + t as usize);
        }
        proof {
            assert forall|j: int| start <= j < byte * 8 + 8 implies !#[trigger] is_free(bitmap@, j) by {
                if j >= byte * 8 + bit {
                    let jj = (j - byte * 8 - bit) as u8;
                    lemma_byte_scan(b, bit, (bit + jj) as u8);
                    assert((0u8 >> jj) & 1u8 == 0u8) by (bit_vector);
                    assert(j / 8 == byte && j % 8 == bit + jj);
                }
            }
        }
        byte = byte + 1;
        bit = 0;
    }
}

/// `1024 << s_log_block_size`, the block size of `sb`.
pub open spec fn spec_block_size(sb: Superblock) -> usize {
    1024usize << (sb.log_block_size() as usize)
}

/// One more than the largest block position `block_is_indirect` accepts,
/// for `d` block addresses per block: the data blocks reachable through the
/// direct, indirect, doubly and triply indirect addresses, plus the address
/// blocks before the triply indirect ones.
pub open spec fn indirect_limit(d: int) -> int {
    (12 + d + d * d + d * d * d) + (1 + 1 + d + 1 + d + d * d)
}

/// Whether position `n` in the on-disk sequence of a file's blocks holds
/// an address block, for `d` addresses per block. The sequence has 12 data
/// blocks; the indirect block and its `d` data blocks; the doubly indirect
/// block followed by `d` runs of one indirect block and `d` data blocks;
/// then the triply indirect block followed by `d` rows, each one doubly
/// indirect block and `d` runs of one indirect block and `d` data blocks.
/// Of the last row only its doubly indirect block counts.
pub open spec fn is_indirect_position(n: int, d: int) -> bool {
    let doubly = 13 + d;
    let triply = doubly + 1 + (d + 1) * d;
    let row = 1 + d * (d + 1);
    ||| n == 12
    ||| n == doubly
    ||| exists|k: int| 0 <= k < d && n == #[trigger] nth_start(doubly + 1, k, d + 1)
    ||| n == triply
    ||| exists|r: int| 0 <= r < d && n == #[trigger] nth_start(triply + 1, r, row)
    ||| exists|r: int, k: int|
        0 <= r < d - 1 && 0 <= k < d && n == #[trigger] nth_start(
            nth_start(triply + 2, r, row),
            k,
            d + 1,
        )
}

/// Where the `k`-th of a sequence of stretches of `len` positions from
/// `base` starts.
pub open spec fn nth_start(base: int, k: int, len: int) -> int {
    base + k * len
}

/// `is_indirect_position` by regions: the offset into the doubly and the
/// triply indirect regions, taken modulo the length of a run or a row.
spec fn indirect_by_regions(n: int, d: int) -> bool {
    let di = 13 + d;
    let ti = di + 1 + (d + 1) * d;
    let row = 1 + d * (d + 1);
    if n < 12 {
        false
    } else if n == 12 {
        true
    } else if n == di {
        true
    } else if di < n <= (di + 1) + (d + 1) * (d - 1) {
        (n - (di + 1)) % (d + 1) == 0
    } else if n == ti {
        true
    } else if ti < n <= (ti + 1) + row * (d - 1) {
        let col = (n - (ti + 1)) % row;
        col == 0 || col == 1 || (col - 1) % (d + 1) == 0
    } else {
        false
    }
}

/// Below `m * cnt`, the multiples of `m` are the starts of the `cnt` runs
/// of `m` positions.
proof fn lemma_run_start(t: int, m: int, cnt: int)
    requires
        m > 0,
        0 <= t < m * cnt,
    ensures
        (t % m == 0) == (exists|k: int| 0 <= k < cnt && t == #[trigger] nth_start(0, k, m)),
{
    vstd::arithmetic::div_mod::lemma_fundamental_div_mod(t, m);
    let q = t / m;
    if t % m == 0 {
        assert(0 <= q < cnt && t == q * m) by (nonlinear_arith)
            requires
                t == m * q,
                m > 0,
                0 <= t < m * cnt,
        ;
        assert(t == nth_start(0, q, m));
    }
    if exists|k: int| 0 <= k < cnt && t == #[trigger] nth_start(0, k, m) {
        let k = choose|k: int| 0 <= k < cnt && t == #[trigger] nth_start(0, k, m);
        vstd::arithmetic::div_mod::lemma_fundamental_div_mod_converse(t, m, k, 0);
    }
}

proof fn lemma_indirect_position(n: int, d: int)
    requires
        d >= 0,
    ensures
        indirect_by_regions(n, d) == is_indirect_position(n, d),
{
    let di = 13 + d;
    let ti = di + 1 + (d + 1) * d;
    let row = 1 + d * (d + 1);
    assert(0 <= (d + 1) * d && (d + 1) * d == d * (d + 1) && row >= 1) by (nonlinear_arith)
        requires
            d >= 0,
            row == 1 + d * (d + 1),
    ;
    // the runs of the doubly indirect region lie before the triply indirect block
    assert forall|k: int| 0 <= k < d implies #[trigger] (k * (d + 1)) <= (d + 1) * (d - 1) by {
        assert(k * (d + 1) <= (d + 1) * (d - 1)) by (nonlinear_arith)
            requires
                0 <= k < d,
        ;
    }
    // the rows of the triply indirect region
    assert forall|r: int| 0 <= r < d implies 0 <= #[trigger] (r * row) <= row * (d - 1) by {
        assert(0 <= r * row <= row * (d - 1)) by (nonlinear_arith)
            requires
                0 <= r < d,
                row >= 1,
        ;
    }
    assert forall|r: int, k: int|
        0 <= r < d - 1 && 0 <= k < d implies 1 + #[trigger] (r * row) + #[trigger] (k * (d + 1))
        < row * (d - 1) && 0 <= k * (d + 1) < d * (d + 1) by {
        assert(1 + r * row + k * (d + 1) < row * (d - 1) && 0 <= k * (d + 1) < d * (d + 1))
            by (nonlinear_arith)
            requires
                0 <= r < d - 1,
                0 <= k < d,
                row == 1 + d * (d + 1),
        ;
    }
    if di < n <= (di + 1) + (d + 1) * (d - 1) {
        let t = n - (di + 1);
        assert((d + 1) * (d - 1) < (d + 1) * d) by (nonlinear_arith)
            requires
                d >= 0,
        ;
        lemma_run_start(t, d + 1, d);
        if exists|k: int| 0 <= k < d && t == #[trigger] nth_start(0, k, d + 1) {
            let k = choose|k: int| 0 <= k < d && t == #[trigger] nth_start(0, k, d + 1);
            assert(n == nth_start(di + 1, k, d + 1));
        }
        if exists|k: int| 0 <= k < d && n == #[trigger] nth_start(di + 1, k, d + 1) {
            let k = choose|k: int| 0 <= k < d && n == #[trigger] nth_start(di + 1, k, d + 1);
            assert(t == nth_start(0, k, d + 1));
        }
    }
    if ti < n <= (ti + 1) + row * (d - 1) {
        let u = n - (ti + 1);
        assert(row * (d - 1) < row * d) by (nonlinear_arith)
            requires
                row >= 1,
        ;
        vstd::arithmetic::div_mod::lemma_fundamental_div_mod(u, row);
        let q = u / row;
        let c = u % row;
        lemma_run_start(u, row, d);
        if c >= 1 {
            lemma_run_start(c - 1, d + 1, d);
        }
        if c == 1 {
            vstd::arithmetic::div_mod::lemma_small_mod(0, (d + 1) as nat);
        }
        assert(u == q * row + c) by (nonlinear_arith)
            requires
                u == row * q + c,
        ;
        if c >= 1 && (c - 1) % (d + 1) == 0 {
            let k = choose|k: int| 0 <= k < d && c - 1 == #[trigger] nth_start(0, k, d + 1);
            assert(0 <= q < d - 1) by (nonlinear_arith)
                requires
                    u == q * row + c,
                    1 <= c < row,
                    0 <= u <= row * (d - 1),
                    row >= 1,
            ;
            assert(n == nth_start(nth_start(ti + 2, q, row), k, d + 1));
        }
        if c == 0 {
            let r = choose|r: int| 0 <= r < d && u == #[trigger] nth_start(0, r, row);
            assert(n == nth_start(ti + 1, r, row));
        }
        if exists|r: int, k: int|
            0 <= r < d - 1 && 0 <= k < d && n == #[trigger] nth_start(
                nth_start(ti + 2, r, row),
                k,
                d + 1,
            ) {
            let (r, k) = choose|r: int, k: int|
                0 <= r < d - 1 && 0 <= k < d && n == #[trigger] nth_start(
                    nth_start(ti + 2, r, row),
                    k,
                    d + 1,
                );
            vstd::arithmetic::div_mod::lemma_fundamental_div_mod_converse(u, row, r, 1 + k * (d
                + 1));
            assert(c - 1 == nth_start(0, k, d + 1));
        }
        if exists|r: int| 0 <= r < d && n == #[trigger] nth_start(ti + 1, r, row) {
            let r = choose|r: int| 0 <= r < d && n == #[trigger] nth_start(ti + 1, r, row);
            assert(u == nth_start(0, r, row));
        }
    }
}

proof fn lemma_limits(d: int)
    by (nonlinear_arith)
    requires
        d >= 1,
    ensures
        (13 + d) + 1 + (d + 1) * (d - 1) < indirect_limit(d),
        (13 + d + 1 + (d + 1) * d) + 1 + (1 + d * (d + 1)) * (d - 1) < indirect_limit(d),
        13 + d + 1 + (d + 1) * d < indirect_limit(d),
        1 + d * (d + 1) < indirect_limit(d),
        0 <= (d + 1) * (d - 1),
        0 <= (1 + d * (d + 1)) * (d - 1),
        d * d <= indirect_limit(d),
        (d + 1) * d <= indirect_limit(d),
{
}

/// The filesystem as the recovery reads it: the superblock and the block
/// group descriptor table. The device itself is read by the caller.
#[derive(Debug)]
pub struct Ext2FS {
    pub superblock: Superblock,
    pub block_group_descriptor_tables: Vec<BlockGroupDescriptor>,
}

/// The superblock does not carry the ext2 magic number.
#[derive(Debug)]
pub struct Unsupported;

/// The free blocks of the filesystem in order, read from the block bitmaps
/// one group at a time.
pub struct BlockIter {
    block_id: usize,
    block_bitmap: Vec<u8>,
}

/// What one step of the walk over free blocks came to.
pub enum ScanStep {
    /// The next free block.
    Found(usize),
    /// There are no more free blocks.
    Exhausted,
    /// The bitmap held is used up; the walk goes on with the bitmap of this
    /// group.
    NeedBitmap(usize),
}

impl Ext2FS {
    /// The parts of the superblock that the walk over free blocks divides
    /// by are non-zero.
    pub open spec fn well_formed(&self) -> bool {
        &&& self.superblock.blocks_count() > 0
        &&& self.superblock.per_group() > 0
    }

    pub open spec fn group_count(&self) -> int {
        1 + (self.superblock.blocks_count() - 1) / (self.superblock.per_group() as int)
    }

    pub open spec fn bitmap_len(&self) -> int {
        1 + (self.superblock.per_group() - 1) / 8
    }

    /// The filesystem described by `superblock`, with the descriptor of each
    /// block group, group 0 first; `Unsupported` when the superblock is not
    /// an ext2 one.
    pub fn try_from_parts(superblock: Superblock, descriptors: Vec<BlockGroupDescriptor>) -> (r:
        Result<Ext2FS, Unsupported>)
        requires
            superblock.magic() == EXT2_SUPER_MAGIC ==> {
                &&& superblock.blocks_count() > 0
                &&& superblock.per_group() > 0
                &&& descriptors@.len() == 1 + (superblock.blocks_count() - 1) / (
                superblock.per_group() as int)
            },
        ensures
            match r {
                Ok(fs) => {
                    &&& superblock.magic() == EXT2_SUPER_MAGIC
                    &&& fs.superblock == superblock
                    &&& fs.well_formed()
                    &&& fs.block_group_descriptor_tables@ == descriptors@
                    &&& fs.block_group_descriptor_tables@.len() == fs.group_count()
                },
                Err(_) => superblock.magic() != EXT2_SUPER_MAGIC,
            },
    {
        if !superblock.is_ext2() {
            return Err(Unsupported);
        }
        Ok(Ext2FS { superblock, block_group_descriptor_tables: descriptors })
    }

    /// Where block `block_id` starts on the device.
    pub fn block_offset(&self, block_id: usize) -> (r: usize)
        requires
            self.superblock.log_block_size() < usize::BITS,
            block_id * spec_block_size(self.superblock) <= usize::MAX,
        ensures
            r == block_id * spec_block_size(self.superblock),
    {
        block_id * self.superblock.block_size()
    }

    /// The block that holds the block bitmap of `block_group`.
    pub fn bitmap_block(&self, block_group: usize) -> (r: usize)
        requires
            block_group < self.block_group_descriptor_tables@.len(),
        ensures
            r == self.block_group_descriptor_tables@[block_group as int].bitmap_block(),
    {
        self.block_group_descriptor_tables[block_group].block_bitmap()
    }

    /// Cuts a block read from the bitmap location of a group down to the
    /// bytes that cover the group.
    pub fn trim_bitmap(&self, buf: &mut Vec<u8>)
        requires
            self.well_formed(),
        ensures
            final(buf)@ == if old(buf)@.len() <= self.bitmap_len() {
                old(buf)@
            } else {
                old(buf)@.subrange(0, self.bitmap_len())
            },
    {
        let bitmap_size = self.superblock.bitmap_size();
        buf.truncate(bitmap_size);
    }

    /// The walk over free blocks, starting with `bitmap`, the block read
    /// from the bitmap location of group 0.
    pub fn block_iter(&self, bitmap: Vec<u8>) -> (r: BlockIter)
        requires
            self.well_formed(),
        ensures
            r.block_id() == 0,
            r.bitmap() == if bitmap@.len() <= self.bitmap_len() {
                bitmap@
            } else {
                bitmap@.subrange(0, self.bitmap_len())
            },
    {
        let mut bitmap_block_data = bitmap;
        self.trim_bitmap(&mut bitmap_block_data);
        BlockIter { block_id: 0, block_bitmap: bitmap_block_data }
    }

    /// Whether position `block` of a file's block sequence holds an address
    /// block rather than data (see `is_indirect_position`).
    pub fn block_is_indirect(&self, block: usize) -> (r: bool)
        requires
            self.superblock.log_block_size() < usize::BITS,
            ({
                let d = spec_block_size(self.superblock) / 4;
                &&& indirect_limit(d as int) <= usize::MAX
                &&& block < indirect_limit(d as int)
                &&& d > 0 || block <= 13
            }),
        ensures
            r == is_indirect_position(block as int, (spec_block_size(self.superblock) / 4) as int),
    {
        let block_dist = self.superblock.block_size() / 4;
        let ghost d = block_dist as int;
        proof {
            lemma_indirect_position(block as int, d);
        }
        if block < 12 {
            return false;
        }
        if block == 12 {
            return true;
        }
        let d_indirect = 13 + block_dist;
        if block == d_indirect {
            return true;
        }
        proof {
            if d >= 1 {
                lemma_limits(d);
            }
        }
        let t_indirect = d_indirect + 1 + (block_dist + 1) * block_dist;
        if block > d_indirect && block <= (d_indirect + 1) + (block_dist + 1) * (block_dist - 1) {
            return (block - (d_indirect + 1)) % (block_dist + 1) == 0;
        }
        if block == t_indirect {
            return true;
        }
        if block > t_indirect && block <= (t_indirect + 1) + (1 + block_dist * (block_dist + 1)) * (
        block_dist - 1) {
            let blc = block - (t_indirect + 1);
            let r_size = 1 + (block_dist * (block_dist + 1));
            let row = blc / r_size;
            proof {
                vstd::arithmetic::div_mod::lemma_fundamental_div_mod(blc as int, r_size as int);
                assert(row * r_size <= blc) by (nonlinear_arith)
                    requires
                        row == blc / r_size,
                        r_size > 0,
                        blc >= 0,
                        blc == r_size * (blc / r_size) + blc % r_size,
                        blc % r_size >= 0;
            }
            let col = blc - row * r_size;
            proof {
                assert(col == blc % r_size) by (nonlinear_arith)
                    requires
                        row == blc / r_size,
                        col == blc - row * r_size,
                        r_size > 0,
                        blc == r_size * (blc / r_size) + blc % r_size;
            }
            return col == 0 || col == 1 || (col - 1) % (block_dist + 1) == 0;
        }
        false
    }
}

impl BlockIter {
    pub closed spec fn block_id(&self) -> int {
        self.block_id as int
    }

    pub closed spec fn bitmap(&self) -> Seq<u8> {
        self.block_bitmap@
    }

    /// The bitmap held is no longer than the part of a bitmap block that
    /// covers a group.
    pub open spec fn fits(&self, fs: &Ext2FS) -> bool {
        self.bitmap().len() <= fs.bitmap_len()
    }

    /// One step of the walk from `a` to `b` that answered `r`: the position
    /// never goes back, and a free block found lies past the one before.
    pub open spec fn walk_step(fs: &Ext2FS, a: BlockIter, b: BlockIter, r: ScanStep) -> bool {
        &&& b.block_id() >= a.block_id()
        &&& r matches ScanStep::Found(x) ==> {
            &&& b.block_id() > a.block_id()
            &&& x == b.block_id() + fs.superblock.first_data()
        }
    }

    /// A walk over the free blocks reports them in strictly increasing
    /// order: along any run of steps, each block found lies past every
    /// block found before it.
    pub proof fn lemma_walk_increasing(
        fs: &Ext2FS,
        states: Seq<BlockIter>,
        steps: Seq<ScanStep>,
        i: int,
        j: int,
    )
        requires
            states.len() == steps.len() + 1,
            forall|k: int|
                0 <= k < steps.len() ==> #[trigger] BlockIter::walk_step(
                    fs,
                    states[k],
                    states[k + 1],
                    steps[k],
                ),
            0 <= i < j < steps.len(),
            steps[i] is Found,
            steps[j] is Found,
        ensures
            steps[i]->Found_0 < steps[j]->Found_0,
    {
        assert(BlockIter::walk_step(fs, states[i], states[i + 1], steps[i]));
        assert(BlockIter::walk_step(fs, states[j], states[j + 1], steps[j]));
        BlockIter::lemma_walk_monotone(fs, states, steps, i + 1, j);
    }

    /// Along a run of steps the position never goes back.
    proof fn lemma_walk_monotone(fs: &Ext2FS, states: Seq<BlockIter>, steps: Seq<ScanStep>, i: int, j: int)
        requires
            states.len() == steps.len() + 1,
            forall|k: int|
                0 <= k < steps.len() ==> #[trigger] BlockIter::walk_step(
                    fs,
                    states[k],
                    states[k + 1],
                    steps[k],
                ),
            0 <= i <= j <= steps.len(),
        ensures
            states[i].block_id() <= states[j].block_id(),
        decreases j - i,
    {
        if i < j {
            assert(BlockIter::walk_step(fs, states[i], states[i + 1], steps[i]));
            BlockIter::lemma_walk_monotone(fs, states, steps, i + 1, j);
        }
    }

    /// The result of finding free block `k` of group `group`: the walk stops
    /// once the block lies past the end of the filesystem.
    fn found(&mut self, fs: &Ext2FS, group: usize, k: usize) -> (r: ScanStep)
        requires
            fs.well_formed(),
            group * fs.superblock.per_group() + k + fs.superblock.first_data() <= usize::MAX,
        ensures
            final(self).block_id() == group * fs.superblock.per_group() + k,
            final(self).bitmap() == old(self).bitmap(),
            match r {
                ScanStep::Found(b) => b == final(self).block_id() + fs.superblock.first_data()
                    && b < fs.superblock.blocks_count(),
                ScanStep::Exhausted => final(self).block_id() + fs.superblock.first_data()
                    >= fs.superblock.blocks_count(),
                ScanStep::NeedBitmap(_) => false,
            },
    {
        let bpg = fs.superblock.blocks_per_group();
        self.block_id = group * bpg + k;
        if self.block_id + fs.superblock.first_data_block() >= fs.superblock.block_count() {
            ScanStep::Exhausted
        } else {
            ScanStep::Found(self.block_id + fs.superblock.first_data_block())
        }
    }

    /// The next free block after the current one, in the bitmap held; when
    /// it has none, the bitmap of the next group is asked for, or the walk
    /// ends after the last group.
    pub fn next(&mut self, fs: &Ext2FS) -> (r: ScanStep)
        requires
            fs.well_formed(),
            old(self).fits(fs),
            old(self).block_id() + fs.superblock.per_group() + fs.superblock.first_data() + 8
                <= usize::MAX,
        ensures
            final(self).bitmap() == old(self).bitmap(),
            BlockIter::walk_step(fs, *old(self), *final(self), r),
            ({
                let bpg = fs.superblock.per_group() as int;
                let group = old(self).block_id() / bpg;
                let start = old(self).block_id() % bpg + 1;
                let bm = old(self).bitmap();
                match r {
                    ScanStep::Found(b) => {
                        &&& first_free(bm, start, final(self).block_id() - group * bpg)
                        &&& b == final(self).block_id() + fs.superblock.first_data()
                        &&& b < fs.superblock.blocks_count()
                    },
                    ScanStep::Exhausted => {
                        ||| first_free(bm, start, final(self).block_id() - group * bpg)
                            && final(self).block_id() + fs.superblock.first_data()
                            >= fs.superblock.blocks_count()
                        ||| none_free(bm, start) && group + 1 >= fs.group_count()
                            && final(self).block_id() == old(self).block_id()
                    },
                    ScanStep::NeedBitmap(g) => {
                        &&& none_free(bm, start)
                        &&& g == group + 1 < fs.group_count()
                        &&& g * bpg > old(self).block_id()
                        &&& final(self).block_id() == old(self).block_id()
                    },
                }
            }),
    {
        let bpg = fs.superblock.blocks_per_group();
        let block_idx_in_group = self.block_id % bpg + 1;
        let group = self.block_id / bpg;
        proof {
            assert(fs.bitmap_len() * 8 < bpg + 8) by (nonlinear_arith)
                requires
                    bpg > 0,
                    fs.bitmap_len() == 1 + (bpg - 1) / 8;
            vstd::arithmetic::div_mod::lemma_fundamental_div_mod(self.block_id as int, bpg as int);
            assert(group * bpg <= self.block_id) by (nonlinear_arith)
                requires
                    group == self.block_id / bpg,
                    bpg > 0,
                    self.block_id == bpg * (self.block_id / bpg) + self.block_id % bpg,
                    self.block_id % bpg >= 0;
            assert((group + 1) * bpg > self.block_id) by (nonlinear_arith)
                requires
                    group == self.block_id / bpg,
                    bpg > 0,
                    self.block_id == bpg * (self.block_id / bpg) + self.block_id % bpg,
                    self.block_id % bpg < bpg;
        }
        match scan_free(&self.block_bitmap, block_idx_in_group) {
            Some(k) => self.found(fs, group, k),
            None => {
                let next_group = group + 1;
                if next_group >= fs.superblock.block_group_count() {
                    ScanStep::Exhausted
                } else {
                    ScanStep::NeedBitmap(next_group)
                }
            },
        }
    }

    /// Goes on with `bitmap`, the block read from the bitmap location of
    /// group `group`, from its first bit; like `next`, asks for the bitmap
    /// of the following group when this one has no free block.
    pub fn resume(&mut self, fs: &Ext2FS, group: usize, bitmap: Vec<u8>) -> (r: ScanStep)
        requires
            fs.well_formed(),
            group < fs.group_count(),
            fs.superblock.blocks_count() + fs.superblock.per_group() + fs.superblock.first_data() + 8
                <= usize::MAX,
        ensures
            final(self).fits(fs),
            group * fs.superblock.per_group() > old(self).block_id() ==> BlockIter::walk_step(
                fs,
                *old(self),
                *final(self),
                r,
            ),
            final(self).bitmap() == if bitmap@.len() <= fs.bitmap_len() {
                bitmap@
            } else {
                bitmap@.subrange(0, fs.bitmap_len())
            },
            ({
                let bpg = fs.superblock.per_group() as int;
                let bm = final(self).bitmap();
                match r {
                    ScanStep::Found(b) => {
                        &&& final(self).block_id() >= group * bpg
                        &&& first_free(bm, 0, final(self).block_id() - group * bpg)
                        &&& b == final(self).block_id() + fs.superblock.first_data()
                        &&& b < fs.superblock.blocks_count()
                    },
                    ScanStep::Exhausted => {
                        ||| first_free(bm, 0, final(self).block_id() - group * bpg)
                            && final(self).block_id() + fs.superblock.first_data()
                            >= fs.superblock.blocks_count()
                        ||| none_free(bm, 0) && group + 1 >= fs.group_count()
                            && final(self).block_id() == old(self).block_id()
                    },
                    ScanStep::NeedBitmap(g) => {
                        &&& none_free(bm, 0)
                        &&& g == group + 1 < fs.group_count()
                        &&& final(self).block_id() == old(self).block_id()
                    },
                }
            }),
    {
        let mut bitmap = bitmap;
        fs.trim_bitmap(&mut bitmap);
        self.block_bitmap = bitmap;
        let bpg = fs.superblock.blocks_per_group();
        let count = fs.superblock.block_group_count();
        proof {
            assert(fs.bitmap_len() * 8 < bpg + 8) by (nonlinear_arith)
                requires
                    bpg > 0,
                    fs.bitmap_len() == 1 + (bpg - 1) / 8;
            assert(group * bpg < fs.superblock.blocks_count()) by (nonlinear_arith)
                requires
                    group + 1 <= count,
                    (count - 1) * bpg < fs.superblock.blocks_count(),
                    bpg > 0;
        }
        match scan_free(&self.block_bitmap, 0) {
            Some(k) => self.found(fs, group, k),
            None => {
                let next_group = group + 1;
                if next_group >= count {
                    ScanStep::Exhausted
                } else {
                    ScanStep::NeedBitmap(next_group)
                }
            },
        }
    }
}

} // verus!
