//! On-disk records: super-block, disk inode, inode stat, directory entry.
//!
//! Every record has an explicit little-endian byte layout and a mathematical
//! model; encoding and decoding are verified against the model, so a record
//! written through the cache is read back unchanged.

use vstd::prelude::*;

use crate::block_cache::BlockCacheManager;
use crate::{le32_at, push_u32, u32_from_le, BLOCK_SZ};

verus! {

/// Magic number of a valid super-block.
pub const EFS_MAGIC: u32 = 0x3b800001;

/// Number of direct block slots in a disk inode.
pub const INODE_DIRECT_COUNT: usize = 8;

/// Longest directory-entry name, in bytes.
pub const NAME_LENGTH_LIMIT: usize = 27;

/// Number of block ids held by one indirect index block.
pub const INODE_INDIRECT1_COUNT: usize = 128;

/// First inner block id that needs the double-indirect tree.
pub const INDIRECT1_BOUND: usize = 136;

/// Size in bytes of an encoded directory entry.
pub const DIRENT_SZ: usize = 32;

/// Size in bytes of an encoded disk inode; four fit in one block.
pub const DISK_INODE_SZ: usize = 128;

/// `mode` bits of a directory.
pub const MODE_DIR: u32 = 0o040000;

/// `mode` bits of an ordinary file.
pub const MODE_FILE: u32 = 0o100000;

// ---------------------------------------------------------------------------
// Super-block
// ---------------------------------------------------------------------------

/// Mathematical model of a super-block.
#[verifier::ext_equal]
pub ghost struct SbModel {
    pub magic: int,
    pub total_blocks: int,
    pub inode_bitmap_blocks: int,
    pub inode_area_blocks: int,
    pub data_bitmap_blocks: int,
    pub data_area_blocks: int,
}

/// The super-block encoded in the first bytes of block `blk`: six
/// little-endian `u32` fields.
pub open spec fn sb_model_of(b: Seq<u8>) -> SbModel {
    SbModel {
        magic: le32_at(b, 0),
        total_blocks: le32_at(b, 4),
        inode_bitmap_blocks: le32_at(b, 8),
        inode_area_blocks: le32_at(b, 12),
        data_bitmap_blocks: le32_at(b, 16),
        data_area_blocks: le32_at(b, 20),
    }
}

/// Super-block of a filesystem: the disk layout's region sizes.
pub struct SuperBlock {
    pub magic: u32,
    pub total_blocks: u32,
    pub inode_bitmap_blocks: u32,
    pub inode_area_blocks: u32,
    pub data_bitmap_blocks: u32,
    pub data_area_blocks: u32,
}

impl View for SuperBlock {
    type V = SbModel;

    open spec fn view(&self) -> SbModel {
        SbModel {
            magic: self.magic as int,
            total_blocks: self.total_blocks as int,
            inode_bitmap_blocks: self.inode_bitmap_blocks as int,
            inode_area_blocks: self.inode_area_blocks as int,
            data_bitmap_blocks: self.data_bitmap_blocks as int,
            data_area_blocks: self.data_area_blocks as int,
        }
    }
}

impl SuperBlock {
    /// Fill in every field, with the valid magic.
    pub fn initialize(
        &mut self,
        total_blocks: u32,
        inode_bitmap_blocks: u32,
        inode_area_blocks: u32,
        data_bitmap_blocks: u32,
        data_area_blocks: u32,
    )
        ensures
            final(self)@ == (SbModel {
                magic: EFS_MAGIC as int,
                total_blocks: total_blocks as int,
                inode_bitmap_blocks: inode_bitmap_blocks as int,
                inode_area_blocks: inode_area_blocks as int,
                data_bitmap_blocks: data_bitmap_blocks as int,
                data_area_blocks: data_area_blocks as int,
            }),
    {
        *self = SuperBlock {
            magic: EFS_MAGIC,
            total_blocks,
            inode_bitmap_blocks,
            inode_area_blocks,
            data_bitmap_blocks,
            data_area_blocks,
        };
    }

    /// Whether the magic number is the one `initialize` writes.
    pub fn is_valid(&self) -> (r: bool)
        ensures
            r == (self@.magic == EFS_MAGIC as int),
    {
        self.magic == EFS_MAGIC
    }

    /// Decode the super-block stored at the front of block 0.
    pub fn read_from(cache: &mut BlockCacheManager) -> (r: SuperBlock)
        requires
            old(cache).wf(),
            old(cache)@.len() > 0,
        ensures
            final(cache).wf(),
            final(cache)@ == old(cache)@,
            r@ == sb_model_of(old(cache)@[0]),
    {
        proof {
            cache.lemma_view_wf();
        }
        let magic = cache.read_u32(0, 0);
        let total_blocks = cache.read_u32(0, 4);
        let inode_bitmap_blocks = cache.read_u32(0, 8);
        let inode_area_blocks = cache.read_u32(0, 12);
        let data_bitmap_blocks = cache.read_u32(0, 16);
        let data_area_blocks = cache.read_u32(0, 20);
        SuperBlock {
            magic,
            total_blocks,
            inode_bitmap_blocks,
            inode_area_blocks,
            data_bitmap_blocks,
            data_area_blocks,
        }
    }

    /// Encode the super-block at the front of block 0.
    pub fn write_to(&self, cache: &mut BlockCacheManager)
        requires
            old(cache).wf(),
            old(cache)@.len() > 0,
        ensures
            final(cache).wf(),
            final(cache)@.len() == old(cache)@.len(),
            final(cache)@[0].len() == BLOCK_SZ,
            sb_model_of(final(cache)@[0]) == self@,
            forall|k: int| 24 <= k < BLOCK_SZ ==> final(cache)@[0][k] == old(cache)@[0][k],
            forall|b: int| 0 < b < old(cache)@.len() ==> final(cache)@[b] == old(cache)@[b],
    {
        proof {
            cache.lemma_view_wf();
        }
        let mut bytes: Vec<u8> = Vec::new();
        push_u32(&mut bytes, self.magic);
        push_u32(&mut bytes, self.total_blocks);
        push_u32(&mut bytes, self.inode_bitmap_blocks);
        push_u32(&mut bytes, self.inode_area_blocks);
        push_u32(&mut bytes, self.data_bitmap_blocks);
        push_u32(&mut bytes, self.data_area_blocks);
        cache.write_bytes(0, 0, &bytes);
        proof {
            cache.lemma_view_wf();
            assert(sb_model_of(cache@[0]) =~= self@);
        }
    }
}

// ---------------------------------------------------------------------------
// Stat and inode type
// ---------------------------------------------------------------------------

/// The mode word of an inode: directory or ordinary file.
#[derive(Clone, Copy, PartialEq, Eq, Structural, Debug)]
pub struct StatMode {
    pub bits: u32,
}

impl StatMode {
    /// The null mode.
    pub fn null() -> (r: StatMode)
        ensures
            r.bits == 0,
    {
        StatMode { bits: 0 }
    }

    /// The directory mode.
    pub fn dir() -> (r: StatMode)
        ensures
            r.bits == MODE_DIR,
    {
        StatMode { bits: MODE_DIR }
    }

    /// The ordinary-file mode.
    pub fn file() -> (r: StatMode)
        ensures
            r.bits == MODE_FILE,
    {
        StatMode { bits: MODE_FILE }
    }
}

/// The stat of an inode: device, inode number, mode and hard-link count.
#[derive(Clone, Copy, PartialEq, Eq, Structural, Debug)]
pub struct Stat {
    pub dev: u64,
    pub ino: u64,
    pub mode: StatMode,
    pub nlink: u32,
}

impl Stat {
    /// A new stat; the device id is always 0.
    pub fn new(_dev: u64, inode_num: u64, stat_mode: StatMode, nlink: u32) -> (r: Stat)
        ensures
            r.dev == 0,
            r.ino == inode_num,
            r.mode == stat_mode,
            r.nlink == nlink,
    {
        Stat { dev: 0, ino: inode_num, mode: stat_mode, nlink }
    }

    /// Increase the hard-link count by one.
    pub fn increase_plink(&mut self)
        requires
            old(self).nlink < u32::MAX,
        ensures
            final(self).nlink == old(self).nlink + 1,
            final(self).dev == old(self).dev,
            final(self).ino == old(self).ino,
            final(self).mode == old(self).mode,
    {
        self.nlink = self.nlink + 1;
    }

    /// Decrease the hard-link count by one, stopping at zero; return the new
    /// count.
    pub fn decrease_plink(&mut self) -> (r: u32)
        ensures
            final(self).nlink == if old(self).nlink >= 1 {
                old(self).nlink - 1
            } else {
                0int
            },
            r == final(self).nlink,
            final(self).dev == old(self).dev,
            final(self).ino == old(self).ino,
            final(self).mode == old(self).mode,
    {
        if self.nlink >= 1 {
            self.nlink = self.nlink - 1;
        }
        self.nlink
    }
}

/// Type of a disk inode.
#[derive(Clone, Copy, PartialEq, Eq, Structural, Debug)]
pub enum DiskInodeType {
    File,
    Directory,
}

// ---------------------------------------------------------------------------
// Disk inode
// ---------------------------------------------------------------------------

/// Mathematical model of a disk inode.
#[verifier::ext_equal]
pub ghost struct InodeModel {
    pub size: int,
    pub direct: Seq<int>,
    pub indirect1: int,
    pub indirect2: int,
    pub is_dir: bool,
    pub nlink: int,
    pub mode: int,
    pub ino: int,
    pub dev: int,
}

/// The disk inode encoded in the 128 bytes `b`: size, the eight direct
/// slots, the two indirect block ids, the type word (1 for a directory),
/// the link count, the mode word and the inode number, each little-endian.
#[verifier::opaque]
pub open spec fn inode_model_of(b: Seq<u8>) -> InodeModel {
    InodeModel {
        size: le32_at(b, 0),
        direct: Seq::new(8, |i: int| le32_at(b, 4 + 4 * i)),
        indirect1: le32_at(b, 36),
        indirect2: le32_at(b, 40),
        is_dir: le32_at(b, 44) == 1,
        nlink: le32_at(b, 48),
        mode: le32_at(b, 52),
        ino: le32_at(b, 56),
        dev: 0,
    }
}

/// The disk inode stored at byte `off` of block `blk` in disk view `v`.
pub open spec fn inode_model_at(v: Seq<Seq<u8>>, blk: int, off: int) -> InodeModel {
    inode_model_of(v[blk].subrange(off, off + DISK_INODE_SZ as int))
}

/// A disk inode: the sizes and index tree of one file or directory.
pub struct DiskInode {
    pub size: u32,
    pub direct: Vec<u32>,
    pub indirect1: u32,
    pub indirect2: u32,
    pub stat: Stat,
    pub type_: DiskInodeType,
}

impl View for DiskInode {
    type V = InodeModel;

    open spec fn view(&self) -> InodeModel {
        InodeModel {
            size: self.size as int,
            direct: Seq::new(8, |i: int| self.direct@[i] as int),
            indirect1: self.indirect1 as int,
            indirect2: self.indirect2 as int,
            is_dir: self.type_ is Directory,
            nlink: self.stat.nlink as int,
            mode: self.stat.mode.bits as int,
            ino: self.stat.ino as int,
            dev: self.stat.dev as int,
        }
    }
}

/// Number of data blocks a content of `size` bytes occupies.
pub open spec fn data_blocks_of(size: int) -> int {
    (size + 511) / 512
}

/// Number of data-area blocks a content of `size` bytes occupies in all:
/// its data blocks and every index block of the tree over them.
pub open spec fn total_blocks_of(size: int) -> int {
    let d = data_blocks_of(size);
    d + if d > 8 {
        1int
    } else {
        0int
    } + if d > 136 {
        1 + (d - 136 + 127) / 128
    } else {
        0int
    }
}

/// `data_blocks_of` and `total_blocks_of` grow with the size.
pub proof fn lemma_total_blocks_monotone(a: int, b: int)
    requires
        0 <= a <= b,
    ensures
        0 <= data_blocks_of(a) <= data_blocks_of(b),
        0 <= total_blocks_of(a) <= total_blocks_of(b),
{
    assert(0 <= data_blocks_of(a) <= data_blocks_of(b)) by (nonlinear_arith)
        requires
            0 <= a <= b,
    ;
    let da = data_blocks_of(a);
    let db = data_blocks_of(b);
    if da > 136 {
        assert((da - 136 + 127) / 128 <= (db - 136 + 127) / 128) by (nonlinear_arith)
            requires
                136 < da <= db,
        ;
    } else if db > 136 {
        assert(0 <= (db - 136 + 127) / 128) by (nonlinear_arith)
            requires
                db > 136,
        ;
    }
}

/// A content of at most the index tree's capacity needs fewer than 2^24
/// blocks in all.
pub proof fn lemma_total_blocks_bound(s: int)
    requires
        0 <= s <= 0xFFFF_FFFF,
    ensures
        data_blocks_of(s) <= 0x80_0000,
        total_blocks_of(s) <= 0x82_0000,
{
    assert(data_blocks_of(s) <= 0x80_0000) by (nonlinear_arith)
        requires
            0 <= s <= 0xFFFF_FFFF,
    ;
    let d = data_blocks_of(s);
    if d > 136 {
        assert((d - 136 + 127) / 128 <= 0x1_0000) by (nonlinear_arith)
            requires
                136 < d <= 0x80_0000,
        ;
    }
}

impl DiskInode {
    /// The direct table has its eight slots and the stat names a real inode.
    pub open spec fn wf(&self) -> bool {
        &&& self.direct@.len() == 8
        &&& self.stat.dev == 0
        &&& self.stat.ino <= u32::MAX
    }

    /// Reset to an empty inode of the given type with one hard link.
    pub fn initialize(&mut self, inode_num: u32, type_: DiskInodeType)
        ensures
            final(self).wf(),
            final(self)@ == (InodeModel {
                size: 0,
                direct: Seq::new(8, |i: int| 0int),
                indirect1: 0,
                indirect2: 0,
                is_dir: type_ is Directory,
                nlink: 1,
                mode: if type_ is Directory {
                    MODE_DIR as int
                } else {
                    MODE_FILE as int
                },
                ino: inode_num as int,
                dev: 0,
            }),
    {
        let stat_mode = match type_ {
            DiskInodeType::Directory => StatMode::dir(),
            DiskInodeType::File => StatMode::file(),
        };
        self.size = 0;
        self.direct = vec![0u32; 8];
        self.indirect1 = 0;
        self.indirect2 = 0;
        self.stat = Stat::new(0, inode_num as u64, stat_mode, 1);
        self.type_ = type_;
        proof {
            assert(self@.direct =~= Seq::new(8, |i: int| 0int));
            assert(self@ =~= (InodeModel {
                size: 0,
                direct: Seq::new(8, |i: int| 0int),
                indirect1: 0,
                indirect2: 0,
                is_dir: type_ is Directory,
                nlink: 1,
                mode: if type_ is Directory {
                    MODE_DIR as int
                } else {
                    MODE_FILE as int
                },
                ino: inode_num as int,
                dev: 0,
            }));
        }
    }

    /// Whether this inode is a directory.
    pub fn is_dir(&self) -> (r: bool)
        ensures
            r == self@.is_dir,
    {
        self.type_ == DiskInodeType::Directory
    }

    /// Whether this inode is an ordinary file.
    pub fn is_file(&self) -> (r: bool)
        ensures
            r == !self@.is_dir,
    {
        self.type_ == DiskInodeType::File
    }

    /// Number of data blocks the current content occupies.
    pub fn data_blocks(&self) -> (r: u32)
        ensures
            r == data_blocks_of(self@.size),
    {
        Self::_data_blocks(self.size)
    }

    /// Number of data blocks a content of `size` bytes occupies.
    pub fn _data_blocks(size: u32) -> (r: u32)
        ensures
            r == data_blocks_of(size as int),
    {
        proof {
            lemma_total_blocks_bound(size as int);
        }
        (((size as u64) + 511) / 512) as u32
    }

    /// Number of data-area blocks a content of `size` bytes occupies in all,
    /// index blocks included.
    pub fn total_blocks(size: u32) -> (r: u32)
        ensures
            r == total_blocks_of(size as int),
    {
        proof {
            lemma_total_blocks_bound(size as int);
        }
        let data_blocks = Self::_data_blocks(size) as u64;
        let mut total: u64 = data_blocks;
        if data_blocks > INODE_DIRECT_COUNT as u64 {
            total = total + 1;
        }
        if data_blocks > INDIRECT1_BOUND as u64 {
            total = total + 1;
            let sub_indirect1_needed = (data_blocks - INDIRECT1_BOUND as u64
                + INODE_INDIRECT1_COUNT as u64 - 1) / INODE_INDIRECT1_COUNT as u64;
            total = total + sub_indirect1_needed;
        }
        total as u32
    }

    /// Number of fresh blocks a growth to `new_size` bytes needs.
    pub fn blocks_num_needed(&self, new_size: u32) -> (r: u32)
        requires
            new_size >= self.size,
        ensures
            r == total_blocks_of(new_size as int) - total_blocks_of(self@.size),
    {
        proof {
            lemma_total_blocks_monotone(self.size as int, new_size as int);
        }
        Self::total_blocks(new_size) - Self::total_blocks(self.size)
    }

    /// Encode into the 128-byte on-disk form.
    pub fn encode(&self) -> (r: Vec<u8>)
        requires
            self.wf(),
        ensures
            r@.len() == DISK_INODE_SZ,
            inode_model_of(r@) == self@,
    {
        let mut v: Vec<u8> = Vec::new();
        push_u32(&mut v, self.size);
        let mut i: usize = 0;
        while i < 8
            invariant
                i <= 8,
                self.wf(),
                v@.len() == 4 + 4 * i,
                le32_at(v@, 0) == self.size,
                forall|j: int| 0 <= j < i ==> le32_at(v@, 4 + 4 * j) == self.direct@[j],
            decreases 8 - i,
        {
            push_u32(&mut v, self.direct[i]);
            i = i + 1;
        }
        push_u32(&mut v, self.indirect1);
        push_u32(&mut v, self.indirect2);
        push_u32(
            &mut v,
            match self.type_ {
                DiskInodeType::Directory => 1u32,
                DiskInodeType::File => 0u32,
            },
        );
        push_u32(&mut v, self.stat.nlink);
        push_u32(&mut v, self.stat.mode.bits);
        push_u32(&mut v, self.stat.ino as u32);
        let ghost filled = v@;
        while v.len() < DISK_INODE_SZ
            invariant
                filled.len() == 60,
                filled.len() <= v@.len() <= DISK_INODE_SZ,
                v@.subrange(0, 60) == filled,
            decreases DISK_INODE_SZ - v@.len(),
        {
            v.push(0u8);
            proof {
                assert(v@.subrange(0, 60) =~= filled);
            }
        }
        proof {
            reveal(inode_model_of);
            assert forall|k: int| 0 <= k < 60 implies v@[k] == filled[k] by {
                assert(v@.subrange(0, 60)[k] == v@[k]);
            }
            assert(inode_model_of(v@).direct =~= self@.direct);
            assert(inode_model_of(v@) =~= self@);
        }
        v
    }

    /// Decode the 128-byte on-disk form.
    pub fn decode(b: &Vec<u8>) -> (r: DiskInode)
        requires
            b@.len() == DISK_INODE_SZ,
        ensures
            r.wf(),
            r@ == inode_model_of(b@),
    {
        let size = u32_from_le(b[0], b[1], b[2], b[3]);
        let mut direct: Vec<u32> = Vec::new();
        let mut i: usize = 0;
        while i < 8
            invariant
                i <= 8,
                b@.len() == DISK_INODE_SZ,
                direct@.len() == i,
                forall|j: int| 0 <= j < i ==> direct@[j] == le32_at(b@, 4 + 4 * j),
            decreases 8 - i,
        {
            direct.push(u32_from_le(b[4 + 4 * i], b[5 + 4 * i], b[6 + 4 * i], b[7 + 4 * i]));
            i = i + 1;
        }
        let indirect1 = u32_from_le(b[36], b[37], b[38], b[39]);
        let indirect2 = u32_from_le(b[40], b[41], b[42], b[43]);
        let type_code = u32_from_le(b[44], b[45], b[46], b[47]);
        let nlink = u32_from_le(b[48], b[49], b[50], b[51]);
        let mode = u32_from_le(b[52], b[53], b[54], b[55]);
        let ino = u32_from_le(b[56], b[57], b[58], b[59]);
        let type_ = if type_code == 1 {
            DiskInodeType::Directory
        } else {
            DiskInodeType::File
        };
        let r = DiskInode {
            size,
            direct,
            indirect1,
            indirect2,
            stat: Stat { dev: 0, ino: ino as u64, mode: StatMode { bits: mode }, nlink },
            type_,
        };
        proof {
            reveal(inode_model_of);
            assert(r@.direct =~= inode_model_of(b@).direct);
            assert(r@ =~= inode_model_of(b@));
        }
        r
    }
}

/// Decode the disk inode stored at byte `offset` of block `block_id`.
pub fn read_disk_inode(cache: &mut BlockCacheManager, block_id: usize, offset: usize) -> (r:
    DiskInode)
    requires
        old(cache).wf(),
        block_id < old(cache)@.len(),
        offset + DISK_INODE_SZ <= BLOCK_SZ,
    ensures
        final(cache).wf(),
        final(cache)@ == old(cache)@,
        r.wf(),
        r@ == inode_model_at(old(cache)@, block_id as int, offset as int),
{
    proof {
        cache.lemma_view_wf();
    }
    let bytes = cache.read_bytes(block_id, offset, DISK_INODE_SZ);
    DiskInode::decode(&bytes)
}

/// Encode `d` at byte `offset` of block `block_id`, leaving every other byte
/// of the disk alone.
pub fn write_disk_inode(cache: &mut BlockCacheManager, block_id: usize, offset: usize, d: &DiskInode)
    requires
        old(cache).wf(),
        d.wf(),
        block_id < old(cache)@.len(),
        offset + DISK_INODE_SZ <= BLOCK_SZ,
    ensures
        final(cache).wf(),
        final(cache)@.len() == old(cache)@.len(),
        final(cache)@[block_id as int].len() == BLOCK_SZ,
        inode_model_at(final(cache)@, block_id as int, offset as int) == d@,
        forall|k: int|
            0 <= k < BLOCK_SZ && !(offset <= k < offset + DISK_INODE_SZ)
                ==> final(cache)@[block_id as int][k] == old(cache)@[block_id as int][k],
        forall|b: int|
            0 <= b < old(cache)@.len() && b != block_id ==> final(cache)@[b] == old(cache)@[b],
{
    proof {
        cache.lemma_view_wf();
    }
    let bytes = d.encode();
    cache.write_bytes(block_id, offset, &bytes);
    proof {
        cache.lemma_view_wf();
        assert(cache@[block_id as int].subrange(offset as int, offset + DISK_INODE_SZ as int)
            =~= bytes@);
        assert(inode_model_at(cache@, block_id as int, offset as int) == inode_model_of(
            bytes@,
        ));
    }
}

// ---------------------------------------------------------------------------
// The index tree of a disk inode
// ---------------------------------------------------------------------------

/// Largest content an inode's index tree can address:
/// 8 direct + 128 single-indirect + 128 * 128 double-indirect blocks.
pub const MAX_FILE_SIZE: u32 = 16520 * 512;

/// Number of sub-indirect1 blocks the double-indirect tree holds for `n`
/// data blocks.
pub open spec fn ind2_count(n: int) -> int {
    if n > 136 {
        (n - 136 + 127) / 128
    } else {
        0
    }
}

/// Number of blocks, index blocks included, that a tree over `n` data
/// blocks occupies.
pub open spec fn total_blocks_n(n: int) -> int {
    n + if n > 8 {
        1int
    } else {
        0int
    } + if n > 136 {
        1 + ind2_count(n)
    } else {
        0int
    }
}

/// Device block id of the `i`-th data block of inode `d` in disk view `v`.
pub open spec fn block_id_spec(v: Seq<Seq<u8>>, d: InodeModel, i: int) -> int {
    if i < 8 {
        d.direct[i]
    } else if i < 136 {
        le32_at(v[d.indirect1], 4 * (i - 8))
    } else {
        le32_at(v[le32_at(v[d.indirect2], 4 * ((i - 136) / 128))], 4 * ((i - 136) % 128))
    }
}

/// Byte `p` of the content of inode `d` in disk view `v`.
pub open spec fn byte_at(v: Seq<Seq<u8>>, d: InodeModel, p: int) -> u8 {
    v[block_id_spec(v, d, p / 512)][p % 512]
}

/// The first `n` data blocks of inode `d`, in content order.
pub open spec fn data_ids_n(v: Seq<Seq<u8>>, d: InodeModel, n: int) -> Seq<int> {
    Seq::new(n as nat, |i: int| block_id_spec(v, d, i))
}

/// The index blocks of a tree over `n` data blocks of inode `d`: the
/// single-indirect block, the double-indirect block and its sub-indirect1
/// blocks, as far as `n` needs them.
pub open spec fn index_ids_n(v: Seq<Seq<u8>>, d: InodeModel, n: int) -> Seq<int> {
    (if n > 8 {
        seq![d.indirect1]
    } else {
        Seq::<int>::empty()
    }) + (if n > 136 {
        seq![d.indirect2] + Seq::new(ind2_count(n) as nat, |k: int| le32_at(v[d.indirect2], 4 * k))
    } else {
        Seq::<int>::empty()
    })
}

/// Every block of a tree over `n` data blocks: data blocks, then index
/// blocks.
pub open spec fn tree_ids_n(v: Seq<Seq<u8>>, d: InodeModel, n: int) -> Seq<int> {
    data_ids_n(v, d, n) + index_ids_n(v, d, n)
}

/// A tree over `n` data blocks is sound in `v`: every reachable block lies
/// on the disk and no two reachable blocks coincide.
pub open spec fn tree_wf_n(v: Seq<Seq<u8>>, d: InodeModel, n: int) -> bool {
    &&& d.direct.len() == 8
    &&& forall|t: int|
        0 <= t < tree_ids_n(v, d, n).len() ==> 0 <= #[trigger] tree_ids_n(v, d, n)[t] < v.len()
    &&& tree_ids_n(v, d, n).no_duplicates()
}

/// The data blocks the size of inode `d` reaches, in content order.
pub open spec fn data_ids(v: Seq<Seq<u8>>, d: InodeModel) -> Seq<int> {
    data_ids_n(v, d, data_blocks_of(d.size))
}

/// The index blocks the size of inode `d` reaches.
pub open spec fn index_ids(v: Seq<Seq<u8>>, d: InodeModel) -> Seq<int> {
    index_ids_n(v, d, data_blocks_of(d.size))
}

/// Every block reachable from inode `d`: data blocks, then index blocks.
pub open spec fn tree_ids(v: Seq<Seq<u8>>, d: InodeModel) -> Seq<int> {
    tree_ids_n(v, d, data_blocks_of(d.size))
}

/// The index tree of `d` is sound in `v`: the size is addressable, every
/// reachable block lies on the disk, and no two reachable blocks coincide.
pub open spec fn tree_wf(v: Seq<Seq<u8>>, d: InodeModel) -> bool {
    &&& 0 <= d.size <= MAX_FILE_SIZE
    &&& d.direct.len() == 8
    &&& tree_wf_n(v, d, data_blocks_of(d.size))
}

/// Every block reachable from `d` lies at or above block `lo`.
pub open spec fn tree_above(v: Seq<Seq<u8>>, d: InodeModel, lo: int) -> bool {
    forall|t: int| 0 <= t < tree_ids(v, d).len() ==> lo <= #[trigger] tree_ids(v, d)[t]
}

/// The tree over `n` data blocks has `total_blocks_n(n)` blocks in all.
pub proof fn lemma_tree_ids_len_n(v: Seq<Seq<u8>>, d: InodeModel, n: int)
    requires
        0 <= n,
    ensures
        tree_ids_n(v, d, n).len() == total_blocks_n(n),
        data_ids_n(v, d, n).len() == n,
        index_ids_n(v, d, n).len() == total_blocks_n(n) - n,
{
    if n > 136 {
        assert(0 <= ind2_count(n)) by (nonlinear_arith)
            requires
                n > 136,
        ;
    }
}

/// Where each reachable block stands in `tree_ids_n`.
pub proof fn lemma_tree_ids_index_n(v: Seq<Seq<u8>>, d: InodeModel, n: int)
    requires
        0 <= n,
    ensures
        forall|i: int|
            0 <= i < n ==> tree_ids_n(v, d, n)[i] == #[trigger] block_id_spec(v, d, i),
        n > 8 ==> tree_ids_n(v, d, n)[n] == d.indirect1,
        n > 136 ==> tree_ids_n(v, d, n)[n + 1] == d.indirect2,
        forall|k: int|
            0 <= k < ind2_count(n) ==> tree_ids_n(v, d, n)[n + 2 + k] == le32_at(
                v[d.indirect2],
                #[trigger] (4 * k),
            ),
{
    lemma_tree_ids_len_n(v, d, n);
    assert forall|i: int|
        0 <= i < n implies tree_ids_n(v, d, n)[i] == #[trigger] block_id_spec(v, d, i) by {
        assert(tree_ids_n(v, d, n)[i] == data_ids_n(v, d, n)[i]);
    }
}

/// A sequence with no duplicates stays duplicate-free when a fresh element
/// is pushed.
pub proof fn lemma_nodup_push(s: Seq<int>, e: int)
    requires
        s.no_duplicates(),
        !s.contains(e),
    ensures
        s.push(e).no_duplicates(),
        forall|b: int| s.push(e).contains(b) <==> s.contains(b) || b == e,
{
    assert forall|i: int, j: int|
        0 <= i < s.push(e).len() && 0 <= j < s.push(e).len() && i != j implies s.push(e)[i]
        != s.push(e)[j] by {
        if i < s.len() && j < s.len() {
        } else if i < s.len() {
            assert(s.push(e)[i] == s[i]);
            if s[i] == e {
                assert(s.contains(e));
            }
        } else if j < s.len() {
            assert(s.push(e)[j] == s[j]);
            if s[j] == e {
                assert(s.contains(e));
            }
        }
    }
    assert forall|b: int| s.push(e).contains(b) <==> s.contains(b) || b == e by {
        if s.contains(b) {
            let w = choose|w: int| 0 <= w < s.len() && s[w] == b;
            assert(s.push(e)[w] == b);
        }
        if b == e {
            assert(s.push(e)[s.len() as int] == e);
        }
        if s.push(e).contains(b) {
            let w = choose|w: int| 0 <= w < s.push(e).len() && s.push(e)[w] == b;
            if w < s.len() {
                assert(s[w] == b);
            }
        }
    }
}

/// A sequence with no duplicates stays duplicate-free when a fresh element
/// is inserted.
pub proof fn lemma_nodup_insert(s: Seq<int>, pos: int, e: int)
    requires
        s.no_duplicates(),
        !s.contains(e),
        0 <= pos <= s.len(),
    ensures
        s.insert(pos, e).no_duplicates(),
        forall|b: int| s.insert(pos, e).contains(b) <==> s.contains(b) || b == e,
        s.insert(pos, e).len() == s.len() + 1,
{
    s.insert_ensures(pos, e);
    let t = s.insert(pos, e);
    assert forall|i: int, j: int|
        0 <= i < t.len() && 0 <= j < t.len() && i != j implies t[i] != t[j] by {
        let oi: int = if i < pos { i } else { i - 1 };
        let oj: int = if j < pos { j } else { j - 1 };
        if i != pos && j != pos {
            assert(t[i] == s[oi] && t[j] == s[oj]);
        } else if i == pos {
            assert(t[j] == s[oj]);
            if t[j] == e {
                assert(s.contains(e));
            }
        } else {
            assert(t[i] == s[oi]);
            if t[i] == e {
                assert(s.contains(e));
            }
        }
    }
    assert forall|b: int| t.contains(b) <==> s.contains(b) || b == e by {
        if s.contains(b) {
            let w = choose|w: int| 0 <= w < s.len() && s[w] == b;
            if w < pos {
                assert(t[w] == b);
            } else {
                assert(t[w + 1] == b);
            }
        }
        if b == e {
            assert(t[pos] == e);
        }
        if t.contains(b) {
            let w = choose|w: int| 0 <= w < t.len() && t[w] == b;
            if w < pos {
                assert(s[w] == b);
            } else if w > pos {
                assert(s[w - 1] == b);
            }
        }
    }
}

/// The tree has as many blocks in all as `total_blocks_of` counts.
pub proof fn lemma_tree_ids_len(v: Seq<Seq<u8>>, d: InodeModel)
    requires
        0 <= d.size,
    ensures
        tree_ids(v, d).len() == total_blocks_of(d.size),
        data_ids(v, d).len() == data_blocks_of(d.size),
{
    assert(0 <= data_blocks_of(d.size)) by (nonlinear_arith)
        requires
            0 <= d.size,
    ;
    let n = data_blocks_of(d.size);
    if n > 136 {
        assert(0 <= ind2_count(n)) by (nonlinear_arith)
            requires
                n > 136,
        ;
    }
}

/// Where each reachable block stands in `tree_ids`.
pub proof fn lemma_tree_ids_index(v: Seq<Seq<u8>>, d: InodeModel)
    requires
        0 <= d.size,
    ensures
        forall|i: int|
            0 <= i < data_blocks_of(d.size) ==> tree_ids(v, d)[i] == #[trigger] block_id_spec(
                v,
                d,
                i,
            ),
        data_blocks_of(d.size) > 8 ==> tree_ids(v, d)[data_blocks_of(d.size)] == d.indirect1,
        data_blocks_of(d.size) > 136 ==> tree_ids(v, d)[data_blocks_of(d.size) + 1]
            == d.indirect2,
        forall|k: int|
            0 <= k < ind2_count(data_blocks_of(d.size)) ==> tree_ids(v, d)[data_blocks_of(d.size)
                + 2 + k] == le32_at(v[d.indirect2], #[trigger] (4 * k)),
{
    lemma_tree_ids_len(v, d);
    let n = data_blocks_of(d.size);
    assert forall|i: int|
        0 <= i < n implies tree_ids(v, d)[i] == #[trigger] block_id_spec(v, d, i) by {
        assert(tree_ids(v, d)[i] == data_ids(v, d)[i]);
    }
}

/// Changing the disk only outside the index blocks of `d` leaves the whole
/// tree mapping, and its soundness, as it was.
pub proof fn lemma_tree_unchanged(v1: Seq<Seq<u8>>, v2: Seq<Seq<u8>>, d: InodeModel)
    requires
        tree_wf(v1, d),
        v2.len() == v1.len(),
        data_blocks_of(d.size) > 8 ==> v2[d.indirect1] == v1[d.indirect1],
        data_blocks_of(d.size) > 136 ==> v2[d.indirect2] == v1[d.indirect2],
        forall|k: int|
            0 <= k < ind2_count(data_blocks_of(d.size)) ==> v2[le32_at(
                v1[d.indirect2],
                #[trigger] (4 * k),
            )] == v1[le32_at(v1[d.indirect2], 4 * k)],
    ensures
        forall|i: int|
            0 <= i < data_blocks_of(d.size) ==> #[trigger] block_id_spec(v2, d, i)
                == block_id_spec(v1, d, i),
        index_ids(v2, d) == index_ids(v1, d),
        data_ids(v2, d) == data_ids(v1, d),
        tree_ids(v2, d) == tree_ids(v1, d),
        tree_wf(v2, d),
{
    let n = data_blocks_of(d.size);
    assert(0 <= data_blocks_of(d.size)) by (nonlinear_arith)
        requires
            0 <= d.size,
    ;
    assert forall|i: int|
        0 <= i < n implies #[trigger] block_id_spec(v2, d, i) == block_id_spec(v1, d, i) by {
        if 8 <= i < 136 {
            assert(n > 8);
        } else if i >= 136 {
            assert(n > 136);
            let k = (i - 136) / 128;
            assert(0 <= k && k < (n - 136 + 127) / 128) by (nonlinear_arith)
                requires
                    k == (i - 136) / 128,
                    136 <= i < n,
            ;
            assert(0 <= k < ind2_count(n));
            assert(v2[le32_at(v1[d.indirect2], 4 * k)] == v1[le32_at(v1[d.indirect2], 4 * k)]);
        }
    }
    assert(index_ids(v2, d) =~= index_ids(v1, d));
    assert(data_ids(v2, d) =~= data_ids(v1, d));
    assert(tree_ids(v2, d) == tree_ids(v1, d));
}

/// A data block is none of the index blocks, so writing through it cannot
/// bend the tree.
pub proof fn lemma_data_not_index(v: Seq<Seq<u8>>, d: InodeModel, i: int)
    requires
        tree_wf(v, d),
        0 <= i < data_blocks_of(d.size),
    ensures
        data_blocks_of(d.size) > 8 ==> block_id_spec(v, d, i) != d.indirect1,
        data_blocks_of(d.size) > 136 ==> block_id_spec(v, d, i) != d.indirect2,
        forall|k: int|
            0 <= k < ind2_count(data_blocks_of(d.size)) ==> block_id_spec(v, d, i) != le32_at(
                v[d.indirect2],
                #[trigger] (4 * k),
            ),
        forall|j: int|
            0 <= j < data_blocks_of(d.size) && j != i ==> block_id_spec(v, d, i)
                != #[trigger] block_id_spec(v, d, j),
{
    lemma_tree_ids_len(v, d);
    lemma_tree_ids_index(v, d);
    let n = data_blocks_of(d.size);
    let t = tree_ids(v, d);
    if n > 8 {
        assert(t[i] != t[n]);
    }
    if n > 136 {
        assert(t[i] != t[n + 1]);
    }
    assert forall|k: int|
        0 <= k < ind2_count(n) implies block_id_spec(v, d, i) != le32_at(
        v[d.indirect2],
        #[trigger] (4 * k),
    ) by {
        assert(t[i] != t[n + 2 + k]);
    }
    assert forall|j: int|
        0 <= j < n && j != i implies block_id_spec(v, d, i) != #[trigger] block_id_spec(
        v,
        d,
        j,
    ) by {
        assert(t[i] != t[j]);
    }
}

/// Bytes outside one written 4-byte window leave every other aligned
/// little-endian `u32` as it was.
pub proof fn lemma_le32_frame(b1: Seq<u8>, b2: Seq<u8>, o1: int, o2: int)
    requires
        b2.len() == b1.len(),
        forall|k: int| 0 <= k < b2.len() && !(o1 <= k < o1 + 4) ==> b2[k] == b1[k],
        0 <= o2,
        o2 + 4 <= b2.len(),
        o2 + 4 <= o1 || o1 + 4 <= o2,
    ensures
        le32_at(b2, o2) == le32_at(b1, o2),
{
}

/// Changing the disk only outside the index blocks of a tree over `n` data
/// blocks leaves that tree as it was.
pub proof fn lemma_tree_unchanged_n(v1: Seq<Seq<u8>>, v2: Seq<Seq<u8>>, d: InodeModel, n: int)
    requires
        0 <= n,
        d.direct.len() == 8,
        v2.len() == v1.len(),
        n > 8 ==> v2[d.indirect1] == v1[d.indirect1],
        n > 136 ==> v2[d.indirect2] == v1[d.indirect2],
        forall|k: int|
            0 <= k < ind2_count(n) ==> v2[le32_at(v1[d.indirect2], #[trigger] (4 * k))]
                == v1[le32_at(v1[d.indirect2], 4 * k)],
    ensures
        forall|i: int|
            0 <= i < n ==> #[trigger] block_id_spec(v2, d, i) == block_id_spec(v1, d, i),
        index_ids_n(v2, d, n) == index_ids_n(v1, d, n),
        data_ids_n(v2, d, n) == data_ids_n(v1, d, n),
        tree_ids_n(v2, d, n) == tree_ids_n(v1, d, n),
        tree_wf_n(v1, d, n) ==> tree_wf_n(v2, d, n),
{
    assert forall|i: int|
        0 <= i < n implies #[trigger] block_id_spec(v2, d, i) == block_id_spec(v1, d, i) by {
        if 8 <= i < 136 {
            assert(n > 8);
        } else if i >= 136 {
            assert(n > 136);
            let k = (i - 136) / 128;
            assert(0 <= k && k < (n - 136 + 127) / 128) by (nonlinear_arith)
                requires
                    k == (i - 136) / 128,
                    136 <= i < n,
            ;
            assert(0 <= k < ind2_count(n));
            assert(v2[le32_at(v1[d.indirect2], 4 * k)] == v1[le32_at(v1[d.indirect2], 4 * k)]);
        }
    }
    assert(index_ids_n(v2, d, n) =~= index_ids_n(v1, d, n));
    assert(data_ids_n(v2, d, n) =~= data_ids_n(v1, d, n));
    assert(tree_ids_n(v2, d, n) == tree_ids_n(v1, d, n));
}

/// The elements of a duplicate-free sequence beyond a prefix are not in
/// that prefix.
pub proof fn lemma_take_fresh(nbs: Seq<int>)
    requires
        forall|a: int, b: int| 0 <= a < b < nbs.len() ==> nbs[a] != nbs[b],
    ensures
        forall|c: int, e: int|
            0 <= c <= e < nbs.len() ==> !(#[trigger] nbs.take(c).contains(nbs[e])),
        forall|c: int, b: int|
            0 <= c <= nbs.len() && #[trigger] nbs.take(c).contains(b) ==> nbs.contains(b),
{
    assert forall|c: int, e: int|
        0 <= c <= e < nbs.len() implies !(#[trigger] nbs.take(c).contains(nbs[e])) by {
        if nbs.take(c).contains(nbs[e]) {
            let w = choose|w: int| 0 <= w < nbs.take(c).len() && nbs.take(c)[w] == nbs[e];
            assert(nbs[w] == nbs[e]);
        }
    }
    assert forall|c: int, b: int|
        0 <= c <= nbs.len() && #[trigger] nbs.take(c).contains(b) implies nbs.contains(b) by {
        let w = choose|w: int| 0 <= w < nbs.take(c).len() && nbs.take(c)[w] == b;
        assert(nbs[w] == b);
    }
}

/// What a pushed sequence contains.
pub proof fn lemma_push_contains(s: Seq<int>, e: int)
    ensures
        forall|b: int| #[trigger] s.push(e).contains(b) <==> s.contains(b) || b == e,
{
    assert forall|b: int| #[trigger] s.push(e).contains(b) <==> s.contains(b) || b == e by {
        if s.contains(b) {
            let w = choose|w: int| 0 <= w < s.len() && s[w] == b;
            assert(s.push(e)[w] == b);
        }
        if b == e {
            assert(s.push(e)[s.len() as int] == b);
        }
        if s.push(e).contains(b) {
            let w = choose|w: int| 0 <= w < s.push(e).len() && s.push(e)[w] == b;
            if w < s.len() {
                assert(s[w] == b);
            }
        }
    }
}

/// Taking one more element is pushing it.
pub proof fn lemma_take_push(s: Seq<int>, c: int)
    requires
        0 <= c < s.len(),
    ensures
        s.take(c + 1) =~= s.take(c).push(s[c]),
        forall|b: int|
            #[trigger] s.take(c + 1).contains(b) <==> s.take(c).contains(b) || b == s[c],
{
    assert(s.take(c + 1) =~= s.take(c).push(s[c]));
    lemma_push_contains(s.take(c), s[c]);
}

/// A tree gained exactly the next fresh block.
pub proof fn lemma_step_contains(
    base: Seq<int>,
    tpre: Seq<int>,
    tnew: Seq<int>,
    nbs: Seq<int>,
    c: int,
)
    requires
        0 <= c,
        c + 1 <= nbs.len(),
        forall|b: int| #[trigger] tnew.contains(b) <==> tpre.contains(b) || b == nbs[c],
        forall|b: int|
            #[trigger] tpre.contains(b) <==> base.contains(b) || nbs.take(c).contains(b),
    ensures
        forall|b: int|
            #[trigger] tnew.contains(b) <==> base.contains(b) || nbs.take(c + 1).contains(b),
{
    lemma_take_push(nbs, c);
}

/// A tree gained exactly the next two fresh blocks.
pub proof fn lemma_step_contains2r(
    base: Seq<int>,
    tpre: Seq<int>,
    tnew: Seq<int>,
    nbs: Seq<int>,
    c: int,
)
    requires
        0 <= c,
        c + 2 <= nbs.len(),
        forall|b: int|
            #[trigger] tnew.contains(b) <==> tpre.contains(b) || b == nbs[c] || b == nbs[c + 1],
        forall|b: int|
            #[trigger] tpre.contains(b) <==> base.contains(b) || nbs.take(c).contains(b),
    ensures
        forall|b: int|
            #[trigger] tnew.contains(b) <==> base.contains(b) || nbs.take(c + 2).contains(b),
{
    lemma_take_push(nbs, c);
    lemma_take_push(nbs, c + 1);
}

/// A tree gained exactly the next three fresh blocks.
pub proof fn lemma_step_contains3r(
    base: Seq<int>,
    tpre: Seq<int>,
    tnew: Seq<int>,
    nbs: Seq<int>,
    c: int,
)
    requires
        0 <= c,
        c + 3 <= nbs.len(),
        forall|b: int|
            #[trigger] tnew.contains(b) <==> tpre.contains(b) || b == nbs[c] || b == nbs[c + 1]
                || b == nbs[c + 2],
        forall|b: int|
            #[trigger] tpre.contains(b) <==> base.contains(b) || nbs.take(c).contains(b),
    ensures
        forall|b: int|
            #[trigger] tnew.contains(b) <==> base.contains(b) || nbs.take(c + 3).contains(b),
{
    lemma_take_push(nbs, c);
    lemma_take_push(nbs, c + 1);
    lemma_take_push(nbs, c + 2);
}

/// Everything a grown tree holds is an old block or a listed fresh block,
/// so the grown tree stays on the disk.
pub proof fn lemma_tree_bounds(tnew: Seq<int>, tpre: Seq<int>, extra: Seq<int>, lenv: int)
    requires
        forall|b: int| #[trigger] tnew.contains(b) ==> tpre.contains(b) || extra.contains(b),
        forall|t: int| 0 <= t < tpre.len() ==> 0 <= #[trigger] tpre[t] < lenv,
        forall|t: int| 0 <= t < extra.len() ==> 0 <= #[trigger] extra[t] < lenv,
    ensures
        forall|t: int| 0 <= t < tnew.len() ==> 0 <= #[trigger] tnew[t] < lenv,
{
    assert forall|t: int| 0 <= t < tnew.len() implies 0 <= #[trigger] tnew[t] < lenv by {
        let b = tnew[t];
        assert(tnew.contains(b));
        if tpre.contains(b) {
            let w = choose|w: int| 0 <= w < tpre.len() && tpre[w] == b;
        } else {
            let w = choose|w: int| 0 <= w < extra.len() && extra[w] == b;
        }
    }
}

/// `total_blocks_n` grows with the data-block count.
pub proof fn lemma_total_blocks_n_monotone(a: int, b: int)
    requires
        0 <= a <= b,
    ensures
        total_blocks_n(a) <= total_blocks_n(b),
{
    if a > 136 {
        assert((a - 136 + 127) / 128 <= (b - 136 + 127) / 128) by (nonlinear_arith)
            requires
                136 < a <= b,
        ;
    } else if b > 136 {
        assert(0 <= (b - 136 + 127) / 128) by (nonlinear_arith)
            requires
                b > 136,
        ;
    }
}

/// Ghost context of one growth of an inode's index tree: the state before
/// the growth and the fresh blocks it may consume.
#[verifier::ext_equal]
pub ghost struct GrowCtx {
    pub v0: Seq<Seq<u8>>,
    pub d0: InodeModel,
    pub n0: int,
    pub n1: int,
    pub nbs: Seq<int>,
    pub base: Seq<int>,
    pub new_size: int,
}

/// The fixed facts of one growth: sound starting tree, and consumable
/// blocks that are fresh, distinct and on the disk.
pub open spec fn grow_ctx_wf(c: GrowCtx) -> bool {
    &&& c.n0 == data_blocks_of(c.d0.size)
    &&& c.n1 == data_blocks_of(c.new_size)
    &&& 0 <= c.d0.size
    &&& 0 <= c.new_size
    &&& tree_wf(c.v0, c.d0)
    &&& c.base == tree_ids_n(c.v0, c.d0, c.n0)
    &&& c.nbs.len() == total_blocks_n(c.n1) - total_blocks_n(c.n0)
    &&& (forall|a: int, b: int| 0 <= a < b < c.nbs.len() ==> c.nbs[a] != c.nbs[b])
    &&& (forall|a: int|
        0 <= a < c.nbs.len() ==> !c.base.contains(#[trigger] c.nbs[a]) && 0 < c.nbs[a]
            < c.v0.len())
    &&& c.n0 <= c.n1 <= 16520
}

/// What holds between growth steps: the tree over `current` data blocks is
/// sound, the old data blocks are mapped as before, the tree holds exactly
/// the old blocks plus the consumed fresh ones, and the rest of the disk is
/// untouched.
pub open spec fn grow_inv(
    c: GrowCtx,
    cache: BlockCacheManager,
    d: DiskInode,
    current: int,
    used: int,
) -> bool {
    &&& cache.wf()
    &&& cache@.len() == c.v0.len()
    &&& d.wf()
    &&& d@.size == c.new_size
    &&& d@.nlink == c.d0.nlink
    &&& d@.ino == c.d0.ino
    &&& d@.mode == c.d0.mode
    &&& d@.is_dir == c.d0.is_dir
    &&& d@.dev == c.d0.dev
    &&& c.n0 <= current <= c.n1
    &&& used == total_blocks_n(current) - total_blocks_n(c.n0)
    &&& 0 <= used <= c.nbs.len()
    &&& tree_wf_n(cache@, d@, current)
    &&& (forall|idx: int|
        0 <= idx < c.n0 ==> #[trigger] block_id_spec(cache@, d@, idx) == block_id_spec(
            c.v0,
            c.d0,
            idx,
        ))
    &&& (forall|b: int|
        tree_ids_n(cache@, d@, current).contains(b) <==> c.base.contains(b) || c.nbs.take(
            used,
        ).contains(b))
    &&& (forall|b: int|
        index_ids_n(cache@, d@, current).contains(b) ==> index_ids_n(c.v0, c.d0, c.n0).contains(
            b,
        ) || c.nbs.contains(b))
    &&& (forall|b: int|
        0 <= b < c.v0.len() && !index_ids_n(c.v0, c.d0, c.n0).contains(b) && !c.nbs.contains(b)
            ==> cache@[b] == c.v0[b])
    &&& (forall|i: int|
        c.n0 <= i < current ==> #[trigger] block_id_spec(cache@, d@, i) == c.nbs[total_blocks_n(
            i + 1,
        ) - total_blocks_n(c.n0) - 1])
    &&& (current > 8 && c.n0 <= 8 ==> d@.indirect1 == c.nbs[total_blocks_n(8) - total_blocks_n(
        c.n0,
    )])
    &&& (current > 136 && c.n0 <= 136 ==> d@.indirect2 == c.nbs[total_blocks_n(136)
        - total_blocks_n(c.n0)])
    &&& (forall|k: int|
        ind2_count(c.n0) <= k < ind2_count(current) ==> le32_at(
            cache@[d@.indirect2],
            #[trigger] (4 * k),
        ) == c.nbs[total_blocks_n(136 + 128 * k) - total_blocks_n(c.n0) + if 136 + 128 * k
            == 136 {
            1int
        } else {
            0int
        }])
}

/// A byte position decomposes into its data block and offset.
proof fn lemma_pos_decomp(sb: int, q: int)
    requires
        0 <= sb,
        0 <= q < 512,
    ensures
        (sb * 512 + q) / 512 == sb,
        (sb * 512 + q) % 512 == q,
{
    assert((sb * 512 + q) / 512 == sb && (sb * 512 + q) % 512 == q) by (nonlinear_arith)
        requires
            0 <= sb && 0 <= q < 512,
    ;
}

impl DiskInode {
    /// The length `read_at` and `write_at` move for a request of `len` bytes
    /// at `offset`: what lies between `offset` and the end of the content.
    pub open spec fn rw_len(size: int, offset: int, len: int) -> int {
        if offset >= size {
            0
        } else if offset + len <= size {
            len
        } else {
            size - offset
        }
    }

    /// Resolve the `inner_id`-th data block of this inode to its device
    /// block id.
    pub fn get_block_id(&self, inner_id: u32, cache: &mut BlockCacheManager) -> (r: u32)
        requires
            old(cache).wf(),
            self.wf(),
            tree_wf(old(cache)@, self@),
            inner_id < data_blocks_of(self@.size),
        ensures
            final(cache).wf(),
            final(cache)@ == old(cache)@,
            r == block_id_spec(old(cache)@, self@, inner_id as int),
    {
        proof {
            cache.lemma_view_wf();
            lemma_tree_ids_len(old(cache)@, self@);
            lemma_tree_ids_index(old(cache)@, self@);
        }
        let ghost n = data_blocks_of(self@.size);
        let inner_id = inner_id as usize;
        if inner_id < INODE_DIRECT_COUNT {
            self.direct[inner_id]
        } else if inner_id < INDIRECT1_BOUND {
            proof {
                assert(tree_ids(cache@, self@)[n] == self@.indirect1);
            }
            cache.read_u32(self.indirect1 as usize, 4 * (inner_id - INODE_DIRECT_COUNT))
        } else {
            let last = inner_id - INDIRECT1_BOUND;
            proof {
                assert(tree_ids(cache@, self@)[n + 1] == self@.indirect2);
                assert(0 <= last / 128 < ind2_count(n) && last % 128 < 128) by (nonlinear_arith)
                    requires
                        0 <= last == inner_id - 136 && 136 <= inner_id < n,
                ;
                assert(tree_ids(cache@, self@)[n + 2 + last / 128] == le32_at(
                    cache@[self@.indirect2],
                    4 * (last / 128),
                ));
            }
            let indirect1 = cache.read_u32(self.indirect2 as usize, 4 * (last / 128));
            cache.read_u32(indirect1 as usize, 4 * (last % 128))
        }
    }

    /// Read the content from byte `offset` into `buf`, stopping at the end
    /// of `buf` or of the content; return how many bytes were read. Bytes of
    /// `buf` beyond that count keep their old value.
    pub fn read_at(&self, offset: usize, buf: &mut Vec<u8>, cache: &mut BlockCacheManager) -> (n:
        usize)
        requires
            old(cache).wf(),
            self.wf(),
            tree_wf(old(cache)@, self@),
            offset + old(buf)@.len() <= usize::MAX,
        ensures
            final(cache).wf(),
            final(cache)@ == old(cache)@,
            n == Self::rw_len(self@.size, offset as int, old(buf)@.len() as int),
            final(buf)@.len() == old(buf)@.len(),
            forall|k: int|
                0 <= k < n ==> final(buf)@[k] == byte_at(old(cache)@, self@, offset + k),
            forall|k: int| n <= k < old(buf)@.len() ==> final(buf)@[k] == old(buf)@[k],
    {
        proof {
            cache.lemma_view_wf();
        }
        let ghost v0 = cache@;
        let ghost d = self@;
        let mut start_bytes: usize = offset;
        let ending_bytes: usize = if offset + buf.len() < self.size as usize {
            offset + buf.len()
        } else {
            self.size as usize
        };
        if start_bytes >= ending_bytes {
            return 0;
        }
        let mut start_block: usize = start_bytes / BLOCK_SZ;
        let mut read_size: usize = 0;
        loop
            invariant_except_break
                start_bytes == offset + read_size,
                start_bytes < ending_bytes,
                start_block == start_bytes / BLOCK_SZ,
            invariant
                cache.wf(),
                cache@ == v0,
                self.wf(),
                d == self@,
                tree_wf(v0, d),
                offset + old(buf)@.len() <= usize::MAX,
                buf@.len() == old(buf)@.len(),
                read_size <= ending_bytes - offset,
                ending_bytes == Self::rw_len(d.size, offset as int, old(buf)@.len() as int)
                    + offset,
                forall|k: int| 0 <= k < read_size ==> buf@[k] == byte_at(v0, d, offset + k),
                forall|k: int| read_size <= k < old(buf)@.len() ==> buf@[k] == old(buf)@[k],
            ensures
                cache.wf(),
                cache@ == v0,
                buf@.len() == old(buf)@.len(),
                read_size == ending_bytes - offset,
                forall|k: int| 0 <= k < read_size ==> buf@[k] == byte_at(v0, d, offset + k),
                forall|k: int| read_size <= k < old(buf)@.len() ==> buf@[k] == old(buf)@[k],
            decreases ending_bytes - start_bytes,
        {
            let mut end_current_block = (start_bytes / BLOCK_SZ + 1) * BLOCK_SZ;
            if end_current_block > ending_bytes {
                end_current_block = ending_bytes;
            }
            let block_read_size = end_current_block - start_bytes;
            proof {
                assert(start_block * 512 <= start_bytes < (start_block + 1) * 512)
                    by (nonlinear_arith)
                    requires
                        start_block == start_bytes / 512,
                ;
                assert(start_block < data_blocks_of(d.size)) by (nonlinear_arith)
                    requires
                        start_bytes < d.size <= data_blocks_of(d.size) * 512,
                        start_block * 512 <= start_bytes,
                ;
                assert(data_blocks_of(d.size) * 512 >= d.size) by (nonlinear_arith);
            }
            let block_id = self.get_block_id(start_block as u32, cache);
            proof {
                lemma_tree_ids_len(v0, d);
                lemma_tree_ids_index(v0, d);
                assert(0 <= tree_ids(v0, d)[start_block as int] < v0.len());
                cache.lemma_view_wf();
            }
            let chunk = cache.read_bytes(
                block_id as usize,
                start_bytes % BLOCK_SZ,
                block_read_size,
            );
            proof {
                assert(read_size + block_read_size <= old(buf)@.len());
            }
            let mut j: usize = 0;
            while j < block_read_size
                invariant
                    j <= block_read_size,
                    old(buf)@.len() <= usize::MAX,
                    read_size + block_read_size <= old(buf)@.len(),
                    buf@.len() == old(buf)@.len(),
                    chunk@.len() == block_read_size,
                    forall|k: int| 0 <= k < read_size ==> buf@[k] == byte_at(v0, d, offset + k),
                    forall|k: int|
                        read_size + j <= k < old(buf)@.len() ==> buf@[k] == old(buf)@[k],
                    forall|k: int|
                        read_size <= k < read_size + j ==> buf@[k] == chunk@[k - read_size],
                decreases block_read_size - j,
            {
                buf[read_size + j] = chunk[j];
                j = j + 1;
            }
            proof {
                assert forall|k: int|
                    read_size <= k < read_size + block_read_size implies buf@[k] == byte_at(
                    v0,
                    d,
                    offset + k,
                ) by {
                    let q = start_bytes % 512 + (k - read_size);
                    lemma_pos_decomp(start_block as int, q);
                    assert(start_block * 512 + start_bytes % 512 == start_bytes)
                        by (nonlinear_arith)
                        requires
                            start_block == start_bytes / 512,
                    ;
                    assert(chunk@[k - read_size] == v0[block_id as int][q]);
                }
            }
            read_size = read_size + block_read_size;
            if end_current_block == ending_bytes {
                break ;
            }
            start_block = start_block + 1;
            proof {
                assert(end_current_block == (start_bytes / 512 + 1) * 512);
                assert(end_current_block / 512 == start_bytes / 512 + 1) by (nonlinear_arith)
                    requires
                        end_current_block == (start_bytes / 512 + 1) * 512,
                        0 <= start_bytes,
                ;
            }
            start_bytes = end_current_block;
        }
        read_size
    }

    /// Write `buf` into the content from byte `offset`, stopping at the end
    /// of the content; the size is not grown here, the caller grows it
    /// first. Return how many bytes were written.
    pub fn write_at(&self, offset: usize, buf: &Vec<u8>, cache: &mut BlockCacheManager) -> (n:
        usize)
        requires
            old(cache).wf(),
            self.wf(),
            tree_wf(old(cache)@, self@),
            offset + buf@.len() <= usize::MAX,
        ensures
            final(cache).wf(),
            final(cache)@.len() == old(cache)@.len(),
            tree_wf(final(cache)@, self@),
            n == Self::rw_len(self@.size, offset as int, buf@.len() as int),
            forall|i: int|
                0 <= i < data_blocks_of(self@.size) ==> #[trigger] block_id_spec(
                    final(cache)@,
                    self@,
                    i,
                ) == block_id_spec(old(cache)@, self@, i),
            tree_ids(final(cache)@, self@) == tree_ids(old(cache)@, self@),
            forall|k: int| 0 <= k < n ==> byte_at(final(cache)@, self@, offset + k) == buf@[k],
            forall|p: int|
                0 <= p < self@.size && !(offset <= p < offset + n) ==> byte_at(
                    final(cache)@,
                    self@,
                    p,
                ) == byte_at(old(cache)@, self@, p),
            forall|b: int|
                0 <= b < old(cache)@.len() && !data_ids(old(cache)@, self@).contains(b)
                    ==> final(cache)@[b] == old(cache)@[b],
    {
        proof {
            cache.lemma_view_wf();
        }
        let ghost v0 = cache@;
        let ghost d = self@;
        let mut start: usize = offset;
        let end: usize = if offset + buf.len() < self.size as usize {
            offset + buf.len()
        } else {
            self.size as usize
        };
        if start >= end {
            return 0;
        }
        let mut start_block: usize = start / BLOCK_SZ;
        let mut write_size: usize = 0;
        loop
            invariant_except_break
                start == offset + write_size,
                start < end,
                start_block == start / BLOCK_SZ,
            invariant
                cache.wf(),
                cache@.len() == v0.len(),
                self.wf(),
                d == self@,
                tree_wf(v0, d),
                tree_wf(cache@, d),
                offset + buf@.len() <= usize::MAX,
                write_size <= end - offset,
                end == Self::rw_len(d.size, offset as int, buf@.len() as int) + offset,
                end <= d.size,
                forall|i: int|
                    0 <= i < data_blocks_of(d.size) ==> #[trigger] block_id_spec(cache@, d, i)
                        == block_id_spec(v0, d, i),
                tree_ids(cache@, d) == tree_ids(v0, d),
                forall|k: int|
                    0 <= k < write_size ==> byte_at(cache@, d, offset + k) == buf@[k],
                forall|p: int|
                    0 <= p < d.size && !(offset <= p < offset + write_size) ==> byte_at(
                        cache@,
                        d,
                        p,
                    ) == byte_at(v0, d, p),
                forall|b: int|
                    0 <= b < v0.len() && !data_ids(v0, d).contains(b) ==> cache@[b] == v0[b],
            ensures
                cache.wf(),
                cache@.len() == v0.len(),
                tree_wf(cache@, d),
                write_size == end - offset,
                forall|i: int|
                    0 <= i < data_blocks_of(d.size) ==> #[trigger] block_id_spec(cache@, d, i)
                        == block_id_spec(v0, d, i),
                tree_ids(cache@, d) == tree_ids(v0, d),
                forall|k: int|
                    0 <= k < write_size ==> byte_at(cache@, d, offset + k) == buf@[k],
                forall|p: int|
                    0 <= p < d.size && !(offset <= p < offset + write_size) ==> byte_at(
                        cache@,
                        d,
                        p,
                    ) == byte_at(v0, d, p),
                forall|b: int|
                    0 <= b < v0.len() && !data_ids(v0, d).contains(b) ==> cache@[b] == v0[b],
            decreases end - start,
        {
            let mut end_current_block = (start / BLOCK_SZ + 1) * BLOCK_SZ;
            if end_current_block > end {
                end_current_block = end;
            }
            let block_write_size = end_current_block - start;
            proof {
                assert(start_block * 512 <= start < (start_block + 1) * 512) by (nonlinear_arith)
                    requires
                        start_block == start / 512,
                ;
                assert(data_blocks_of(d.size) * 512 >= d.size) by (nonlinear_arith);
                assert(start_block < data_blocks_of(d.size)) by (nonlinear_arith)
                    requires
                        start < d.size <= data_blocks_of(d.size) * 512,
                        start_block * 512 <= start,
                ;
            }
            let ghost vpre = cache@;
            let block_id = self.get_block_id_cur(start_block as u32, cache);
            let mut chunk: Vec<u8> = Vec::new();
            let mut j: usize = 0;
            while j < block_write_size
                invariant
                    j <= block_write_size,
                    buf@.len() <= usize::MAX,
                    write_size + block_write_size <= buf@.len(),
                    chunk@ =~= buf@.subrange(write_size as int, write_size + j),
                decreases block_write_size - j,
            {
                chunk.push(buf[write_size + j]);
                j = j + 1;
            }
            proof {
                cache.lemma_view_wf();
                lemma_tree_ids_len(vpre, d);
                lemma_tree_ids_index(vpre, d);
                assert(0 <= tree_ids(vpre, d)[start_block as int] < vpre.len());
                assert(start % 512 + block_write_size <= 512) by (nonlinear_arith)
                    requires
                        start_block == start / 512,
                        end_current_block <= (start / 512 + 1) * 512,
                        block_write_size == end_current_block - start,
                        0 <= start,
                ;
            }
            cache.write_bytes(block_id as usize, start % BLOCK_SZ, &chunk);
            proof {
                let vnew = cache@;
                let sb = start_block as int;
                let bid = block_id as int;
                let s0 = (start % 512) as int;
                let n_blocks = data_blocks_of(d.size);
                lemma_tree_ids_len(vpre, d);
                lemma_tree_ids_index(vpre, d);
                lemma_tree_ids_index(v0, d);
                lemma_data_not_index(vpre, d, sb);
                assert(start == sb * 512 + s0) by (nonlinear_arith)
                    requires
                        sb == start / 512,
                        s0 == start % 512,
                        0 <= start,
                ;
                // the written block is a data block, so the tree stands
                lemma_tree_unchanged(vpre, vnew, d);
                // bytes of the written window
                assert forall|k: int|
                    0 <= k < write_size + block_write_size implies byte_at(vnew, d, offset + k)
                    == buf@[k] by {
                    let p = offset + k;
                    let pb = p / 512;
                    assert(0 <= pb && pb * 512 <= p < (pb + 1) * 512 && p % 512 == p - pb * 512)
                        by (nonlinear_arith)
                        requires
                            pb == p / 512,
                            0 <= p,
                    ;
                    assert(pb < n_blocks) by (nonlinear_arith)
                        requires
                            p < d.size <= n_blocks * 512,
                            pb * 512 <= p,
                    ;
                    assert(block_id_spec(vnew, d, pb) == block_id_spec(vpre, d, pb));
                    if block_id_spec(vpre, d, pb) == bid {
                        if pb != sb {
                            assert(block_id_spec(vpre, d, pb) != block_id_spec(vpre, d, sb));
                            assert(false);
                        }
                        assert(sb * 512 <= p < sb * 512 + 512);
                        if k < write_size {
                            assert(p < start);
                            assert(p % 512 < s0);
                            assert(byte_at(vpre, d, p) == buf@[k]);
                            assert(vnew[bid][p % 512] == vpre[bid][p % 512]);
                        } else {
                            assert(p == start + (k - write_size));
                            assert(p % 512 == s0 + (k - write_size));
                            assert(vnew[bid][p % 512] == chunk@[k - write_size]);
                        }
                    } else {
                        assert(vnew[block_id_spec(vpre, d, pb)] == vpre[block_id_spec(
                            vpre,
                            d,
                            pb,
                        )]);
                        if k < write_size {
                            assert(byte_at(vpre, d, p) == buf@[k]);
                        } else {
                            assert(false) by {
                                assert(start <= p < end_current_block);
                                assert(pb == sb) by (nonlinear_arith)
                                    requires
                                        sb * 512 <= start <= p < end_current_block <= (sb + 1)
                                            * 512,
                                        pb * 512 <= p < (pb + 1) * 512,
                                ;
                            }
                        }
                    }
                }
                // bytes outside the window
                assert forall|p: int|
                    0 <= p < d.size && !(offset <= p < offset + write_size
                        + block_write_size) implies byte_at(vnew, d, p) == byte_at(v0, d, p) by {
                    let pb = p / 512;
                    assert(0 <= pb && pb * 512 <= p < (pb + 1) * 512 && p % 512 == p - pb * 512)
                        by (nonlinear_arith)
                        requires
                            pb == p / 512,
                            0 <= p,
                    ;
                    assert(pb < n_blocks) by (nonlinear_arith)
                        requires
                            p < d.size <= n_blocks * 512,
                            pb * 512 <= p,
                    ;
                    assert(block_id_spec(vnew, d, pb) == block_id_spec(vpre, d, pb));
                    if block_id_spec(vpre, d, pb) == bid {
                        if pb != sb {
                            assert(block_id_spec(vpre, d, pb) != block_id_spec(vpre, d, sb));
                            assert(false);
                        }
                        assert(sb * 512 <= p < (sb + 1) * 512);
                        if p < offset {
                            assert(p % 512 < s0);
                            assert(vnew[bid][p % 512] == vpre[bid][p % 512]);
                        } else {
                            assert(p >= end_current_block);
                            assert(p % 512 >= s0 + block_write_size);
                            assert(vnew[bid][p % 512] == vpre[bid][p % 512]);
                        }
                        assert(byte_at(vpre, d, p) == byte_at(v0, d, p));
                    } else {
                        assert(vnew[block_id_spec(vpre, d, pb)] == vpre[block_id_spec(
                            vpre,
                            d,
                            pb,
                        )]);
                        assert(byte_at(vpre, d, p) == byte_at(v0, d, p));
                    }
                }
                // blocks outside the inode's data blocks
                assert forall|b: int|
                    0 <= b < v0.len() && !data_ids(v0, d).contains(b) implies cache@[b]
                    == v0[b] by {
                    assert(data_ids(v0, d)[sb] == block_id_spec(v0, d, sb));
                    assert(block_id_spec(v0, d, sb) == block_id_spec(vpre, d, sb));
                    assert(b != bid);
                }
            }
            write_size = write_size + block_write_size;
            if end_current_block == end {
                break ;
            }
            start_block = start_block + 1;
            proof {
                assert(end_current_block / 512 == start / 512 + 1) by (nonlinear_arith)
                    requires
                        end_current_block == (start / 512 + 1) * 512,
                        0 <= start,
                ;
            }
            start = end_current_block;
        }
        write_size
    }

    /// One growth step in the direct range: fill the next direct slot.
    #[verifier::rlimit(100)]
    fn grow_step_direct(
        &mut self,
        current: u32,
        new_blocks: &Vec<u32>,
        mut used: usize,
        cache: &mut BlockCacheManager,
        Ghost(c): Ghost<GrowCtx>,
    ) -> (used2: usize)
        requires
            grow_ctx_wf(c),
            c.nbs == new_blocks@.map_values(|x: u32| x as int),
            grow_inv(c, *old(cache), *old(self), current as int, used as int),
            (current as int) < c.n1,
            current < 8,
        ensures
            grow_inv(c, *final(cache), *final(self), current as int + 1, used2 as int),
            used2 == total_blocks_n(current as int + 1) - total_blocks_n(c.n0),
    {
        let ghost v0 = c.v0;
        let ghost d0 = c.d0;
        let ghost n0 = c.n0;
        let ghost n1 = c.n1;
        let ghost nbs = c.nbs;
        let ghost base = c.base;
        let ghost vpre = cache@;
        let ghost dpre = self@;
        let ghost cur = current as int;
        let ghost tpre = tree_ids_n(vpre, dpre, cur);
        let i = current as usize;
        proof {
            cache.lemma_view_wf();
            lemma_tree_ids_len_n(vpre, dpre, cur);
            lemma_tree_ids_index_n(vpre, dpre, cur);
            lemma_tree_ids_len_n(v0, d0, n0);
            lemma_tree_ids_index_n(v0, d0, n0);
            if cur >= 136 {
                assert((cur + 1 - 136 + 127) / 128 == (cur - 136) / 128 + 1) by (nonlinear_arith)
                    requires
                        cur >= 136,
                ;
                if (cur - 136) % 128 == 0 {
                    assert((cur - 136 + 127) / 128 == (cur - 136) / 128) by (nonlinear_arith)
                        requires
                            cur >= 136,
                            (cur - 136) % 128 == 0,
                    ;
                } else {
                    assert((cur - 136 + 127) / 128 == (cur - 136) / 128 + 1) by (nonlinear_arith)
                        requires
                            cur >= 136,
                            (cur - 136) % 128 != 0,
                    ;
                }
            }
            lemma_total_blocks_n_monotone(cur + 1, n1);
            lemma_total_blocks_n_monotone(n0, cur);
        }

                let nb = new_blocks[used];
                self.direct[i] = nb;
                used = used + 1;
                proof {
                    let dnew = self@;
                    assert forall|idx: int|
                        0 <= idx < cur implies #[trigger] block_id_spec(cache@, dnew, idx)
                        == block_id_spec(vpre, dpre, idx) by {}
                    assert(block_id_spec(cache@, dnew, cur) == nb);
                    let tnew = tree_ids_n(cache@, dnew, cur + 1);
                    assert(tnew =~= tpre.push(nb as int));
                    assert(nbs[used - 1] == nb as int);
                    assert(!tpre.contains(nb as int)) by {
                        lemma_take_fresh(nbs);
                    }
                    lemma_nodup_push(tpre, nb as int);
                    lemma_step_contains(base, tpre, tnew, nbs, used - 1);
                    assert(seq![nb as int][0] == nb as int);
                    lemma_tree_bounds(tnew, tpre, seq![nb as int], v0.len() as int);
                    assert(index_ids_n(cache@, dnew, cur + 1) =~= index_ids_n(vpre, dpre, cur));
                }
        used
    }

    /// One growth step in the single-indirect range: reserve the indirect1
    /// block when it is first needed, then fill its next entry.
    #[verifier::rlimit(100)]
    fn grow_step_ind1(
        &mut self,
        current: u32,
        new_blocks: &Vec<u32>,
        mut used: usize,
        cache: &mut BlockCacheManager,
        Ghost(c): Ghost<GrowCtx>,
    ) -> (used2: usize)
        requires
            grow_ctx_wf(c),
            c.nbs == new_blocks@.map_values(|x: u32| x as int),
            grow_inv(c, *old(cache), *old(self), current as int, used as int),
            (current as int) < c.n1,
            8 <= current < 136,
        ensures
            grow_inv(c, *final(cache), *final(self), current as int + 1, used2 as int),
            used2 == total_blocks_n(current as int + 1) - total_blocks_n(c.n0),
    {
        let ghost v0 = c.v0;
        let ghost d0 = c.d0;
        let ghost n0 = c.n0;
        let ghost n1 = c.n1;
        let ghost nbs = c.nbs;
        let ghost base = c.base;
        let ghost vpre = cache@;
        let ghost dpre = self@;
        let ghost cur = current as int;
        let ghost tpre = tree_ids_n(vpre, dpre, cur);
        let i = current as usize;
        proof {
            cache.lemma_view_wf();
            lemma_tree_ids_len_n(vpre, dpre, cur);
            lemma_tree_ids_index_n(vpre, dpre, cur);
            lemma_tree_ids_len_n(v0, d0, n0);
            lemma_tree_ids_index_n(v0, d0, n0);
            if cur >= 136 {
                assert((cur + 1 - 136 + 127) / 128 == (cur - 136) / 128 + 1) by (nonlinear_arith)
                    requires
                        cur >= 136,
                ;
                if (cur - 136) % 128 == 0 {
                    assert((cur - 136 + 127) / 128 == (cur - 136) / 128) by (nonlinear_arith)
                        requires
                            cur >= 136,
                            (cur - 136) % 128 == 0,
                    ;
                } else {
                    assert((cur - 136 + 127) / 128 == (cur - 136) / 128 + 1) by (nonlinear_arith)
                        requires
                            cur >= 136,
                            (cur - 136) % 128 != 0,
                    ;
                }
            }
            lemma_total_blocks_n_monotone(cur + 1, n1);
            lemma_total_blocks_n_monotone(n0, cur);
        }

                let ghost two_step = i == 8;
                if i == INODE_DIRECT_COUNT {
                    let nb1 = new_blocks[used];
                    self.indirect1 = nb1;
                    used = used + 1;
                    proof {
                        assert(data_ids_n(cache@, self@, cur) =~= data_ids_n(vpre, dpre, cur));
                        assert(index_ids_n(cache@, self@, cur) =~= index_ids_n(vpre, dpre, cur));
                        assert(tree_ids_n(cache@, self@, cur) == tpre);
                    }
                }
                let ghost dmid = self@;
                proof {
                    if !two_step {
                        assert(cur > 8);
                        assert(tpre[cur] == dmid.indirect1);
                        assert(0 <= dmid.indirect1 < vpre.len());
                    } else {
                        assert(dmid.indirect1 == nbs[used - 1]);
                        assert(0 < dmid.indirect1 < vpre.len());
                    }
                }
                let nb = new_blocks[used];
                cache.write_u32(self.indirect1 as usize, 4 * (i - INODE_DIRECT_COUNT), nb);
                used = used + 1;
                proof {
                    let vnew = cache@;
                    let dnew = self@;
                    let ind1 = dnew.indirect1 as int;
                    cache.lemma_view_wf();
                    // the tree below `cur` stands: only entry `cur - 8` changed
                    assert forall|idx: int|
                        0 <= idx < cur implies #[trigger] block_id_spec(vnew, dnew, idx)
                        == block_id_spec(vpre, dpre, idx) by {
                        if idx >= 8 {
                            lemma_le32_frame(
                                vpre[ind1],
                                vnew[ind1],
                                4 * (cur - 8),
                                4 * (idx - 8),
                            );
                        }
                    }
                    assert(block_id_spec(vnew, dnew, cur) == nb);
                    let tnew = tree_ids_n(vnew, dnew, cur + 1);
                    if two_step {
                        assert(tnew =~= tpre.push(nb as int).push(ind1));
                        assert(nbs[used - 2] == ind1 && nbs[used - 1] == nb as int);
                        assert(!tpre.contains(nb as int) && !tpre.contains(ind1)) by {
                            lemma_take_fresh(nbs);
                        }
                        lemma_nodup_push(tpre, nb as int);
                        assert(!tpre.push(nb as int).contains(ind1));
                        lemma_nodup_push(tpre.push(nb as int), ind1);
                        assert(nbs[used - 2] == ind1 && nbs[used - 1] == nb as int);
                        lemma_step_contains2r(base, tpre, tnew, nbs, used - 2);
                        assert(seq![nb as int, ind1][0] == nb as int && seq![nb as int, ind1][1]
                            == ind1);
                        lemma_tree_bounds(tnew, tpre, seq![nb as int, ind1], v0.len() as int);
                        assert(index_ids_n(vnew, dnew, cur + 1) =~= seq![ind1]);
                        assert forall|b: int|
                            #[trigger] index_ids_n(vnew, dnew, cur + 1).contains(b) implies b
                            == ind1 by {
                            let w = choose|w: int|
                                0 <= w < index_ids_n(vnew, dnew, cur + 1).len()
                                    && #[trigger] index_ids_n(vnew, dnew, cur + 1)[w] == b;
                        }
                    } else {
                        assert(tnew =~= tpre.insert(cur, nb as int));
                        assert(nbs[used - 1] == nb as int);
                        assert(!tpre.contains(nb as int)) by {
                            lemma_take_fresh(nbs);
                        }
                        lemma_nodup_insert(tpre, cur, nb as int);
                        lemma_step_contains(base, tpre, tnew, nbs, used - 1);
                        assert(seq![nb as int][0] == nb as int);
                        lemma_tree_bounds(tnew, tpre, seq![nb as int], v0.len() as int);
                        assert(index_ids_n(vnew, dnew, cur + 1) =~= index_ids_n(
                            vpre,
                            dpre,
                            cur,
                        ));
                    }
                    // frame: only the single-indirect block changed, and it
                    // is an old index block or a fresh block
                    assert forall|b: int|
                        0 <= b < v0.len() && !index_ids_n(v0, d0, n0).contains(b) && !nbs.contains(
                        b,
                    ) implies cache@[b] == v0[b] by {
                        if b == ind1 {
                            if two_step {
                                assert(nbs[used - 2] == ind1);
                                assert(nbs.contains(ind1));
                            } else {
                                assert(index_ids_n(vpre, dpre, cur)[0] == ind1);
                                assert(index_ids_n(vpre, dpre, cur).contains(ind1));
                            }
                        }
                    }
                }
        used
    }

    /// One growth step in the double-indirect range: reserve the indirect2
    /// block and a sub-indirect1 block when first needed, then fill the next
    /// leaf entry.
    fn grow_step_ind2(
        &mut self,
        current: u32,
        new_blocks: &Vec<u32>,
        mut used: usize,
        cache: &mut BlockCacheManager,
        Ghost(c): Ghost<GrowCtx>,
    ) -> (used2: usize)
        requires
            grow_ctx_wf(c),
            c.nbs == new_blocks@.map_values(|x: u32| x as int),
            grow_inv(c, *old(cache), *old(self), current as int, used as int),
            (current as int) < c.n1,
            136 <= current < 16520,
        ensures
            grow_inv(c, *final(cache), *final(self), current as int + 1, used2 as int),
            used2 == total_blocks_n(current as int + 1) - total_blocks_n(c.n0),
    {
        if current == INDIRECT1_BOUND as u32 {
            self.grow_step_ind2_open(current, new_blocks, used, cache, Ghost(c))
        } else if (current as usize - INDIRECT1_BOUND) % INODE_INDIRECT1_COUNT == 0 {
            self.grow_step_ind2_newsub(current, new_blocks, used, cache, Ghost(c))
        } else {
            self.grow_step_ind2_rest(current, new_blocks, used, cache, Ghost(c))
        }
    }

    /// The growth step that opens the double-indirect range: reserve the
    /// indirect2 block and the first sub-indirect1 block, then fill that
    /// sub block's first leaf entry.
    #[verifier::rlimit(100)]
    #[verifier::spinoff_prover]
    fn grow_step_ind2_open(
        &mut self,
        current: u32,
        new_blocks: &Vec<u32>,
        mut used: usize,
        cache: &mut BlockCacheManager,
        Ghost(c): Ghost<GrowCtx>,
    ) -> (used2: usize)
        requires
            grow_ctx_wf(c),
            c.nbs == new_blocks@.map_values(|x: u32| x as int),
            grow_inv(c, *old(cache), *old(self), current as int, used as int),
            (current as int) < c.n1,
            current == 136,
        ensures
            grow_inv(c, *final(cache), *final(self), current as int + 1, used2 as int),
            used2 == total_blocks_n(current as int + 1) - total_blocks_n(c.n0),
    {
        let ghost v0 = c.v0;
        let ghost d0 = c.d0;
        let ghost n0 = c.n0;
        let ghost n1 = c.n1;
        let ghost nbs = c.nbs;
        let ghost base = c.base;
        let ghost vpre = cache@;
        let ghost dpre = self@;
        let ghost cur = current as int;
        let ghost tpre = tree_ids_n(vpre, dpre, cur);
        let i = current as usize;
        proof {
            cache.lemma_view_wf();
            lemma_tree_ids_len_n(vpre, dpre, cur);
            lemma_tree_ids_index_n(vpre, dpre, cur);
            lemma_tree_ids_len_n(v0, d0, n0);
            lemma_tree_ids_index_n(v0, d0, n0);
            if cur >= 136 {
                assert((cur + 1 - 136 + 127) / 128 == (cur - 136) / 128 + 1) by (nonlinear_arith)
                    requires
                        cur >= 136,
                ;
                if (cur - 136) % 128 == 0 {
                    assert((cur - 136 + 127) / 128 == (cur - 136) / 128) by (nonlinear_arith)
                        requires
                            cur >= 136,
                            (cur - 136) % 128 == 0,
                    ;
                } else {
                    assert((cur - 136 + 127) / 128 == (cur - 136) / 128 + 1) by (nonlinear_arith)
                        requires
                            cur >= 136,
                            (cur - 136) % 128 != 0,
                    ;
                }
            }
            lemma_total_blocks_n_monotone(cur + 1, n1);
            lemma_total_blocks_n_monotone(n0, cur);
        }

                let last = i - INDIRECT1_BOUND;
                let k = last / INODE_INDIRECT1_COUNT;
                let j = last % INODE_INDIRECT1_COUNT;
                proof {
                    assert(last == 128 * (last / 128) + last % 128 && 0 <= last % 128 < 128 && 0
                        <= last / 128 < 128) by (nonlinear_arith)
                        requires
                            0 <= last < 16384,
                    ;
                }
                if i == INDIRECT1_BOUND {
                    let nb2 = new_blocks[used];
                    self.indirect2 = nb2;
                    used = used + 1;
                    proof {
                        assert(data_ids_n(cache@, self@, cur) =~= data_ids_n(vpre, dpre, cur));
                        assert(index_ids_n(cache@, self@, cur) =~= index_ids_n(vpre, dpre, cur));
                        assert(tree_ids_n(cache@, self@, cur) == tpre);
                    }
                }
                let ghost dmid = self@;
                let ghost ind2 = dmid.indirect2 as int;
                proof {
                    assert(tree_ids_n(cache@, dmid, cur) == tpre);
                    if cur > 136 {
                        assert(tpre[cur + 1] == ind2);
                        assert(0 <= ind2 < vpre.len());
                    } else {
                        assert(ind2 == nbs[used - 1]);
                        assert(0 < ind2 < vpre.len());
                    }
                    // the double-indirect block is an old index block or fresh
                    assert(index_ids_n(v0, d0, n0).contains(ind2) || nbs.contains(ind2)) by {
                        if cur > 136 {
                            assert(index_ids_n(vpre, dpre, cur)[1] == ind2);
                            assert(index_ids_n(vpre, dpre, cur).contains(ind2));
                        } else {
                            assert(nbs.contains(ind2));
                        }
                    }
                }
                {
                    // reserve a fresh sub-indirect1 block
                    let sub = new_blocks[used];
                    used = used + 1;
                    cache.write_u32(self.indirect2 as usize, 4 * k, sub);
                    proof {
                        let vnew = cache@;
                        cache.lemma_view_wf();
                        assert((cur - 136) % 128 == 0 && k == (cur - 136) / 128);
                        assert(ind2_count(cur) == k);
                        // the tree over `cur` stands: entry `k` is beyond it
                        assert forall|idx: int|
                            0 <= idx < cur implies #[trigger] block_id_spec(vnew, dmid, idx)
                            == block_id_spec(vpre, dmid, idx) by {
                            if idx >= 136 {
                                let k2 = (idx - 136) / 128;
                                assert(0 <= k2 < k) by (nonlinear_arith)
                                    requires
                                        k2 == (idx - 136) / 128,
                                        k == (cur - 136) / 128,
                                        (cur - 136) % 128 == 0,
                                        136 <= idx < cur,
                                ;
                                lemma_le32_frame(vpre[ind2], vnew[ind2], 4 * k, 4 * k2);
                                let e2 = le32_at(vpre[ind2], 4 * k2);
                                assert(0 <= k2 < ind2_count(cur)) by (nonlinear_arith)
                                    requires
                                        0 <= k2 < k,
                                        k == (cur - 136) / 128,
                                        (cur - 136) % 128 == 0,
                                        cur >= 136,
                                ;
                                assert(tpre[cur + 2 + k2] == e2);
                                assert(e2 != ind2) by {
                                    assert(tpre[cur + 1] == ind2);
                                }
                                assert(vnew[e2] == vpre[e2]);
                            } else if idx >= 8 {
                                assert(dmid.indirect1 != ind2) by {
                                    assert(tpre[cur] == dmid.indirect1);
                                    if cur > 136 {
                                        assert(tpre[cur + 1] == ind2);
                                    } else {
                                        assert(!base.contains(ind2) || !tpre.contains(ind2));
                                        assert(tpre.contains(dmid.indirect1));
                                        assert(!tpre.contains(ind2)) by {
                                            lemma_take_fresh(nbs);
                                        }
                                    }
                                }
                                assert(vnew[dmid.indirect1] == vpre[dmid.indirect1]);
                            }
                        }
                        assert forall|k2: int|
                            0 <= k2 < ind2_count(cur) implies le32_at(
                            vnew[ind2],
                            #[trigger] (4 * k2),
                        ) == le32_at(vpre[ind2], 4 * k2) by {
                            lemma_le32_frame(vpre[ind2], vnew[ind2], 4 * k, 4 * k2);
                        }
                        assert(data_ids_n(vnew, dmid, cur) =~= data_ids_n(vpre, dmid, cur));
                        assert(index_ids_n(vnew, dmid, cur) =~= index_ids_n(vpre, dmid, cur));
                        assert(tree_ids_n(vnew, dmid, cur) == tpre);
                    }
                }
                let ghost vsub = cache@;
                let sub_block = cache.read_u32(self.indirect2 as usize, 4 * k);
                let ghost subi = sub_block as int;
                proof {
                    assert(le32_at(vsub[ind2], 4 * k) == subi);
                    assert(0 <= k < ind2_count(cur + 1)) by (nonlinear_arith)
                        requires
                            k == (cur - 136) / 128,
                            136 <= cur,
                    ;
                    lemma_tree_ids_index_n(vsub, dmid, cur);
                    assert(tree_ids_n(vsub, dmid, cur) == tpre);
                    if j == 0 {
                        assert(subi == nbs[used - 1]);
                        assert(0 < subi < v0.len());
                        assert(!tpre.contains(subi)) by {
                            lemma_take_fresh(nbs);
                        }
                    } else {
                        assert(ind2_count(cur) == k + 1);
                        assert(tpre[cur + 2 + k] == subi);
                        assert(0 <= subi < vsub.len());
                    }
                    // the sub block is an old index block or a fresh block
                    assert(index_ids_n(v0, d0, n0).contains(subi) || nbs.contains(subi)) by {
                        if j == 0 {
                            assert(nbs.contains(subi));
                        } else {
                            assert(index_ids_n(vsub, dmid, cur)[2 + k] == subi);
                            assert(index_ids_n(vsub, dmid, cur).contains(subi));
                        }
                    }
                }
                let nb = new_blocks[used];
                cache.write_u32(sub_block as usize, 4 * j, nb);
                used = used + 1;
                proof {
                    let vnew = cache@;
                    let dnew = self@;
                    cache.lemma_view_wf();
                    // the sub block is not the double-indirect block nor the
                    // single-indirect block nor an earlier sub block
                    assert(subi != ind2) by {
                        if j == 0 {
                            assert(!tpre.contains(subi)) by {
                                lemma_take_fresh(nbs);
                            }
                            if cur > 136 {
                                assert(tpre[cur + 1] == ind2);
                            } else {
                                assert(nbs[used - 3] == ind2 && nbs[used - 2] == subi);
                            }
                        } else {
                            assert(tpre.no_duplicates());
                            assert(tpre[cur + 2 + k] == subi && tpre[cur + 1] == ind2);
                        }
                    }
                    assert forall|idx: int|
                        0 <= idx < cur implies #[trigger] block_id_spec(vnew, dnew, idx)
                        == block_id_spec(vsub, dmid, idx) by {
                        if idx >= 136 {
                            let k2 = (idx - 136) / 128;
                            let j2 = (idx - 136) % 128;
                            assert(0 <= k2 <= k && 0 <= j2 < 128 && (k2 == k ==> j2 < j))
                                by (nonlinear_arith)
                                requires
                                    k2 == (idx - 136) / 128,
                                    j2 == (idx - 136) % 128,
                                    k == (cur - 136) / 128,
                                    j == (cur - 136) % 128,
                                    136 <= idx < cur,
                            ;
                            assert(vnew[ind2] == vsub[ind2]);
                            let e2 = le32_at(vsub[ind2], 4 * k2);
                            if k2 == k {
                                assert(j != 0) by (nonlinear_arith)
                                    requires
                                        k2 == (idx - 136) / 128,
                                        k == (cur - 136) / 128,
                                        j == (cur - 136) % 128,
                                        k2 == k,
                                        136 <= idx < cur,
                                ;
                                assert(e2 == subi);
                                lemma_le32_frame(vsub[subi], vnew[subi], 4 * j, 4 * j2);
                            } else {
                                assert(0 <= k2 < ind2_count(cur)) by (nonlinear_arith)
                                    requires
                                        0 <= k2 < k,
                                        k == (cur - 136) / 128,
                                        cur >= 136,
                                ;
                                assert(tpre[cur + 2 + k2] == e2);
                                assert(e2 != subi) by {
                                    if j == 0 {
                                        assert(!tpre.contains(subi)) by {
                                            lemma_take_fresh(nbs);
                                        }
                                    } else {
                                        assert(tpre[cur + 2 + k] == subi);
                                        assert(tpre.no_duplicates());
                                    }
                                }
                                assert(vnew[e2] == vsub[e2]);
                            }
                        } else if idx >= 8 {
                            assert(dnew.indirect1 != subi) by {
                                assert(tpre[cur] == dnew.indirect1 as int);
                                if j == 0 {
                                    assert(!tpre.contains(subi)) by {
                                        lemma_take_fresh(nbs);
                                    }
                                } else {
                                    assert(tpre[cur + 2 + k] == subi);
                                    assert(tpre.no_duplicates());
                                }
                            }
                            assert(vnew[dnew.indirect1 as int] == vsub[dnew.indirect1 as int]);
                        }
                    }
                    assert(block_id_spec(vnew, dnew, cur) == nb) by {
                        assert(vnew[ind2] == vsub[ind2]);
                        assert(le32_at(vnew[ind2], 4 * k) == subi);
                        assert(le32_at(vnew[subi], 4 * j) == nb);
                    }
                    // assemble the new tree sequence
                    let leaf = nb as int;
                    lemma_tree_ids_len_n(vnew, dnew, cur + 1);
                    lemma_tree_ids_index_n(vnew, dnew, cur + 1);
                    tpre.insert_ensures(cur, leaf);
                    assert forall|k2: int|
                        0 <= k2 < k implies le32_at(vnew[ind2], #[trigger] (4 * k2)) == le32_at(
                        vsub[ind2],
                        4 * k2,
                    ) by {
                        assert(vnew[ind2] == vsub[ind2]);
                    }
                    let tnew = tree_ids_n(vnew, dnew, cur + 1);
                    {
                        assert(tnew =~= tpre.insert(cur, leaf).push(ind2).push(subi));
                        assert(nbs[used - 3] == ind2 && nbs[used - 2] == subi && nbs[used - 1]
                            == leaf);
                        assert(!tpre.contains(leaf) && !tpre.contains(ind2) && !tpre.contains(
                            subi,
                        )) by {
                            lemma_take_fresh(nbs);
                        }
                        lemma_nodup_insert(tpre, cur, leaf);
                        assert(!tpre.insert(cur, leaf).contains(ind2));
                        lemma_nodup_push(tpre.insert(cur, leaf), ind2);
                        assert(!tpre.insert(cur, leaf).push(ind2).contains(subi));
                        lemma_nodup_push(tpre.insert(cur, leaf).push(ind2), subi);
                        assert(nbs[used - 3] == ind2 && nbs[used - 2] == subi && nbs[used - 1]
                            == leaf);
                        lemma_step_contains3r(base, tpre, tnew, nbs, used - 3);
                        assert(seq![leaf, ind2, subi][0] == leaf && seq![leaf, ind2, subi][1]
                            == ind2 && seq![leaf, ind2, subi][2] == subi);
                        lemma_tree_bounds(tnew, tpre, seq![leaf, ind2, subi], v0.len() as int);
                        assert(index_ids_n(vnew, dnew, cur + 1) =~= index_ids_n(
                            vpre,
                            dpre,
                            cur,
                        ).push(ind2).push(subi));
                        lemma_push_contains(index_ids_n(vpre, dpre, cur), ind2);
                        lemma_push_contains(index_ids_n(vpre, dpre, cur).push(ind2), subi);
                    }
                    // frame: the double-indirect block and the sub block are
                    // old index blocks or fresh blocks
                    assert forall|b: int|
                        0 <= b < v0.len() && !index_ids_n(v0, d0, n0).contains(b) && !nbs.contains(
                        b,
                    ) implies cache@[b] == v0[b] by {}
                }
        used
    }


    /// A double-indirect growth step that opens a further sub-indirect1
    /// block: reserve the fresh sub block, then fill its first leaf entry.
    #[verifier::rlimit(100)]
    #[verifier::spinoff_prover]
    fn grow_step_ind2_newsub(
        &mut self,
        current: u32,
        new_blocks: &Vec<u32>,
        mut used: usize,
        cache: &mut BlockCacheManager,
        Ghost(c): Ghost<GrowCtx>,
    ) -> (used2: usize)
        requires
            grow_ctx_wf(c),
            c.nbs == new_blocks@.map_values(|x: u32| x as int),
            grow_inv(c, *old(cache), *old(self), current as int, used as int),
            (current as int) < c.n1,
            136 < current < 16520,
            (current as int - 136) % 128 == 0,
        ensures
            grow_inv(c, *final(cache), *final(self), current as int + 1, used2 as int),
            used2 == total_blocks_n(current as int + 1) - total_blocks_n(c.n0),
    {
        let ghost v0 = c.v0;
        let ghost d0 = c.d0;
        let ghost n0 = c.n0;
        let ghost n1 = c.n1;
        let ghost nbs = c.nbs;
        let ghost base = c.base;
        let ghost vpre = cache@;
        let ghost dpre = self@;
        let ghost cur = current as int;
        let ghost tpre = tree_ids_n(vpre, dpre, cur);
        let i = current as usize;
        proof {
            cache.lemma_view_wf();
            lemma_tree_ids_len_n(vpre, dpre, cur);
            lemma_tree_ids_index_n(vpre, dpre, cur);
            lemma_tree_ids_len_n(v0, d0, n0);
            lemma_tree_ids_index_n(v0, d0, n0);
            if cur >= 136 {
                assert((cur + 1 - 136 + 127) / 128 == (cur - 136) / 128 + 1) by (nonlinear_arith)
                    requires
                        cur >= 136,
                ;
                if (cur - 136) % 128 == 0 {
                    assert((cur - 136 + 127) / 128 == (cur - 136) / 128) by (nonlinear_arith)
                        requires
                            cur >= 136,
                            (cur - 136) % 128 == 0,
                    ;
                } else {
                    assert((cur - 136 + 127) / 128 == (cur - 136) / 128 + 1) by (nonlinear_arith)
                        requires
                            cur >= 136,
                            (cur - 136) % 128 != 0,
                    ;
                }
            }
            lemma_total_blocks_n_monotone(cur + 1, n1);
            lemma_total_blocks_n_monotone(n0, cur);
        }

                let last = i - INDIRECT1_BOUND;
                let k = last / INODE_INDIRECT1_COUNT;
                let j = last % INODE_INDIRECT1_COUNT;
                proof {
                    assert(last == 128 * (last / 128) + last % 128 && 0 <= last % 128 < 128 && 0
                        <= last / 128 < 128) by (nonlinear_arith)
                        requires
                            0 <= last < 16384,
                    ;
                }
                let ghost dmid = self@;
                let ghost ind2 = dmid.indirect2 as int;
                proof {
                    assert(tree_ids_n(cache@, dmid, cur) == tpre);
                    if cur > 136 {
                        assert(tpre[cur + 1] == ind2);
                        assert(0 <= ind2 < vpre.len());
                    } else {
                        assert(ind2 == nbs[used - 1]);
                        assert(0 < ind2 < vpre.len());
                    }
                    // the double-indirect block is an old index block or fresh
                    assert(index_ids_n(v0, d0, n0).contains(ind2) || nbs.contains(ind2)) by {
                        if cur > 136 {
                            assert(index_ids_n(vpre, dpre, cur)[1] == ind2);
                            assert(index_ids_n(vpre, dpre, cur).contains(ind2));
                        } else {
                            assert(nbs.contains(ind2));
                        }
                    }
                }
                {
                    // reserve a fresh sub-indirect1 block
                    let sub = new_blocks[used];
                    used = used + 1;
                    cache.write_u32(self.indirect2 as usize, 4 * k, sub);
                    proof {
                        let vnew = cache@;
                        cache.lemma_view_wf();
                        assert((cur - 136) % 128 == 0 && k == (cur - 136) / 128);
                        assert(ind2_count(cur) == k);
                        // the tree over `cur` stands: entry `k` is beyond it
                        assert forall|idx: int|
                            0 <= idx < cur implies #[trigger] block_id_spec(vnew, dmid, idx)
                            == block_id_spec(vpre, dmid, idx) by {
                            if idx >= 136 {
                                let k2 = (idx - 136) / 128;
                                assert(0 <= k2 < k) by (nonlinear_arith)
                                    requires
                                        k2 == (idx - 136) / 128,
                                        k == (cur - 136) / 128,
                                        (cur - 136) % 128 == 0,
                                        136 <= idx < cur,
                                ;
                                lemma_le32_frame(vpre[ind2], vnew[ind2], 4 * k, 4 * k2);
                                let e2 = le32_at(vpre[ind2], 4 * k2);
                                assert(0 <= k2 < ind2_count(cur)) by (nonlinear_arith)
                                    requires
                                        0 <= k2 < k,
                                        k == (cur - 136) / 128,
                                        (cur - 136) % 128 == 0,
                                        cur >= 136,
                                ;
                                assert(tpre[cur + 2 + k2] == e2);
                                assert(e2 != ind2) by {
                                    assert(tpre[cur + 1] == ind2);
                                }
                                assert(vnew[e2] == vpre[e2]);
                            } else if idx >= 8 {
                                assert(dmid.indirect1 != ind2) by {
                                    assert(tpre[cur] == dmid.indirect1);
                                    if cur > 136 {
                                        assert(tpre[cur + 1] == ind2);
                                    } else {
                                        assert(!base.contains(ind2) || !tpre.contains(ind2));
                                        assert(tpre.contains(dmid.indirect1));
                                        assert(!tpre.contains(ind2)) by {
                                            lemma_take_fresh(nbs);
                                        }
                                    }
                                }
                                assert(vnew[dmid.indirect1] == vpre[dmid.indirect1]);
                            }
                        }
                        assert forall|k2: int|
                            0 <= k2 < ind2_count(cur) implies le32_at(
                            vnew[ind2],
                            #[trigger] (4 * k2),
                        ) == le32_at(vpre[ind2], 4 * k2) by {
                            lemma_le32_frame(vpre[ind2], vnew[ind2], 4 * k, 4 * k2);
                        }
                        assert(data_ids_n(vnew, dmid, cur) =~= data_ids_n(vpre, dmid, cur));
                        assert(index_ids_n(vnew, dmid, cur) =~= index_ids_n(vpre, dmid, cur));
                        assert(tree_ids_n(vnew, dmid, cur) == tpre);
                    }
                }
                let ghost vsub = cache@;
                let sub_block = cache.read_u32(self.indirect2 as usize, 4 * k);
                let ghost subi = sub_block as int;
                proof {
                    assert(le32_at(vsub[ind2], 4 * k) == subi);
                    assert(0 <= k < ind2_count(cur + 1)) by (nonlinear_arith)
                        requires
                            k == (cur - 136) / 128,
                            136 <= cur,
                    ;
                    lemma_tree_ids_index_n(vsub, dmid, cur);
                    assert(tree_ids_n(vsub, dmid, cur) == tpre);
                    if j == 0 {
                        assert(subi == nbs[used - 1]);
                        assert(0 < subi < v0.len());
                        assert(!tpre.contains(subi)) by {
                            lemma_take_fresh(nbs);
                        }
                    } else {
                        assert(ind2_count(cur) == k + 1);
                        assert(tpre[cur + 2 + k] == subi);
                        assert(0 <= subi < vsub.len());
                    }
                    // the sub block is an old index block or a fresh block
                    assert(index_ids_n(v0, d0, n0).contains(subi) || nbs.contains(subi)) by {
                        if j == 0 {
                            assert(nbs.contains(subi));
                        } else {
                            assert(index_ids_n(vsub, dmid, cur)[2 + k] == subi);
                            assert(index_ids_n(vsub, dmid, cur).contains(subi));
                        }
                    }
                }
                let nb = new_blocks[used];
                cache.write_u32(sub_block as usize, 4 * j, nb);
                used = used + 1;
                proof {
                    let vnew = cache@;
                    let dnew = self@;
                    cache.lemma_view_wf();
                    // the sub block is not the double-indirect block nor the
                    // single-indirect block nor an earlier sub block
                    assert(subi != ind2) by {
                        if j == 0 {
                            assert(!tpre.contains(subi)) by {
                                lemma_take_fresh(nbs);
                            }
                            if cur > 136 {
                                assert(tpre[cur + 1] == ind2);
                            } else {
                                assert(nbs[used - 3] == ind2 && nbs[used - 2] == subi);
                            }
                        } else {
                            assert(tpre.no_duplicates());
                            assert(tpre[cur + 2 + k] == subi && tpre[cur + 1] == ind2);
                        }
                    }
                    assert forall|idx: int|
                        0 <= idx < cur implies #[trigger] block_id_spec(vnew, dnew, idx)
                        == block_id_spec(vsub, dmid, idx) by {
                        if idx >= 136 {
                            let k2 = (idx - 136) / 128;
                            let j2 = (idx - 136) % 128;
                            assert(0 <= k2 <= k && 0 <= j2 < 128 && (k2 == k ==> j2 < j))
                                by (nonlinear_arith)
                                requires
                                    k2 == (idx - 136) / 128,
                                    j2 == (idx - 136) % 128,
                                    k == (cur - 136) / 128,
                                    j == (cur - 136) % 128,
                                    136 <= idx < cur,
                            ;
                            assert(vnew[ind2] == vsub[ind2]);
                            let e2 = le32_at(vsub[ind2], 4 * k2);
                            if k2 == k {
                                assert(j != 0) by (nonlinear_arith)
                                    requires
                                        k2 == (idx - 136) / 128,
                                        k == (cur - 136) / 128,
                                        j == (cur - 136) % 128,
                                        k2 == k,
                                        136 <= idx < cur,
                                ;
                                assert(e2 == subi);
                                lemma_le32_frame(vsub[subi], vnew[subi], 4 * j, 4 * j2);
                            } else {
                                assert(0 <= k2 < ind2_count(cur)) by (nonlinear_arith)
                                    requires
                                        0 <= k2 < k,
                                        k == (cur - 136) / 128,
                                        cur >= 136,
                                ;
                                assert(tpre[cur + 2 + k2] == e2);
                                assert(e2 != subi) by {
                                    if j == 0 {
                                        assert(!tpre.contains(subi)) by {
                                            lemma_take_fresh(nbs);
                                        }
                                    } else {
                                        assert(tpre[cur + 2 + k] == subi);
                                        assert(tpre.no_duplicates());
                                    }
                                }
                                assert(vnew[e2] == vsub[e2]);
                            }
                        } else if idx >= 8 {
                            assert(dnew.indirect1 != subi) by {
                                assert(tpre[cur] == dnew.indirect1 as int);
                                if j == 0 {
                                    assert(!tpre.contains(subi)) by {
                                        lemma_take_fresh(nbs);
                                    }
                                } else {
                                    assert(tpre[cur + 2 + k] == subi);
                                    assert(tpre.no_duplicates());
                                }
                            }
                            assert(vnew[dnew.indirect1 as int] == vsub[dnew.indirect1 as int]);
                        }
                    }
                    assert(block_id_spec(vnew, dnew, cur) == nb) by {
                        assert(vnew[ind2] == vsub[ind2]);
                        assert(le32_at(vnew[ind2], 4 * k) == subi);
                        assert(le32_at(vnew[subi], 4 * j) == nb);
                    }
                    // assemble the new tree sequence
                    let leaf = nb as int;
                    lemma_tree_ids_len_n(vnew, dnew, cur + 1);
                    lemma_tree_ids_index_n(vnew, dnew, cur + 1);
                    tpre.insert_ensures(cur, leaf);
                    assert forall|k2: int|
                        0 <= k2 < k implies le32_at(vnew[ind2], #[trigger] (4 * k2)) == le32_at(
                        vsub[ind2],
                        4 * k2,
                    ) by {
                        assert(vnew[ind2] == vsub[ind2]);
                    }
                    let tnew = tree_ids_n(vnew, dnew, cur + 1);
                    {

                        assert(tnew =~= tpre.insert(cur, leaf).push(subi));
                        assert(nbs[used - 2] == subi && nbs[used - 1] == leaf);
                        assert(!tpre.contains(leaf) && !tpre.contains(subi)) by {
                            lemma_take_fresh(nbs);
                        }
                        lemma_nodup_insert(tpre, cur, leaf);
                        assert(!tpre.insert(cur, leaf).contains(subi));
                        lemma_nodup_push(tpre.insert(cur, leaf), subi);
                        assert(nbs[used - 2] == subi && nbs[used - 1] == leaf);
                        lemma_step_contains2r(base, tpre, tnew, nbs, used - 2);
                        assert(seq![leaf, subi][0] == leaf && seq![leaf, subi][1] == subi);
                        lemma_tree_bounds(tnew, tpre, seq![leaf, subi], v0.len() as int);
                        assert(index_ids_n(vnew, dnew, cur + 1) =~= index_ids_n(
                            vpre,
                            dpre,
                            cur,
                        ).push(subi));
                        lemma_push_contains(index_ids_n(vpre, dpre, cur), subi);
                    }
                    // frame: the double-indirect block and the sub block are
                    // old index blocks or fresh blocks
                    assert forall|b: int|
                        0 <= b < v0.len() && !index_ids_n(v0, d0, n0).contains(b) && !nbs.contains(
                        b,
                    ) implies cache@[b] == v0[b] by {}
                }
        used
    }


    /// A double-indirect growth step within an already open sub-indirect1
    /// block: fill its next leaf entry.
    #[verifier::rlimit(100)]
    #[verifier::spinoff_prover]
    fn grow_step_ind2_rest(
        &mut self,
        current: u32,
        new_blocks: &Vec<u32>,
        mut used: usize,
        cache: &mut BlockCacheManager,
        Ghost(c): Ghost<GrowCtx>,
    ) -> (used2: usize)
        requires
            grow_ctx_wf(c),
            c.nbs == new_blocks@.map_values(|x: u32| x as int),
            grow_inv(c, *old(cache), *old(self), current as int, used as int),
            (current as int) < c.n1,
            136 <= current < 16520,
            (current as int - 136) % 128 != 0,
        ensures
            grow_inv(c, *final(cache), *final(self), current as int + 1, used2 as int),
            used2 == total_blocks_n(current as int + 1) - total_blocks_n(c.n0),
    {
        let ghost v0 = c.v0;
        let ghost d0 = c.d0;
        let ghost n0 = c.n0;
        let ghost n1 = c.n1;
        let ghost nbs = c.nbs;
        let ghost base = c.base;
        let ghost vpre = cache@;
        let ghost dpre = self@;
        let ghost cur = current as int;
        let ghost tpre = tree_ids_n(vpre, dpre, cur);
        let i = current as usize;
        proof {
            cache.lemma_view_wf();
            lemma_tree_ids_len_n(vpre, dpre, cur);
            lemma_tree_ids_index_n(vpre, dpre, cur);
            lemma_tree_ids_len_n(v0, d0, n0);
            lemma_tree_ids_index_n(v0, d0, n0);
            if cur >= 136 {
                assert((cur + 1 - 136 + 127) / 128 == (cur - 136) / 128 + 1) by (nonlinear_arith)
                    requires
                        cur >= 136,
                ;
                if (cur - 136) % 128 == 0 {
                    assert((cur - 136 + 127) / 128 == (cur - 136) / 128) by (nonlinear_arith)
                        requires
                            cur >= 136,
                            (cur - 136) % 128 == 0,
                    ;
                } else {
                    assert((cur - 136 + 127) / 128 == (cur - 136) / 128 + 1) by (nonlinear_arith)
                        requires
                            cur >= 136,
                            (cur - 136) % 128 != 0,
                    ;
                }
            }
            lemma_total_blocks_n_monotone(cur + 1, n1);
            lemma_total_blocks_n_monotone(n0, cur);
        }

                let last = i - INDIRECT1_BOUND;
                let k = last / INODE_INDIRECT1_COUNT;
                let j = last % INODE_INDIRECT1_COUNT;
                proof {
                    assert(last == 128 * (last / 128) + last % 128 && 0 <= last % 128 < 128 && 0
                        <= last / 128 < 128) by (nonlinear_arith)
                        requires
                            0 <= last < 16384,
                    ;
                }
                let ghost dmid = self@;
                let ghost ind2 = dmid.indirect2 as int;
                proof {
                    assert(tree_ids_n(cache@, dmid, cur) == tpre);
                    if cur > 136 {
                        assert(tpre[cur + 1] == ind2);
                        assert(0 <= ind2 < vpre.len());
                    } else {
                        assert(ind2 == nbs[used - 1]);
                        assert(0 < ind2 < vpre.len());
                    }
                    // the double-indirect block is an old index block or fresh
                    assert(index_ids_n(v0, d0, n0).contains(ind2) || nbs.contains(ind2)) by {
                        if cur > 136 {
                            assert(index_ids_n(vpre, dpre, cur)[1] == ind2);
                            assert(index_ids_n(vpre, dpre, cur).contains(ind2));
                        } else {
                            assert(nbs.contains(ind2));
                        }
                    }
                }
                if j != 0 {
                    proof {
                        assert((cur - 136) % 128 != 0 && k == (cur - 136) / 128);
                        assert(ind2_count(cur) == k + 1) by (nonlinear_arith)
                            requires
                                k == (cur - 136) / 128,
                                (cur - 136) % 128 != 0,
                                cur > 136,
                        ;
                    }
                }
                let ghost vsub = cache@;
                let sub_block = cache.read_u32(self.indirect2 as usize, 4 * k);
                let ghost subi = sub_block as int;
                proof {
                    assert(le32_at(vsub[ind2], 4 * k) == subi);
                    assert(0 <= k < ind2_count(cur + 1)) by (nonlinear_arith)
                        requires
                            k == (cur - 136) / 128,
                            136 <= cur,
                    ;
                    lemma_tree_ids_index_n(vsub, dmid, cur);
                    assert(tree_ids_n(vsub, dmid, cur) == tpre);
                    if j == 0 {
                        assert(subi == nbs[used - 1]);
                        assert(0 < subi < v0.len());
                        assert(!tpre.contains(subi)) by {
                            lemma_take_fresh(nbs);
                        }
                    } else {
                        assert(ind2_count(cur) == k + 1);
                        assert(tpre[cur + 2 + k] == subi);
                        assert(0 <= subi < vsub.len());
                    }
                    // the sub block is an old index block or a fresh block
                    assert(index_ids_n(v0, d0, n0).contains(subi) || nbs.contains(subi)) by {
                        if j == 0 {
                            assert(nbs.contains(subi));
                        } else {
                            assert(index_ids_n(vsub, dmid, cur)[2 + k] == subi);
                            assert(index_ids_n(vsub, dmid, cur).contains(subi));
                        }
                    }
                }
                let nb = new_blocks[used];
                cache.write_u32(sub_block as usize, 4 * j, nb);
                used = used + 1;
                proof {
                    let vnew = cache@;
                    let dnew = self@;
                    cache.lemma_view_wf();
                    // the sub block is not the double-indirect block nor the
                    // single-indirect block nor an earlier sub block
                    assert(subi != ind2) by {
                        if j == 0 {
                            assert(!tpre.contains(subi)) by {
                                lemma_take_fresh(nbs);
                            }
                            if cur > 136 {
                                assert(tpre[cur + 1] == ind2);
                            } else {
                                assert(nbs[used - 3] == ind2 && nbs[used - 2] == subi);
                            }
                        } else {
                            assert(tpre.no_duplicates());
                            assert(tpre[cur + 2 + k] == subi && tpre[cur + 1] == ind2);
                        }
                    }
                    assert forall|idx: int|
                        0 <= idx < cur implies #[trigger] block_id_spec(vnew, dnew, idx)
                        == block_id_spec(vsub, dmid, idx) by {
                        if idx >= 136 {
                            let k2 = (idx - 136) / 128;
                            let j2 = (idx - 136) % 128;
                            assert(0 <= k2 <= k && 0 <= j2 < 128 && (k2 == k ==> j2 < j))
                                by (nonlinear_arith)
                                requires
                                    k2 == (idx - 136) / 128,
                                    j2 == (idx - 136) % 128,
                                    k == (cur - 136) / 128,
                                    j == (cur - 136) % 128,
                                    136 <= idx < cur,
                            ;
                            assert(vnew[ind2] == vsub[ind2]);
                            let e2 = le32_at(vsub[ind2], 4 * k2);
                            if k2 == k {
                                assert(j != 0) by (nonlinear_arith)
                                    requires
                                        k2 == (idx - 136) / 128,
                                        k == (cur - 136) / 128,
                                        j == (cur - 136) % 128,
                                        k2 == k,
                                        136 <= idx < cur,
                                ;
                                assert(e2 == subi);
                                lemma_le32_frame(vsub[subi], vnew[subi], 4 * j, 4 * j2);
                            } else {
                                assert(0 <= k2 < ind2_count(cur)) by (nonlinear_arith)
                                    requires
                                        0 <= k2 < k,
                                        k == (cur - 136) / 128,
                                        cur >= 136,
                                ;
                                assert(tpre[cur + 2 + k2] == e2);
                                assert(e2 != subi) by {
                                    if j == 0 {
                                        assert(!tpre.contains(subi)) by {
                                            lemma_take_fresh(nbs);
                                        }
                                    } else {
                                        assert(tpre[cur + 2 + k] == subi);
                                        assert(tpre.no_duplicates());
                                    }
                                }
                                assert(vnew[e2] == vsub[e2]);
                            }
                        } else if idx >= 8 {
                            assert(dnew.indirect1 != subi) by {
                                assert(tpre[cur] == dnew.indirect1 as int);
                                if j == 0 {
                                    assert(!tpre.contains(subi)) by {
                                        lemma_take_fresh(nbs);
                                    }
                                } else {
                                    assert(tpre[cur + 2 + k] == subi);
                                    assert(tpre.no_duplicates());
                                }
                            }
                            assert(vnew[dnew.indirect1 as int] == vsub[dnew.indirect1 as int]);
                        }
                    }
                    assert(block_id_spec(vnew, dnew, cur) == nb) by {
                        assert(vnew[ind2] == vsub[ind2]);
                        assert(le32_at(vnew[ind2], 4 * k) == subi);
                        assert(le32_at(vnew[subi], 4 * j) == nb);
                    }
                    // assemble the new tree sequence
                    let leaf = nb as int;
                    lemma_tree_ids_len_n(vnew, dnew, cur + 1);
                    lemma_tree_ids_index_n(vnew, dnew, cur + 1);
                    tpre.insert_ensures(cur, leaf);
                    assert forall|k2: int|
                        0 <= k2 < k implies le32_at(vnew[ind2], #[trigger] (4 * k2)) == le32_at(
                        vsub[ind2],
                        4 * k2,
                    ) by {
                        assert(vnew[ind2] == vsub[ind2]);
                    }
                    let tnew = tree_ids_n(vnew, dnew, cur + 1);
                    {
                        assert(tnew =~= tpre.insert(cur, leaf));
                        assert(nbs[used - 1] == leaf);
                        assert(!tpre.contains(leaf)) by {
                            lemma_take_fresh(nbs);
                        }
                        lemma_nodup_insert(tpre, cur, leaf);
                        lemma_step_contains(base, tpre, tnew, nbs, used - 1);
                        assert(seq![leaf][0] == leaf);
                        lemma_tree_bounds(tnew, tpre, seq![leaf], v0.len() as int);
                        assert(index_ids_n(vnew, dnew, cur + 1) =~= index_ids_n(
                            vpre,
                            dpre,
                            cur,
                        ));
                    }
                    // frame: the double-indirect block and the sub block are
                    // old index blocks or fresh blocks
                    assert forall|b: int|
                        0 <= b < v0.len() && !index_ids_n(v0, d0, n0).contains(b) && !nbs.contains(
                        b,
                    ) implies cache@[b] == v0[b] by {}
                }
        used
    }


    /// Grow the content to `new_size` bytes, consuming `new_blocks` — fresh,
    /// pairwise distinct blocks, exactly as many as `blocks_num_needed`
    /// says — as the new data and index blocks, in inner-id order.
    #[verifier::rlimit(100)]
    pub fn increase_size(
        &mut self,
        new_size: u32,
        new_blocks: Vec<u32>,
        cache: &mut BlockCacheManager,
    )
        requires
            old(cache).wf(),
            old(self).wf(),
            tree_wf(old(cache)@, old(self)@),
            old(self).size <= new_size <= MAX_FILE_SIZE,
            new_blocks@.len() == total_blocks_of(new_size as int) - total_blocks_of(
                old(self)@.size,
            ),
            forall|a: int, b: int|
                0 <= a < b < new_blocks@.len() ==> new_blocks@[a] != new_blocks@[b],
            forall|a: int|
                0 <= a < new_blocks@.len() ==> !tree_ids(old(cache)@, old(self)@).contains(
                    #[trigger] new_blocks@[a] as int,
                ),
            forall|a: int|
                0 <= a < new_blocks@.len() ==> 0 < #[trigger] new_blocks@[a] < old(cache)@.len(),
        ensures
            final(cache).wf(),
            final(cache)@.len() == old(cache)@.len(),
            final(self).wf(),
            final(self)@.size == new_size,
            final(self)@.nlink == old(self)@.nlink,
            final(self)@.ino == old(self)@.ino,
            final(self)@.mode == old(self)@.mode,
            final(self)@.is_dir == old(self)@.is_dir,
            final(self)@.dev == old(self)@.dev,
            tree_wf(final(cache)@, final(self)@),
            forall|i: int|
                0 <= i < data_blocks_of(old(self)@.size) ==> #[trigger] block_id_spec(
                    final(cache)@,
                    final(self)@,
                    i,
                ) == block_id_spec(old(cache)@, old(self)@, i),
            forall|p: int|
                0 <= p < old(self)@.size ==> byte_at(final(cache)@, final(self)@, p) == byte_at(
                    old(cache)@,
                    old(self)@,
                    p,
                ),
            forall|b: int|
                tree_ids(final(cache)@, final(self)@).contains(b) <==> tree_ids(
                    old(cache)@,
                    old(self)@,
                ).contains(b) || new_blocks@.map_values(|x: u32| x as int).contains(b),
            forall|b: int|
                0 <= b < old(cache)@.len() && !index_ids(old(cache)@, old(self)@).contains(b)
                    && !new_blocks@.map_values(|x: u32| x as int).contains(b)
                    ==> final(cache)@[b] == old(cache)@[b],
            forall|i: int|
                data_blocks_of(old(self)@.size) <= i < data_blocks_of(new_size as int)
                    ==> #[trigger] block_id_spec(final(cache)@, final(self)@, i)
                    == new_blocks@[total_blocks_n(i + 1) - total_blocks_of(old(self)@.size)
                    - 1] as int,
            data_blocks_of(new_size as int) > 8 && data_blocks_of(old(self)@.size) <= 8
                ==> final(self)@.indirect1 == new_blocks@[total_blocks_n(8) - total_blocks_of(
                old(self)@.size,
            )] as int,
            data_blocks_of(new_size as int) > 136 && data_blocks_of(old(self)@.size) <= 136
                ==> final(self)@.indirect2 == new_blocks@[total_blocks_n(136) - total_blocks_of(
                old(self)@.size,
            )] as int,
            forall|k: int|
                ind2_count(data_blocks_of(old(self)@.size)) <= k < ind2_count(
                    data_blocks_of(new_size as int),
                ) ==> le32_at(final(cache)@[final(self)@.indirect2], #[trigger] (4 * k))
                    == new_blocks@[total_blocks_n(136 + 128 * k) - total_blocks_of(
                    old(self)@.size,
                ) + if 136 + 128 * k == 136 {
                    1int
                } else {
                    0int
                }] as int,
    {
        proof {
            cache.lemma_view_wf();
            lemma_total_blocks_bound(old(self)@.size);
            lemma_total_blocks_bound(new_size as int);
            lemma_total_blocks_monotone(old(self)@.size, new_size as int);
        }
        let ghost c = GrowCtx {
            v0: cache@,
            d0: self@,
            n0: data_blocks_of(self@.size),
            n1: data_blocks_of(new_size as int),
            nbs: new_blocks@.map_values(|x: u32| x as int),
            base: tree_ids_n(cache@, self@, data_blocks_of(self@.size)),
            new_size: new_size as int,
        };
        let current_blocks: u32 = self.data_blocks();
        let total_new: u32 = Self::_data_blocks(new_size);
        self.size = new_size;
        proof {
            assert(self@ =~= (InodeModel { size: new_size as int, ..c.d0 }));
            assert(data_ids_n(cache@, self@, c.n0) =~= data_ids_n(c.v0, c.d0, c.n0));
            assert(index_ids_n(cache@, self@, c.n0) =~= index_ids_n(c.v0, c.d0, c.n0));
            assert(tree_ids_n(cache@, self@, c.n0) == tree_ids_n(c.v0, c.d0, c.n0));
            assert(c.n1 * 512 >= new_size && c.n1 <= 16520) by (nonlinear_arith)
                requires
                    c.n1 == (new_size + 511) / 512,
                    0 <= new_size <= 16520 * 512,
            ;
            assert(c.n0 <= c.n1);
            assert(c.nbs.take(0) =~= Seq::<int>::empty());
            assert forall|a: int| 0 <= a < c.nbs.len() implies !c.base.contains(
                #[trigger] c.nbs[a],
            ) && 0 < c.nbs[a] < c.v0.len() by {
                assert(c.nbs[a] == new_blocks@[a] as int);
            }
            assert(grow_ctx_wf(c));
            assert(grow_inv(c, *cache, *self, c.n0, 0));
        }
        let mut current: u32 = current_blocks;
        let mut used: usize = 0;
        while current < total_new
            invariant
                grow_ctx_wf(c),
                c.nbs == new_blocks@.map_values(|x: u32| x as int),
                c.v0 == old(cache)@,
                c.d0 == old(self)@,
                c.new_size == new_size as int,
                total_new == c.n1,
                grow_inv(c, *cache, *self, current as int, used as int),
            decreases total_new - current,
        {
            if current < INODE_DIRECT_COUNT as u32 {
                used = self.grow_step_direct(current, &new_blocks, used, cache, Ghost(c));
            } else if current < INDIRECT1_BOUND as u32 {
                used = self.grow_step_ind1(current, &new_blocks, used, cache, Ghost(c));
            } else {
                used = self.grow_step_ind2(current, &new_blocks, used, cache, Ghost(c));
            }
            current = current + 1;
        }
        proof {
            lemma_tree_ids_len_n(c.v0, c.d0, c.n0);
            assert(used == new_blocks@.len());
            assert(c.nbs.take(used as int) =~= c.nbs);
            assert(data_blocks_of(self@.size) == c.n1);
            assert(tree_wf(cache@, self@));
            lemma_tree_ids_index_n(c.v0, c.d0, c.n0);
            // bytes of the old content are untouched: their blocks are data
            // blocks of the old tree, which are neither index nor fresh
            assert forall|p: int|
                0 <= p < c.d0.size implies byte_at(cache@, self@, p) == byte_at(c.v0, c.d0, p) by {
                let pb = p / 512;
                assert(0 <= pb && pb * 512 <= p < (pb + 1) * 512) by (nonlinear_arith)
                    requires
                        pb == p / 512,
                        0 <= p,
                ;
                assert(data_blocks_of(c.d0.size) * 512 >= c.d0.size) by (nonlinear_arith);
                assert(pb < c.n0) by (nonlinear_arith)
                    requires
                        p < c.d0.size <= c.n0 * 512,
                        pb * 512 <= p,
                ;
                assert(block_id_spec(cache@, self@, pb) == block_id_spec(c.v0, c.d0, pb));
                let bid = block_id_spec(c.v0, c.d0, pb);
                assert(tree_ids_n(c.v0, c.d0, c.n0)[pb] == bid);
                assert(!index_ids_n(c.v0, c.d0, c.n0).contains(bid)) by {
                    if index_ids_n(c.v0, c.d0, c.n0).contains(bid) {
                        let w = choose|w: int|
                            0 <= w < index_ids_n(c.v0, c.d0, c.n0).len() && index_ids_n(
                                c.v0,
                                c.d0,
                                c.n0,
                            )[w] == bid;
                        lemma_tree_ids_len_n(c.v0, c.d0, c.n0);
                        assert(tree_ids_n(c.v0, c.d0, c.n0)[c.n0 + w] == bid);
                        assert(tree_ids_n(c.v0, c.d0, c.n0).no_duplicates());
                    }
                }
                assert(!c.nbs.contains(bid)) by {
                    if c.nbs.contains(bid) {
                        let w = choose|w: int| 0 <= w < c.nbs.len() && c.nbs[w] == bid;
                        assert(tree_ids_n(c.v0, c.d0, c.n0).contains(bid));
                    }
                }
                assert(cache@[bid] == c.v0[bid]);
            }
        }
    }

    /// Free the whole content: return every reachable block — the data
    /// blocks in content order, then the index blocks — and reset the inode
    /// to an empty tree of size 0. The disk itself is not touched.
    pub fn clear_size(&mut self, cache: &mut BlockCacheManager) -> (r: Vec<u32>)
        requires
            old(cache).wf(),
            old(self).wf(),
            tree_wf(old(cache)@, old(self)@),
        ensures
            final(cache).wf(),
            final(cache)@ == old(cache)@,
            final(self).wf(),
            r@.map_values(|x: u32| x as int) == tree_ids(old(cache)@, old(self)@),
            r@.len() == total_blocks_of(old(self)@.size),
            forall|a: int, b: int| 0 <= a < b < r@.len() ==> r@[a] != r@[b],
            final(self)@ == (InodeModel {
                size: 0,
                direct: Seq::new(8, |i: int| 0int),
                indirect1: 0,
                indirect2: 0,
                ..old(self)@
            }),
    {
        proof {
            cache.lemma_view_wf();
            lemma_total_blocks_bound(self@.size);
        }
        let ghost v0 = cache@;
        let ghost d0 = self@;
        let ghost n = data_blocks_of(d0.size);
        proof {
            lemma_tree_ids_len_n(v0, d0, n);
            lemma_tree_ids_index_n(v0, d0, n);
        }
        let nblocks: u32 = self.data_blocks();
        let mut v: Vec<u32> = Vec::new();
        let mut i: u32 = 0;
        while i < nblocks
            invariant
                cache.wf(),
                cache@ == v0,
                self.wf(),
                self@ == d0,
                tree_wf(v0, d0),
                n == data_blocks_of(d0.size),
                nblocks == n,
                i <= nblocks,
                v@.len() == i,
                forall|k: int| 0 <= k < i ==> v@[k] as int == #[trigger] block_id_spec(v0, d0, k),
            decreases nblocks - i,
        {
            let b = self.get_block_id(i, cache);
            v.push(b);
            i = i + 1;
        }
        if nblocks > INODE_DIRECT_COUNT as u32 {
            v.push(self.indirect1);
        }
        if nblocks > INDIRECT1_BOUND as u32 {
            v.push(self.indirect2);
            let cnt: u32 = (nblocks - INDIRECT1_BOUND as u32 + INODE_INDIRECT1_COUNT as u32 - 1)
                / INODE_INDIRECT1_COUNT as u32;
            proof {
                assert(cnt == ind2_count(n));
                assert(ind2_count(n) <= 128) by (nonlinear_arith)
                    requires
                        136 < n <= 16520,
                ;
                assert(0 <= d0.indirect2 < v0.len()) by {
                    assert(tree_ids_n(v0, d0, n)[n + 1] == d0.indirect2);
                }
            }
            let mut k: u32 = 0;
            while k < cnt
                invariant
                    cache.wf(),
                    cache@ == v0,
                    self.wf(),
                    self@ == d0,
                    tree_wf(v0, d0),
                    n == data_blocks_of(d0.size),
                    cnt == ind2_count(n),
                    cnt <= 128,
                    n > 136,
                    0 <= d0.indirect2 < v0.len(),
                    k <= cnt,
                    v@.len() == n + 2 + k,
                    forall|k2: int|
                        0 <= k2 < n ==> v@[k2] as int == #[trigger] block_id_spec(v0, d0, k2),
                    v@[n as int] as int == d0.indirect1,
                    v@[n + 1] as int == d0.indirect2,
                    forall|k2: int|
                        0 <= k2 < k ==> v@[n + 2 + k2] as int == le32_at(
                            v0[d0.indirect2],
                            #[trigger] (4 * k2),
                        ),
                decreases cnt - k,
            {
                let e = cache.read_u32(self.indirect2 as usize, 4 * k as usize);
                v.push(e);
                k = k + 1;
            }
        }
        self.size = 0;
        self.direct = vec![0u32; 8];
        self.indirect1 = 0;
        self.indirect2 = 0;
        proof {
            assert(v@.map_values(|x: u32| x as int) =~= tree_ids_n(v0, d0, n));
            let t = tree_ids_n(v0, d0, n);
            assert forall|a: int, b: int| 0 <= a < b < v@.len() implies v@[a] != v@[b] by {
                assert(t[a] == v@[a] as int && t[b] == v@[b] as int);
                assert(t.no_duplicates());
            }
            assert(self@.direct =~= Seq::new(8, |i2: int| 0int));
            assert(self@ =~= (InodeModel {
                size: 0,
                direct: Seq::new(8, |i2: int| 0int),
                indirect1: 0,
                indirect2: 0,
                ..d0
            }));
        }
        v
    }

    /// `get_block_id` against the current cache state, with the tree facts
    /// restated for the caller's loop.
    fn get_block_id_cur(&self, inner_id: u32, cache: &mut BlockCacheManager) -> (r: u32)
        requires
            old(cache).wf(),
            self.wf(),
            tree_wf(old(cache)@, self@),
            inner_id < data_blocks_of(self@.size),
        ensures
            final(cache).wf(),
            final(cache)@ == old(cache)@,
            r == block_id_spec(old(cache)@, self@, inner_id as int),
    {
        self.get_block_id(inner_id, cache)
    }
}

/// Round trip: when a string written at `offset` lies wholly within the
/// content, reading the same range afterwards returns that string. The
/// premises are exactly what `write_at` ensures of the disk it leaves and
/// `read_at` ensures of the buffer it fills.
pub proof fn lemma_write_read_round_trip(
    v: Seq<Seq<u8>>,
    d: InodeModel,
    offset: int,
    s: Seq<u8>,
    buf: Seq<u8>,
    n: int,
)
    requires
        0 <= offset,
        offset + s.len() <= d.size,
        n == DiskInode::rw_len(d.size, offset, s.len() as int),
        forall|k: int| 0 <= k < n ==> byte_at(v, d, offset + k) == s[k],
        buf.len() == s.len(),
        forall|k: int| 0 <= k < n ==> buf[k] == byte_at(v, d, offset + k),
    ensures
        n == s.len(),
        buf == s,
{
    assert(buf =~= s);
}

// ---------------------------------------------------------------------------
// Directory entry
// ---------------------------------------------------------------------------

/// Mathematical model of a directory entry: the 28 raw name bytes and the
/// inode id.
#[verifier::ext_equal]
pub ghost struct DirEntModel {
    pub name: Seq<u8>,
    pub inode_id: int,
}

/// The directory entry encoded in the 32 bytes `b`: 28 NUL-padded name
/// bytes, then the inode id, little-endian.
pub open spec fn dirent_model_of(b: Seq<u8>) -> DirEntModel {
    DirEntModel { name: b.subrange(0, 28), inode_id: le32_at(b, 28) }
}

/// Index of the first NUL in `raw` at or after `i`, or `raw.len()`.
pub open spec fn nul_pos(raw: Seq<u8>, i: int) -> int
    decreases raw.len() - i,
{
    if i < 0 || i >= raw.len() {
        raw.len() as int
    } else if raw[i] == 0 {
        i
    } else {
        nul_pos(raw, i + 1)
    }
}

/// The name encoded by the raw bytes: everything before the first NUL.
pub open spec fn name_of(raw: Seq<u8>) -> Seq<u8> {
    raw.take(nul_pos(raw, 0))
}

/// `nul_pos` is the first NUL.
pub proof fn lemma_nul_pos(raw: Seq<u8>, i: int, j: int)
    requires
        0 <= i <= j <= raw.len(),
        forall|k: int| i <= k < j ==> raw[k] != 0,
        j == raw.len() || raw[j] == 0,
    ensures
        nul_pos(raw, i) == j,
    decreases j - i,
{
    if i < j {
        lemma_nul_pos(raw, i + 1, j);
    }
}

/// A directory entry: a NUL-padded name of at most 27 bytes and the id of
/// the inode it links to.
pub struct DirEntry {
    pub name: Vec<u8>,
    pub inode_id: u32,
}

impl View for DirEntry {
    type V = DirEntModel;

    open spec fn view(&self) -> DirEntModel {
        DirEntModel { name: self.name@, inode_id: self.inode_id as int }
    }
}

impl DirEntry {
    /// The raw name field holds its 28 bytes.
    pub open spec fn wf(&self) -> bool {
        self.name@.len() == 28
    }

    /// An all-zero entry: the tombstone form.
    pub fn empty() -> (r: DirEntry)
        ensures
            r.wf(),
            r@.name =~= Seq::new(28, |k: int| 0u8),
            r@.inode_id == 0,
            name_of(r@.name) =~= Seq::<u8>::empty(),
    {
        let r = DirEntry { name: vec![0u8; 28], inode_id: 0 };
        proof {
            assert(r@.name =~= Seq::new(28, |k: int| 0u8));
            lemma_nul_pos(r@.name, 0, 0);
        }
        r
    }

    /// An entry for `name` (at most 27 NUL-free bytes) and `inode_id`.
    pub fn new(name: &Vec<u8>, inode_id: u32) -> (r: DirEntry)
        requires
            name@.len() <= NAME_LENGTH_LIMIT,
            forall|k: int| 0 <= k < name@.len() ==> name@[k] != 0,
        ensures
            r.wf(),
            r@.inode_id == inode_id,
            name_of(r@.name) == name@,
    {
        let mut raw: Vec<u8> = Vec::new();
        let mut i: usize = 0;
        while i < name.len()
            invariant
                i <= name@.len(),
                raw@ =~= name@.subrange(0, i as int),
            decreases name@.len() - i,
        {
            raw.push(name[i]);
            i = i + 1;
        }
        proof {
            assert(raw@ =~= name@);
            assert(raw@.subrange(0, name@.len() as int) =~= name@);
        }
        while raw.len() < 28
            invariant
                name@.len() <= raw@.len() <= 28,
                raw@.subrange(0, name@.len() as int) == name@,
                forall|k: int| name@.len() <= k < raw@.len() ==> raw@[k] == 0,
            decreases 28 - raw@.len(),
        {
            raw.push(0u8);
            proof {
                assert(raw@.subrange(0, name@.len() as int) =~= name@);
            }
        }
        let r = DirEntry { name: raw, inode_id };
        proof {
            assert forall|k: int| 0 <= k < name@.len() implies r@.name[k] != 0 by {
                assert(r@.name.subrange(0, name@.len() as int)[k] == r@.name[k]);
            }
            lemma_nul_pos(r@.name, 0, name@.len() as int);
            assert(name_of(r@.name) =~= name@);
        }
        r
    }

    /// The entry's name: the raw bytes before the first NUL.
    pub fn name(&self) -> (r: Vec<u8>)
        requires
            self.wf(),
        ensures
            r@ == name_of(self@.name),
    {
        let mut r: Vec<u8> = Vec::new();
        let mut i: usize = 0;
        while i < 28 && self.name[i] != 0
            invariant
                self.wf(),
                i <= 28,
                forall|k: int| 0 <= k < i ==> self.name@[k] != 0,
                r@ =~= self.name@.subrange(0, i as int),
            decreases 28 - i,
        {
            r.push(self.name[i]);
            i = i + 1;
        }
        proof {
            lemma_nul_pos(self@.name, 0, i as int);
            assert(r@ =~= name_of(self@.name));
        }
        r
    }

    /// The id of the inode the entry links to.
    pub fn inode_id(&self) -> (r: u32)
        ensures
            r == self@.inode_id,
    {
        self.inode_id
    }

    /// Encode into the 32-byte on-disk form.
    pub fn encode(&self) -> (r: Vec<u8>)
        requires
            self.wf(),
        ensures
            r@.len() == DIRENT_SZ,
            dirent_model_of(r@) == self@,
    {
        let mut v: Vec<u8> = Vec::new();
        let mut i: usize = 0;
        while i < 28
            invariant
                self.wf(),
                i <= 28,
                v@ =~= self.name@.subrange(0, i as int),
            decreases 28 - i,
        {
            v.push(self.name[i]);
            i = i + 1;
        }
        push_u32(&mut v, self.inode_id);
        proof {
            assert(dirent_model_of(v@).name =~= self@.name);
            assert(dirent_model_of(v@) =~= self@);
        }
        v
    }

    /// Decode the 32-byte on-disk form.
    pub fn decode(b: &Vec<u8>) -> (r: DirEntry)
        requires
            b@.len() == DIRENT_SZ,
        ensures
            r.wf(),
            r@ == dirent_model_of(b@),
    {
        let mut name: Vec<u8> = Vec::new();
        let mut i: usize = 0;
        while i < 28
            invariant
                i <= 28,
                b@.len() == DIRENT_SZ,
                name@ =~= b@.subrange(0, i as int),
            decreases 28 - i,
        {
            name.push(b[i]);
            i = i + 1;
        }
        let inode_id = u32_from_le(b[28], b[29], b[30], b[31]);
        let r = DirEntry { name, inode_id };
        proof {
            assert(r@ =~= dirent_model_of(b@));
        }
        r
    }
}

} // verus!
