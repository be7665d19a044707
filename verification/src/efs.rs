//! The filesystem instance: mounts a device, lays out the regions, and
//! allocates and frees inodes and data blocks.
//!
//! Disk layout, from block 0: super-block | inode bitmap | inode area |
//! data bitmap | data area. Each inode-bitmap block tracks 4096 inodes,
//! whose records fill exactly 1024 inode-area blocks.

use vstd::prelude::*;

use crate::bitmap::{
    bit_is_set, free_count, lemma_free_count_full, lemma_free_count_lower, lemma_free_count_pos,
    lemma_free_count_set, lemma_free_count_clear, lemma_zero_byte_clear, Bitmap,
};
use crate::block_cache::BlockCacheManager;
use crate::block_dev::BlockDevice;
use crate::layout::{
    inode_model_at, sb_model_of, DiskInode, DiskInodeType, InodeModel, SuperBlock, DISK_INODE_SZ,
    EFS_MAGIC, MODE_DIR,
};
use crate::BLOCK_SZ;

verus! {

/// The device's first block holds a super-block this library can mount:
/// valid magic and region counts that fit the device.
pub open spec fn sb_mountable(v: Seq<Seq<u8>>) -> bool {
    let sb = sb_model_of(v[0]);
    &&& sb.magic == EFS_MAGIC
    &&& sb.inode_bitmap_blocks >= 1
    &&& sb.data_bitmap_blocks >= 1
    &&& sb.inode_bitmap_blocks * 4096 <= u32::MAX
    &&& 1 + sb.inode_bitmap_blocks + sb.inode_bitmap_blocks * 1024 + sb.data_bitmap_blocks
        < v.len()
    &&& v.len() - (1 + sb.inode_bitmap_blocks + sb.inode_bitmap_blocks * 1024
        + sb.data_bitmap_blocks) <= sb.data_bitmap_blocks * 4096
}

/// An easy filesystem over a cached block device.
pub struct EasyFileSystem {
    pub cache: BlockCacheManager,
    pub inode_bitmap: Bitmap,
    pub data_bitmap: Bitmap,
    pub inode_area_start_block: u32,
    pub data_area_start_block: u32,
}

impl EasyFileSystem {
    /// The regions are laid out in order and fit the disk.
    pub open spec fn wf(&self) -> bool {
        &&& self.cache.wf()
        &&& self.cache@.len() <= u32::MAX
        &&& self.inode_bitmap.start_block_id == 1
        &&& self.inode_bitmap.blocks >= 1
        &&& self.inode_bitmap.blocks * 4096 <= u32::MAX
        &&& self.inode_area_start_block == 1 + self.inode_bitmap.blocks
        &&& self.data_bitmap.start_block_id == 1 + self.inode_bitmap.blocks
            + self.inode_bitmap.blocks * 1024
        &&& self.data_bitmap.blocks >= 1
        &&& self.data_area_start_block == self.data_bitmap.start_block_id + self.data_bitmap.blocks
        &&& (self.data_area_start_block as int) < self.cache@.len()
        &&& self.cache@.len() - self.data_area_start_block <= self.data_bitmap.blocks * 4096
        &&& self.inode_bitmap.spec_wf(self.cache@)
        &&& self.data_bitmap.spec_wf(self.cache@)
    }

    /// Number of inode records the inode area holds.
    pub open spec fn n_inodes(&self) -> int {
        self.inode_bitmap.blocks * 4096
    }

    /// Number of data blocks the data area holds.
    pub open spec fn data_blocks_avail(&self) -> int {
        self.cache@.len() - self.data_area_start_block
    }

    /// Number of free bits in the inode bitmap.
    pub open spec fn free_inode_bits(&self) -> nat {
        free_count(self.cache@, 1, self.n_inodes())
    }

    /// Number of free bits of the data bitmap that name real data blocks.
    pub open spec fn free_data_bits(&self) -> nat {
        free_count(self.cache@, self.data_bitmap.start_block_id as int, self.data_blocks_avail())
    }

    /// Whether inode `id` is marked allocated.
    pub open spec fn inode_allocated(&self, id: int) -> bool {
        bit_is_set(self.cache@, 1, id)
    }

    /// Whether the data block with device id `b` is marked allocated.
    pub open spec fn data_block_allocated(&self, b: int) -> bool {
        bit_is_set(
            self.cache@,
            self.data_bitmap.start_block_id as int,
            b - self.data_area_start_block,
        )
    }

    /// The non-cache fields: the mounted layout.
    pub open spec fn same_layout(&self, other: &EasyFileSystem) -> bool {
        &&& self.inode_bitmap == other.inode_bitmap
        &&& self.data_bitmap == other.data_bitmap
        &&& self.inode_area_start_block == other.inode_area_start_block
        &&& self.data_area_start_block == other.data_area_start_block
    }

    /// Create a fresh filesystem on `device`: compute the regions, zero
    /// every block, write the super-block, and set up the root directory as
    /// inode 0.
    #[verifier::rlimit(100)]
    pub fn create(device: BlockDevice, total_blocks: u32, inode_bitmap_blocks: u32) -> (r:
        EasyFileSystem)
        requires
            device.wf(),
            device@.len() == total_blocks,
            1 <= inode_bitmap_blocks,
            inode_bitmap_blocks * 4096 <= u32::MAX,
            total_blocks > 2 + inode_bitmap_blocks + inode_bitmap_blocks * 1024,
            total_blocks * 4096 <= usize::MAX,
        ensures
            r.wf(),
            r.cache@.len() == total_blocks,
            r.inode_bitmap.blocks == inode_bitmap_blocks,
            r.inode_area_start_block == 1 + inode_bitmap_blocks,
            sb_model_of(r.cache@[0]).magic == EFS_MAGIC,
            sb_model_of(r.cache@[0]).total_blocks == total_blocks,
            sb_model_of(r.cache@[0]).inode_bitmap_blocks == inode_bitmap_blocks,
            sb_model_of(r.cache@[0]).inode_area_blocks == inode_bitmap_blocks * 1024,
            sb_model_of(r.cache@[0]).data_bitmap_blocks == (total_blocks - 1 - inode_bitmap_blocks
                - inode_bitmap_blocks * 1024 + 4096) / 4097,
            sb_model_of(r.cache@[0]).data_area_blocks == total_blocks - 1 - inode_bitmap_blocks
                - inode_bitmap_blocks * 1024 - sb_model_of(r.cache@[0]).data_bitmap_blocks,
            r.data_bitmap.start_block_id == 1 + inode_bitmap_blocks + inode_bitmap_blocks * 1024,
            r.data_bitmap.blocks == sb_model_of(r.cache@[0]).data_bitmap_blocks,
            r.data_area_start_block == r.data_bitmap.start_block_id + r.data_bitmap.blocks,
            sb_mountable(r.cache.disk()),
            r.inode_allocated(0),
            forall|j: int| 1 <= j < r.n_inodes() ==> !r.inode_allocated(j),
            forall|j: int|
                0 <= j < r.data_bitmap.blocks * 4096 ==> !bit_is_set(
                    r.cache@,
                    r.data_bitmap.start_block_id as int,
                    j,
                ),
            r.free_inode_bits() == r.n_inodes() - 1,
            r.free_data_bits() == r.data_blocks_avail(),
            inode_model_at(r.cache@, r.inode_area_start_block as int, 0) == (InodeModel {
                size: 0,
                direct: Seq::new(8, |i: int| 0int),
                indirect1: 0,
                indirect2: 0,
                is_dir: true,
                nlink: 1,
                mode: MODE_DIR as int,
                ino: 0,
                dev: 0,
            }),
            r.cache.disk() == r.cache@,
            forall|b: int, k: int|
                0 <= b < total_blocks && 0 <= k < BLOCK_SZ && !(b == 0 && k < 24) && !(1 <= b < 1
                    + inode_bitmap_blocks) && !(r.data_bitmap.start_block_id <= b
                    < r.data_area_start_block) && !(b == r.inode_area_start_block && k
                    < DISK_INODE_SZ) ==> r.cache@[b][k] == 0,
    {
        let inode_bitmap = Bitmap::new(1, inode_bitmap_blocks as usize);
        let inode_num = inode_bitmap.maximum();
        let inode_area_blocks = inode_bitmap_blocks * 1024;
        let inode_total_blocks = inode_bitmap_blocks + inode_area_blocks;
        let data_total_blocks = total_blocks - 1 - inode_total_blocks;
        let data_bitmap_blocks = ((data_total_blocks as u64 + 4096) / 4097) as u32;
        proof {
            assert(1 <= data_bitmap_blocks < data_total_blocks && data_total_blocks
                - data_bitmap_blocks >= 1 && (data_total_blocks - data_bitmap_blocks)
                <= data_bitmap_blocks * 4096) by (nonlinear_arith)
                requires
                    data_bitmap_blocks == (data_total_blocks + 4096) / 4097,
                    data_total_blocks >= 2,
            ;
        }
        let data_area_blocks = data_total_blocks - data_bitmap_blocks;
        let data_bitmap = Bitmap::new(
            (1 + inode_bitmap_blocks + inode_area_blocks) as usize,
            data_bitmap_blocks as usize,
        );
        let mut cache = BlockCacheManager::new(device);
        // zero the whole device
        let zeros: Vec<u8> = vec![0u8; BLOCK_SZ];
        let mut i: u32 = 0;
        while i < total_blocks
            invariant
                cache.wf(),
                cache@.len() == total_blocks,
                zeros@ =~= Seq::new(BLOCK_SZ as nat, |k: int| 0u8),
                i <= total_blocks,
                forall|b: int, k: int|
                    0 <= b < i && 0 <= k < BLOCK_SZ ==> #[trigger] cache@[b][k] == 0,
            decreases total_blocks - i,
        {
            proof {
                cache.lemma_view_wf();
            }
            cache.write_bytes(i as usize, 0, &zeros);
            proof {
                assert forall|b: int, k: int|
                    0 <= b < i + 1 && 0 <= k < BLOCK_SZ implies #[trigger] cache@[b][k] == 0 by {}
            }
            i = i + 1;
        }
        // write the super-block
        let mut super_block = SuperBlock {
            magic: 0,
            total_blocks: 0,
            inode_bitmap_blocks: 0,
            inode_area_blocks: 0,
            data_bitmap_blocks: 0,
            data_area_blocks: 0,
        };
        super_block.initialize(
            total_blocks,
            inode_bitmap_blocks,
            inode_area_blocks,
            data_bitmap_blocks,
            data_area_blocks,
        );
        super_block.write_to(&mut cache);
        let mut efs = EasyFileSystem {
            cache,
            inode_bitmap,
            data_bitmap,
            inode_area_start_block: 1 + inode_bitmap_blocks,
            data_area_start_block: 1 + inode_total_blocks + data_bitmap_blocks,
        };
        proof {
            efs.cache.lemma_view_wf();
            assert(efs.wf()) by (nonlinear_arith)
                requires
                    efs.cache.wf(),
                    efs.cache@.len() == total_blocks,
                    efs.inode_bitmap.start_block_id == 1,
                    efs.inode_bitmap.blocks == inode_bitmap_blocks,
                    efs.data_bitmap.start_block_id == 1 + inode_bitmap_blocks
                        + inode_bitmap_blocks * 1024,
                    efs.data_bitmap.blocks == data_bitmap_blocks,
                    efs.inode_area_start_block == 1 + inode_bitmap_blocks,
                    efs.data_area_start_block == efs.data_bitmap.start_block_id
                        + data_bitmap_blocks,
                    1 <= inode_bitmap_blocks,
                    inode_bitmap_blocks * 4096 <= u32::MAX,
                    total_blocks > 2 + inode_bitmap_blocks + inode_bitmap_blocks * 1024,
                    total_blocks * 4096 <= usize::MAX,
                    1 <= data_bitmap_blocks,
                    data_area_blocks >= 1,
                    data_area_blocks <= data_bitmap_blocks * 4096,
                    data_total_blocks == total_blocks - 1 - inode_bitmap_blocks
                        - inode_bitmap_blocks * 1024,
                    data_area_blocks == data_total_blocks - data_bitmap_blocks,
            ;
            // every bitmap bit is still clear: those blocks are all zero
            assert forall|j: int|
                0 <= j < efs.n_inodes() implies !bit_is_set(efs.cache@, 1, j) by {
                lemma_bit_of_zero_block(efs.cache@, 1, j, efs.inode_bitmap.blocks as int);
            }
            assert forall|j: int|
                0 <= j < efs.data_bitmap.blocks * 4096 implies !bit_is_set(
                efs.cache@,
                efs.data_bitmap.start_block_id as int,
                j,
            ) by {
                lemma_bit_of_zero_block(
                    efs.cache@,
                    efs.data_bitmap.start_block_id as int,
                    j,
                    efs.data_bitmap.blocks as int,
                );
            }
            assert(!efs.inode_allocated(0));
            lemma_free_count_lower(efs.cache@, 1, 0, efs.n_inodes());
        }
        let ghost v_pre_alloc = efs.cache@;
        // the root directory receives inode 0
        let root = efs.alloc_inode();
        proof {
            if root != 0 {
                assert(bit_is_set(v_pre_alloc, 1, 0));
            }
            assert(root == 0);
        }
        let ghost v_a = efs.cache@;
        let (root_inode_block_id, root_inode_offset) = efs.get_disk_inode_pos(root);
        let mut root_inode = crate::layout::read_disk_inode(
            &mut efs.cache,
            root_inode_block_id as usize,
            root_inode_offset,
        );
        root_inode.initialize(0, DiskInodeType::Directory);
        crate::layout::write_disk_inode(
            &mut efs.cache,
            root_inode_block_id as usize,
            root_inode_offset,
            &root_inode,
        );
        let ghost v_w = efs.cache@;
        efs.cache.sync_all();
        proof {
            efs.cache.lemma_view_wf();
            assert(inode_model_at(efs.cache@, efs.inode_area_start_block as int, 0)
                == (InodeModel {
                size: 0,
                direct: Seq::new(8, |i2: int| 0int),
                indirect1: 0,
                indirect2: 0,
                is_dir: true,
                nlink: 1,
                mode: MODE_DIR as int,
                ino: 0,
                dev: 0,
            })) by {
                assert(efs.cache@[root_inode_block_id as int].subrange(
                    root_inode_offset as int,
                    root_inode_offset + DISK_INODE_SZ as int,
                ) =~= v_w[root_inode_block_id as int].subrange(
                    root_inode_offset as int,
                    root_inode_offset + DISK_INODE_SZ as int,
                ));
                assert(root_inode@ =~= (InodeModel {
                    size: 0,
                    direct: Seq::new(8, |i2: int| 0int),
                    indirect1: 0,
                    indirect2: 0,
                    is_dir: true,
                    nlink: 1,
                    mode: MODE_DIR as int,
                    ino: 0,
                    dev: 0,
                }));
            }
            let dbs = efs.data_bitmap.start_block_id as int;
            // the inode write and the flush leave both bitmaps alone
            assert forall|j: int|
                0 <= j < efs.n_inodes() implies #[trigger] bit_is_set(efs.cache@, 1, j)
                == bit_is_set(v_a, 1, j) by {
                assert(0 <= j / 4096 < efs.inode_bitmap.blocks) by (nonlinear_arith)
                    requires
                        0 <= j < efs.inode_bitmap.blocks * 4096,
                ;
                assert(efs.cache@[1 + j / 4096] == v_a[1 + j / 4096]);
            }
            assert forall|j: int|
                0 <= j < efs.data_bitmap.blocks * 4096 implies #[trigger] bit_is_set(
                efs.cache@,
                dbs,
                j,
            ) == bit_is_set(v_pre_alloc, dbs, j) by {
                assert(0 <= j / 4096 < efs.data_bitmap.blocks) by (nonlinear_arith)
                    requires
                        0 <= j < efs.data_bitmap.blocks * 4096,
                ;
                assert(v_a[dbs + j / 4096] == v_pre_alloc[dbs + j / 4096]);
                assert(efs.cache@[dbs + j / 4096] == v_a[dbs + j / 4096]);
            }
            lemma_free_count_full(v_pre_alloc, 1, efs.n_inodes());
            crate::bitmap::lemma_free_count_agree(v_a, efs.cache@, 1, efs.n_inodes());
            lemma_free_count_set(v_pre_alloc, v_a, 1, 0, efs.n_inodes());
            crate::bitmap::lemma_free_count_agree(
                v_pre_alloc,
                efs.cache@,
                dbs,
                efs.data_blocks_avail(),
            );
            lemma_free_count_full(v_pre_alloc, dbs, efs.data_blocks_avail());
        }
        efs
    }

    /// Mount the filesystem on `device`: read and validate the super-block
    /// and rebuild the region boundaries. `None` when the super-block is
    /// not a sound filesystem of this device's size.
    pub fn open(device: BlockDevice) -> (r: Option<EasyFileSystem>)
        requires
            device.wf(),
            1 <= device@.len() <= u32::MAX,
            device@.len() * 4096 <= usize::MAX,
        ensures
            r is Some <==> sb_mountable(device@),
            match r {
                Some(fs) => {
                    &&& fs.wf()
                    &&& fs.cache@ == device@
                    &&& sb_model_of(device@[0]).magic == EFS_MAGIC
                    &&& fs.inode_bitmap.blocks == sb_model_of(device@[0]).inode_bitmap_blocks
                    &&& fs.data_bitmap.blocks == sb_model_of(device@[0]).data_bitmap_blocks
                    &&& fs.inode_area_start_block == 1 + fs.inode_bitmap.blocks
                    &&& fs.data_bitmap.start_block_id == 1 + fs.inode_bitmap.blocks
                        + fs.inode_bitmap.blocks * 1024
                    &&& fs.data_area_start_block == fs.data_bitmap.start_block_id
                        + fs.data_bitmap.blocks
                },
                None => true,
            },
    {
        let mut cache = BlockCacheManager::new(device);
        proof {
            cache.lemma_view_wf();
        }
        let total: u64 = cache.total_blocks() as u64;
        let super_block = SuperBlock::read_from(&mut cache);
        if !super_block.is_valid() {
            return None;
        }
        let ibb: u64 = super_block.inode_bitmap_blocks as u64;
        let dbb: u64 = super_block.data_bitmap_blocks as u64;
        if ibb < 1 || dbb < 1 {
            return None;
        }
        if ibb * 4096 > u32::MAX as u64 {
            return None;
        }
        let inode_area_blocks: u64 = ibb * 1024;
        let data_bitmap_start: u64 = 1 + ibb + inode_area_blocks;
        let data_area_start: u64 = data_bitmap_start + dbb;
        if data_area_start >= total {
            return None;
        }
        if total - data_area_start > dbb * 4096 {
            return None;
        }
        let fs = EasyFileSystem {
            cache,
            inode_bitmap: Bitmap::new(1, ibb as usize),
            data_bitmap: Bitmap::new(data_bitmap_start as usize, dbb as usize),
            inode_area_start_block: (1 + ibb) as u32,
            data_area_start_block: data_area_start as u32,
        };
        proof {
            assert(fs.inode_bitmap.blocks * 4096 <= u32::MAX && fs.inode_bitmap.blocks * 4096
                <= usize::MAX && fs.data_bitmap.blocks * 4096 <= usize::MAX) by (nonlinear_arith)
                requires
                    fs.inode_bitmap.blocks == ibb,
                    fs.data_bitmap.blocks == dbb,
                    ibb * 4096 <= u32::MAX,
                    1 <= dbb,
                    1 + ibb + ibb * 1024 + dbb < total,
                    total <= u32::MAX,
                    total * 4096 <= usize::MAX,
                    dbb * 4096 <= u32::MAX * 4096,
            ;
            assert(fs.wf());
        }
        Some(fs)
    }

    /// Position of inode `inode_id`: its block and the byte offset of its
    /// record inside that block.
    pub fn get_disk_inode_pos(&self, inode_id: u32) -> (r: (u32, usize))
        requires
            self.wf(),
            inode_id < self.n_inodes(),
        ensures
            r.0 == self.inode_area_start_block + inode_id / 4,
            r.1 == (inode_id % 4) * (DISK_INODE_SZ as int),
            self.inode_area_start_block <= r.0 < self.data_bitmap.start_block_id,
            r.1 + DISK_INODE_SZ <= BLOCK_SZ,
    {
        let inodes_per_block = (BLOCK_SZ / DISK_INODE_SZ) as u32;
        proof {
            assert(inode_id / 4 < self.inode_bitmap.blocks * 1024 && (inode_id % 4) * 128 + 128
                <= 512) by (nonlinear_arith)
                requires
                    inode_id < self.inode_bitmap.blocks * 4096,
            ;
        }
        let block_id = self.inode_area_start_block + inode_id / inodes_per_block;
        (block_id, (inode_id % inodes_per_block) as usize * DISK_INODE_SZ)
    }

    /// Device block id of the `data_block_id`-th block of the data area.
    pub fn get_data_block_id(&self, data_block_id: u32) -> (r: u32)
        requires
            self.wf(),
            data_block_id < self.data_blocks_avail(),
        ensures
            r == self.data_area_start_block + data_block_id,
            self.data_area_start_block <= r < self.cache@.len(),
    {
        self.data_area_start_block + data_block_id
    }

    /// Allocate the lowest free inode id and mark it used.
    pub fn alloc_inode(&mut self) -> (r: u32)
        requires
            old(self).wf(),
            old(self).free_inode_bits() > 0,
        ensures
            final(self).wf(),
            final(self).same_layout(old(self)),
            final(self).cache@.len() == old(self).cache@.len(),
            r < old(self).n_inodes(),
            !old(self).inode_allocated(r as int),
            forall|j: int| 0 <= j < r ==> old(self).inode_allocated(j),
            forall|j: int|
                0 <= j < old(self).n_inodes() ==> final(self).inode_allocated(j) == (old(self).inode_allocated(j) || j == r),
            forall|j: int|
                0 <= j < old(self).n_inodes() ==> bit_is_set(final(self).cache@, 1, j) == (
                bit_is_set(old(self).cache@, 1, j) || j == r),
            final(self).free_inode_bits() + 1 == old(self).free_inode_bits(),
            forall|b: int|
                0 <= b < old(self).cache@.len() && !(1 <= b < 1 + old(self).inode_bitmap.blocks)
                    ==> final(self).cache@[b] == old(self).cache@[b],
    {
        proof {
            lemma_free_count_pos(self.cache@, 1, self.n_inodes());
        }
        let ghost v0 = self.cache@;
        let bm = Bitmap::new(self.inode_bitmap.start_block_id, self.inode_bitmap.blocks);
        let r = bm.alloc_bit(&mut self.cache);
        match r {
            Some(bit) => {
                proof {
                    let jf = choose|j: int|
                        0 <= j < self.n_inodes() && !bit_is_set(v0, 1, j);
                    assert(bit <= jf);
                    lemma_free_count_set(v0, self.cache@, 1, bit as int, self.n_inodes());
                }
                bit as u32
            },
            None => {
                proof {
                    let jf = choose|j: int|
                        0 <= j < self.n_inodes() && !bit_is_set(v0, 1, j);
                    assert(bit_is_set(v0, 1, jf));
                    assert(false);
                }
                0
            },
        }
    }

    /// Allocate the lowest free data block and mark it used; the returned
    /// id is a device block id, already offset into the data area.
    pub fn alloc_data(&mut self) -> (r: u32)
        requires
            old(self).wf(),
            old(self).free_data_bits() > 0,
        ensures
            final(self).wf(),
            final(self).same_layout(old(self)),
            final(self).cache@.len() == old(self).cache@.len(),
            old(self).data_area_start_block <= r < old(self).cache@.len(),
            !old(self).data_block_allocated(r as int),
            forall|j: int|
                0 <= j < r - old(self).data_area_start_block ==> bit_is_set(
                    old(self).cache@,
                    old(self).data_bitmap.start_block_id as int,
                    j,
                ),
            forall|b: int|
                old(self).data_area_start_block <= b < old(self).cache@.len() ==> final(self).data_block_allocated(b) == (old(self).data_block_allocated(b) || b == r),
            forall|j: int|
                0 <= j < old(self).data_blocks_avail() ==> bit_is_set(
                    final(self).cache@,
                    old(self).data_bitmap.start_block_id as int,
                    j,
                ) == (bit_is_set(
                    old(self).cache@,
                    old(self).data_bitmap.start_block_id as int,
                    j,
                ) || j == r - old(self).data_area_start_block),
            final(self).free_data_bits() + 1 == old(self).free_data_bits(),
            forall|b: int|
                0 <= b < old(self).cache@.len() && !(old(self).data_bitmap.start_block_id <= b
                    < old(self).data_area_start_block) ==> final(self).cache@[b] == old(self).cache@[b],
    {
        proof {
            lemma_free_count_pos(
                self.cache@,
                self.data_bitmap.start_block_id as int,
                self.data_blocks_avail(),
            );
        }
        let ghost v0 = self.cache@;
        let ghost dstart = self.data_bitmap.start_block_id as int;
        let bm = Bitmap::new(self.data_bitmap.start_block_id, self.data_bitmap.blocks);
        let r = bm.alloc_bit(&mut self.cache);
        match r {
            Some(bit) => {
                proof {
                    let jf = choose|j: int|
                        0 <= j < self.data_blocks_avail() && !bit_is_set(v0, dstart, j);
                    assert(bit <= jf);
                    assert(bit < self.data_blocks_avail());
                    lemma_free_count_set(
                        v0,
                        self.cache@,
                        dstart,
                        bit as int,
                        self.data_blocks_avail(),
                    );
                }
                bit as u32 + self.data_area_start_block
            },
            None => {
                proof {
                    let jf = choose|j: int|
                        0 <= j < self.data_blocks_avail() && !bit_is_set(v0, dstart, j);
                    assert(self.data_blocks_avail() <= self.data_bitmap.blocks * 4096)
                        by (nonlinear_arith)
                        requires
                            self.data_blocks_avail() <= self.data_bitmap.blocks * 4096
                                || self.wf(),
                            self.cache@.len() <= self.data_bitmap.start_block_id
                                + self.data_bitmap.blocks * 4097,
                    ;
                    assert(false);
                }
                0
            },
        }
    }

    /// Free the data block with device id `block_id`: zero its contents and
    /// clear its bitmap bit, which must be set.
    pub fn dealloc_data(&mut self, block_id: u32)
        requires
            old(self).wf(),
            old(self).data_area_start_block <= block_id < old(self).cache@.len(),
            old(self).data_block_allocated(block_id as int),
        ensures
            final(self).wf(),
            final(self).same_layout(old(self)),
            final(self).cache@.len() == old(self).cache@.len(),
            forall|k: int| 0 <= k < BLOCK_SZ ==> final(self).cache@[block_id as int][k] == 0,
            forall|b: int|
                old(self).data_area_start_block <= b < old(self).cache@.len() ==> final(self).data_block_allocated(b) == (old(self).data_block_allocated(b) && b != block_id),
            final(self).free_data_bits() == old(self).free_data_bits() + 1,
            forall|b: int|
                0 <= b < old(self).cache@.len() && b != block_id && !(
                old(self).data_bitmap.start_block_id <= b < old(self).data_area_start_block)
                    ==> final(self).cache@[b] == old(self).cache@[b],
    {
        proof {
            self.cache.lemma_view_wf();
        }
        let ghost v0 = self.cache@;
        let ghost dstart = self.data_bitmap.start_block_id as int;
        let zeros: Vec<u8> = vec![0u8; BLOCK_SZ];
        self.cache.write_bytes(block_id as usize, 0, &zeros);
        let ghost v1 = self.cache@;
        proof {
            assert forall|j: int|
                0 <= j < self.data_bitmap.blocks * 4096 implies bit_is_set(v1, dstart, j)
                == bit_is_set(v0, dstart, j) by {
                assert(0 <= j / 4096 < self.data_bitmap.blocks) by (nonlinear_arith)
                    requires
                        0 <= j < self.data_bitmap.blocks * 4096,
                ;
                assert(v1[dstart + j / 4096] == v0[dstart + j / 4096]);
            }
        }
        let bm = Bitmap::new(self.data_bitmap.start_block_id, self.data_bitmap.blocks);
        let bit = block_id - self.data_area_start_block;
        proof {
            assert(bit < self.data_blocks_avail());
            assert(self.data_blocks_avail() <= self.data_bitmap.blocks * 4096)
                by (nonlinear_arith)
                requires
                    self.cache@.len() <= self.data_bitmap.start_block_id + self.data_bitmap.blocks
                        * 4097,
                    self.data_area_start_block == self.data_bitmap.start_block_id
                        + self.data_bitmap.blocks,
            ;
        }
        bm.dealloc(&mut self.cache, bit as usize);
        proof {
            lemma_free_count_clear(v1, self.cache@, dstart, bit as int, self.data_blocks_avail());
            crate::bitmap::lemma_free_count_agree(v0, v1, dstart, self.data_blocks_avail());
        }
    }
}

impl EasyFileSystem {
    /// Count the free data blocks: the clear bits of the data bitmap that
    /// name real blocks.
    pub fn count_free_data(&mut self) -> (r: u64)
        requires
            old(self).wf(),
        ensures
            final(self).wf(),
            final(self).same_layout(old(self)),
            final(self).cache@ == old(self).cache@,
            r == old(self).free_data_bits(),
    {
        proof {
            self.cache.lemma_view_wf();
        }
        let ghost v0 = self.cache@;
        let dbs = self.data_bitmap.start_block_id;
        let avail: u32 = (self.cache.total_blocks() - self.data_area_start_block as usize) as u32;
        let mut r: u64 = 0;
        let mut j: u32 = 0;
        while j < avail
            invariant
                self.wf(),
                self.cache@ == v0,
                self.same_layout(&*old(self)),
                old(self).cache@ == v0,
                dbs == self.data_bitmap.start_block_id,
                avail == self.data_blocks_avail(),
                j <= avail,
                r == free_count(v0, dbs as int, j as int),
                r <= j,
            decreases avail - j,
        {
            proof {
                self.cache.lemma_view_wf();
                assert(0 <= j / 4096 < self.data_bitmap.blocks && 0 <= (j % 4096) / 8 < 512 && 0
                    <= j % 8 < 8) by (nonlinear_arith)
                    requires
                        0 <= j < self.data_blocks_avail(),
                        self.data_blocks_avail() <= self.data_bitmap.blocks * 4096,
                ;
            }
            let byte = self.cache.read_byte(
                dbs + (j / 4096) as usize,
                ((j % 4096) / 8) as usize,
            );
            let pos = (j % 8) as u8;
            proof {
                crate::bitmap::lemma_shift_test_pub(byte, pos);
            }
            if (byte >> pos) & 1 == 0 {
                r = r + 1;
            }
            j = j + 1;
        }
        r
    }
}

/// A bit of an all-zero block is clear.
proof fn lemma_bit_of_zero_block(v: Seq<Seq<u8>>, start: int, j: int, blocks: int)
    requires
        0 <= j < blocks * 4096,
        forall|k: int| 0 <= k < 512 ==> #[trigger] v[start + j / 4096][k] == 0,
    ensures
        !bit_is_set(v, start, j),
{
    assert(0 <= (j % 4096) / 8 < 512 && 0 <= j % 8 < 8) by (nonlinear_arith)
        requires
            0 <= j,
    ;
    lemma_zero_byte_clear((j % 8) as u8);
}

} // verus!
