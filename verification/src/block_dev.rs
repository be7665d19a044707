//! In-memory block device: the storage capability that the filesystem core
//! consumes. Blocks are fixed-size byte vectors addressed by block id.

use vstd::prelude::*;

use crate::BLOCK_SZ;

verus! {

/// A block device holding `total_blocks` blocks of `BLOCK_SZ` bytes each.
pub struct BlockDevice {
    blocks: Vec<Vec<u8>>,
}

impl View for BlockDevice {
    type V = Seq<Seq<u8>>;

    closed spec fn view(&self) -> Seq<Seq<u8>> {
        self.blocks@.map_values(|b: Vec<u8>| b@)
    }
}

impl BlockDevice {
    /// Every block holds exactly `BLOCK_SZ` bytes.
    pub open spec fn wf(&self) -> bool {
        forall|i: int| 0 <= i < self@.len() ==> (#[trigger] self@[i]).len() == BLOCK_SZ
    }

    /// A device of `total_blocks` zeroed blocks.
    pub fn new(total_blocks: usize) -> (d: Self)
        ensures
            d.wf(),
            d@.len() == total_blocks,
            forall|i: int, j: int|
                0 <= i < total_blocks && 0 <= j < BLOCK_SZ ==> d@[i][j] == 0,
    {
        let mut blocks: Vec<Vec<u8>> = Vec::new();
        let mut i: usize = 0;
        while i < total_blocks
            invariant
                i <= total_blocks,
                blocks@.len() == i,
                forall|k: int|
                    0 <= k < i ==> (#[trigger] blocks@[k])@ =~= Seq::new(
                        BLOCK_SZ as nat,
                        |j: int| 0u8,
                    ),
            decreases total_blocks - i,
        {
            let block: Vec<u8> = vec![0u8; BLOCK_SZ];
            blocks.push(block);
            i = i + 1;
        }
        let d = BlockDevice { blocks };
        assert forall|i2: int, j: int|
            0 <= i2 < total_blocks && 0 <= j < BLOCK_SZ implies d@[i2][j] == 0 by {
            assert(d@[i2] == blocks@[i2]@);
        }
        assert forall|i2: int| 0 <= i2 < d@.len() implies (#[trigger] d@[i2]).len() == BLOCK_SZ by {
            assert(d@[i2] == blocks@[i2]@);
        }
        d
    }

    /// Number of blocks the device holds.
    pub fn total_blocks(&self) -> (r: usize)
        ensures
            r == self@.len(),
    {
        self.blocks.len()
    }

    /// Copy the block `block_id` into `buf`, replacing its contents.
    pub fn read_block(&self, block_id: usize, buf: &mut Vec<u8>)
        requires
            self.wf(),
            block_id < self@.len(),
        ensures
            final(buf)@ == self@[block_id as int],
    {
        proof {
            assert(self@[block_id as int] == self.blocks@[block_id as int]@);
        }
        buf.clear();
        let src: &Vec<u8> = &self.blocks[block_id];
        let mut j: usize = 0;
        while j < src.len()
            invariant
                j <= src.len(),
                buf@ =~= src@.subrange(0, j as int),
            decreases src.len() - j,
        {
            buf.push(src[j]);
            j = j + 1;
        }
        assert(buf@ =~= src@);
    }

    /// Overwrite block `block_id` with the `BLOCK_SZ` bytes of `buf`.
    pub fn write_block(&mut self, block_id: usize, buf: &Vec<u8>)
        requires
            old(self).wf(),
            block_id < old(self)@.len(),
            buf@.len() == BLOCK_SZ,
        ensures
            final(self).wf(),
            final(self)@ =~= old(self)@.update(block_id as int, buf@),
    {
        let mut copy: Vec<u8> = Vec::new();
        let mut j: usize = 0;
        while j < buf.len()
            invariant
                j <= buf.len(),
                copy@ =~= buf@.subrange(0, j as int),
            decreases buf.len() - j,
        {
            copy.push(buf[j]);
            j = j + 1;
        }
        assert(copy@ =~= buf@);
        self.blocks[block_id] = copy;
        assert(self@ =~= old(self)@.update(block_id as int, buf@));
    }
}

} // verus!
