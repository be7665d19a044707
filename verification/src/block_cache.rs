//! Fixed-capacity write-back block cache over a block device.
//!
//! The cache is specified through its *virtual disk* view: the device contents
//! overlaid with every resident buffer. Loading, eviction and write-back never
//! change that view; only explicit writes do. Eviction is first-in-first-out:
//! callers hold no handles across operations, so the front entry is always
//! free to leave, and a dirty victim is flushed to the device first.

use vstd::prelude::*;

use crate::block_dev::BlockDevice;
use crate::BLOCK_SZ;

verus! {

/// Number of blocks the cache can hold at once.
pub const BLOCK_CACHE_SIZE: usize = 16;

/// One cached block: its id, its buffered bytes and a dirty flag.
pub struct BlockCache {
    pub block_id: usize,
    pub cache: Vec<u8>,
    pub modified: bool,
}

/// Index of the first entry of `q` caching block `id`, or -1 if none does.
pub open spec fn find_cached(q: Seq<BlockCache>, id: int) -> int
    decreases q.len(),
{
    if q.len() == 0 {
        -1
    } else if q[0].block_id == id {
        0
    } else {
        let r = find_cached(q.drop_first(), id);
        if r < 0 {
            -1
        } else {
            r + 1
        }
    }
}

pub proof fn lemma_find_cached(q: Seq<BlockCache>, id: int)
    ensures
        find_cached(q, id) < 0 ==> forall|i: int|
            0 <= i < q.len() ==> (#[trigger] q[i]).block_id != id,
        find_cached(q, id) >= 0 ==> find_cached(q, id) < q.len() && q[find_cached(
            q,
            id,
        )].block_id == id && forall|i: int|
            0 <= i < find_cached(q, id) ==> (#[trigger] q[i]).block_id != id,
    decreases q.len(),
{
    if q.len() != 0 && q[0].block_id != id {
        lemma_find_cached(q.drop_first(), id);
        let r = find_cached(q.drop_first(), id);
        if r >= 0 {
            assert forall|i: int| 0 <= i < r + 1 implies (#[trigger] q[i]).block_id != id by {
                if i > 0 {
                    assert(q.drop_first()[i - 1] == q[i]);
                }
            }
        } else {
            assert forall|i: int| 0 <= i < q.len() implies (#[trigger] q[i]).block_id != id by {
                if i > 0 {
                    assert(q.drop_first()[i - 1] == q[i]);
                }
            }
        }
    }
}

pub proof fn lemma_find_cached_at(q: Seq<BlockCache>, id: int, r: int)
    requires
        0 <= r < q.len(),
        q[r].block_id == id,
        forall|i: int| 0 <= i < r ==> (#[trigger] q[i]).block_id != id,
    ensures
        find_cached(q, id) == r,
    decreases q.len(),
{
    if r > 0 {
        assert forall|i: int|
            0 <= i < r - 1 implies (#[trigger] q.drop_first()[i]).block_id != id by {
            assert(q.drop_first()[i] == q[i + 1]);
        }
        assert(q.drop_first()[r - 1] == q[r]);
        lemma_find_cached_at(q.drop_first(), id, r - 1);
    }
}

pub proof fn lemma_find_cached_push(q: Seq<BlockCache>, e: BlockCache, id: int)
    ensures
        find_cached(q.push(e), id) == if find_cached(q, id) >= 0 {
            find_cached(q, id)
        } else if e.block_id == id {
            q.len() as int
        } else {
            -1
        },
    decreases q.len(),
{
    lemma_find_cached(q, id);
    if find_cached(q, id) >= 0 {
        let r = find_cached(q, id);
        assert(q.push(e)[r] == q[r]);
        assert forall|i: int| 0 <= i < r implies (#[trigger] q.push(e)[i]).block_id != id by {
            assert(q.push(e)[i] == q[i]);
        }
        lemma_find_cached_at(q.push(e), id, r);
    } else if e.block_id == id {
        assert(q.push(e)[q.len() as int] == e);
        assert forall|i: int|
            0 <= i < q.len() implies (#[trigger] q.push(e)[i]).block_id != id by {
            assert(q.push(e)[i] == q[i]);
        }
        lemma_find_cached_at(q.push(e), id, q.len() as int);
    } else {
        lemma_find_cached(q.push(e), id);
        if find_cached(q.push(e), id) >= 0 {
            let r2 = find_cached(q.push(e), id);
            if r2 < q.len() {
                assert(q.push(e)[r2] == q[r2]);
            } else {
                assert(q.push(e)[r2] == e);
            }
        }
    }
}

/// One cached entry is sound: a full buffer for a real block, and a clean
/// buffer agrees with the device.
pub open spec fn entry_wf(e: BlockCache, dev: Seq<Seq<u8>>) -> bool {
    &&& e.cache@.len() == BLOCK_SZ
    &&& (e.block_id as int) < dev.len()
    &&& (!e.modified ==> e.cache@ == dev[e.block_id as int])
}

/// The block cache manager: the resident entries, oldest first, and the
/// device they buffer.
pub struct BlockCacheManager {
    pub queue: Vec<BlockCache>,
    pub device: BlockDevice,
}

impl View for BlockCacheManager {
    type V = Seq<Seq<u8>>;

    /// The virtual disk: the device contents overlaid with every resident
    /// buffer. This is the state all filesystem contracts speak of.
    open spec fn view(&self) -> Seq<Seq<u8>> {
        Seq::new(
            self.device@.len(),
            |b: int|
                {
                    let r = find_cached(self.queue@, b);
                    if r >= 0 {
                        self.queue@[r].cache@
                    } else {
                        self.device@[b]
                    }
                },
        )
    }
}

impl BlockCacheManager {
    pub open spec fn wf(&self) -> bool {
        &&& self.device.wf()
        &&& self.queue@.len() <= BLOCK_CACHE_SIZE
        &&& forall|i: int|
            0 <= i < self.queue@.len() ==> entry_wf(#[trigger] self.queue@[i], self.device@)
        &&& forall|i: int, j: int|
            0 <= i < j < self.queue@.len() ==> self.queue@[i].block_id != self.queue@[j].block_id
    }

    /// The raw device contents, with no cache overlay.
    pub open spec fn disk(&self) -> Seq<Seq<u8>> {
        self.device@
    }

    /// Whether block `b` is resident.
    pub open spec fn spec_is_cached(&self, b: int) -> bool {
        find_cached(self.queue@, b) >= 0
    }

    /// The resident block ids, oldest first.
    pub open spec fn cached_ids(&self) -> Seq<int> {
        self.queue@.map_values(|e: BlockCache| e.block_id as int)
    }

    pub proof fn lemma_view_wf(&self)
        requires
            self.wf(),
        ensures
            self@.len() == self.disk().len(),
            forall|b: int| 0 <= b < self@.len() ==> (#[trigger] self@[b]).len() == BLOCK_SZ,
            forall|b: int|
                0 <= b < self@.len() && !self.spec_is_cached(b) ==> self@[b] == self.disk()[b],
    {
        assert forall|b: int|
            0 <= b < self@.len() implies (#[trigger] self@[b]).len() == BLOCK_SZ by {
            lemma_find_cached(self.queue@, b);
        }
    }

    /// A cache over `device` with nothing resident.
    pub fn new(device: BlockDevice) -> (m: Self)
        requires
            device.wf(),
        ensures
            m.wf(),
            m@ == device@,
            m.cached_ids() == Seq::<int>::empty(),
    {
        let m = BlockCacheManager { queue: Vec::new(), device };
        proof {
            assert(m@ =~= m.device@);
            assert(m.cached_ids() =~= Seq::<int>::empty());
        }
        m
    }

    /// Number of blocks of the underlying device.
    pub fn total_blocks(&self) -> (r: usize)
        ensures
            r == self@.len(),
    {
        self.device.total_blocks()
    }

    /// Number of resident entries.
    pub fn cached_count(&self) -> (r: usize)
        ensures
            r == self.cached_ids().len(),
    {
        self.queue.len()
    }

    /// Whether block `block_id` is resident.
    pub fn is_cached(&self, block_id: usize) -> (r: bool)
        ensures
            r == self.spec_is_cached(block_id as int),
    {
        let mut i: usize = 0;
        while i < self.queue.len()
            invariant
                i <= self.queue@.len(),
                forall|k: int| 0 <= k < i ==> (#[trigger] self.queue@[k]).block_id != block_id,
            decreases self.queue@.len() - i,
        {
            if self.queue[i].block_id == block_id {
                proof {
                    lemma_find_cached_at(self.queue@, block_id as int, i as int);
                }
                return true;
            }
            i = i + 1;
        }
        proof {
            lemma_find_cached(self.queue@, block_id as int);
        }
        false
    }

    /// The raw device bytes of block `block_id`, bypassing the cache.
    pub fn disk_block(&self, block_id: usize) -> (r: Vec<u8>)
        requires
            self.wf(),
            block_id < self.disk().len(),
        ensures
            r@ == self.disk()[block_id as int],
    {
        let mut buf: Vec<u8> = Vec::new();
        self.device.read_block(block_id, &mut buf);
        buf
    }

    /// Index in the queue of the entry caching `block_id`, if it is resident.
    fn find_idx(&self, block_id: usize) -> (r: Option<usize>)
        ensures
            match r {
                Some(i) => i < self.queue@.len() && self.queue@[i as int].block_id == block_id
                    && find_cached(self.queue@, block_id as int) == i as int,
                None => find_cached(self.queue@, block_id as int) < 0,
            },
    {
        let mut i: usize = 0;
        while i < self.queue.len()
            invariant
                i <= self.queue@.len(),
                forall|k: int| 0 <= k < i ==> (#[trigger] self.queue@[k]).block_id != block_id,
            decreases self.queue@.len() - i,
        {
            if self.queue[i].block_id == block_id {
                proof {
                    lemma_find_cached_at(self.queue@, block_id as int, i as int);
                }
                return Some(i);
            }
            i = i + 1;
        }
        proof {
            lemma_find_cached(self.queue@, block_id as int);
        }
        None
    }

    /// Make block `block_id` resident and return its index in the queue,
    /// loading it from the device on a miss and evicting the oldest entry
    /// (flushing it if dirty) when the cache is full.
    pub fn get_block_cache(&mut self, block_id: usize) -> (idx: usize)
        requires
            old(self).wf(),
            block_id < old(self)@.len(),
        ensures
            final(self).wf(),
            final(self)@ == old(self)@,
            idx < final(self).queue@.len(),
            final(self).queue@[idx as int].block_id == block_id,
            find_cached(final(self).queue@, block_id as int) == idx as int,
            final(self).cached_ids() == if old(self).spec_is_cached(block_id as int) {
                old(self).cached_ids()
            } else if old(self).cached_ids().len() < BLOCK_CACHE_SIZE {
                old(self).cached_ids().push(block_id as int)
            } else {
                old(self).cached_ids().drop_first().push(block_id as int)
            },
    {
        let ghost q0 = self.queue@;
        if let Some(i) = self.find_idx(block_id) {
            return i;
        }
        proof {
            lemma_find_cached(self.queue@, block_id as int);
        }
        // miss: evict the oldest entry if the cache is full
        if self.queue.len() == BLOCK_CACHE_SIZE {
            let victim = self.queue.remove(0);
            if victim.modified {
                self.device.write_block(victim.block_id, &victim.cache);
            }
            proof {
                assert(self.queue@ =~= q0.drop_first());
                assert(entry_wf(q0[0], old(self).device@));
                assert forall|k: int|
                    0 <= k < self.queue@.len() implies entry_wf(
                    #[trigger] self.queue@[k],
                    self.device@,
                ) by {
                    assert(self.queue@[k] == q0[k + 1]);
                    assert(entry_wf(q0[k + 1], old(self).device@));
                    assert(q0[k + 1].block_id != victim.block_id);
                }
                assert forall|k: int, j: int|
                    0 <= k < j < self.queue@.len() implies self.queue@[k].block_id
                    != self.queue@[j].block_id by {
                    assert(self.queue@[k] == q0[k + 1]);
                    assert(self.queue@[j] == q0[j + 1]);
                }
                assert(self.wf());
                assert forall|b: int| 0 <= b < self@.len() implies self@[b] == old(self)@[b] by {
                    lemma_find_cached(q0, b);
                    lemma_find_cached(self.queue@, b);
                    if b == victim.block_id {
                        lemma_find_cached_at(q0, b, 0);
                        assert(find_cached(self.queue@, b) < 0);
                    } else {
                        if find_cached(q0, b) >= 0 {
                            let r = find_cached(q0, b);
                            assert(q0[r].block_id == b);
                            assert(r != 0);
                            assert(self.queue@[r - 1] == q0[r]);
                            assert forall|k: int|
                                0 <= k < r - 1 implies (#[trigger] self.queue@[k]).block_id
                                != b by {
                                assert(self.queue@[k] == q0[k + 1]);
                            }
                            lemma_find_cached_at(self.queue@, b, r - 1);
                        } else {
                            assert(find_cached(self.queue@, b) < 0) by {
                                if find_cached(self.queue@, b) >= 0 {
                                    let r2 = find_cached(self.queue@, b);
                                    assert(self.queue@[r2].block_id == b);
                                    assert(q0[r2 + 1].block_id == b);
                                }
                            }
                        }
                    }
                }
                assert(self@ =~= old(self)@);
            }
        }
        let ghost q1 = self.queue@;
        let ghost dev1 = self.device@;
        let ghost pre = *self;
        // load the block from the device
        let mut buf: Vec<u8> = Vec::new();
        self.device.read_block(block_id, &mut buf);
        let e = BlockCache { block_id, cache: buf, modified: false };
        let idx = self.queue.len();
        self.queue.push(e);
        proof {
            assert(self.queue@ =~= q1.push(e));
            lemma_find_cached(q1, block_id as int);
            assert forall|k: int|
                0 <= k < self.queue@.len() implies entry_wf(
                #[trigger] self.queue@[k],
                self.device@,
            ) by {
                if k < q1.len() {
                    assert(self.queue@[k] == q1[k]);
                } else {
                    assert(self.queue@[k] == e);
                }
            }
            assert forall|k: int, j: int|
                0 <= k < j < self.queue@.len() implies self.queue@[k].block_id
                != self.queue@[j].block_id by {
                if j < q1.len() {
                    assert(self.queue@[k] == q1[k] && self.queue@[j] == q1[j]);
                } else {
                    assert(self.queue@[j] == e);
                    if k < q1.len() {
                        assert(self.queue@[k] == q1[k]);
                    }
                }
            }
            assert(self.wf());
            lemma_find_cached_push(q1, e, block_id as int);
            assert forall|b: int| 0 <= b < self@.len() implies self@[b] == pre@[b] by {
                lemma_find_cached_push(q1, e, b);
                lemma_find_cached(q1, b);
                if b == block_id {
                    assert(find_cached(q1, b) < 0);
                    assert(self.queue@[q1.len() as int] == e);
                } else {
                    if find_cached(q1, b) >= 0 {
                        assert(self.queue@[find_cached(q1, b)] == q1[find_cached(q1, b)]);
                    }
                }
            }
            assert(self@ =~= pre@);
            assert(self.cached_ids() =~= pre.cached_ids().push(block_id as int));
            if !old(self).spec_is_cached(block_id as int) && old(self).cached_ids().len()
                >= BLOCK_CACHE_SIZE {
                assert(pre.cached_ids() =~= old(self).cached_ids().drop_first());
                assert(self.cached_ids() =~= old(self).cached_ids().drop_first().push(
                    block_id as int,
                ));
            }
        }
        idx
    }

    /// Read `len` bytes of block `block_id` starting at `offset`.
    pub fn read_bytes(&mut self, block_id: usize, offset: usize, len: usize) -> (r: Vec<u8>)
        requires
            old(self).wf(),
            block_id < old(self)@.len(),
            offset + len <= BLOCK_SZ,
        ensures
            final(self).wf(),
            final(self)@ == old(self)@,
            r@ == old(self)@[block_id as int].subrange(offset as int, offset + len),
    {
        proof {
            self.lemma_view_wf();
        }
        let idx = self.get_block_cache(block_id);
        let mut r: Vec<u8> = Vec::new();
        let mut k: usize = 0;
        while k < len
            invariant
                self.wf(),
                k <= len,
                offset + len <= BLOCK_SZ,
                idx < self.queue@.len(),
                self.queue@[idx as int].cache@.len() == BLOCK_SZ,
                r@ =~= self.queue@[idx as int].cache@.subrange(offset as int, offset + k),
            decreases len - k,
        {
            r.push(self.queue[idx].cache[offset + k]);
            k = k + 1;
        }
        proof {
            assert(self@[block_id as int] == self.queue@[idx as int].cache@);
            assert(r@ =~= self@[block_id as int].subrange(offset as int, offset + len));
        }
        r
    }

    /// Read the byte of block `block_id` at `offset`.
    pub fn read_byte(&mut self, block_id: usize, offset: usize) -> (r: u8)
        requires
            old(self).wf(),
            block_id < old(self)@.len(),
            offset < BLOCK_SZ,
        ensures
            final(self).wf(),
            final(self)@ == old(self)@,
            r == old(self)@[block_id as int][offset as int],
    {
        let idx = self.get_block_cache(block_id);
        proof {
            assert(self@[block_id as int] == self.queue@[idx as int].cache@);
        }
        self.queue[idx].cache[offset]
    }

    /// Overwrite the bytes of block `block_id` at `offset..offset + data.len()`
    /// with `data`, marking the block dirty.
    pub fn write_bytes(&mut self, block_id: usize, offset: usize, data: &Vec<u8>)
        requires
            old(self).wf(),
            block_id < old(self)@.len(),
            offset + data@.len() <= BLOCK_SZ,
        ensures
            final(self).wf(),
            final(self)@ == old(self)@.update(
                block_id as int,
                crate::splice_bytes(old(self)@[block_id as int], offset as int, data@),
            ),
    {
        proof {
            self.lemma_view_wf();
        }
        let idx = self.get_block_cache(block_id);
        let ghost mid = *self;
        let mut entry = self.queue.remove(idx);
        let mut k: usize = 0;
        while k < data.len()
            invariant
                k <= data@.len(),
                offset + data@.len() <= BLOCK_SZ,
                entry.cache@.len() == BLOCK_SZ,
                entry.block_id == block_id,
                entry.cache@ =~= crate::splice_bytes(
                    mid.queue@[idx as int].cache@,
                    offset as int,
                    data@.subrange(0, k as int),
                ),
            decreases data@.len() - k,
        {
            entry.cache[offset + k] = data[k];
            k = k + 1;
            proof {
                assert(entry.cache@ =~= crate::splice_bytes(
                    mid.queue@[idx as int].cache@,
                    offset as int,
                    data@.subrange(0, k as int),
                ));
            }
        }
        entry.modified = true;
        self.queue.insert(idx, entry);
        proof {
            assert(data@.subrange(0, data@.len() as int) =~= data@);
            assert(self.queue@ =~= mid.queue@.update(idx as int, entry));
            assert forall|k2: int|
                0 <= k2 < self.queue@.len() implies entry_wf(
                #[trigger] self.queue@[k2],
                self.device@,
            ) by {
                if k2 != idx {
                    assert(self.queue@[k2] == mid.queue@[k2]);
                }
            }
            assert forall|k2: int, j2: int|
                0 <= k2 < j2 < self.queue@.len() implies self.queue@[k2].block_id
                != self.queue@[j2].block_id by {
                assert(self.queue@[k2] == mid.queue@.update(idx as int, entry)[k2]);
                assert(self.queue@[j2] == mid.queue@.update(idx as int, entry)[j2]);
                if k2 != idx && j2 != idx {
                    assert(mid.queue@[k2].block_id != mid.queue@[j2].block_id);
                }
            }
            assert(self.wf());
            mid.lemma_view_wf();
            assert forall|b: int|
                0 <= b < self@.len() implies self@[b] == mid@.update(
                block_id as int,
                crate::splice_bytes(mid@[block_id as int], offset as int, data@),
            )[b] by {
                lemma_find_cached(mid.queue@, b);
                if b == block_id {
                    lemma_find_cached_at(self.queue@, b, idx as int);
                    assert(mid@[b] == mid.queue@[idx as int].cache@);
                } else {
                    let r = find_cached(mid.queue@, b);
                    if r >= 0 {
                        assert(self.queue@[r] == mid.queue@[r]);
                        assert forall|k3: int|
                            0 <= k3 < r implies (#[trigger] self.queue@[k3]).block_id != b by {
                            if k3 == idx {
                                assert(self.queue@[k3].block_id == block_id);
                            } else {
                                assert(self.queue@[k3] == mid.queue@[k3]);
                            }
                        }
                        lemma_find_cached_at(self.queue@, b, r);
                    } else {
                        lemma_find_cached(self.queue@, b);
                        if find_cached(self.queue@, b) >= 0 {
                            let r2 = find_cached(self.queue@, b);
                            assert(self.queue@[r2].block_id == b);
                            if r2 != idx {
                                assert(self.queue@[r2] == mid.queue@[r2]);
                            }
                        }
                    }
                }
            }
            assert(self@ =~= mid@.update(
                block_id as int,
                crate::splice_bytes(mid@[block_id as int], offset as int, data@),
            ));
        }
    }

    /// Overwrite the byte of block `block_id` at `offset` with `v`.
    pub fn write_byte(&mut self, block_id: usize, offset: usize, v: u8)
        requires
            old(self).wf(),
            block_id < old(self)@.len(),
            offset < BLOCK_SZ,
        ensures
            final(self).wf(),
            final(self)@ == old(self)@.update(
                block_id as int,
                old(self)@[block_id as int].update(offset as int, v),
            ),
    {
        proof {
            self.lemma_view_wf();
        }
        let data: Vec<u8> = vec![v];
        self.write_bytes(block_id, offset, &data);
        proof {
            assert(crate::splice_bytes(old(self)@[block_id as int], offset as int, data@) =~= old(
                self,
            )@[block_id as int].update(offset as int, v));
            assert(self@ =~= old(self)@.update(
                block_id as int,
                old(self)@[block_id as int].update(offset as int, v),
            ));
        }
    }

    /// Read the little-endian `u32` of block `block_id` at `offset`.
    pub fn read_u32(&mut self, block_id: usize, offset: usize) -> (r: u32)
        requires
            old(self).wf(),
            block_id < old(self)@.len(),
            offset + 4 <= BLOCK_SZ,
        ensures
            final(self).wf(),
            final(self)@ == old(self)@,
            r == crate::le32_at(old(self)@[block_id as int], offset as int),
    {
        let b0 = self.read_byte(block_id, offset);
        let b1 = self.read_byte(block_id, offset + 1);
        let b2 = self.read_byte(block_id, offset + 2);
        let b3 = self.read_byte(block_id, offset + 3);
        crate::u32_from_le(b0, b1, b2, b3)
    }

    /// Overwrite the little-endian `u32` of block `block_id` at `offset`.
    pub fn write_u32(&mut self, block_id: usize, offset: usize, x: u32)
        requires
            old(self).wf(),
            block_id < old(self)@.len(),
            offset + 4 <= BLOCK_SZ,
        ensures
            final(self).wf(),
            final(self)@.len() == old(self)@.len(),
            final(self)@[block_id as int].len() == BLOCK_SZ,
            crate::le32_at(final(self)@[block_id as int], offset as int) == x,
            forall|k: int|
                0 <= k < BLOCK_SZ && !(offset <= k < offset + 4)
                    ==> final(self)@[block_id as int][k] == old(self)@[block_id as int][k],
            forall|b: int|
                0 <= b < old(self)@.len() && b != block_id ==> final(self)@[b] == old(self)@[b],
    {
        proof {
            self.lemma_view_wf();
        }
        let bytes = crate::u32_to_le(x);
        let data: Vec<u8> = vec![bytes.0, bytes.1, bytes.2, bytes.3];
        self.write_bytes(block_id, offset, &data);
        proof {
            self.lemma_view_wf();
            assert(self@[block_id as int][offset as int] == bytes.0);
            assert(self@[block_id as int][offset + 1] == bytes.1);
            assert(self@[block_id as int][offset + 2] == bytes.2);
            assert(self@[block_id as int][offset + 3] == bytes.3);
        }
    }

    /// Give the underlying device back, dropping the cache; flush first
    /// when the buffers matter.
    pub fn into_device(self) -> (d: BlockDevice)
        requires
            self.wf(),
        ensures
            d.wf(),
            d@ == self.disk(),
    {
        let BlockCacheManager { queue: _, device } = self;
        device
    }

    /// Write every dirty resident buffer back to the device.
    pub fn sync_all(&mut self)
        requires
            old(self).wf(),
        ensures
            final(self).wf(),
            final(self)@ == old(self)@,
            final(self).disk() == final(self)@,
            final(self).cached_ids() == old(self).cached_ids(),
    {
        let ghost q0 = self.queue@;
        let mut i: usize = 0;
        while i < self.queue.len()
            invariant
                self.wf(),
                i <= self.queue@.len(),
                self.queue@.len() == q0.len(),
                forall|k: int|
                    0 <= k < q0.len() ==> (#[trigger] self.queue@[k]).block_id == q0[k].block_id
                        && self.queue@[k].cache@ == q0[k].cache@,
                forall|k: int| 0 <= k < i ==> !(#[trigger] self.queue@[k]).modified,
                self@ == old(self)@,
            decreases self.queue@.len() - i,
        {
            let ghost pre = *self;
            if self.queue[i].modified {
                let mut entry = self.queue.remove(i);
                self.device.write_block(entry.block_id, &entry.cache);
                entry.modified = false;
                self.queue.insert(i, entry);
                proof {
                    assert(self.queue@ =~= pre.queue@.update(i as int, entry));
                    assert forall|k: int|
                        0 <= k < self.queue@.len() implies entry_wf(
                        #[trigger] self.queue@[k],
                        self.device@,
                    ) by {
                        if k != i {
                            assert(self.queue@[k] == pre.queue@[k]);
                            assert(entry_wf(pre.queue@[k], pre.device@));
                            assert(pre.queue@[k].block_id != entry.block_id);
                        }
                    }
                    assert forall|k: int, j: int|
                        0 <= k < j < self.queue@.len() implies self.queue@[k].block_id
                        != self.queue@[j].block_id by {
                        if k != i {
                            assert(self.queue@[k] == pre.queue@[k]);
                        }
                        if j != i {
                            assert(self.queue@[j] == pre.queue@[j]);
                        }
                    }
                    assert(self.wf());
                    assert forall|b: int| 0 <= b < self@.len() implies self@[b] == pre@[b] by {
                        assert forall|k: int|
                            0 <= k < self.queue@.len() implies (#[trigger] self.queue@[k]).block_id
                            == pre.queue@[k].block_id && self.queue@[k].cache@
                            == pre.queue@[k].cache@ by {
                            if k != i {
                                assert(self.queue@[k] == pre.queue@[k]);
                            }
                        }
                        lemma_find_same_ids(self.queue@, pre.queue@, b);
                        lemma_find_cached(pre.queue@, b);
                        if find_cached(pre.queue@, b) < 0 {
                            assert(b != entry.block_id) by {
                                lemma_find_cached_at(pre.queue@, entry.block_id as int, i as int);
                            }
                        }
                    }
                    assert(self@ =~= pre@);
                }
            }
            i = i + 1;
        }
        proof {
            self.lemma_view_wf();
            assert forall|b: int| 0 <= b < self@.len() implies self.disk()[b] == self@[b] by {
                lemma_find_cached(self.queue@, b);
                let r = find_cached(self.queue@, b);
                if r >= 0 {
                    assert(!self.queue@[r].modified);
                }
            }
            assert(self.disk() =~= self@);
            assert(self.cached_ids() =~= old(self).cached_ids());
        }
    }
}

/// Two queues whose entries cache the same blocks with the same bytes give
/// the same lookup result.
proof fn lemma_find_same_ids(q1: Seq<BlockCache>, q2: Seq<BlockCache>, b: int)
    requires
        q1.len() == q2.len(),
        forall|k: int|
            0 <= k < q1.len() ==> (#[trigger] q1[k]).block_id == q2[k].block_id,
    ensures
        find_cached(q1, b) == find_cached(q2, b),
    decreases q1.len(),
{
    if q1.len() > 0 {
        assert forall|k: int|
            0 <= k < q1.drop_first().len() implies (#[trigger] q1.drop_first()[k]).block_id
            == q2.drop_first()[k].block_id by {
            assert(q1.drop_first()[k] == q1[k + 1]);
            assert(q2.drop_first()[k] == q2[k + 1]);
        }
        lemma_find_same_ids(q1.drop_first(), q2.drop_first(), b);
    }
}

} // verus!
