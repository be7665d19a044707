//! The virtual-filesystem layer: inode handles over the flat inode area,
//! and the directory operations `find`, `create`, `linkat`, `unlinkat`,
//! `ls`, `read_at`, `write_at`, `clear` and `stat` on them.
//!
//! A handle only records where its disk inode lives; every operation takes
//! the filesystem instance explicitly.

use vstd::prelude::*;

use crate::bitmap::bit_is_set;
use crate::block_cache::BlockCacheManager;
use crate::efs::EasyFileSystem;
use crate::layout::{
    byte_at, data_blocks_of, dirent_model_of, inode_model_at, name_of, total_blocks_of, tree_ids,
    tree_wf, DirEntModel, DirEntry, DiskInode, DiskInodeType, InodeModel, Stat, StatMode,
    DIRENT_SZ, DISK_INODE_SZ, MAX_FILE_SIZE, NAME_LENGTH_LIMIT,
};
use crate::BLOCK_SZ;

verus! {

/// The `i`-th directory entry of directory `d` in disk view `v`.
#[verifier::opaque]
pub open spec fn dirent_at(v: Seq<Seq<u8>>, d: InodeModel, i: int) -> DirEntModel {
    DirEntModel {
        name: Seq::new(28, |k: int| byte_at(v, d, 32 * i + k)),
        inode_id: crate::le32(
            byte_at(v, d, 32 * i + 28),
            byte_at(v, d, 32 * i + 29),
            byte_at(v, d, 32 * i + 30),
            byte_at(v, d, 32 * i + 31),
        ),
    }
}

/// Number of entry slots of directory `d`, tombstones included.
pub open spec fn dir_count(d: InodeModel) -> int {
    d.size / 32
}

/// Whether some slot of directory `d` carries `name`.
pub open spec fn dir_has_name(v: Seq<Seq<u8>>, d: InodeModel, name: Seq<u8>) -> bool {
    exists|i: int| 0 <= i < dir_count(d) && name_of(#[trigger] dirent_at(v, d, i).name) == name
}

/// Slot `i` is the first slot of directory `d` carrying `name`.
pub open spec fn dir_first_match(v: Seq<Seq<u8>>, d: InodeModel, name: Seq<u8>, i: int) -> bool {
    &&& 0 <= i < dir_count(d)
    &&& name_of(dirent_at(v, d, i).name) == name
    &&& forall|j: int| 0 <= j < i ==> name_of(#[trigger] dirent_at(v, d, j).name) != name
}

/// The names of the live entries among the first `n` slots of directory
/// `d`, in slot order; tombstones (empty names) are left out.
pub open spec fn live_names(v: Seq<Seq<u8>>, d: InodeModel, n: int) -> Seq<Seq<u8>>
    decreases n,
{
    if n <= 0 {
        Seq::empty()
    } else {
        let prev = live_names(v, d, n - 1);
        let nm = name_of(dirent_at(v, d, n - 1).name);
        if nm.len() > 0 {
            prev.push(nm)
        } else {
            prev
        }
    }
}

/// Every block reachable from inode `d` lies in the data area and is marked
/// allocated in the data bitmap.
pub open spec fn inode_blocks_ok(fs: EasyFileSystem, d: InodeModel) -> bool {
    forall|t: int|
        0 <= t < tree_ids(fs.cache@, d).len() ==> {
            let b = #[trigger] tree_ids(fs.cache@, d)[t];
            &&& fs.data_area_start_block <= b < fs.cache@.len()
            &&& fs.data_block_allocated(b)
        }
}

/// Number of live (non-tombstone) entries among the first `n` slots of
/// directory `d` that name inode `id`.
pub open spec fn name_refs(v: Seq<Seq<u8>>, d: InodeModel, id: int, n: int) -> int
    decreases n,
{
    if n <= 0 {
        0
    } else {
        name_refs(v, d, id, n - 1) + if dirent_at(v, d, n - 1).inode_id == id && name_of(
            dirent_at(v, d, n - 1).name,
        ).len() > 0 {
            1int
        } else {
            0int
        }
    }
}

/// Directories with the same first `n` entries reference every inode
/// equally often there.
pub proof fn lemma_name_refs_agree(
    v1: Seq<Seq<u8>>,
    d1: InodeModel,
    v2: Seq<Seq<u8>>,
    d2: InodeModel,
    id: int,
    n: int,
)
    requires
        forall|i: int| 0 <= i < n ==> #[trigger] dirent_at(v2, d2, i) == dirent_at(v1, d1, i),
    ensures
        name_refs(v2, d2, id, n) == name_refs(v1, d1, id, n),
    decreases n,
{
    if n > 0 {
        lemma_name_refs_agree(v1, d1, v2, d2, id, n - 1);
    }
}

/// Link conservation, one step: an operation that keeps the first `n`
/// entries and appends one live entry naming `id` — exactly what `create`
/// and `linkat` ensure, which also raise the named inode's hard-link count
/// by one — raises `id`'s reference count by one and no other inode's.
pub proof fn lemma_link_conservation_step(
    v1: Seq<Seq<u8>>,
    d1: InodeModel,
    v2: Seq<Seq<u8>>,
    d2: InodeModel,
    id: int,
    n: int,
)
    requires
        0 <= n,
        forall|i: int| 0 <= i < n ==> #[trigger] dirent_at(v2, d2, i) == dirent_at(v1, d1, i),
        dirent_at(v2, d2, n).inode_id == id,
        name_of(dirent_at(v2, d2, n).name).len() > 0,
    ensures
        name_refs(v2, d2, id, n + 1) == name_refs(v1, d1, id, n) + 1,
        forall|id2: int|
            id2 != id ==> #[trigger] name_refs(v2, d2, id2, n + 1) == name_refs(
                v1,
                d1,
                id2,
                n,
            ),
{
    lemma_name_refs_agree(v1, d1, v2, d2, id, n);
    assert forall|id2: int|
        id2 != id implies #[trigger] name_refs(v2, d2, id2, n + 1) == name_refs(
        v1,
        d1,
        id2,
        n,
    ) by {
        lemma_name_refs_agree(v1, d1, v2, d2, id2, n);
    }
}

/// A directory whose record bytes, data area and bitmap marks survive a
/// step — bits may only be set, never cleared — is still a sound
/// directory with the same entries.
proof fn lemma_untouched_dir(a: EasyFileSystem, b: EasyFileSystem, ino: Inode, d: InodeModel)
    requires
        a.wf(),
        b.wf(),
        b.same_layout(&a),
        b.cache@.len() == a.cache@.len(),
        ino.dir_wf(a),
        d == ino.model(a),
        ino.model(b) == d,
        forall|t: int|
            0 <= t < tree_ids(a.cache@, d).len() ==> b.cache@[#[trigger] tree_ids(
                a.cache@,
                d,
            )[t]] == a.cache@[tree_ids(a.cache@, d)[t]],
        forall|t: int|
            0 <= t < tree_ids(a.cache@, d).len() ==> b.data_block_allocated(
                #[trigger] tree_ids(a.cache@, d)[t],
            ),
        bit_is_set(b.cache@, 1, ino.handle_id(a)),
    ensures
        ino.dir_wf(b),
        tree_ids(b.cache@, d) == tree_ids(a.cache@, d),
        forall|i: int|
            0 <= i < dir_count(d) ==> #[trigger] dirent_at(b.cache@, d, i) == dirent_at(
                a.cache@,
                d,
                i,
            ),
{
    let va = a.cache@;
    let vb = b.cache@;
    let n = data_blocks_of(d.size);
    crate::layout::lemma_tree_ids_len_n(va, d, n);
    crate::layout::lemma_tree_ids_index_n(va, d, n);
    if n > 8 {
        assert(tree_ids(va, d)[n] == d.indirect1);
    }
    if n > 136 {
        assert(tree_ids(va, d)[n + 1] == d.indirect2);
    }
    assert forall|k: int|
        0 <= k < crate::layout::ind2_count(n) implies vb[crate::le32_at(
        va[d.indirect2],
        #[trigger] (4 * k),
    )] == va[crate::le32_at(va[d.indirect2], 4 * k)] by {
        assert(tree_ids(va, d)[n + 2 + k] == crate::le32_at(va[d.indirect2], 4 * k));
    }
    crate::layout::lemma_tree_unchanged_n(va, vb, d, n);
    assert(tree_wf(vb, d));
    assert forall|t: int|
        0 <= t < tree_ids(vb, d).len() implies {
        let blk = #[trigger] tree_ids(vb, d)[t];
        &&& b.data_area_start_block <= blk < vb.len()
        &&& b.data_block_allocated(blk)
    } by {
        assert(tree_ids(vb, d)[t] == tree_ids(va, d)[t]);
        assert(a.data_block_allocated(tree_ids(va, d)[t]));
        assert(b.data_block_allocated(tree_ids(va, d)[t]));
    }
    assert forall|p: int| 0 <= p < d.size implies byte_at(vb, d, p) == byte_at(va, d, p) by {
        let pb = p / 512;
        assert(0 <= pb && pb * 512 <= p < (pb + 1) * 512) by (nonlinear_arith)
            requires
                pb == p / 512,
                0 <= p,
        ;
        assert(data_blocks_of(d.size) * 512 >= d.size) by (nonlinear_arith);
        assert(pb < n) by (nonlinear_arith)
            requires
                p < d.size <= n * 512,
                pb * 512 <= p,
        ;
        assert(tree_ids(va, d)[pb] == crate::layout::block_id_spec(va, d, pb));
        assert(a.data_block_allocated(tree_ids(va, d)[pb]));
    }
    assert forall|i: int|
        0 <= i < dir_count(d) implies #[trigger] dirent_at(vb, d, i) == dirent_at(
        va,
        d,
        i,
    ) by {
        reveal(dirent_at);
        assert(dir_count(d) * 32 <= d.size) by (nonlinear_arith)
            requires
                dir_count(d) == d.size / 32,
                0 <= d.size,
        ;
        assert forall|k: int|
            0 <= k < 32 implies #[trigger] byte_at(vb, d, 32 * i + k) == byte_at(
            va,
            d,
            32 * i + k,
        ) by {
            assert(0 <= 32 * i + k < d.size) by (nonlinear_arith)
                requires
                    0 <= i < dir_count(d),
                    0 <= k < 32,
                    dir_count(d) * 32 <= d.size,
                    dir_count(d) == d.size / 32,
            ;
        }
        assert(dirent_at(vb, d, i).name =~= dirent_at(va, d, i).name);
    }
    assert(bit_is_set(vb, 1, ino.handle_id(b)));
}

/// A successful-`create` contract holds just as well against any earlier
/// state with the same disk view and layout.
proof fn lemma_created_ok_stable(
    dir: Inode,
    a: EasyFileSystem,
    b: EasyFileSystem,
    f: EasyFileSystem,
    name: Seq<u8>,
    ino: Inode,
)
    requires
        Inode::created_ok(dir, b, f, name, ino),
        a.cache@ == b.cache@,
        b.same_layout(&a),
    ensures
        Inode::created_ok(dir, a, f, name, ino),
{
    reveal(Inode::created_ok);
    assert(dir.model(a) == dir.model(b));
    assert(a.n_inodes() == b.n_inodes());
    assert(!a.inode_allocated(ino.handle_id(f)));
    assert forall|j: int| 0 <= j < ino.handle_id(f) implies a.inode_allocated(j) by {
        assert(b.inode_allocated(j));
    }
    assert forall|i: int|
        0 <= i < dir_count(dir.model(a)) implies #[trigger] dirent_at(
        f.cache@,
        dir.model(f),
        i,
    ) == dirent_at(a.cache@, dir.model(a), i) by {
        assert(dirent_at(f.cache@, dir.model(f), i) == dirent_at(b.cache@, dir.model(b), i));
        assert(dirent_at(b.cache@, dir.model(b), i) == dirent_at(a.cache@, dir.model(a), i));
    }
    assert(a.free_data_bits() == b.free_data_bits());
    assert forall|bk: int|
        a.data_area_start_block <= bk < a.cache@.len() implies #[trigger] f.data_block_allocated(
        bk,
    ) == (a.data_block_allocated(bk) || tree_ids(f.cache@, dir.model(f)).contains(bk)) by {
        assert(a.data_block_allocated(bk) == b.data_block_allocated(bk));
    }
}

/// Two inode models span the same tree when their size and index fields
/// agree.
pub open spec fn tree_ids_same_fields(v: Seq<Seq<u8>>, a: InodeModel, b: InodeModel) -> bool {
    tree_ids(v, a) == tree_ids(v, b)
}

/// A sound tree stays sound under a change that leaves the size and index
/// fields alone.
proof fn lemma_tree_fields(v: Seq<Seq<u8>>, a: InodeModel, b: InodeModel, fs: EasyFileSystem)
    requires
        b.size == a.size,
        b.direct == a.direct,
        b.indirect1 == a.indirect1,
        b.indirect2 == a.indirect2,
        tree_wf(v, a),
        inode_blocks_ok(fs, a),
        fs.cache@ == v,
    ensures
        tree_ids(v, b) == tree_ids(v, a),
        tree_ids_same_fields(v, a, b),
        tree_wf(v, b),
        inode_blocks_ok(fs, b),
{
    let n = data_blocks_of(a.size);
    assert forall|i: int|
        0 <= i < n implies #[trigger] crate::layout::block_id_spec(v, b, i)
        == crate::layout::block_id_spec(v, a, i) by {}
    assert(crate::layout::data_ids_n(v, b, n) =~= crate::layout::data_ids_n(v, a, n));
    assert(crate::layout::index_ids_n(v, b, n) =~= crate::layout::index_ids_n(v, a, n));
    assert(tree_ids(v, b) == tree_ids(v, a));
}

/// An in-memory inode handle: the disk position of its record.
pub struct Inode {
    pub block_id: usize,
    pub block_offset: usize,
}

impl Inode {
    /// The inode id a handle position stands for.
    pub open spec fn handle_id(&self, fs: EasyFileSystem) -> int {
        (self.block_id - fs.inode_area_start_block) * 4 + self.block_offset / 128
    }

    /// The handle points at a record slot inside the inode area, and that
    /// inode is marked allocated.
    pub open spec fn wf(&self, fs: EasyFileSystem) -> bool {
        &&& fs.inode_area_start_block <= self.block_id < fs.data_bitmap.start_block_id
        &&& self.block_offset % 128 == 0
        &&& self.block_offset + DISK_INODE_SZ <= BLOCK_SZ
        &&& fs.inode_allocated(self.handle_id(fs))
    }

    /// The disk inode the handle points at.
    pub open spec fn model(&self, fs: EasyFileSystem) -> InodeModel {
        inode_model_at(fs.cache@, self.block_id as int, self.block_offset as int)
    }

    /// The handle's record and index tree are sound and all its blocks are
    /// accounted for in the data bitmap.
    pub open spec fn file_wf(&self, fs: EasyFileSystem) -> bool {
        &&& self.wf(fs)
        &&& tree_wf(fs.cache@, self.model(fs))
        &&& inode_blocks_ok(fs, self.model(fs))
    }

    /// The handle is a sound directory: its size is whole entries and every
    /// entry names a real inode slot.
    pub open spec fn dir_wf(&self, fs: EasyFileSystem) -> bool {
        &&& self.file_wf(fs)
        &&& self.model(fs).is_dir
        &&& self.model(fs).size % 32 == 0
        &&& forall|i: int|
            0 <= i < dir_count(self.model(fs)) ==> 0 <= #[trigger] dirent_at(
                fs.cache@,
                self.model(fs),
                i,
            ).inode_id < fs.n_inodes()
    }

    /// A handle from a record position.
    pub fn new(block_id: u32, block_offset: usize) -> (r: Inode)
        ensures
            r.block_id == block_id,
            r.block_offset == block_offset,
    {
        Inode { block_id: block_id as usize, block_offset }
    }

    /// Decode the disk inode the handle points at.
    pub fn read_disk_inode(&self, fs: &mut EasyFileSystem) -> (r: DiskInode)
        requires
            old(fs).wf(),
            old(fs).inode_area_start_block <= self.block_id
                < old(fs).data_bitmap.start_block_id,
            self.block_offset + DISK_INODE_SZ <= BLOCK_SZ,
        ensures
            final(fs).wf(),
            final(fs).cache@ == old(fs).cache@,
            final(fs).same_layout(old(fs)),
            r.wf(),
            r@ == self.model(*old(fs)),
    {
        crate::layout::read_disk_inode(&mut fs.cache, self.block_id, self.block_offset)
    }

    /// Encode `d` into the record the handle points at.
    fn write_disk_inode(&self, d: &DiskInode, fs: &mut EasyFileSystem)
        requires
            old(fs).wf(),
            d.wf(),
            old(fs).inode_area_start_block <= self.block_id
                < old(fs).data_bitmap.start_block_id,
            self.block_offset + DISK_INODE_SZ <= BLOCK_SZ,
        ensures
            final(fs).wf(),
            final(fs).same_layout(old(fs)),
            final(fs).cache@.len() == old(fs).cache@.len(),
            self.model(*final(fs)) == d@,
            forall|k: int|
                0 <= k < BLOCK_SZ && !(self.block_offset <= k < self.block_offset
                    + DISK_INODE_SZ) ==> final(fs).cache@[self.block_id as int][k] == old(fs).cache@[self.block_id as int][k],
            forall|b: int|
                0 <= b < old(fs).cache@.len() && b != self.block_id ==> final(fs).cache@[b]
                    == old(fs).cache@[b],
            final(fs).cache@[self.block_id as int].len() == BLOCK_SZ,
    {
        crate::layout::write_disk_inode(&mut fs.cache, self.block_id, self.block_offset, d);
        proof {
            assert(fs.wf()) by {
                assert(fs.cache@.len() == old(fs).cache@.len());
            }
        }
    }

    /// The stat of the inode: device 0, its number, mode and link count.
    pub fn stat(&self, fs: &mut EasyFileSystem) -> (r: Stat)
        requires
            old(fs).wf(),
            old(fs).inode_area_start_block <= self.block_id
                < old(fs).data_bitmap.start_block_id,
            self.block_offset + DISK_INODE_SZ <= BLOCK_SZ,
        ensures
            final(fs).wf(),
            final(fs).cache@ == old(fs).cache@,
            final(fs).same_layout(old(fs)),
            r.dev == 0,
            r.ino == self.model(*old(fs)).ino,
            r.mode.bits == self.model(*old(fs)).mode,
            r.nlink == self.model(*old(fs)).nlink,
    {
        let d = self.read_disk_inode(fs);
        Stat::new(0, d.stat.ino, StatMode { bits: d.stat.mode.bits }, d.stat.nlink)
    }

    /// Read up to `buf.len()` content bytes from byte `offset`; bytes of
    /// `buf` past the content's end keep their old value.
    pub fn read_at(&self, offset: usize, buf: &mut Vec<u8>, fs: &mut EasyFileSystem) -> (n: usize)
        requires
            old(fs).wf(),
            self.file_wf(*old(fs)),
            offset + old(buf)@.len() <= usize::MAX,
        ensures
            final(fs).wf(),
            final(fs).cache@ == old(fs).cache@,
            final(fs).same_layout(old(fs)),
            n == DiskInode::rw_len(
                self.model(*old(fs)).size,
                offset as int,
                old(buf)@.len() as int,
            ),
            final(buf)@.len() == old(buf)@.len(),
            forall|k: int|
                0 <= k < n ==> final(buf)@[k] == byte_at(
                    old(fs).cache@,
                    self.model(*old(fs)),
                    offset + k,
                ),
            forall|k: int| n <= k < old(buf)@.len() ==> final(buf)@[k] == old(buf)@[k],
    {
        let disk_inode = self.read_disk_inode(fs);
        disk_inode.read_at(offset, buf, &mut fs.cache)
    }

    /// Compare two byte strings.
    fn bytes_eq(a: &Vec<u8>, b: &Vec<u8>) -> (r: bool)
        ensures
            r == (a@ == b@),
    {
        if a.len() != b.len() {
            proof {
                assert(a@ != b@);
            }
            return false;
        }
        let mut i: usize = 0;
        while i < a.len()
            invariant
                i <= a@.len(),
                a@.len() == b@.len(),
                forall|k: int| 0 <= k < i ==> a@[k] == b@[k],
            decreases a@.len() - i,
        {
            if a[i] != b[i] {
                proof {
                    assert(a@ != b@);
                }
                return false;
            }
            i = i + 1;
        }
        proof {
            assert(a@ =~= b@);
        }
        true
    }

    /// Slot index and inode id of the first entry named `name`, if any.
    fn find_inode_id(
        &self,
        name: &Vec<u8>,
        disk_inode: &DiskInode,
        fs: &mut EasyFileSystem,
    ) -> (r: Option<(u32, u32)>)
        requires
            old(fs).wf(),
            disk_inode.wf(),
            disk_inode@ == self.model(*old(fs)),
            self.dir_wf(*old(fs)),
        ensures
            final(fs).wf(),
            final(fs).cache@ == old(fs).cache@,
            final(fs).same_layout(old(fs)),
            match r {
                Some(p) => dir_first_match(
                    old(fs).cache@,
                    self.model(*old(fs)),
                    name@,
                    p.0 as int,
                ) && p.1 == dirent_at(old(fs).cache@, self.model(*old(fs)), p.0 as int).inode_id,
                None => !dir_has_name(old(fs).cache@, self.model(*old(fs)), name@),
            },
    {
        let ghost v0 = fs.cache@;
        let ghost d = self.model(*fs);
        let file_count: u32 = disk_inode.size / DIRENT_SZ as u32;
        proof {
            assert(file_count == dir_count(d));
            assert(dir_count(d) * 32 == d.size) by (nonlinear_arith)
                requires
                    d.size % 32 == 0,
                    dir_count(d) == d.size / 32,
                    0 <= d.size,
            ;
        }
        let mut i: u32 = 0;
        while i < file_count
            invariant
                fs.wf(),
                fs.cache@ == v0,
                fs.same_layout(&*old(fs)),
                disk_inode.wf(),
                disk_inode@ == d,
                d == self.model(*old(fs)),
                self.dir_wf(*old(fs)),
                old(fs).cache@ == v0,
                file_count == dir_count(d),
                dir_count(d) * 32 == d.size,
                i <= file_count,
                forall|j: int|
                    0 <= j < i ==> name_of(#[trigger] dirent_at(v0, d, j).name) != name@,
            decreases file_count - i,
        {
            let mut buf: Vec<u8> = vec![0u8; DIRENT_SZ];
            proof {
                assert(32 * (i as int) + 32 <= d.size) by (nonlinear_arith)
                    requires
                        (i as int) < dir_count(d),
                        dir_count(d) * 32 == d.size,
                ;
            }
            let _got = disk_inode.read_at(DIRENT_SZ * i as usize, &mut buf, &mut fs.cache);
            let entry = DirEntry::decode(&buf);
            proof {
                reveal(dirent_at);
                assert(entry@.name =~= dirent_at(v0, d, i as int).name);
                assert(entry@.inode_id == dirent_at(v0, d, i as int).inode_id);
            }
            let entry_name = entry.name();
            if Self::bytes_eq(&entry_name, name) {
                return Some((i, entry.inode_id()));
            }
            i = i + 1;
        }
        proof {
            if dir_has_name(v0, d, name@) {
                let w = choose|w: int|
                    0 <= w < dir_count(d) && name_of(#[trigger] dirent_at(v0, d, w).name)
                        == name@;
            }
        }
        None
    }

    /// The handle of inode `inode_id`.
    fn handle_of(fs: &EasyFileSystem, inode_id: u32) -> (r: Inode)
        requires
            fs.wf(),
            inode_id < fs.n_inodes(),
        ensures
            r.block_id == fs.inode_area_start_block + inode_id / 4,
            r.block_offset == (inode_id % 4) * DISK_INODE_SZ,
            fs.inode_area_start_block <= r.block_id < fs.data_bitmap.start_block_id,
            r.block_offset % 128 == 0,
            r.block_offset + DISK_INODE_SZ <= BLOCK_SZ,
            r.handle_id(*fs) == inode_id,
    {
        let (block_id, block_offset) = fs.get_disk_inode_pos(inode_id);
        let r = Inode { block_id: block_id as usize, block_offset };
        proof {
            assert(r.handle_id(*fs) == inode_id && r.block_offset % 128 == 0)
                by (nonlinear_arith)
                requires
                    r.block_id == fs.inode_area_start_block + inode_id / 4,
                    r.block_offset == (inode_id % 4) * 128,
                    r.handle_id(*fs) == (r.block_id - fs.inode_area_start_block) * 4
                        + r.block_offset / 128,
                    inode_id >= 0,
            ;
        }
        r
    }

    /// Look `name` up in this directory and hand back the inode it names.
    pub fn find(&self, name: &Vec<u8>, fs: &mut EasyFileSystem) -> (r: Option<Inode>)
        requires
            old(fs).wf(),
            self.dir_wf(*old(fs)),
        ensures
            final(fs).wf(),
            final(fs).cache@ == old(fs).cache@,
            final(fs).same_layout(old(fs)),
            match r {
                Some(ino) => exists|i: int|
                    dir_first_match(old(fs).cache@, self.model(*old(fs)), name@, i)
                        && ino.block_id == old(fs).inode_area_start_block + #[trigger] dirent_at(
                        old(fs).cache@,
                        self.model(*old(fs)),
                        i,
                    ).inode_id / 4 && ino.block_offset == (dirent_at(
                        old(fs).cache@,
                        self.model(*old(fs)),
                        i,
                    ).inode_id % 4) * DISK_INODE_SZ,
                None => !dir_has_name(old(fs).cache@, self.model(*old(fs)), name@),
            },
    {
        let disk_inode = self.read_disk_inode(fs);
        match self.find_inode_id(name, &disk_inode, fs) {
            Some((slot, inode_id)) => {
                let r = Self::handle_of(fs, inode_id);
                proof {
                    let ghost i = slot as int;
                    assert(dir_first_match(old(fs).cache@, self.model(*old(fs)), name@, i)
                        && r.block_id == old(fs).inode_area_start_block + dirent_at(
                        old(fs).cache@,
                        self.model(*old(fs)),
                        i,
                    ).inode_id / 4 && r.block_offset == (dirent_at(
                        old(fs).cache@,
                        self.model(*old(fs)),
                        i,
                    ).inode_id % 4) * DISK_INODE_SZ);
                }
                Some(r)
            },
            None => None,
        }
    }

    /// Allocate `count` fresh data blocks for growing inode `dir`, leaving
    /// that inode's tree untouched and still fully accounted for.
    fn collect_data_blocks(
        fs: &mut EasyFileSystem,
        count: u32,
        Ghost(dir): Ghost<InodeModel>,
    ) -> (r: Vec<u32>)
        requires
            old(fs).wf(),
            old(fs).free_data_bits() >= count,
            tree_wf(old(fs).cache@, dir),
            inode_blocks_ok(*old(fs), dir),
        ensures
            final(fs).wf(),
            final(fs).same_layout(old(fs)),
            final(fs).cache@.len() == old(fs).cache@.len(),
            r@.len() == count,
            forall|a: int, b: int| 0 <= a < b < r@.len() ==> r@[a] != r@[b],
            forall|a: int|
                0 <= a < r@.len() ==> old(fs).data_area_start_block <= #[trigger] r@[a] < old(fs).cache@.len(),
            forall|a: int|
                0 <= a < r@.len() ==> !tree_ids(old(fs).cache@, dir).contains(
                    #[trigger] r@[a] as int,
                ),
            forall|b: int|
                0 <= b < old(fs).cache@.len() && !(old(fs).data_bitmap.start_block_id <= b < old(fs).data_area_start_block) ==> final(fs).cache@[b] == old(fs).cache@[b],
            tree_ids(final(fs).cache@, dir) == tree_ids(old(fs).cache@, dir),
            tree_wf(final(fs).cache@, dir),
            inode_blocks_ok(*final(fs), dir),
            final(fs).free_data_bits() == old(fs).free_data_bits() - count,
            forall|b: int|
                old(fs).data_area_start_block <= b < old(fs).cache@.len() ==> final(fs).data_block_allocated(b) == (old(fs).data_block_allocated(b)
                    || r@.map_values(|x: u32| x as int).contains(b)),
    {
        let ghost v0 = fs.cache@;
        let ghost fs0 = *fs;
        let mut r: Vec<u32> = Vec::new();
        let mut i: u32 = 0;
        while i < count
            invariant
                fs.wf(),
                fs.same_layout(&fs0),
                fs.cache@.len() == v0.len(),
                fs0.wf(),
                fs0.cache@ == v0,
                fs0 == *old(fs),
                fs0.free_data_bits() >= count,
                tree_wf(v0, dir),
                inode_blocks_ok(fs0, dir),
                i <= count,
                r@.len() == i,
                forall|a: int, b: int| 0 <= a < b < r@.len() ==> r@[a] != r@[b],
                forall|a: int|
                    0 <= a < r@.len() ==> fs0.data_area_start_block <= #[trigger] r@[a]
                        < v0.len(),
                forall|a: int|
                    0 <= a < r@.len() ==> !tree_ids(v0, dir).contains(#[trigger] r@[a] as int),
                forall|b: int|
                    0 <= b < v0.len() && !(fs0.data_bitmap.start_block_id <= b
                        < fs0.data_area_start_block) ==> fs.cache@[b] == v0[b],
                tree_ids(fs.cache@, dir) == tree_ids(v0, dir),
                tree_wf(fs.cache@, dir),
                inode_blocks_ok(*fs, dir),
                fs.free_data_bits() == fs0.free_data_bits() - i,
                forall|b: int|
                    fs0.data_area_start_block <= b < v0.len() ==> #[trigger] fs.data_block_allocated(
                        b,
                    ) == (fs0.data_block_allocated(b) || r@.map_values(|x: u32| x as int).contains(
                        b,
                    )),
            decreases count - i,
        {
            let ghost vpre = fs.cache@;
            let ghost fspre = *fs;
            let nb = fs.alloc_data();
            proof {
                // the bitmap write leaves the tree (whose blocks all sit in
                // the data area) alone
                let n = data_blocks_of(dir.size);
                crate::layout::lemma_tree_ids_len_n(vpre, dir, n);
                crate::layout::lemma_tree_ids_index_n(vpre, dir, n);
                assert forall|k: int|
                    0 <= k < crate::layout::ind2_count(n) implies fs.cache@[crate::le32_at(
                    vpre[dir.indirect2],
                    #[trigger] (4 * k),
                )] == vpre[crate::le32_at(vpre[dir.indirect2], 4 * k)] by {
                    assert(tree_ids(vpre, dir)[n + 2 + k] == crate::le32_at(
                        vpre[dir.indirect2],
                        4 * k,
                    ));
                    assert(inode_blocks_ok(fspre, dir));
                }
                if n > 8 {
                    assert(tree_ids(vpre, dir)[n] == dir.indirect1);
                }
                if n > 136 {
                    assert(tree_ids(vpre, dir)[n + 1] == dir.indirect2);
                }
                crate::layout::lemma_tree_unchanged_n(vpre, fs.cache@, dir, n);
                // the fresh block is not among the tree's blocks: those are
                // all allocated, the fresh one was free
                assert forall|t: int|
                    0 <= t < tree_ids(fs.cache@, dir).len() implies {
                    let b = #[trigger] tree_ids(fs.cache@, dir)[t];
                    &&& fs.data_area_start_block <= b < fs.cache@.len()
                    &&& fs.data_block_allocated(b)
                } by {
                    assert(tree_ids(vpre, dir)[t] == tree_ids(fs.cache@, dir)[t]);
                    assert(fspre.data_block_allocated(tree_ids(vpre, dir)[t]));
                }
                assert(!tree_ids(v0, dir).contains(nb as int)) by {
                    if tree_ids(v0, dir).contains(nb as int) {
                        let w = choose|w: int|
                            0 <= w < tree_ids(v0, dir).len() && tree_ids(v0, dir)[w]
                                == nb as int;
                        assert(fspre.data_block_allocated(nb as int));
                    }
                }
                assert forall|a: int|
                    0 <= a < r@.len() implies r@[a] != nb by {
                    let m = r@.map_values(|x: u32| x as int);
                    assert(m[a] == r@[a] as int);
                    assert(m.contains(r@[a] as int));
                    assert(fspre.data_block_allocated(r@[a] as int));
                    assert(!fspre.data_block_allocated(nb as int));
                }
            }
            let ghost rpre = r@;
            r.push(nb);
            i = i + 1;
            proof {
                let m = r@.map_values(|x: u32| x as int);
                let mpre = rpre.map_values(|x: u32| x as int);
                assert(r@ == rpre.push(nb));
                assert forall|b: int|
                    fs0.data_area_start_block <= b < v0.len() implies #[trigger] fs.data_block_allocated(
                    b,
                ) == (fs0.data_block_allocated(b) || m.contains(b)) by {
                    assert(fs.data_block_allocated(b) == (fspre.data_block_allocated(b) || b
                        == nb));
                    assert(fspre.data_block_allocated(b) == (fs0.data_block_allocated(b)
                        || mpre.contains(b)));
                    if m.contains(b) {
                        let w = choose|w: int| 0 <= w < m.len() && m[w] == b;
                        assert(m[w] == r@[w] as int);
                        if w < rpre.len() {
                            assert(mpre[w] == rpre[w] as int && rpre[w] == r@[w]);
                            assert(mpre.contains(b));
                        } else {
                            assert(r@[w] == nb);
                        }
                    }
                    if mpre.contains(b) {
                        let w = choose|w: int| 0 <= w < mpre.len() && mpre[w] == b;
                        assert(mpre[w] == rpre[w] as int);
                        assert(m[w] == r@[w] as int && r@[w] == rpre[w]);
                        assert(m.contains(b));
                    }
                    if b == nb {
                        assert(m[m.len() - 1] == r@[r@.len() - 1] as int);
                        assert(m.contains(b));
                    }
                }
            }
        }
        r
    }

    /// Grow `disk_inode` to `new_size` bytes, allocating the needed blocks
    /// from the data bitmap; nothing happens when `new_size` is not larger.
    fn increase_size(
        &self,
        new_size: u32,
        disk_inode: &mut DiskInode,
        fs: &mut EasyFileSystem,
    )
        requires
            old(fs).wf(),
            old(disk_inode).wf(),
            tree_wf(old(fs).cache@, old(disk_inode)@),
            inode_blocks_ok(*old(fs), old(disk_inode)@),
            new_size <= MAX_FILE_SIZE,
            new_size > old(disk_inode)@.size ==> old(fs).free_data_bits() >= total_blocks_of(
                new_size as int,
            ) - total_blocks_of(old(disk_inode)@.size),
        ensures
            final(fs).wf(),
            final(fs).same_layout(old(fs)),
            final(fs).cache@.len() == old(fs).cache@.len(),
            final(disk_inode).wf(),
            final(disk_inode)@.size == if new_size > old(disk_inode)@.size {
                new_size as int
            } else {
                old(disk_inode)@.size
            },
            final(disk_inode)@.nlink == old(disk_inode)@.nlink,
            final(disk_inode)@.ino == old(disk_inode)@.ino,
            final(disk_inode)@.mode == old(disk_inode)@.mode,
            final(disk_inode)@.is_dir == old(disk_inode)@.is_dir,
            final(disk_inode)@.dev == old(disk_inode)@.dev,
            tree_wf(final(fs).cache@, final(disk_inode)@),
            inode_blocks_ok(*final(fs), final(disk_inode)@),
            forall|p: int|
                0 <= p < old(disk_inode)@.size ==> byte_at(
                    final(fs).cache@,
                    final(disk_inode)@,
                    p,
                ) == byte_at(old(fs).cache@, old(disk_inode)@, p),
            forall|i: int|
                0 <= i < data_blocks_of(old(disk_inode)@.size) ==> #[trigger] crate::layout::block_id_spec(
                    final(fs).cache@,
                    final(disk_inode)@,
                    i,
                ) == crate::layout::block_id_spec(old(fs).cache@, old(disk_inode)@, i),
            forall|b: int|
                tree_ids(old(fs).cache@, old(disk_inode)@).contains(b) ==> tree_ids(
                    final(fs).cache@,
                    final(disk_inode)@,
                ).contains(b),
            forall|b: int|
                0 <= b < old(fs).cache@.len() && !(old(fs).data_bitmap.start_block_id <= b < old(fs).data_area_start_block) && !tree_ids(
                    final(fs).cache@,
                    final(disk_inode)@,
                ).contains(b) ==> final(fs).cache@[b] == old(fs).cache@[b],
            final(fs).free_data_bits() == old(fs).free_data_bits() - (total_blocks_of(
                final(disk_inode)@.size,
            ) - total_blocks_of(old(disk_inode)@.size)),
            forall|b: int|
                old(fs).data_area_start_block <= b < old(fs).cache@.len() ==> final(fs).data_block_allocated(b) == (old(fs).data_block_allocated(b) || (tree_ids(
                    final(fs).cache@,
                    final(disk_inode)@,
                ).contains(b) && !tree_ids(old(fs).cache@, old(disk_inode)@).contains(b))),
            new_size <= old(disk_inode)@.size ==> final(disk_inode)@ == old(disk_inode)@
                && final(fs).cache@ == old(fs).cache@,
    {
        if new_size <= disk_inode.size {
            return ;
        }
        let blocks_needed = disk_inode.blocks_num_needed(new_size);
        let ghost dold = disk_inode@;
        let ghost v0 = fs.cache@;
        let ghost fs0 = *fs;
        let v = Self::collect_data_blocks(fs, blocks_needed, Ghost(dold));
        let ghost vmid = fs.cache@;
        let ghost fsmid = *fs;
        let ghost nbs = v@.map_values(|x: u32| x as int);
        proof {
            assert forall|a: int|
                0 <= a < v@.len() implies !tree_ids(vmid, dold).contains(
                #[trigger] v@[a] as int,
            ) by {
                assert(!tree_ids(v0, dold).contains(v@[a] as int));
            }
        }
        disk_inode.increase_size(new_size, v, &mut fs.cache);
        proof {
            let dnew = disk_inode@;
            let vfin = fs.cache@;
            let das = fs0.data_area_start_block as int;
            let dbs = fs0.data_bitmap.start_block_id as int;
            let n_old = data_blocks_of(dold.size);
            crate::layout::lemma_tree_ids_len_n(vmid, dold, n_old);
            crate::layout::lemma_tree_ids_index_n(vmid, dold, n_old);
            crate::layout::lemma_tree_ids_len_n(v0, dold, n_old);
            crate::layout::lemma_tree_ids_index_n(v0, dold, n_old);
            // everything in the old tree or among the fresh blocks lies in
            // the data area
            assert forall|b: int|
                tree_ids(vmid, dold).contains(b) || nbs.contains(b) implies das <= b
                < v0.len() by {
                if tree_ids(vmid, dold).contains(b) {
                    let w = choose|w: int|
                        0 <= w < tree_ids(vmid, dold).len() && tree_ids(vmid, dold)[w] == b;
                    assert(fsmid.data_block_allocated(tree_ids(vmid, dold)[w]));
                } else {
                    let w = choose|w: int| 0 <= w < nbs.len() && nbs[w] == b;
                    assert(v@[w] as int == b);
                }
            }
            // the growth touched only index and fresh blocks, all in the
            // data area, so everything below it is untouched
            assert forall|b: int|
                0 <= b < das && b < v0.len() implies vfin[b] == vmid[b] by {
                assert(!crate::layout::index_ids(vmid, dold).contains(b)) by {
                    if crate::layout::index_ids(vmid, dold).contains(b) {
                        let w = choose|w: int|
                            0 <= w < crate::layout::index_ids(vmid, dold).len()
                                && crate::layout::index_ids(vmid, dold)[w] == b;
                        assert(tree_ids(vmid, dold)[n_old + w] == b);
                        assert(tree_ids(vmid, dold).contains(b));
                    }
                }
                assert(!nbs.contains(b));
            }
            // hence every bitmap bit is as it was after the allocation
            assert forall|j: int|
                0 <= j < fs0.data_bitmap.blocks * 4096 implies #[trigger] bit_is_set(
                vfin,
                dbs,
                j,
            ) == bit_is_set(vmid, dbs, j) by {
                assert(0 <= j / 4096 < fs0.data_bitmap.blocks) by (nonlinear_arith)
                    requires
                        0 <= j < fs0.data_bitmap.blocks * 4096,
                ;
                assert(vfin[dbs + j / 4096] == vmid[dbs + j / 4096]);
            }
            crate::bitmap::lemma_free_count_agree(
                vmid,
                vfin,
                dbs,
                fs0.data_blocks_avail(),
            );
            assert(fs.wf());
            // the grown tree holds the old blocks and the fresh ones, all
            // allocated
            assert forall|t: int|
                0 <= t < tree_ids(vfin, dnew).len() implies {
                let b = #[trigger] tree_ids(vfin, dnew)[t];
                &&& das <= b < vfin.len()
                &&& fs.data_block_allocated(b)
            } by {
                let b = tree_ids(vfin, dnew)[t];
                assert(tree_ids(vfin, dnew).contains(b));
                assert(tree_ids(vmid, dold).contains(b) || nbs.contains(b));
                assert(das <= b < v0.len());
                if tree_ids(vmid, dold).contains(b) {
                    let w = choose|w: int|
                        0 <= w < tree_ids(vmid, dold).len() && tree_ids(vmid, dold)[w] == b;
                    assert(fsmid.data_block_allocated(tree_ids(vmid, dold)[w]));
                } else {
                    assert(fsmid.data_block_allocated(b));
                }
            }
            // old bytes and the old mapping carry through both steps
            assert forall|i: int|
                0 <= i < n_old implies #[trigger] crate::layout::block_id_spec(vmid, dold, i)
                == crate::layout::block_id_spec(v0, dold, i) by {
                assert(tree_ids(vmid, dold)[i] == crate::layout::block_id_spec(vmid, dold, i));
                assert(tree_ids(v0, dold)[i] == crate::layout::block_id_spec(v0, dold, i));
            }
            assert forall|p: int|
                0 <= p < dold.size implies byte_at(vfin, dnew, p) == byte_at(v0, dold, p) by {
                let pb = p / 512;
                assert(0 <= pb && pb * 512 <= p < (pb + 1) * 512) by (nonlinear_arith)
                    requires
                        pb == p / 512,
                        0 <= p,
                ;
                assert(data_blocks_of(dold.size) * 512 >= dold.size) by (nonlinear_arith);
                assert(pb < n_old) by (nonlinear_arith)
                    requires
                        p < dold.size <= n_old * 512,
                        pb * 512 <= p,
                ;
                let bid = crate::layout::block_id_spec(v0, dold, pb);
                assert(tree_ids(v0, dold)[pb] == bid);
                assert(das <= bid < v0.len()) by {
                    assert(fs0.data_block_allocated(tree_ids(v0, dold)[pb]));
                }
                assert(vmid[bid] == v0[bid]);
                assert(byte_at(vmid, dold, p) == byte_at(v0, dold, p));
            }
            // frame for the caller
            assert forall|b: int|
                0 <= b < v0.len() && !(dbs <= b < das) && !tree_ids(vfin, dnew).contains(
                b,
            ) implies vfin[b] == v0[b] by {
                assert(!nbs.contains(b)) by {
                    if nbs.contains(b) {
                        let w = choose|w: int| 0 <= w < nbs.len() && nbs[w] == b;
                        assert(v@[w] as int == b);
                        assert(tree_ids(vfin, dnew).contains(b));
                    }
                }
                assert(!crate::layout::index_ids(vmid, dold).contains(b)) by {
                    if crate::layout::index_ids(vmid, dold).contains(b) {
                        let w = choose|w: int|
                            0 <= w < crate::layout::index_ids(vmid, dold).len()
                                && crate::layout::index_ids(vmid, dold)[w] == b;
                        assert(tree_ids(vmid, dold)[n_old + w] == b);
                        assert(tree_ids(vmid, dold).contains(b));
                        assert(tree_ids(vfin, dnew).contains(b));
                    }
                }
                assert(vfin[b] == vmid[b]);
                assert(vmid[b] == v0[b]);
            }
            // the old tree is part of the new one
            assert forall|b: int|
                tree_ids(v0, dold).contains(b) implies tree_ids(vfin, dnew).contains(b) by {
                assert(tree_ids(vmid, dold).contains(b));
            }
            // how the allocated set moved
            assert forall|b: int|
                das <= b < v0.len() implies #[trigger] fs.data_block_allocated(b) == (
            fs0.data_block_allocated(b) || (tree_ids(vfin, dnew).contains(b) && !tree_ids(
                v0,
                dold,
            ).contains(b))) by {
                assert(0 <= b - das < fs0.data_bitmap.blocks * 4096) by (nonlinear_arith)
                    requires
                        das <= b < v0.len(),
                        v0.len() - das <= fs0.data_bitmap.blocks * 4096,
                ;
                assert(bit_is_set(vfin, dbs, b - das) == bit_is_set(vmid, dbs, b - das));
                assert(fsmid.data_block_allocated(b) == (fs0.data_block_allocated(b)
                    || nbs.contains(b)));
                if nbs.contains(b) {
                    assert(tree_ids(vfin, dnew).contains(b) && !tree_ids(v0, dold).contains(b));
                }
                if tree_ids(vfin, dnew).contains(b) && !tree_ids(v0, dold).contains(b) {
                    assert(!tree_ids(vmid, dold).contains(b));
                    assert(nbs.contains(b));
                }
            }
        }
    }

    /// Write the record back and then write `buf` into the content at
    /// `offset`, which must already lie within the (grown) size.
    #[verifier::rlimit(100)]
    fn commit_record_and_write(
        &self,
        offset: usize,
        buf: &Vec<u8>,
        disk_inode: &DiskInode,
        fs: &mut EasyFileSystem,
    ) -> (n: usize)
        requires
            old(fs).wf(),
            disk_inode.wf(),
            tree_wf(old(fs).cache@, disk_inode@),
            inode_blocks_ok(*old(fs), disk_inode@),
            old(fs).inode_area_start_block <= self.block_id
                < old(fs).data_bitmap.start_block_id,
            self.block_offset % 128 == 0,
            self.block_offset + DISK_INODE_SZ <= BLOCK_SZ,
            offset + buf@.len() <= disk_inode@.size,
        ensures
            final(fs).wf(),
            final(fs).same_layout(old(fs)),
            final(fs).cache@.len() == old(fs).cache@.len(),
            n == buf@.len(),
            self.model(*final(fs)) == disk_inode@,
            tree_wf(final(fs).cache@, disk_inode@),
            inode_blocks_ok(*final(fs), disk_inode@),
            tree_ids(final(fs).cache@, disk_inode@) == tree_ids(old(fs).cache@, disk_inode@),
            forall|k: int|
                0 <= k < buf@.len() ==> byte_at(final(fs).cache@, disk_inode@, offset + k)
                    == buf@[k],
            forall|p: int|
                0 <= p < disk_inode@.size && !(offset <= p < offset + buf@.len()) ==> byte_at(
                    final(fs).cache@,
                    disk_inode@,
                    p,
                ) == byte_at(old(fs).cache@, disk_inode@, p),
            forall|b: int|
                0 <= b < old(fs).cache@.len() && b != self.block_id && !tree_ids(
                    old(fs).cache@,
                    disk_inode@,
                ).contains(b) ==> final(fs).cache@[b] == old(fs).cache@[b],
            forall|b: int|
                0 <= b < old(fs).data_area_start_block && b != self.block_id
                    ==> final(fs).cache@[b] == old(fs).cache@[b],
            forall|k: int|
                0 <= k < BLOCK_SZ && !(self.block_offset <= k < self.block_offset
                    + DISK_INODE_SZ) ==> final(fs).cache@[self.block_id as int][k]
                    == old(fs).cache@[self.block_id as int][k],
            forall|j: int|
                0 <= j < old(fs).inode_bitmap.blocks * 4096 ==> #[trigger] bit_is_set(
                    final(fs).cache@,
                    1,
                    j,
                ) == bit_is_set(old(fs).cache@, 1, j),
            forall|j: int|
                0 <= j < old(fs).data_bitmap.blocks * 4096 ==> #[trigger] bit_is_set(
                    final(fs).cache@,
                    old(fs).data_bitmap.start_block_id as int,
                    j,
                ) == bit_is_set(old(fs).cache@, old(fs).data_bitmap.start_block_id as int, j),
            final(fs).free_data_bits() == old(fs).free_data_bits(),
    {
        let ghost fs1 = *fs;
        let ghost v1 = fs.cache@;
        let ghost d1 = disk_inode@;
        self.write_disk_inode(disk_inode, fs);
        let ghost fs2 = *fs;
        let ghost v2 = fs.cache@;
        proof {
            // the record write touches the inode area only, so the tree and
            // its bytes stand
            let n1 = data_blocks_of(d1.size);
            crate::layout::lemma_tree_ids_len_n(v1, d1, n1);
            crate::layout::lemma_tree_ids_index_n(v1, d1, n1);
            assert forall|t: int|
                0 <= t < tree_ids(v1, d1).len() implies v2[#[trigger] tree_ids(v1, d1)[t]]
                == v1[tree_ids(v1, d1)[t]] by {
                assert(fs1.data_block_allocated(tree_ids(v1, d1)[t]));
                assert(tree_ids(v1, d1)[t] != self.block_id);
            }
            if n1 > 8 {
                assert(tree_ids(v1, d1)[n1] == d1.indirect1);
            }
            if n1 > 136 {
                assert(tree_ids(v1, d1)[n1 + 1] == d1.indirect2);
            }
            assert forall|k: int|
                0 <= k < crate::layout::ind2_count(n1) implies v2[crate::le32_at(
                v1[d1.indirect2],
                #[trigger] (4 * k),
            )] == v1[crate::le32_at(v1[d1.indirect2], 4 * k)] by {
                assert(tree_ids(v1, d1)[n1 + 2 + k] == crate::le32_at(
                    v1[d1.indirect2],
                    4 * k,
                ));
            }
            crate::layout::lemma_tree_unchanged_n(v1, v2, d1, n1);
            assert(tree_wf(v2, d1));
            assert forall|p: int|
                0 <= p < d1.size implies byte_at(v2, d1, p) == byte_at(v1, d1, p) by {
                let pb = p / 512;
                assert(0 <= pb && pb * 512 <= p < (pb + 1) * 512) by (nonlinear_arith)
                    requires
                        pb == p / 512,
                        0 <= p,
                ;
                assert(data_blocks_of(d1.size) * 512 >= d1.size) by (nonlinear_arith);
                assert(pb < n1) by (nonlinear_arith)
                    requires
                        p < d1.size <= n1 * 512,
                        pb * 512 <= p,
                ;
                assert(tree_ids(v1, d1)[pb] == crate::layout::block_id_spec(v1, d1, pb));
                assert(v2[crate::layout::block_id_spec(v1, d1, pb)]
                    == v1[crate::layout::block_id_spec(v1, d1, pb)]);
            }
        }
        let n = disk_inode.write_at(offset, buf, &mut fs.cache);
        proof {
            let vf = fs.cache@;
            let das = fs1.data_area_start_block as int;
            let dbs = fs1.data_bitmap.start_block_id as int;
            let n1 = data_blocks_of(d1.size);
            assert(fs.wf()) by {
                assert(fs.cache@.len() == v2.len());
            }
            crate::layout::lemma_tree_ids_len_n(v2, d1, n1);
            crate::layout::lemma_tree_ids_index_n(v2, d1, n1);
            crate::layout::lemma_tree_ids_len_n(vf, d1, n1);
            crate::layout::lemma_tree_ids_index_n(vf, d1, n1);
            // the data write leaves everything outside the file's own data
            // blocks alone
            assert forall|b: int|
                0 <= b < v2.len() && !tree_ids(v2, d1).contains(b) implies vf[b] == v2[b] by {
                assert(!crate::layout::data_ids(v2, d1).contains(b)) by {
                    if crate::layout::data_ids(v2, d1).contains(b) {
                        let w = choose|w: int|
                            0 <= w < crate::layout::data_ids(v2, d1).len()
                                && crate::layout::data_ids(v2, d1)[w] == b;
                        assert(tree_ids(v2, d1)[w] == b);
                    }
                }
            }
            assert(tree_ids(vf, d1) =~= tree_ids(v2, d1));
            // a block outside the tree is outside the data area or free;
            // in either case it is neither a bitmap block nor the record
            assert forall|b: int|
                0 <= b < v1.len() && !(das <= b < v1.len()) implies !tree_ids(
                v2,
                d1,
            ).contains(b) by {
                if tree_ids(v2, d1).contains(b) {
                    let w = choose|w: int|
                        0 <= w < tree_ids(v2, d1).len() && tree_ids(v2, d1)[w] == b;
                    assert(fs2.data_block_allocated(tree_ids(v2, d1)[w]));
                }
            }
            assert forall|j: int|
                0 <= j < fs1.inode_bitmap.blocks * 4096 implies #[trigger] bit_is_set(
                vf,
                1,
                j,
            ) == bit_is_set(v1, 1, j) by {
                assert(0 <= j / 4096 < fs1.inode_bitmap.blocks) by (nonlinear_arith)
                    requires
                        0 <= j < fs1.inode_bitmap.blocks * 4096,
                ;
                let bb = 1 + j / 4096;
                assert(bb < das && bb != self.block_id);
                assert(vf[bb] == v2[bb] && v2[bb] == v1[bb]);
            }
            assert forall|j: int|
                0 <= j < fs1.data_bitmap.blocks * 4096 implies #[trigger] bit_is_set(
                vf,
                dbs,
                j,
            ) == bit_is_set(v1, dbs, j) by {
                assert(0 <= j / 4096 < fs1.data_bitmap.blocks) by (nonlinear_arith)
                    requires
                        0 <= j < fs1.data_bitmap.blocks * 4096,
                ;
                let bb = dbs + j / 4096;
                assert(bb < das && bb != self.block_id);
                assert(vf[bb] == v2[bb] && v2[bb] == v1[bb]);
            }
            crate::bitmap::lemma_free_count_agree(v1, vf, dbs, fs1.data_blocks_avail());
            assert forall|t: int|
                0 <= t < tree_ids(vf, d1).len() implies {
                let b = #[trigger] tree_ids(vf, d1)[t];
                &&& das <= b < vf.len()
                &&& fs.data_block_allocated(b)
            } by {
                assert(tree_ids(vf, d1)[t] == tree_ids(v1, d1)[t]);
                assert(fs1.data_block_allocated(tree_ids(v1, d1)[t]));
                assert(0 <= tree_ids(v1, d1)[t] - das < fs1.data_bitmap.blocks * 4096)
                    by (nonlinear_arith)
                    requires
                        das <= tree_ids(v1, d1)[t] < vf.len(),
                        vf.len() - das <= fs1.data_bitmap.blocks * 4096,
                ;
            }
            // the record block is outside the data area, so the model
            // survives the data write
            assert(!tree_ids(v2, d1).contains(self.block_id as int));
            assert(vf[self.block_id as int] == v2[self.block_id as int]);
            assert(self.model(*fs) =~= d1);
            assert(n == buf@.len());
            assert forall|b: int|
                0 <= b < das && b != self.block_id implies vf[b] == v1[b] by {
                assert(!tree_ids(v2, d1).contains(b));
                assert(vf[b] == v2[b] && v2[b] == v1[b]);
            }
        }
        n
    }

    /// Write `buf` at byte `offset`, growing the content first so the whole
    /// buffer fits; every byte of `buf` is written.
    #[verifier::rlimit(100)]
    pub fn write_at(&self, offset: usize, buf: &Vec<u8>, fs: &mut EasyFileSystem) -> (n: usize)
        requires
            old(fs).wf(),
            self.file_wf(*old(fs)),
            offset + buf@.len() <= MAX_FILE_SIZE,
            old(fs).free_data_bits() as int >= total_blocks_of(offset + buf@.len())
                - total_blocks_of(self.model(*old(fs)).size),
        ensures
            final(fs).wf(),
            final(fs).same_layout(old(fs)),
            final(fs).cache@.len() == old(fs).cache@.len(),
            n == buf@.len(),
            self.file_wf(*final(fs)),
            self.model(*final(fs)).size == if offset + buf@.len() > self.model(
                *old(fs),
            ).size {
                offset + buf@.len()
            } else {
                self.model(*old(fs)).size
            },
            self.model(*final(fs)).nlink == self.model(*old(fs)).nlink,
            self.model(*final(fs)).ino == self.model(*old(fs)).ino,
            self.model(*final(fs)).mode == self.model(*old(fs)).mode,
            self.model(*final(fs)).is_dir == self.model(*old(fs)).is_dir,
            self.model(*final(fs)).dev == self.model(*old(fs)).dev,
            forall|k: int|
                0 <= k < buf@.len() ==> byte_at(
                    final(fs).cache@,
                    self.model(*final(fs)),
                    offset + k,
                ) == buf@[k],
            forall|p: int|
                0 <= p < self.model(*old(fs)).size && !(offset <= p < offset + buf@.len())
                    ==> byte_at(final(fs).cache@, self.model(*final(fs)), p) == byte_at(
                    old(fs).cache@,
                    self.model(*old(fs)),
                    p,
                ),
            forall|b: int|
                tree_ids(old(fs).cache@, self.model(*old(fs))).contains(b) ==> tree_ids(
                    final(fs).cache@,
                    self.model(*final(fs)),
                ).contains(b),
            forall|b: int|
                0 <= b < old(fs).cache@.len() && b != self.block_id && !(
                old(fs).data_bitmap.start_block_id <= b < old(fs).data_area_start_block)
                    && !tree_ids(final(fs).cache@, self.model(*final(fs))).contains(b)
                    ==> final(fs).cache@[b] == old(fs).cache@[b],
            forall|b: int|
                0 <= b < old(fs).data_bitmap.start_block_id && b != self.block_id
                    ==> final(fs).cache@[b] == old(fs).cache@[b],
            forall|k: int|
                0 <= k < BLOCK_SZ && !(self.block_offset <= k < self.block_offset
                    + DISK_INODE_SZ) ==> final(fs).cache@[self.block_id as int][k]
                    == old(fs).cache@[self.block_id as int][k],
            final(fs).free_data_bits() == old(fs).free_data_bits() - (total_blocks_of(
                self.model(*final(fs)).size,
            ) - total_blocks_of(self.model(*old(fs)).size)),
            forall|b: int|
                old(fs).data_area_start_block <= b < old(fs).cache@.len()
                    ==> final(fs).data_block_allocated(b) == (old(fs).data_block_allocated(b)
                    || tree_ids(final(fs).cache@, self.model(*final(fs))).contains(b)),
            offset + buf@.len() <= self.model(*old(fs)).size ==> self.model(*final(fs))
                == self.model(*old(fs)) && tree_ids(final(fs).cache@, self.model(*final(fs)))
                == tree_ids(old(fs).cache@, self.model(*old(fs))),
    {
        let ghost fs0 = *fs;
        let ghost v0 = fs.cache@;
        let ghost d0 = self.model(*fs);
        let mut disk_inode = self.read_disk_inode(fs);
        let new_size = offset + buf.len();
        self.increase_size(new_size as u32, &mut disk_inode, fs);
        let ghost fs1 = *fs;
        let ghost v1 = fs.cache@;
        let ghost d1 = disk_inode@;
        let n = self.commit_record_and_write(offset, buf, &disk_inode, fs);
        proof {
            let vf = fs.cache@;
            let das = fs0.data_area_start_block as int;
            let dbs = fs0.data_bitmap.start_block_id as int;
            assert(tree_ids(vf, d1) == tree_ids(v1, d1));
            // the handle's own inode stays allocated
            assert(bit_is_set(vf, 1, self.handle_id(fs0))) by {
                assert(bit_is_set(v1, 1, self.handle_id(fs0))) by {
                    assert(0 <= self.handle_id(fs0) / 4096 < fs0.inode_bitmap.blocks)
                        by (nonlinear_arith)
                        requires
                            0 <= self.handle_id(fs0) < fs0.inode_bitmap.blocks * 4096,
                    ;
                    let bb = 1 + self.handle_id(fs0) / 4096;
                    assert(!tree_ids(v1, d1).contains(bb)) by {
                        if tree_ids(v1, d1).contains(bb) {
                            let w = choose|w: int|
                                0 <= w < tree_ids(v1, d1).len() && tree_ids(v1, d1)[w] == bb;
                            crate::layout::lemma_tree_ids_len_n(
                                v1,
                                d1,
                                data_blocks_of(d1.size),
                            );
                            assert(fs1.data_block_allocated(tree_ids(v1, d1)[w]));
                        }
                    }
                    assert(v1[bb] == v0[bb]);
                }
                assert(0 <= self.handle_id(fs0) < fs0.inode_bitmap.blocks * 4096);
            }
            // old content bytes outside the window survive both steps
            assert forall|p: int|
                0 <= p < d0.size && !(offset <= p < offset + buf@.len()) implies byte_at(
                vf,
                d1,
                p,
            ) == byte_at(v0, d0, p) by {
                assert(byte_at(vf, d1, p) == byte_at(v1, d1, p));
                assert(byte_at(v1, d1, p) == byte_at(v0, d0, p));
            }
            // the frame, composed of both steps' frames
            assert forall|b: int|
                0 <= b < v0.len() && b != self.block_id && !(dbs <= b < das) && !tree_ids(
                    vf,
                    d1,
                ).contains(b) implies vf[b] == v0[b] by {
                assert(!tree_ids(v1, d1).contains(b));
                assert(vf[b] == v1[b]);
                assert(v1[b] == v0[b]);
            }
            assert forall|b: int|
                0 <= b < dbs implies !tree_ids(v1, d1).contains(b) by {
                if tree_ids(v1, d1).contains(b) {
                    let w = choose|w: int|
                        0 <= w < tree_ids(v1, d1).len() && tree_ids(v1, d1)[w] == b;
                    crate::layout::lemma_tree_ids_len_n(v1, d1, data_blocks_of(d1.size));
                    assert(fs1.data_block_allocated(tree_ids(v1, d1)[w]));
                }
            }
            assert forall|b: int|
                0 <= b < dbs && b != self.block_id implies vf[b] == v0[b] by {
                assert(vf[b] == v1[b]);
                assert(v1[b] == v0[b]);
            }
            assert(v1[self.block_id as int] == v0[self.block_id as int]);
            fs.cache.lemma_view_wf();
            assert(vf[self.block_id as int].len() == BLOCK_SZ);
            // the allocated set after both steps
            assert forall|b: int|
                das <= b < v0.len() implies #[trigger] fs.data_block_allocated(b) == (
            fs0.data_block_allocated(b) || tree_ids(vf, d1).contains(b)) by {
                assert(0 <= b - das < fs0.data_bitmap.blocks * 4096) by (nonlinear_arith)
                    requires
                        das <= b < v0.len(),
                        v0.len() - das <= fs0.data_bitmap.blocks * 4096,
                ;
                assert(bit_is_set(vf, dbs, b - das) == bit_is_set(v1, dbs, b - das));
                assert(fs1.data_block_allocated(b) == (fs0.data_block_allocated(b) || (tree_ids(
                    v1,
                    d1,
                ).contains(b) && !tree_ids(v0, d0).contains(b))));
                if tree_ids(v0, d0).contains(b) {
                    let w = choose|w: int|
                        0 <= w < tree_ids(v0, d0).len() && tree_ids(v0, d0)[w] == b;
                    crate::layout::lemma_tree_ids_len_n(v0, d0, data_blocks_of(d0.size));
                    assert(fs0.data_block_allocated(tree_ids(v0, d0)[w]));
                }
            }
        }
        n
    }

    /// Append one entry at the end of the directory, growing it by one
    /// slot; every existing slot keeps its bytes.
    #[verifier::rlimit(100)]
    fn append_dirent(&self, entry: &DirEntry, fs: &mut EasyFileSystem)
        requires
            old(fs).wf(),
            self.dir_wf(*old(fs)),
            entry.wf(),
            self.model(*old(fs)).size + 32 <= MAX_FILE_SIZE,
            old(fs).free_data_bits() as int >= total_blocks_of(self.model(*old(fs)).size + 32)
                - total_blocks_of(self.model(*old(fs)).size),
            0 <= entry@.inode_id < old(fs).n_inodes(),
        ensures
            final(fs).wf(),
            final(fs).same_layout(old(fs)),
            final(fs).cache@.len() == old(fs).cache@.len(),
            self.dir_wf(*final(fs)),
            self.model(*final(fs)).size == self.model(*old(fs)).size + 32,
            self.model(*final(fs)).nlink == self.model(*old(fs)).nlink,
            self.model(*final(fs)).ino == self.model(*old(fs)).ino,
            self.model(*final(fs)).is_dir == self.model(*old(fs)).is_dir,
            dir_count(self.model(*final(fs))) == dir_count(self.model(*old(fs))) + 1,
            forall|i: int|
                0 <= i < dir_count(self.model(*old(fs))) ==> #[trigger] dirent_at(
                    final(fs).cache@,
                    self.model(*final(fs)),
                    i,
                ) == dirent_at(old(fs).cache@, self.model(*old(fs)), i),
            dirent_at(
                final(fs).cache@,
                self.model(*final(fs)),
                dir_count(self.model(*old(fs))),
            ) == entry@,
            forall|b: int|
                0 <= b < old(fs).cache@.len() && b != self.block_id && !(
                old(fs).data_bitmap.start_block_id <= b < old(fs).data_area_start_block)
                    && !tree_ids(final(fs).cache@, self.model(*final(fs))).contains(b)
                    ==> final(fs).cache@[b] == old(fs).cache@[b],
            forall|b: int|
                0 <= b < old(fs).data_bitmap.start_block_id && b != self.block_id
                    ==> final(fs).cache@[b] == old(fs).cache@[b],
            forall|k: int|
                0 <= k < BLOCK_SZ && !(self.block_offset <= k < self.block_offset
                    + DISK_INODE_SZ) ==> final(fs).cache@[self.block_id as int][k]
                    == old(fs).cache@[self.block_id as int][k],
            forall|b: int|
                old(fs).data_area_start_block <= b < old(fs).cache@.len()
                    ==> final(fs).data_block_allocated(b) == (old(fs).data_block_allocated(b)
                    || tree_ids(final(fs).cache@, self.model(*final(fs))).contains(b)),
            final(fs).free_data_bits() == old(fs).free_data_bits() - (total_blocks_of(
                self.model(*final(fs)).size,
            ) - total_blocks_of(self.model(*old(fs)).size)),
    {
        let ghost fs0 = *fs;
        let ghost v0 = fs.cache@;
        let ghost d0 = self.model(*fs);
        let disk_inode = self.read_disk_inode(fs);
        let file_count = disk_inode.size / DIRENT_SZ as u32;
        let bytes = entry.encode();
        proof {
            assert(dir_count(d0) * 32 == d0.size) by (nonlinear_arith)
                requires
                    d0.size % 32 == 0,
                    dir_count(d0) == d0.size / 32,
                    0 <= d0.size,
            ;
        }
        let _n = self.write_at(file_count as usize * DIRENT_SZ, &bytes, fs);
        proof {
            let vf = fs.cache@;
            let d1 = self.model(*fs);
            let c0 = dir_count(d0);
            assert(d1.size == d0.size + 32);
            assert(dir_count(d1) == c0 + 1) by (nonlinear_arith)
                requires
                    d1.size == d0.size + 32,
                    d0.size == c0 * 32,
                    dir_count(d1) == d1.size / 32,
                    0 <= d0.size,
            ;
            assert forall|i: int|
                0 <= i < c0 implies #[trigger] dirent_at(vf, d1, i) == dirent_at(
                v0,
                d0,
                i,
            ) by {
                reveal(dirent_at);
                assert forall|k: int|
                    0 <= k < 32 implies #[trigger] byte_at(vf, d1, 32 * i + k) == byte_at(
                    v0,
                    d0,
                    32 * i + k,
                ) by {
                    assert(0 <= 32 * i + k < d0.size) by (nonlinear_arith)
                        requires
                            0 <= i < c0,
                            0 <= k < 32,
                            d0.size == c0 * 32,
                    ;
                }
                assert(dirent_at(vf, d1, i).name =~= dirent_at(v0, d0, i).name);
            }
            assert(dirent_at(vf, d1, c0) =~= entry@) by {
                reveal(dirent_at);
                assert forall|k: int|
                    0 <= k < 32 implies #[trigger] byte_at(vf, d1, 32 * c0 + k)
                    == bytes@[k] by {}
                assert(dirent_at(vf, d1, c0).name =~= entry@.name) by {
                    assert forall|k: int|
                        0 <= k < 28 implies dirent_at(vf, d1, c0).name[k] == entry@.name[k] by {
                        assert(byte_at(vf, d1, 32 * c0 + k) == bytes@[k]);
                        assert(crate::layout::dirent_model_of(bytes@).name[k] == bytes@[k]);
                    }
                }
                assert(dirent_at(vf, d1, c0).inode_id == crate::le32_at(bytes@, 28));
            }
            assert(self.dir_wf(*fs)) by {
                assert(d1.size % 32 == 0);
                assert forall|i: int|
                    0 <= i < dir_count(d1) implies 0 <= #[trigger] dirent_at(
                    vf,
                    d1,
                    i,
                ).inode_id < fs.n_inodes() by {
                    if i < c0 {
                        assert(dirent_at(vf, d1, i) == dirent_at(v0, d0, i));
                    } else {
                        assert(i == c0);
                        assert(dirent_at(vf, d1, c0) == entry@);
                    }
                }
            }
        }
    }

    /// Allocate the lowest free inode and initialize its record as an
    /// empty file, leaving this directory untouched.
    #[verifier::rlimit(100)]
    fn alloc_file_inode(&self, fs: &mut EasyFileSystem) -> (nh: Inode)
        requires
            old(fs).wf(),
            self.dir_wf(*old(fs)),
            old(fs).free_inode_bits() > 0,
        ensures
            final(fs).wf(),
            final(fs).same_layout(old(fs)),
            final(fs).cache@.len() == old(fs).cache@.len(),
            self.dir_wf(*final(fs)),
            self.model(*final(fs)) == self.model(*old(fs)),
            forall|i: int|
                0 <= i < dir_count(self.model(*old(fs))) ==> #[trigger] dirent_at(
                    final(fs).cache@,
                    self.model(*final(fs)),
                    i,
                ) == dirent_at(old(fs).cache@, self.model(*old(fs)), i),
            nh.wf(*final(fs)),
            0 <= nh.handle_id(*final(fs)) < old(fs).n_inodes(),
            !old(fs).inode_allocated(nh.handle_id(*final(fs))),
            forall|j: int| 0 <= j < nh.handle_id(*final(fs)) ==> old(fs).inode_allocated(j),
            nh.model(*final(fs)) == (InodeModel {
                size: 0,
                direct: Seq::new(8, |i: int| 0int),
                indirect1: 0,
                indirect2: 0,
                is_dir: false,
                nlink: 1,
                mode: crate::layout::MODE_FILE as int,
                ino: nh.handle_id(*final(fs)),
                dev: 0,
            }),
            final(fs).free_data_bits() == old(fs).free_data_bits(),
            forall|bk: int|
                old(fs).data_area_start_block <= bk < old(fs).cache@.len()
                    ==> (final(fs).data_block_allocated(bk) == old(fs).data_block_allocated(
                    bk,
                ) && final(fs).cache@[bk] == old(fs).cache@[bk]),
    {
        let ghost fs0 = *fs;
        let ghost v0 = fs.cache@;
        let ghost d0 = self.model(*fs);
        let new_inode_id = fs.alloc_inode();
        let ghost fs1 = *fs;
        let ghost v1 = fs.cache@;
        let nh = self.init_file_record(new_inode_id, fs);
        proof {
            let vf = fs.cache@;
            let das = fs0.data_area_start_block as int;
            let dbs = fs0.data_bitmap.start_block_id as int;
            fs0.cache.lemma_view_wf();
            fs.cache.lemma_view_wf();
            // the directory's record block is in the inode area; only the
            // fresh record's slot changed there
            assert(self.model(*fs) =~= d0) by {
                if nh.block_id == self.block_id {
                    assert(nh.handle_id(fs1) != self.handle_id(fs1)) by {
                        assert(fs0.inode_allocated(self.handle_id(fs0)));
                        assert(!fs0.inode_allocated(new_inode_id as int));
                    }
                    assert(nh.block_offset / 128 != self.block_offset / 128);
                    assert(nh.block_offset + DISK_INODE_SZ <= self.block_offset
                        || self.block_offset + DISK_INODE_SZ <= nh.block_offset)
                        by (nonlinear_arith)
                        requires
                            nh.block_offset / 128 != self.block_offset / 128,
                            nh.block_offset % 128 == 0,
                            self.block_offset % 128 == 0,
                            0 <= nh.block_offset,
                            0 <= self.block_offset,
                    ;
                    assert forall|k: int|
                        self.block_offset <= k < self.block_offset + DISK_INODE_SZ implies vf[self.block_id as int][k]
                        == v0[self.block_id as int][k] by {
                        assert(vf[self.block_id as int][k] == v1[self.block_id as int][k]);
                        assert(v1[self.block_id as int] == v0[self.block_id as int]);
                    }
                } else {
                    assert(vf[self.block_id as int] == v1[self.block_id as int]);
                    assert(v1[self.block_id as int] == v0[self.block_id as int]);
                }
                assert(vf[self.block_id as int].subrange(
                    self.block_offset as int,
                    self.block_offset + DISK_INODE_SZ,
                ) =~= v0[self.block_id as int].subrange(
                    self.block_offset as int,
                    self.block_offset + DISK_INODE_SZ,
                ));
            }
            // bitmaps and the data area carry through both steps
            assert forall|blk: int| das <= blk < v0.len() implies vf[blk] == v0[blk] by {
                assert(vf[blk] == v1[blk]);
                assert(v1[blk] == v0[blk]);
            }
            assert forall|j: int|
                0 <= j < fs0.n_inodes() && bit_is_set(v0, 1, j) implies bit_is_set(
                vf,
                1,
                j,
            ) by {
                assert(0 <= j / 4096 < fs0.inode_bitmap.blocks) by (nonlinear_arith)
                    requires
                        0 <= j < fs0.inode_bitmap.blocks * 4096,
                ;
                assert(vf[1 + j / 4096] == v1[1 + j / 4096]);
                assert(bit_is_set(v1, 1, j));
            }
            assert forall|j: int|
                0 <= j < fs0.data_blocks_avail() implies #[trigger] bit_is_set(vf, dbs, j)
                == bit_is_set(v0, dbs, j) by {
                assert(0 <= j / 4096 < fs0.data_bitmap.blocks) by (nonlinear_arith)
                    requires
                        0 <= j < fs0.data_blocks_avail(),
                        fs0.data_blocks_avail() <= fs0.data_bitmap.blocks * 4096,
                ;
                assert(vf[dbs + j / 4096] == v1[dbs + j / 4096]);
                assert(v1[dbs + j / 4096] == v0[dbs + j / 4096]);
            }
            crate::bitmap::lemma_free_count_agree(v0, vf, dbs, fs0.data_blocks_avail());
            assert forall|t: int|
                0 <= t < tree_ids(v0, d0).len() implies vf[#[trigger] tree_ids(v0, d0)[t]]
                == v0[tree_ids(v0, d0)[t]] && fs.data_block_allocated(
                tree_ids(v0, d0)[t],
            ) by {
                assert(fs0.data_block_allocated(tree_ids(v0, d0)[t]));
                assert(0 <= tree_ids(v0, d0)[t] - das < fs0.data_bitmap.blocks * 4096)
                    by (nonlinear_arith)
                    requires
                        das <= tree_ids(v0, d0)[t] < v0.len(),
                        v0.len() - das <= fs0.data_bitmap.blocks * 4096,
                ;
            }
            assert(bit_is_set(vf, 1, self.handle_id(fs0))) by {
                assert(bit_is_set(v0, 1, self.handle_id(fs0)));
            }
            lemma_untouched_dir(fs0, *fs, *self, d0);
            // the fresh record's own bitmap bit survives its write
            assert(fs.inode_allocated(nh.handle_id(*fs))) by {
                assert(bit_is_set(v1, 1, new_inode_id as int));
            }
        }
        nh
    }

    /// Initialize inode `new_inode_id`'s record as an empty file; nothing
    /// else on the disk changes, and nothing else in its block does.
    #[verifier::rlimit(100)]
    fn init_file_record(&self, new_inode_id: u32, fs: &mut EasyFileSystem) -> (nh: Inode)
        requires
            old(fs).wf(),
            new_inode_id < old(fs).n_inodes(),
        ensures
            final(fs).wf(),
            final(fs).same_layout(old(fs)),
            final(fs).cache@.len() == old(fs).cache@.len(),
            nh.block_id == old(fs).inode_area_start_block + new_inode_id / 4,
            nh.block_offset == (new_inode_id % 4) * DISK_INODE_SZ,
            old(fs).inode_area_start_block <= nh.block_id < old(fs).data_bitmap.start_block_id,
            nh.block_offset % 128 == 0,
            nh.block_offset + DISK_INODE_SZ <= BLOCK_SZ,
            nh.handle_id(*final(fs)) == new_inode_id,
            nh.model(*final(fs)) == (InodeModel {
                size: 0,
                direct: Seq::new(8, |i: int| 0int),
                indirect1: 0,
                indirect2: 0,
                is_dir: false,
                nlink: 1,
                mode: crate::layout::MODE_FILE as int,
                ino: new_inode_id as int,
                dev: 0,
            }),
            forall|b: int|
                0 <= b < old(fs).cache@.len() && b != nh.block_id ==> final(fs).cache@[b]
                    == old(fs).cache@[b],
            forall|k: int|
                0 <= k < BLOCK_SZ && !(nh.block_offset <= k < nh.block_offset + DISK_INODE_SZ)
                    ==> final(fs).cache@[nh.block_id as int][k]
                    == old(fs).cache@[nh.block_id as int][k],
            final(fs).cache@[nh.block_id as int].len() == BLOCK_SZ,
    {
        let nh = Self::handle_of(fs, new_inode_id);
        let mut ni = nh.read_disk_inode(fs);
        ni.initialize(new_inode_id, DiskInodeType::File);
        nh.write_disk_inode(&ni, fs);
        nh
    }

    /// Create a fresh file named `name` in this directory, or refuse when
    /// the name is already present.
    pub fn create(&self, name: &Vec<u8>, fs: &mut EasyFileSystem) -> (r: Option<Inode>)
        requires
            old(fs).wf(),
            self.dir_wf(*old(fs)),
            1 <= name@.len() <= NAME_LENGTH_LIMIT,
            forall|k: int| 0 <= k < name@.len() ==> name@[k] != 0,
            old(fs).free_inode_bits() > 0,
            old(fs).free_data_bits() as int >= total_blocks_of(self.model(*old(fs)).size + 32)
                - total_blocks_of(self.model(*old(fs)).size),
            self.model(*old(fs)).size + 32 <= MAX_FILE_SIZE,
        ensures
            final(fs).wf(),
            final(fs).same_layout(old(fs)),
            final(fs).cache@.len() == old(fs).cache@.len(),
            r is Some <==> !dir_has_name(old(fs).cache@, self.model(*old(fs)), name@),
            r is None ==> final(fs).cache@ == old(fs).cache@,
            r matches Some(ino) ==> Self::created_ok(*self, *old(fs), *final(fs), name@, ino),
    {
        let disk_inode = self.read_disk_inode(fs);
        if self.find_inode_id(name, &disk_inode, fs).is_some() {
            return None;
        }
        let ghost fsm = *fs;
        let ino = self.create_fresh(name, fs);
        proof {
            lemma_created_ok_stable(*self, *old(fs), fsm, *fs, name@, ino);
        }
        Some(ino)
    }

    /// The contract of a successful `create`: the new file's inode is the
    /// lowest that was free, its record is a fresh empty file, and the
    /// directory gained exactly one entry naming it.
    #[verifier::opaque]
    pub open spec fn created_ok(
        dir: Inode,
        fs0: EasyFileSystem,
        fsf: EasyFileSystem,
        name: Seq<u8>,
        ino: Inode,
    ) -> bool {
        &&& ino.wf(fsf)
        &&& ino.file_wf(fsf)
        &&& !fs0.inode_allocated(ino.handle_id(fsf))
        &&& (forall|j: int| 0 <= j < ino.handle_id(fsf) ==> fs0.inode_allocated(j))
        &&& ino.model(fsf).is_dir == false
        &&& ino.model(fsf).size == 0
        &&& ino.model(fsf).nlink == 1
        &&& ino.model(fsf).ino == ino.handle_id(fsf)
        &&& dir.dir_wf(fsf)
        &&& dir.model(fsf).size == dir.model(fs0).size + 32
        &&& dir_count(dir.model(fsf)) == dir_count(dir.model(fs0)) + 1
        &&& (forall|i: int|
            0 <= i < dir_count(dir.model(fs0)) ==> #[trigger] dirent_at(
                fsf.cache@,
                dir.model(fsf),
                i,
            ) == dirent_at(fs0.cache@, dir.model(fs0), i))
        &&& name_of(
            dirent_at(fsf.cache@, dir.model(fsf), dir_count(dir.model(fs0))).name,
        ) == name
        &&& dirent_at(fsf.cache@, dir.model(fsf), dir_count(dir.model(fs0))).inode_id
            == ino.handle_id(fsf)
        &&& fsf.free_data_bits() == fs0.free_data_bits() - (total_blocks_of(
            dir.model(fs0).size + 32,
        ) - total_blocks_of(dir.model(fs0).size))
        &&& (forall|b: int|
            fs0.data_area_start_block <= b < fs0.cache@.len() ==> fsf.data_block_allocated(b)
                == (fs0.data_block_allocated(b) || tree_ids(fsf.cache@, dir.model(fsf)).contains(
                b,
            )))
    }

    /// Allocate the lowest free inode, set its record up as an empty file,
    /// and append a directory entry binding `name` to it.
    #[verifier::rlimit(100)]
    fn create_fresh(&self, name: &Vec<u8>, fs: &mut EasyFileSystem) -> (ino: Inode)
        requires
            old(fs).wf(),
            self.dir_wf(*old(fs)),
            1 <= name@.len() <= NAME_LENGTH_LIMIT,
            forall|k: int| 0 <= k < name@.len() ==> name@[k] != 0,
            old(fs).free_inode_bits() > 0,
            old(fs).free_data_bits() as int >= total_blocks_of(self.model(*old(fs)).size + 32)
                - total_blocks_of(self.model(*old(fs)).size),
            self.model(*old(fs)).size + 32 <= MAX_FILE_SIZE,
        ensures
            final(fs).wf(),
            final(fs).same_layout(old(fs)),
            final(fs).cache@.len() == old(fs).cache@.len(),
            Self::created_ok(*self, *old(fs), *final(fs), name@, ino),
    {
        let ghost fs0 = *fs;
        let ghost v0 = fs.cache@;
        let ghost d0 = self.model(*fs);
        // a fresh inode for the new file
        let nh = self.alloc_file_inode(fs);
        let ghost fs2 = *fs;
        let ghost v2 = fs.cache@;
        let ghost ni_model = nh.model(fs2);
        let new_inode_id = ((nh.block_id - fs.inode_area_start_block as usize) * 4
            + nh.block_offset / DISK_INODE_SZ) as u32;
        proof {
            assert(new_inode_id == nh.handle_id(fs2));
        }
        let entry = DirEntry::new(name, new_inode_id);
        self.append_dirent(&entry, fs);
        proof {
            reveal(Inode::created_ok);
            let vf = fs.cache@;
            fs2.cache.lemma_view_wf();
            fs.cache.lemma_view_wf();
            // the new file's record survives the directory append: either
            // its block is untouched, or only the directory's own slot in
            // it changed
            assert(nh.model(*fs) =~= ni_model) by {
                if nh.block_id == self.block_id {
                    assert(nh.block_offset / 128 != self.block_offset / 128);
                    assert(nh.block_offset + DISK_INODE_SZ <= self.block_offset
                        || self.block_offset + DISK_INODE_SZ <= nh.block_offset)
                        by (nonlinear_arith)
                        requires
                            nh.block_offset / 128 != self.block_offset / 128,
                            nh.block_offset % 128 == 0,
                            self.block_offset % 128 == 0,
                            0 <= nh.block_offset,
                            0 <= self.block_offset,
                    ;
                    assert forall|k: int|
                        nh.block_offset <= k < nh.block_offset + DISK_INODE_SZ implies vf[nh.block_id as int][k]
                        == v2[nh.block_id as int][k] by {}
                    assert(vf[nh.block_id as int].subrange(
                        nh.block_offset as int,
                        nh.block_offset + DISK_INODE_SZ,
                    ) =~= v2[nh.block_id as int].subrange(
                        nh.block_offset as int,
                        nh.block_offset + DISK_INODE_SZ,
                    ));
                } else {
                    assert(vf[nh.block_id as int] == v2[nh.block_id as int]);
                }
            }
            // its inode bitmap bit is below the inode area, which the
            // append leaves alone
            assert(fs.inode_allocated(nh.handle_id(*fs))) by {
                assert(0 <= nh.handle_id(fs2) / 4096 < fs2.inode_bitmap.blocks)
                    by (nonlinear_arith)
                    requires
                        0 <= nh.handle_id(fs2) < fs2.inode_bitmap.blocks * 4096,
                ;
                let bb = 1 + nh.handle_id(fs2) / 4096;
                assert(bb != self.block_id);
                assert(vf[bb] == v2[bb]);
            }
            // an empty file has a sound, empty tree
            assert(tree_wf(vf, ni_model)) by {
                crate::layout::lemma_tree_ids_len_n(vf, ni_model, 0);
            }
            assert(inode_blocks_ok(*fs, ni_model)) by {
                crate::layout::lemma_tree_ids_len_n(vf, ni_model, 0);
            }
        }
        Inode { block_id: nh.block_id, block_offset: nh.block_offset }
    }

    /// Free the whole content of this inode: every data and index block
    /// goes back to the data bitmap, zeroed, and the size drops to 0.
    #[verifier::rlimit(100)]
    pub fn clear(&self, fs: &mut EasyFileSystem)
        requires
            old(fs).wf(),
            self.file_wf(*old(fs)),
        ensures
            final(fs).wf(),
            final(fs).same_layout(old(fs)),
            final(fs).cache@.len() == old(fs).cache@.len(),
            self.wf(*final(fs)),
            self.model(*final(fs)).size == 0,
            self.model(*final(fs)).nlink == self.model(*old(fs)).nlink,
            self.model(*final(fs)).ino == self.model(*old(fs)).ino,
            self.model(*final(fs)).is_dir == self.model(*old(fs)).is_dir,
            self.model(*final(fs)).mode == self.model(*old(fs)).mode,
            self.file_wf(*final(fs)),
            final(fs).free_data_bits() == old(fs).free_data_bits() + total_blocks_of(
                self.model(*old(fs)).size,
            ),
            forall|b: int|
                0 <= b < old(fs).cache@.len() && b != self.block_id && !(
                old(fs).data_bitmap.start_block_id <= b < old(fs).data_area_start_block)
                    && !tree_ids(old(fs).cache@, self.model(*old(fs))).contains(b)
                    ==> final(fs).cache@[b] == old(fs).cache@[b],
            forall|b: int|
                old(fs).data_area_start_block <= b < old(fs).cache@.len() ==> final(fs).data_block_allocated(b) == (old(fs).data_block_allocated(b) && !tree_ids(
                    old(fs).cache@,
                    self.model(*old(fs)),
                ).contains(b)),
            forall|k: int|
                0 <= k < BLOCK_SZ && !(self.block_offset <= k < self.block_offset
                    + DISK_INODE_SZ) ==> final(fs).cache@[self.block_id as int][k]
                    == old(fs).cache@[self.block_id as int][k],
            final(fs).cache@[self.block_id as int].len() == BLOCK_SZ,
    {
        let ghost fs0 = *fs;
        let ghost v0 = fs.cache@;
        let ghost d0 = self.model(*fs);
        let mut disk_inode = self.read_disk_inode(fs);
        let blocks = disk_inode.clear_size(&mut fs.cache);
        self.write_disk_inode(&disk_inode, fs);
        let ghost fs1 = *fs;
        let ghost v1 = fs.cache@;
        let ghost dnew = disk_inode@;
        proof {
            fs.cache.lemma_view_wf();
        }
        proof {
            assert(fs.wf()) by {
                assert(fs.cache@.len() == v0.len());
            }
            crate::layout::lemma_tree_ids_len_n(v0, d0, data_blocks_of(d0.size));
            // the record write leaves bits and data blocks alone
            assert forall|j: int|
                0 <= j < fs0.data_blocks_avail() implies #[trigger] bit_is_set(
                v1,
                fs0.data_bitmap.start_block_id as int,
                j,
            ) == bit_is_set(v0, fs0.data_bitmap.start_block_id as int, j) by {
                assert(0 <= j / 4096 < fs0.data_bitmap.blocks) by (nonlinear_arith)
                    requires
                        0 <= j < fs0.data_blocks_avail(),
                        fs0.data_blocks_avail() <= fs0.data_bitmap.blocks * 4096,
                ;
                assert(v1[fs0.data_bitmap.start_block_id + j / 4096] == v0[fs0.data_bitmap.start_block_id
                    + j / 4096]);
            }
            crate::bitmap::lemma_free_count_agree(
                v0,
                v1,
                fs0.data_bitmap.start_block_id as int,
                fs0.data_blocks_avail(),
            );
            assert forall|a: int|
                0 <= a < blocks@.len() implies fs0.data_area_start_block <= #[trigger] blocks@[a]
                < v0.len() && fs.data_block_allocated(blocks@[a] as int) by {
                assert(blocks@.map_values(|x: u32| x as int)[a] == blocks@[a] as int);
                assert(crate::layout::tree_ids(v0, d0)[a] == blocks@[a] as int);
                assert(fs0.data_block_allocated(blocks@[a] as int));
                assert(bit_is_set(
                    v1,
                    fs0.data_bitmap.start_block_id as int,
                    blocks@[a] - fs0.data_area_start_block,
                ) == bit_is_set(
                    v0,
                    fs0.data_bitmap.start_block_id as int,
                    blocks@[a] - fs0.data_area_start_block,
                ));
            }
        }
        let mut i: usize = 0;
        while i < blocks.len()
            invariant
                fs.wf(),
                fs.same_layout(&fs0),
                fs.cache@.len() == v0.len(),
                fs0.wf(),
                i <= blocks@.len(),
                blocks@.map_values(|x: u32| x as int) == crate::layout::tree_ids(v0, d0),
                forall|a: int, b: int| 0 <= a < b < blocks@.len() ==> blocks@[a] != blocks@[b],
                forall|a: int|
                    0 <= a < blocks@.len() ==> fs0.data_area_start_block <= #[trigger] blocks@[a]
                        < v0.len(),
                forall|a: int|
                    i <= a < blocks@.len() ==> fs.data_block_allocated(#[trigger] blocks@[a] as int),
                fs.free_data_bits() == fs0.free_data_bits() + i,
                forall|b: int|
                    0 <= b < v0.len() && b != self.block_id && !(fs0.data_bitmap.start_block_id
                        <= b < fs0.data_area_start_block) && !tree_ids(v0, d0).contains(b)
                        ==> fs.cache@[b] == v0[b],
                forall|b: int|
                    fs0.data_area_start_block <= b < v0.len() ==> #[trigger] fs.data_block_allocated(
                        b,
                    ) == (fs0.data_block_allocated(b) && !blocks@.take(i as int).map_values(
                        |x: u32| x as int,
                    ).contains(b)),
                self.model(*fs) == dnew,
                fs.cache@[self.block_id as int] == v1[self.block_id as int],
                v1[self.block_id as int].len() == BLOCK_SZ,
                forall|k: int|
                    0 <= k < BLOCK_SZ && !(self.block_offset <= k < self.block_offset
                        + DISK_INODE_SZ) ==> v1[self.block_id as int][k]
                        == v0[self.block_id as int][k],
                self.block_id < fs0.data_bitmap.start_block_id,
                fs0.inode_area_start_block <= self.block_id,
                self.block_offset % 128 == 0,
                self.block_offset + DISK_INODE_SZ <= BLOCK_SZ,
                bit_is_set(fs.cache@, 1, self.handle_id(fs0)),
                0 <= self.handle_id(fs0) < fs0.n_inodes(),
            decreases blocks@.len() - i,
        {
            let ghost fspre = *fs;
            let ghost vpre = fs.cache@;
            let b = blocks[i];
            proof {
                assert(blocks@.map_values(|x: u32| x as int)[i as int] == b as int);
                assert(crate::layout::tree_ids(v0, d0)[i as int] == b as int);
                assert(fs0.data_area_start_block <= b < v0.len());
            }
            fs.dealloc_data(b);
            proof {
                assert forall|a: int|
                    i + 1 <= a < blocks@.len() implies fs.data_block_allocated(
                    #[trigger] blocks@[a] as int,
                ) by {
                    assert(blocks@[a] != blocks@[i as int]);
                    assert(fspre.data_block_allocated(blocks@[a] as int));
                }
                // neither the zeroed block nor the bitmap holds the record
                // or the inode bitmap
                assert(self.model(*fs) =~= dnew) by {
                    assert(fs.cache@[self.block_id as int] == vpre[self.block_id as int]);
                }
                assert(bit_is_set(fs.cache@, 1, self.handle_id(fs0))) by {
                    assert(0 <= self.handle_id(fs0) / 4096 < fs0.inode_bitmap.blocks)
                        by (nonlinear_arith)
                        requires
                            0 <= self.handle_id(fs0) < fs0.inode_bitmap.blocks * 4096,
                    ;
                    let bb = 1 + self.handle_id(fs0) / 4096;
                    assert(fs.cache@[bb] == vpre[bb]);
                }
                assert forall|b2: int|
                    0 <= b2 < v0.len() && b2 != self.block_id && !(
                    fs0.data_bitmap.start_block_id <= b2 < fs0.data_area_start_block)
                        && !tree_ids(v0, d0).contains(b2) implies fs.cache@[b2] == v0[b2] by {
                    assert(b2 != b as int) by {
                        if b2 == b {
                            assert(tree_ids(v0, d0).contains(b as int)) by {
                                assert(crate::layout::tree_ids(v0, d0)[i as int] == b as int);
                            }
                        }
                    }
                    assert(fs.cache@[b2] == vpre[b2]);
                }
                assert forall|b2: int|
                    fs0.data_area_start_block <= b2 < v0.len() implies fs.data_block_allocated(
                    b2,
                ) == (fs0.data_block_allocated(b2) && !blocks@.take(i + 1).map_values(
                    |x: u32| x as int,
                ).contains(b2)) by {
                    let mp = blocks@.take(i as int).map_values(|x: u32| x as int);
                    let mn = blocks@.take(i + 1).map_values(|x: u32| x as int);
                    assert(fs.data_block_allocated(b2) == (fspre.data_block_allocated(b2) && b2
                        != b));
                    if mn.contains(b2) {
                        let w = choose|w: int| 0 <= w < mn.len() && mn[w] == b2;
                        assert(blocks@.take(i + 1)[w] == blocks@[w]);
                        if w < i {
                            assert(mp[w] == blocks@[w] as int);
                            assert(mp.contains(b2));
                        } else {
                            assert(b2 == b as int);
                        }
                    }
                    if mp.contains(b2) {
                        let w = choose|w: int| 0 <= w < mp.len() && mp[w] == b2;
                        assert(blocks@.take(i as int)[w] == blocks@[w]);
                        assert(mn[w] == blocks@[w] as int);
                        assert(mn.contains(b2));
                    }
                    if b2 == b {
                        assert(mn[i as int] == blocks@[i as int] as int);
                        assert(mn.contains(b2));
                    }
                }
            }
            i = i + 1;
        }
        proof {
            assert(self.file_wf(*fs)) by {
                crate::layout::lemma_tree_ids_len_n(fs.cache@, dnew, 0);
            }
            assert forall|b: int|
                old(fs).data_area_start_block <= b < old(fs).cache@.len()
                    implies #[trigger] fs.data_block_allocated(b)
                    == (old(fs).data_block_allocated(b) && !tree_ids(
                    old(fs).cache@,
                    self.model(*old(fs)),
                ).contains(b)) by {
                assert(old(fs).cache@ == v0 && self.model(*old(fs)) == d0);
                assert(old(fs).data_block_allocated(b) == fs0.data_block_allocated(b));
                let m = blocks@.map_values(|x: u32| x as int);
                assert(blocks@.take(blocks@.len() as int) =~= blocks@);
                assert(blocks@.take(blocks@.len() as int).map_values(|x: u32| x as int) =~= m);
                assert(fs.data_block_allocated(b) == (fs0.data_block_allocated(b)
                    && !blocks@.take(blocks@.len() as int).map_values(
                    |x: u32| x as int,
                ).contains(b)));
                assert(m == tree_ids(v0, d0));
            }
        }
    }

    /// The handle of inode `id`, as a value.
    pub open spec fn spec_handle(fs: EasyFileSystem, id: int) -> Inode {
        Inode {
            block_id: (fs.inode_area_start_block + id / 4) as usize,
            block_offset: ((id % 4) * 128) as usize,
        }
    }

    /// Bump the hard-link count of inode `id`'s record by one, touching
    /// nothing else.
    fn bump_nlink(id: u32, fs: &mut EasyFileSystem) -> (th: Inode)
        requires
            old(fs).wf(),
            id < old(fs).n_inodes(),
            inode_model_at(
                old(fs).cache@,
                Self::spec_handle(*old(fs), id as int).block_id as int,
                Self::spec_handle(*old(fs), id as int).block_offset as int,
            ).nlink < u32::MAX,
        ensures
            final(fs).wf(),
            final(fs).same_layout(old(fs)),
            final(fs).cache@.len() == old(fs).cache@.len(),
            th == Self::spec_handle(*old(fs), id as int),
            old(fs).inode_area_start_block <= th.block_id < old(fs).data_bitmap.start_block_id,
            th.block_offset % 128 == 0,
            th.block_offset + DISK_INODE_SZ <= BLOCK_SZ,
            th.handle_id(*final(fs)) == id,
            th.model(*final(fs)) == (InodeModel {
                nlink: th.model(*old(fs)).nlink + 1,
                ..th.model(*old(fs))
            }),
            forall|b: int|
                0 <= b < old(fs).cache@.len() && b != th.block_id ==> final(fs).cache@[b]
                    == old(fs).cache@[b],
            forall|k: int|
                0 <= k < BLOCK_SZ && !(th.block_offset <= k < th.block_offset + DISK_INODE_SZ)
                    ==> final(fs).cache@[th.block_id as int][k]
                    == old(fs).cache@[th.block_id as int][k],
            final(fs).cache@[th.block_id as int].len() == BLOCK_SZ,
    {
        let th = Self::handle_of(fs, id);
        let mut rec = th.read_disk_inode(fs);
        proof {
            assert(rec@.nlink < u32::MAX);
        }
        rec.stat.increase_plink();
        th.write_disk_inode(&rec, fs);
        proof {
            assert(th.model(*fs) =~= (InodeModel {
                nlink: th.model(*old(fs)).nlink + 1,
                ..th.model(*old(fs))
            }));
        }
        th
    }

    /// Link `new_name` to the inode `old_name` names: one more hard link
    /// and one more directory entry; refused when the names coincide or
    /// `old_name` is absent.
    #[verifier::rlimit(100)]
    pub fn linkat(&self, old_name: &Vec<u8>, new_name: &Vec<u8>, fs: &mut EasyFileSystem) -> (r:
        isize)
        requires
            old(fs).wf(),
            self.dir_wf(*old(fs)),
            1 <= old_name@.len() <= NAME_LENGTH_LIMIT,
            1 <= new_name@.len() <= NAME_LENGTH_LIMIT,
            forall|k: int| 0 <= k < new_name@.len() ==> new_name@[k] != 0,
            old(fs).free_data_bits() as int >= total_blocks_of(self.model(*old(fs)).size + 32)
                - total_blocks_of(self.model(*old(fs)).size),
            self.model(*old(fs)).size + 32 <= MAX_FILE_SIZE,
            forall|i: int|
                dir_first_match(old(fs).cache@, self.model(*old(fs)), old_name@, i) ==> {
                    let id = #[trigger] dirent_at(old(fs).cache@, self.model(*old(fs)), i).inode_id;
                    &&& id != self.handle_id(*old(fs))
                    &&& inode_model_at(
                        old(fs).cache@,
                        Self::spec_handle(*old(fs), id).block_id as int,
                        Self::spec_handle(*old(fs), id).block_offset as int,
                    ).nlink < u32::MAX
                },
        ensures
            final(fs).wf(),
            final(fs).same_layout(old(fs)),
            final(fs).cache@.len() == old(fs).cache@.len(),
            r == 0 || r == -1,
            r == -1 <==> (old_name@ == new_name@ || !dir_has_name(
                old(fs).cache@,
                self.model(*old(fs)),
                old_name@,
            )),
            r == -1 ==> final(fs).cache@ == old(fs).cache@,
            r == 0 ==> self.dir_wf(*final(fs)) && self.model(*final(fs)).size == self.model(
                *old(fs),
            ).size + 32 && dir_count(self.model(*final(fs))) == dir_count(
                self.model(*old(fs)),
            ) + 1 && (forall|i: int|
                0 <= i < dir_count(self.model(*old(fs))) ==> #[trigger] dirent_at(
                    final(fs).cache@,
                    self.model(*final(fs)),
                    i,
                ) == dirent_at(old(fs).cache@, self.model(*old(fs)), i)) && final(fs).free_data_bits() == old(fs).free_data_bits() - (total_blocks_of(
                self.model(*old(fs)).size + 32,
            ) - total_blocks_of(self.model(*old(fs)).size)) && exists|i: int|
                #![auto]
                dir_first_match(old(fs).cache@, self.model(*old(fs)), old_name@, i) && {
                    let id = dirent_at(old(fs).cache@, self.model(*old(fs)), i).inode_id;
                    let th = Self::spec_handle(*old(fs), id);
                    &&& name_of(
                        dirent_at(
                            final(fs).cache@,
                            self.model(*final(fs)),
                            dir_count(self.model(*old(fs))),
                        ).name,
                    ) == new_name@
                    &&& dirent_at(
                        final(fs).cache@,
                        self.model(*final(fs)),
                        dir_count(self.model(*old(fs))),
                    ).inode_id == id
                    &&& th.model(*final(fs)) == (InodeModel {
                        nlink: th.model(*old(fs)).nlink + 1,
                        ..th.model(*old(fs))
                    })
                    &&& (forall|b: int, k: int|
                        0 <= b < old(fs).cache@.len() && 0 <= k < BLOCK_SZ && !(b
                            == self.block_id && self.block_offset <= k < self.block_offset
                            + DISK_INODE_SZ) && !(b == th.block_id && th.block_offset <= k
                            < th.block_offset + DISK_INODE_SZ) && !(
                        old(fs).data_bitmap.start_block_id <= b < old(fs).data_area_start_block)
                            && !tree_ids(final(fs).cache@, self.model(*final(fs))).contains(b)
                            ==> final(fs).cache@[b][k] == old(fs).cache@[b][k])
                },
    {
        if Self::bytes_eq(old_name, new_name) {
            return -1;
        }
        let ghost fs0 = *fs;
        let ghost v0 = fs.cache@;
        let ghost d0 = self.model(*fs);
        let disk_inode = self.read_disk_inode(fs);
        let found = self.find_inode_id(old_name, &disk_inode, fs);
        match found {
            None => -1,
            Some((slot, old_inode_id)) => {
                let ghost i0 = slot as int;
                let th = Self::bump_nlink(old_inode_id, fs);
                let ghost fs1 = *fs;
                let ghost v1 = fs.cache@;
                proof {
                    // the bumped record is not the directory's
                    assert(self.model(fs1) =~= d0) by {
                        fs0.cache.lemma_view_wf();
                        if th.block_id == self.block_id {
                            assert(th.handle_id(fs0) != self.handle_id(fs0));
                            assert(th.block_offset / 128 != self.block_offset / 128);
                            assert(th.block_offset + DISK_INODE_SZ <= self.block_offset
                                || self.block_offset + DISK_INODE_SZ <= th.block_offset)
                                by (nonlinear_arith)
                                requires
                                    th.block_offset / 128 != self.block_offset / 128,
                                    th.block_offset % 128 == 0,
                                    self.block_offset % 128 == 0,
                                    0 <= th.block_offset,
                                    0 <= self.block_offset,
                            ;
                            assert forall|k: int|
                                self.block_offset <= k < self.block_offset
                                    + DISK_INODE_SZ implies v1[self.block_id as int][k]
                                == v0[self.block_id as int][k] by {}
                            assert(v1[self.block_id as int].subrange(
                                self.block_offset as int,
                                self.block_offset + DISK_INODE_SZ,
                            ) =~= v0[self.block_id as int].subrange(
                                self.block_offset as int,
                                self.block_offset + DISK_INODE_SZ,
                            ));
                        } else {
                            assert(v1[self.block_id as int] == v0[self.block_id as int]);
                        }
                    }
                    assert forall|t: int|
                        0 <= t < tree_ids(v0, d0).len() implies v1[#[trigger] tree_ids(
                        v0,
                        d0,
                    )[t]] == v0[tree_ids(v0, d0)[t]] && fs1.data_block_allocated(
                        tree_ids(v0, d0)[t],
                    ) by {
                        assert(fs0.data_block_allocated(tree_ids(v0, d0)[t]));
                    }
                    assert(bit_is_set(v1, 1, self.handle_id(fs0))) by {
                        let bb = 1 + self.handle_id(fs0) / 4096;
                        assert(0 <= self.handle_id(fs0) / 4096 < fs0.inode_bitmap.blocks)
                            by (nonlinear_arith)
                            requires
                                0 <= self.handle_id(fs0) < fs0.inode_bitmap.blocks * 4096,
                        ;
                        assert(v1[bb] == v0[bb]);
                    }
                    lemma_untouched_dir(fs0, fs1, *self, d0);
                    assert forall|j: int|
                        0 <= j < fs0.data_blocks_avail() implies #[trigger] bit_is_set(
                        v1,
                        fs0.data_bitmap.start_block_id as int,
                        j,
                    ) == bit_is_set(v0, fs0.data_bitmap.start_block_id as int, j) by {
                        assert(0 <= j / 4096 < fs0.data_bitmap.blocks) by (nonlinear_arith)
                            requires
                                0 <= j < fs0.data_blocks_avail(),
                                fs0.data_blocks_avail() <= fs0.data_bitmap.blocks * 4096,
                        ;
                        assert(v1[fs0.data_bitmap.start_block_id + j / 4096]
                            == v0[fs0.data_bitmap.start_block_id + j / 4096]);
                    }
                    crate::bitmap::lemma_free_count_agree(
                        v0,
                        v1,
                        fs0.data_bitmap.start_block_id as int,
                        fs0.data_blocks_avail(),
                    );
                }
                let entry = DirEntry::new(new_name, old_inode_id);
                self.append_dirent(&entry, fs);
                proof {
                    let vf = fs.cache@;
                    fs1.cache.lemma_view_wf();
                    fs.cache.lemma_view_wf();
                    // the target's bumped record survives the append
                    assert(th.model(*fs) =~= th.model(fs1)) by {
                        if th.block_id == self.block_id {
                            assert(th.block_offset / 128 != self.block_offset / 128);
                            assert(th.block_offset + DISK_INODE_SZ <= self.block_offset
                                || self.block_offset + DISK_INODE_SZ <= th.block_offset)
                                by (nonlinear_arith)
                                requires
                                    th.block_offset / 128 != self.block_offset / 128,
                                    th.block_offset % 128 == 0,
                                    self.block_offset % 128 == 0,
                                    0 <= th.block_offset,
                                    0 <= self.block_offset,
                            ;
                            assert forall|k: int|
                                th.block_offset <= k < th.block_offset
                                    + DISK_INODE_SZ implies vf[th.block_id as int][k]
                                == v1[th.block_id as int][k] by {}
                            assert(vf[th.block_id as int].subrange(
                                th.block_offset as int,
                                th.block_offset + DISK_INODE_SZ,
                            ) =~= v1[th.block_id as int].subrange(
                                th.block_offset as int,
                                th.block_offset + DISK_INODE_SZ,
                            ));
                        } else {
                            assert(vf[th.block_id as int] == v1[th.block_id as int]);
                        }
                    }
                    assert(th.model(fs1) == th.model(*fs));
                    assert(th == Self::spec_handle(fs0, old_inode_id as int));
                    assert(dir_first_match(v0, d0, old_name@, i0) && {
                        let id = dirent_at(v0, d0, i0).inode_id;
                        &&& name_of(
                            dirent_at(vf, self.model(*fs), dir_count(d0)).name,
                        ) == new_name@
                        &&& dirent_at(vf, self.model(*fs), dir_count(d0)).inode_id == id
                        &&& Self::spec_handle(fs0, id).model(*fs).nlink == Self::spec_handle(
                            fs0,
                            id,
                        ).model(fs0).nlink + 1
                    });
                }
                0
            },
        }
    }

    /// Drop the hard-link count of inode `id`'s record by one (stopping at
    /// zero), touching nothing else; return the new count.
    fn drop_nlink(id: u32, fs: &mut EasyFileSystem) -> (r: (Inode, u32))
        requires
            old(fs).wf(),
            id < old(fs).n_inodes(),
        ensures
            final(fs).wf(),
            final(fs).same_layout(old(fs)),
            final(fs).cache@.len() == old(fs).cache@.len(),
            r.0 == Self::spec_handle(*old(fs), id as int),
            old(fs).inode_area_start_block <= r.0.block_id < old(fs).data_bitmap.start_block_id,
            r.0.block_offset % 128 == 0,
            r.0.block_offset + DISK_INODE_SZ <= BLOCK_SZ,
            r.0.handle_id(*final(fs)) == id,
            r.0.model(*final(fs)) == (InodeModel {
                nlink: if r.0.model(*old(fs)).nlink >= 1 {
                    r.0.model(*old(fs)).nlink - 1
                } else {
                    0int
                },
                ..r.0.model(*old(fs))
            }),
            r.1 == r.0.model(*final(fs)).nlink,
            forall|b: int|
                0 <= b < old(fs).cache@.len() && b != r.0.block_id ==> final(fs).cache@[b]
                    == old(fs).cache@[b],
            forall|k: int|
                0 <= k < BLOCK_SZ && !(r.0.block_offset <= k < r.0.block_offset + DISK_INODE_SZ)
                    ==> final(fs).cache@[r.0.block_id as int][k]
                    == old(fs).cache@[r.0.block_id as int][k],
            final(fs).cache@[r.0.block_id as int].len() == BLOCK_SZ,
    {
        let th = Self::handle_of(fs, id);
        let mut rec = th.read_disk_inode(fs);
        let cur = rec.stat.decrease_plink();
        th.write_disk_inode(&rec, fs);
        proof {
            assert(th.model(*fs) =~= (InodeModel {
                nlink: if th.model(*old(fs)).nlink >= 1 {
                    th.model(*old(fs)).nlink - 1
                } else {
                    0int
                },
                ..th.model(*old(fs))
            }));
        }
        (th, cur)
    }

    /// The contract of a successful `unlinkat` whose first matching slot is
    /// `i0`: every slot that carried the name is the all-zero tombstone and
    /// the rest are untouched, the named inode lost exactly one hard link,
    /// its content was freed exactly when the count reached zero, and
    /// nothing else on the disk moved.
    #[verifier::opaque]
    pub open spec fn unlinked_ok(
        dir: Inode,
        fs0: EasyFileSystem,
        fsf: EasyFileSystem,
        name: Seq<u8>,
        i0: int,
    ) -> bool {
        let d0 = dir.model(fs0);
        let id = dirent_at(fs0.cache@, d0, i0).inode_id;
        let th = Self::spec_handle(fs0, id);
        let tm0 = th.model(fs0);
        &&& dir.model(fsf) == d0
        &&& (forall|i: int|
            0 <= i < dir_count(d0) ==> #[trigger] dirent_at(fsf.cache@, d0, i) == if name_of(
                dirent_at(fs0.cache@, d0, i).name,
            ) == name {
                DirEntModel { name: Seq::new(28, |k: int| 0u8), inode_id: 0 }
            } else {
                dirent_at(fs0.cache@, d0, i)
            })
        &&& (forall|i: int|
            0 <= i < dir_count(d0) ==> name_of(#[trigger] dirent_at(fsf.cache@, d0, i).name)
                != name)
        &&& th.model(fsf).nlink == tm0.nlink - 1
        &&& th.model(fsf).ino == tm0.ino
        &&& th.model(fsf).is_dir == tm0.is_dir
        &&& th.model(fsf).mode == tm0.mode
        &&& (tm0.nlink == 1 ==> th.model(fsf).size == 0 && fsf.free_data_bits()
            == fs0.free_data_bits() + total_blocks_of(tm0.size) && (forall|b: int|
            fs0.data_area_start_block <= b < fs0.cache@.len() ==> fsf.data_block_allocated(b)
                == (fs0.data_block_allocated(b) && !tree_ids(fs0.cache@, tm0).contains(b))))
        &&& (tm0.nlink > 1 ==> th.model(fsf).size == tm0.size && fsf.free_data_bits()
            == fs0.free_data_bits() && (forall|b: int|
            fs0.data_area_start_block <= b < fs0.cache@.len() ==> fsf.data_block_allocated(b)
                == fs0.data_block_allocated(b)))
        &&& (forall|b: int, k: int|
            0 <= b < fs0.cache@.len() && 0 <= k < crate::BLOCK_SZ && !(b == dir.block_id
                && dir.block_offset <= k < dir.block_offset + DISK_INODE_SZ) && !(b
                == th.block_id && th.block_offset <= k < th.block_offset + DISK_INODE_SZ)
                && !(fs0.data_bitmap.start_block_id <= b < fs0.data_area_start_block)
                && !tree_ids(fs0.cache@, d0).contains(b) && !(tm0.nlink == 1 && tree_ids(
                fs0.cache@,
                tm0,
            ).contains(b)) ==> fsf.cache@[b][k] == fs0.cache@[b][k])
    }

    /// Remove `name` from this directory: the named inode loses one hard
    /// link, its content is freed when the count reaches zero, and every
    /// slot carrying `name` becomes a tombstone; refused when `name` is
    /// absent.
    #[verifier::rlimit(100)]
    pub fn unlinkat(&self, name: &Vec<u8>, fs: &mut EasyFileSystem) -> (r: isize)
        requires
            old(fs).wf(),
            self.dir_wf(*old(fs)),
            1 <= name@.len() <= NAME_LENGTH_LIMIT,
            forall|i: int|
                dir_first_match(old(fs).cache@, self.model(*old(fs)), name@, i) ==> {
                    let id = #[trigger] dirent_at(old(fs).cache@, self.model(*old(fs)), i).inode_id;
                    &&& id != self.handle_id(*old(fs))
                    &&& Self::spec_handle(*old(fs), id).file_wf(*old(fs))
                    &&& Self::spec_handle(*old(fs), id).model(*old(fs)).nlink >= 1
                    &&& (forall|b: int|
                        !(tree_ids(
                            old(fs).cache@,
                            Self::spec_handle(*old(fs), id).model(*old(fs)),
                        ).contains(b) && tree_ids(
                            old(fs).cache@,
                            self.model(*old(fs)),
                        ).contains(b)))
                },
        ensures
            final(fs).wf(),
            final(fs).same_layout(old(fs)),
            final(fs).cache@.len() == old(fs).cache@.len(),
            r == 0 || r == -1,
            r == -1 <==> !dir_has_name(old(fs).cache@, self.model(*old(fs)), name@),
            r == -1 ==> final(fs).cache@ == old(fs).cache@,
            r == 0 ==> self.dir_wf(*final(fs)) && self.model(*final(fs)).size == self.model(
                *old(fs),
            ).size && exists|i0: int|
                dir_first_match(old(fs).cache@, self.model(*old(fs)), name@, i0)
                    && #[trigger] Self::unlinked_ok(*self, *old(fs), *final(fs), name@, i0),
    {
        let ghost fs0 = *fs;
        let ghost v0 = fs.cache@;
        let ghost d0 = self.model(*fs);
        let disk_inode = self.read_disk_inode(fs);
        let found = self.find_inode_id(name, &disk_inode, fs);
        if found.is_none() {
            return -1;
        }
        let (slot, old_inode_id) = found.unwrap();
        let ghost i0 = slot as int;
        let (th, cur_nlink) = Self::drop_nlink(old_inode_id, fs);
        let ghost fs1 = *fs;
        let ghost v1 = fs.cache@;
        proof {
            // the dropped record is not the directory's
            assert(self.model(fs1) =~= d0) by {
                fs0.cache.lemma_view_wf();
                if th.block_id == self.block_id {
                    assert(th.handle_id(fs0) != self.handle_id(fs0));
                    assert(th.block_offset / 128 != self.block_offset / 128);
                    assert(th.block_offset + DISK_INODE_SZ <= self.block_offset
                        || self.block_offset + DISK_INODE_SZ <= th.block_offset)
                        by (nonlinear_arith)
                        requires
                            th.block_offset / 128 != self.block_offset / 128,
                            th.block_offset % 128 == 0,
                            self.block_offset % 128 == 0,
                            0 <= th.block_offset,
                            0 <= self.block_offset,
                    ;
                    assert forall|k: int|
                        self.block_offset <= k < self.block_offset
                            + DISK_INODE_SZ implies v1[self.block_id as int][k]
                        == v0[self.block_id as int][k] by {}
                    assert(v1[self.block_id as int].subrange(
                        self.block_offset as int,
                        self.block_offset + DISK_INODE_SZ,
                    ) =~= v0[self.block_id as int].subrange(
                        self.block_offset as int,
                        self.block_offset + DISK_INODE_SZ,
                    ));
                } else {
                    assert(v1[self.block_id as int] == v0[self.block_id as int]);
                }
            }
            assert forall|t: int|
                0 <= t < tree_ids(v0, d0).len() implies v1[#[trigger] tree_ids(v0, d0)[t]]
                == v0[tree_ids(v0, d0)[t]] && fs1.data_block_allocated(
                tree_ids(v0, d0)[t],
            ) by {
                assert(fs0.data_block_allocated(tree_ids(v0, d0)[t]));
            }
            assert(bit_is_set(v1, 1, self.handle_id(fs0))) by {
                let bb = 1 + self.handle_id(fs0) / 4096;
                assert(0 <= self.handle_id(fs0) / 4096 < fs0.inode_bitmap.blocks)
                    by (nonlinear_arith)
                    requires
                        0 <= self.handle_id(fs0) < fs0.inode_bitmap.blocks * 4096,
                ;
                assert(v1[bb] == v0[bb]);
            }
            lemma_untouched_dir(fs0, fs1, *self, d0);
            // the record write does not touch the data bitmap
            assert forall|j: int|
                0 <= j < fs0.data_blocks_avail() implies #[trigger] bit_is_set(
                v1,
                fs0.data_bitmap.start_block_id as int,
                j,
            ) == bit_is_set(v0, fs0.data_bitmap.start_block_id as int, j) by {
                assert(0 <= j / 4096 < fs0.data_bitmap.blocks) by (nonlinear_arith)
                    requires
                        0 <= j < fs0.data_blocks_avail(),
                        fs0.data_blocks_avail() <= fs0.data_bitmap.blocks * 4096,
                ;
                assert(v1[fs0.data_bitmap.start_block_id + j / 4096] == v0[fs0.data_bitmap.start_block_id + j / 4096]);
            }
            crate::bitmap::lemma_free_count_agree(
                v0,
                v1,
                fs0.data_bitmap.start_block_id as int,
                fs0.data_blocks_avail(),
            );
            assert(th == Inode::spec_handle(fs0, old_inode_id as int));
        }
        if cur_nlink == 0 {
            proof {
                // the target is still a sound file after losing its link:
                // its tree blocks and bits are untouched by the record write
                let tm0 = th.model(fs0);
                let tm1 = th.model(fs1);
                crate::layout::lemma_tree_ids_len_n(v0, tm0, data_blocks_of(tm0.size));
                crate::layout::lemma_tree_ids_index_n(v0, tm0, data_blocks_of(tm0.size));
                assert forall|t: int|
                    0 <= t < tree_ids(v0, tm0).len() implies v1[#[trigger] tree_ids(
                    v0,
                    tm0,
                )[t]] == v0[tree_ids(v0, tm0)[t]] && fs1.data_block_allocated(
                    tree_ids(v0, tm0)[t],
                ) by {
                    assert(fs0.data_block_allocated(tree_ids(v0, tm0)[t]));
                }
                let n0 = data_blocks_of(tm0.size);
                if n0 > 8 {
                    assert(tree_ids(v0, tm0)[n0] == tm0.indirect1);
                }
                if n0 > 136 {
                    assert(tree_ids(v0, tm0)[n0 + 1] == tm0.indirect2);
                }
                assert forall|k: int|
                    0 <= k < crate::layout::ind2_count(n0) implies v1[crate::le32_at(
                    v0[tm0.indirect2],
                    #[trigger] (4 * k),
                )] == v0[crate::le32_at(v0[tm0.indirect2], 4 * k)] by {
                    assert(tree_ids(v0, tm0)[n0 + 2 + k] == crate::le32_at(
                        v0[tm0.indirect2],
                        4 * k,
                    ));
                }
                crate::layout::lemma_tree_unchanged_n(v0, v1, tm0, n0);
                assert(tm1.size == tm0.size && tm1.direct == tm0.direct && tm1.indirect1
                    == tm0.indirect1 && tm1.indirect2 == tm0.indirect2);
                lemma_tree_fields(v1, tm0, tm1, fs1);
                assert(th.file_wf(fs1)) by {
                    assert(bit_is_set(v1, 1, th.handle_id(fs1))) by {
                        let bb = 1 + th.handle_id(fs1) / 4096;
                        assert(0 <= th.handle_id(fs1) / 4096 < fs0.inode_bitmap.blocks)
                            by (nonlinear_arith)
                            requires
                                0 <= th.handle_id(fs1) < fs0.inode_bitmap.blocks * 4096,
                        ;
                        assert(v1[bb] == v0[bb]);
                        assert(bit_is_set(v0, 1, th.handle_id(fs0)));
                    }
                }
            }
            proof {
                // the trees are still disjoint in the current state
                assert forall|b: int|
                    !(tree_ids(v1, th.model(fs1)).contains(b) && tree_ids(v1, d0).contains(
                        b,
                    )) by {
                    assert(tree_ids(v1, th.model(fs1)) == tree_ids(v0, th.model(fs0)));
                    assert(tree_ids(v1, d0) == tree_ids(v0, d0));
                }
                assert(th.handle_id(fs1) != self.handle_id(fs1));
            }
            self.clear_unlinked(th, fs, Ghost(d0));
        }
        let ghost fs2 = *fs;
        let ghost v2 = fs.cache@;
        proof {
            if cur_nlink != 0 {
                assert(fs2 == fs1);
            }
        }
        // erase every slot carrying the name
        self.erase_entries(name, fs);
        proof {
            reveal(Inode::unlinked_ok);
            let fsf = *fs;
            let vf = fs.cache@;
            let id = dirent_at(v0, d0, i0).inode_id;
            let tm0 = th.model(fs0);
            let tm1 = th.model(fs1);
            let tm2 = th.model(fs2);
            let das = fs0.data_area_start_block as int;
            let dbs = fs0.data_bitmap.start_block_id as int;
            assert(old_inode_id == id);
            // the entries before the erase are the original ones
            assert forall|i: int|
                0 <= i < dir_count(d0) implies #[trigger] dirent_at(v2, d0, i) == dirent_at(
                v0,
                d0,
                i,
            ) by {
                assert(dirent_at(v1, d0, i) == dirent_at(v0, d0, i));
            }
            // hence the erase tombstoned exactly the matching originals
            assert forall|i: int|
                0 <= i < dir_count(d0) implies #[trigger] dirent_at(vf, d0, i) == if name_of(
                    dirent_at(v0, d0, i).name,
                ) == name@ {
                    DirEntModel { name: Seq::new(28, |k: int| 0u8), inode_id: 0 }
                } else {
                    dirent_at(v0, d0, i)
                } by {}
            // no slot carries the name any more
            assert(name_of(Seq::new(28, |k: int| 0u8)) =~= Seq::<u8>::empty()) by {
                crate::layout::lemma_nul_pos(Seq::new(28, |k: int| 0u8), 0, 0);
            }
            assert forall|i: int|
                0 <= i < dir_count(d0) implies name_of(
                #[trigger] dirent_at(vf, d0, i).name,
            ) != name@ by {
                if name_of(dirent_at(v0, d0, i).name) == name@ {
                    assert(dirent_at(vf, d0, i).name == Seq::new(28, |k: int| 0u8));
                }
            }
            // the target's record survived the erase
            assert(th.model(fsf) == tm2) by {
                fs2.cache.lemma_view_wf();
                fs.cache.lemma_view_wf();
                if th.block_id == self.block_id {
                    assert(th.block_offset / 128 != self.block_offset / 128);
                    assert(th.block_offset + DISK_INODE_SZ <= self.block_offset
                        || self.block_offset + DISK_INODE_SZ <= th.block_offset)
                        by (nonlinear_arith)
                        requires
                            th.block_offset / 128 != self.block_offset / 128,
                            th.block_offset % 128 == 0,
                            self.block_offset % 128 == 0,
                            0 <= th.block_offset,
                            0 <= self.block_offset,
                    ;
                    assert forall|k: int|
                        th.block_offset <= k < th.block_offset + DISK_INODE_SZ implies vf[th.block_id as int][k]
                        == v2[th.block_id as int][k] by {
                        assert(!tree_ids(v2, d0).contains(th.block_id as int)) by {
                            if tree_ids(v2, d0).contains(th.block_id as int) {
                                let w = choose|w: int|
                                    0 <= w < tree_ids(v2, d0).len() && tree_ids(v2, d0)[w]
                                        == th.block_id as int;
                                assert(fs2.data_block_allocated(tree_ids(v2, d0)[w]));
                            }
                        }
                    }
                    assert(vf[th.block_id as int].subrange(
                        th.block_offset as int,
                        th.block_offset + DISK_INODE_SZ,
                    ) =~= v2[th.block_id as int].subrange(
                        th.block_offset as int,
                        th.block_offset + DISK_INODE_SZ,
                    ));
                } else {
                    assert(!tree_ids(v2, d0).contains(th.block_id as int)) by {
                        if tree_ids(v2, d0).contains(th.block_id as int) {
                            let w = choose|w: int|
                                0 <= w < tree_ids(v2, d0).len() && tree_ids(v2, d0)[w]
                                    == th.block_id as int;
                            assert(fs2.data_block_allocated(tree_ids(v2, d0)[w]));
                        }
                    }
                    assert forall|k: int|
                        th.block_offset <= k < th.block_offset + DISK_INODE_SZ implies vf[th.block_id as int][k]
                        == v2[th.block_id as int][k] by {}
                    assert(vf[th.block_id as int].subrange(
                        th.block_offset as int,
                        th.block_offset + DISK_INODE_SZ,
                    ) =~= v2[th.block_id as int].subrange(
                        th.block_offset as int,
                        th.block_offset + DISK_INODE_SZ,
                    ));
                }
            }
            // link count, size, and accounting, by branch
            if cur_nlink == 0 {
                assert(tm0.nlink == 1);
                assert(tm2.size == 0 && tm2.nlink == tm1.nlink && tm1.nlink == tm0.nlink - 1);
                assert(fsf.free_data_bits() == fs2.free_data_bits());
                assert(fs2.free_data_bits() == fs1.free_data_bits() + total_blocks_of(
                    tm1.size,
                ));
                assert(tm1.size == tm0.size);
                assert(fs1.free_data_bits() == fs0.free_data_bits());
                assert forall|b: int|
                    das <= b < v0.len() implies #[trigger] fsf.data_block_allocated(b) == (
                fs0.data_block_allocated(b) && !tree_ids(v0, tm0).contains(b)) by {
                    assert(fsf.data_block_allocated(b) == fs2.data_block_allocated(b));
                    assert(fs2.data_block_allocated(b) == (fs1.data_block_allocated(b)
                        && !tree_ids(v1, tm1).contains(b)));
                    assert(fs1.data_block_allocated(b) == fs0.data_block_allocated(b));
                    assert(tree_ids(v1, tm1) == tree_ids(v0, tm0));
                }
            } else {
                assert(tm0.nlink > 1) by {
                    assert(tm1.nlink == if tm0.nlink >= 1 {
                        tm0.nlink - 1
                    } else {
                        0int
                    });
                }
                assert(tm2 == tm1);
                assert(tm1 == (InodeModel { nlink: tm0.nlink - 1, ..tm0 }));
                assert(fsf.free_data_bits() == fs2.free_data_bits());
                assert(fs2.free_data_bits() == fs0.free_data_bits());
                assert forall|b: int|
                    das <= b < v0.len() implies #[trigger] fsf.data_block_allocated(b)
                    == fs0.data_block_allocated(b) by {
                    assert(fsf.data_block_allocated(b) == fs2.data_block_allocated(b));
                    assert(fs2.data_block_allocated(b) == fs1.data_block_allocated(b));
                    assert(fs1.data_block_allocated(b) == fs0.data_block_allocated(b));
                }
            }
            // the byte-level frame, composed of the three steps
            assert forall|b: int, k: int|
                0 <= b < v0.len() && 0 <= k < BLOCK_SZ && !(b == self.block_id
                    && self.block_offset <= k < self.block_offset + DISK_INODE_SZ) && !(b
                    == th.block_id && th.block_offset <= k < th.block_offset + DISK_INODE_SZ)
                    && !(dbs <= b < das) && !tree_ids(v0, d0).contains(b) && !(tm0.nlink == 1
                    && tree_ids(v0, tm0).contains(b)) implies #[trigger] vf[b][k]
                == v0[b][k] by {
                assert(!tree_ids(v2, d0).contains(b)) by {
                    if tree_ids(v2, d0).contains(b) {
                        let w = choose|w: int|
                            0 <= w < tree_ids(v2, d0).len() && tree_ids(v2, d0)[w] == b;
                        assert(tree_ids(v0, d0)[w] == b);
                    }
                }
                assert(vf[b][k] == v2[b][k]);
                if cur_nlink == 0 {
                    assert(!tree_ids(v1, tm1).contains(b)) by {
                        assert(tree_ids(v1, tm1) == tree_ids(v0, tm0));
                        if tree_ids(v1, tm1).contains(b) {
                            let w = choose|w: int|
                                0 <= w < tree_ids(v0, tm0).len() && tree_ids(v0, tm0)[w] == b;
                        }
                    }
                    assert(v2[b][k] == v1[b][k]);
                } else {
                    assert(v2[b][k] == v1[b][k]);
                }
                assert(v1[b][k] == v0[b][k]);
            }
            assert(Self::unlinked_ok(*self, fs0, fsf, name@, i0));
            assert(fs0 == *old(fs));
        }
        0
    }

    /// Free an unlinked inode's content, leaving this directory — whose
    /// blocks are disjoint from the freed ones — untouched.
    #[verifier::rlimit(100)]
    fn clear_unlinked(&self, th: Inode, fs: &mut EasyFileSystem, Ghost(d0): Ghost<InodeModel>)
        requires
            old(fs).wf(),
            self.dir_wf(*old(fs)),
            d0 == self.model(*old(fs)),
            th.file_wf(*old(fs)),
            old(fs).inode_area_start_block <= th.block_id < old(fs).data_bitmap.start_block_id,
            th.block_offset % 128 == 0,
            th.block_offset + DISK_INODE_SZ <= BLOCK_SZ,
            th.handle_id(*old(fs)) != self.handle_id(*old(fs)),
            forall|b: int|
                !(tree_ids(old(fs).cache@, th.model(*old(fs))).contains(b) && tree_ids(
                    old(fs).cache@,
                    self.model(*old(fs)),
                ).contains(b)),
        ensures
            final(fs).wf(),
            final(fs).same_layout(old(fs)),
            final(fs).cache@.len() == old(fs).cache@.len(),
            self.dir_wf(*final(fs)),
            self.model(*final(fs)) == d0,
            tree_ids(final(fs).cache@, d0) == tree_ids(old(fs).cache@, d0),
            forall|i: int|
                0 <= i < dir_count(d0) ==> #[trigger] dirent_at(final(fs).cache@, d0, i)
                    == dirent_at(old(fs).cache@, d0, i),
            th.model(*final(fs)).size == 0,
            th.model(*final(fs)).nlink == th.model(*old(fs)).nlink,
            th.model(*final(fs)).ino == th.model(*old(fs)).ino,
            th.model(*final(fs)).is_dir == th.model(*old(fs)).is_dir,
            th.model(*final(fs)).mode == th.model(*old(fs)).mode,
            final(fs).free_data_bits() == old(fs).free_data_bits() + total_blocks_of(
                th.model(*old(fs)).size,
            ),
            forall|b: int|
                old(fs).data_area_start_block <= b < old(fs).cache@.len()
                    ==> final(fs).data_block_allocated(b) == (old(fs).data_block_allocated(b)
                    && !tree_ids(old(fs).cache@, th.model(*old(fs))).contains(b)),
            forall|b: int, k: int|
                0 <= b < old(fs).cache@.len() && 0 <= k < BLOCK_SZ && !(b == th.block_id
                    && th.block_offset <= k < th.block_offset + DISK_INODE_SZ) && !(
                old(fs).data_bitmap.start_block_id <= b < old(fs).data_area_start_block)
                    && !tree_ids(old(fs).cache@, th.model(*old(fs))).contains(b)
                    ==> final(fs).cache@[b][k] == old(fs).cache@[b][k],
    {
        let ghost fs1 = *fs;
        let ghost v1 = fs.cache@;
        th.clear(fs);
        let ghost fs2 = *fs;
        let ghost v2 = fs.cache@;
        proof {
            // the directory survives the clearing: its blocks are disjoint
            // from the freed ones
            assert(self.model(fs2) =~= d0) by {
                fs1.cache.lemma_view_wf();
                if th.block_id == self.block_id {
                    assert(th.handle_id(fs1) != self.handle_id(fs1));
                    assert(th.block_offset / 128 != self.block_offset / 128);
                    assert(th.block_offset + DISK_INODE_SZ <= self.block_offset
                        || self.block_offset + DISK_INODE_SZ <= th.block_offset)
                        by (nonlinear_arith)
                        requires
                            th.block_offset / 128 != self.block_offset / 128,
                            th.block_offset % 128 == 0,
                            self.block_offset % 128 == 0,
                            0 <= th.block_offset,
                            0 <= self.block_offset,
                    ;
                    assert forall|k: int|
                        self.block_offset <= k < self.block_offset
                            + DISK_INODE_SZ implies v2[self.block_id as int][k]
                        == v1[self.block_id as int][k] by {}
                    assert(v2[self.block_id as int].subrange(
                        self.block_offset as int,
                        self.block_offset + DISK_INODE_SZ,
                    ) =~= v1[self.block_id as int].subrange(
                        self.block_offset as int,
                        self.block_offset + DISK_INODE_SZ,
                    ));
                } else {
                    assert(v2[self.block_id as int] == v1[self.block_id as int]) by {
                        assert(!tree_ids(v1, th.model(fs1)).contains(self.block_id as int)) by {
                            if tree_ids(v1, th.model(fs1)).contains(self.block_id as int) {
                                let w = choose|w: int|
                                    0 <= w < tree_ids(v1, th.model(fs1)).len() && tree_ids(
                                        v1,
                                        th.model(fs1),
                                    )[w] == self.block_id as int;
                                assert(fs1.data_block_allocated(self.block_id as int));
                            }
                        }
                    }
                }
            }
            assert forall|t: int|
                0 <= t < tree_ids(v1, d0).len() implies v2[#[trigger] tree_ids(v1, d0)[t]]
                == v1[tree_ids(v1, d0)[t]] && fs2.data_block_allocated(
                tree_ids(v1, d0)[t],
            ) by {
                let db = tree_ids(v1, d0)[t];
                assert(!tree_ids(v1, th.model(fs1)).contains(db));
                assert(fs1.data_block_allocated(db));
                assert(db != th.block_id) by {
                    assert(fs1.data_block_allocated(db));
                }
            }
            assert(bit_is_set(v2, 1, self.handle_id(fs1))) by {
                let bb = 1 + self.handle_id(fs1) / 4096;
                assert(0 <= self.handle_id(fs1) / 4096 < fs1.inode_bitmap.blocks)
                    by (nonlinear_arith)
                    requires
                        0 <= self.handle_id(fs1) < fs1.inode_bitmap.blocks * 4096,
                ;
                assert(v2[bb] == v1[bb]);
            }
            lemma_untouched_dir(fs1, fs2, *self, d0);
        }
    }

    /// Overwrite every slot of this directory carrying `name` with the
    /// all-zero tombstone entry, leaving everything else — other entries,
    /// the directory's own record, every other block and both bitmaps —
    /// exactly as it was.
    #[verifier::rlimit(100)]
    fn erase_entries(&self, name: &Vec<u8>, fs: &mut EasyFileSystem)
        requires
            old(fs).wf(),
            self.dir_wf(*old(fs)),
            1 <= name@.len() <= NAME_LENGTH_LIMIT,
        ensures
            final(fs).wf(),
            final(fs).same_layout(old(fs)),
            final(fs).cache@.len() == old(fs).cache@.len(),
            self.dir_wf(*final(fs)),
            self.model(*final(fs)) == self.model(*old(fs)),
            tree_ids(final(fs).cache@, self.model(*final(fs))) == tree_ids(
                old(fs).cache@,
                self.model(*old(fs)),
            ),
            forall|i: int|
                0 <= i < dir_count(self.model(*old(fs))) ==> #[trigger] dirent_at(
                    final(fs).cache@,
                    self.model(*final(fs)),
                    i,
                ) == if name_of(dirent_at(old(fs).cache@, self.model(*old(fs)), i).name)
                    == name@ {
                    DirEntModel { name: Seq::new(28, |k: int| 0u8), inode_id: 0 }
                } else {
                    dirent_at(old(fs).cache@, self.model(*old(fs)), i)
                },
            final(fs).free_data_bits() == old(fs).free_data_bits(),
            forall|b: int|
                old(fs).data_area_start_block <= b < old(fs).cache@.len()
                    ==> final(fs).data_block_allocated(b) == old(fs).data_block_allocated(b),
            forall|b: int, k: int|
                0 <= b < old(fs).cache@.len() && 0 <= k < BLOCK_SZ && !(b == self.block_id
                    && self.block_offset <= k < self.block_offset + DISK_INODE_SZ) && !(
                old(fs).data_bitmap.start_block_id <= b < old(fs).data_area_start_block)
                    && !tree_ids(old(fs).cache@, self.model(*old(fs))).contains(b)
                    ==> final(fs).cache@[b][k] == old(fs).cache@[b][k],
    {
        let ghost fs0 = *fs;
        let ghost v0 = fs.cache@;
        let ghost d0 = self.model(*fs);
        let disk_inode = self.read_disk_inode(fs);
        let file_count: u32 = disk_inode.size / DIRENT_SZ as u32;
        proof {
            assert(dir_count(d0) * 32 == d0.size) by (nonlinear_arith)
                requires
                    d0.size % 32 == 0,
                    dir_count(d0) == d0.size / 32,
                    0 <= d0.size,
            ;
        }
        let mut i: u32 = 0;
        while i < file_count
            invariant
                fs.wf(),
                fs.same_layout(&fs0),
                fs.cache@.len() == fs0.cache@.len(),
                fs0.wf(),
                fs0.cache@ == v0,
                self.dir_wf(fs0),
                d0 == self.model(fs0),
                self.dir_wf(*fs),
                self.model(*fs) == d0,
                tree_ids(fs.cache@, d0) == tree_ids(v0, d0),
                d0.size % 32 == 0,
                dir_count(d0) * 32 == d0.size,
                file_count == dir_count(d0),
                1 <= name@.len() <= NAME_LENGTH_LIMIT,
                i <= file_count,
                forall|i2: int|
                    0 <= i2 < i ==> #[trigger] dirent_at(fs.cache@, d0, i2) == if name_of(
                        dirent_at(v0, d0, i2).name,
                    ) == name@ {
                        DirEntModel { name: Seq::new(28, |k: int| 0u8), inode_id: 0 }
                    } else {
                        dirent_at(v0, d0, i2)
                    },
                forall|i2: int|
                    i <= i2 < dir_count(d0) ==> #[trigger] dirent_at(fs.cache@, d0, i2)
                        == dirent_at(v0, d0, i2),
                fs.free_data_bits() == fs0.free_data_bits(),
                forall|b: int|
                    fs0.data_area_start_block <= b < v0.len()
                        ==> #[trigger] fs.data_block_allocated(b) == fs0.data_block_allocated(
                        b,
                    ),
                forall|b: int, k: int|
                    0 <= b < v0.len() && 0 <= k < BLOCK_SZ && !(b == self.block_id
                        && self.block_offset <= k < self.block_offset + DISK_INODE_SZ) && !(
                    fs0.data_bitmap.start_block_id <= b < fs0.data_area_start_block)
                        && !tree_ids(v0, d0).contains(b) ==> #[trigger] fs.cache@[b][k]
                        == v0[b][k],
            decreases file_count - i,
        {
            let ghost fsp = *fs;
            let ghost vp = fs.cache@;
            let cur = self.read_disk_inode(fs);
            let mut buf: Vec<u8> = vec![0u8; DIRENT_SZ];
            proof {
                assert(32 * (i as int) + 32 <= d0.size) by (nonlinear_arith)
                    requires
                        (i as int) < dir_count(d0),
                        dir_count(d0) * 32 == d0.size,
                ;
            }
            let _got = cur.read_at(DIRENT_SZ * i as usize, &mut buf, &mut fs.cache);
            let entry = DirEntry::decode(&buf);
            proof {
                reveal(dirent_at);
                assert(entry@.name =~= dirent_at(vp, d0, i as int).name);
            }
            let entry_name = entry.name();
            if Self::bytes_eq(&entry_name, name) {
                let empty = DirEntry::empty();
                let ebytes = empty.encode();
                proof {
                    crate::layout::lemma_total_blocks_monotone(d0.size, d0.size);
                    assert forall|k: int| 0 <= k < 32 implies ebytes@[k] == 0u8 by {
                        if k < 28 {
                            assert(crate::layout::dirent_model_of(ebytes@).name[k]
                                == ebytes@[k]);
                            assert(empty@.name[k] == 0);
                        } else {
                            assert(crate::le32_at(ebytes@, 28) == 0);
                        }
                    }
                }
                let _n = self.write_at(DIRENT_SZ * i as usize, &ebytes, fs);
                proof {
                    let vf = fs.cache@;
                    assert(self.model(*fs) == d0);
                    assert(tree_ids(vf, d0) == tree_ids(vp, d0));
                    assert forall|i2: int|
                        0 <= i2 < dir_count(d0) && i2 != i implies #[trigger] dirent_at(
                        vf,
                        d0,
                        i2,
                    ) == dirent_at(vp, d0, i2) by {
                        reveal(dirent_at);
                        assert forall|k: int|
                            0 <= k < 32 implies #[trigger] byte_at(vf, d0, 32 * i2 + k)
                            == byte_at(vp, d0, 32 * i2 + k) by {
                            assert(0 <= 32 * i2 + k < d0.size && !(32 * (i as int) <= 32 * i2
                                + k < 32 * (i as int) + 32)) by (nonlinear_arith)
                                requires
                                    0 <= i2 < dir_count(d0),
                                    i2 != i as int,
                                    0 <= k < 32,
                                    dir_count(d0) * 32 == d0.size,
                            ;
                        }
                        assert(dirent_at(vf, d0, i2).name =~= dirent_at(vp, d0, i2).name);
                    }
                    assert(dirent_at(vf, d0, i as int) == (DirEntModel {
                        name: Seq::new(28, |k: int| 0u8),
                        inode_id: 0,
                    })) by {
                        reveal(dirent_at);
                        assert forall|k: int|
                            0 <= k < 32 implies #[trigger] byte_at(vf, d0, 32 * (i as int) + k)
                            == 0u8 by {
                            assert(byte_at(vf, d0, 32 * (i as int) + k) == ebytes@[k]);
                        }
                        assert(dirent_at(vf, d0, i as int).name =~= Seq::new(28, |k: int| 0u8));
                    }
                    // bits and free count are untouched: the tree's blocks
                    // were already allocated
                    assert forall|b: int|
                        fs0.data_area_start_block <= b < v0.len()
                            implies #[trigger] fs.data_block_allocated(b)
                        == fs0.data_block_allocated(b) by {
                        if tree_ids(vf, d0).contains(b) {
                            let w = choose|w: int|
                                0 <= w < tree_ids(vf, d0).len() && tree_ids(vf, d0)[w] == b;
                            assert(tree_ids(vp, d0)[w] == b);
                            assert(fsp.data_block_allocated(tree_ids(vp, d0)[w]));
                        }
                        assert(fsp.data_block_allocated(b) == fs0.data_block_allocated(b));
                    }
                    // the frame carries through this write
                    assert forall|b: int, k: int|
                        0 <= b < v0.len() && 0 <= k < BLOCK_SZ && !(b == self.block_id
                            && self.block_offset <= k < self.block_offset + DISK_INODE_SZ)
                            && !(fs0.data_bitmap.start_block_id <= b
                            < fs0.data_area_start_block) && !tree_ids(v0, d0).contains(
                            b,
                        ) implies #[trigger] fs.cache@[b][k] == v0[b][k] by {
                        assert(!tree_ids(vf, d0).contains(b)) by {
                            if tree_ids(vf, d0).contains(b) {
                                let w = choose|w: int|
                                    0 <= w < tree_ids(vf, d0).len() && tree_ids(vf, d0)[w]
                                        == b;
                                assert(tree_ids(v0, d0)[w] == b);
                            }
                        }
                        if b == self.block_id {
                            assert(fs.cache@[b][k] == vp[b][k]);
                        } else {
                            assert(fs.cache@[b][k] == vp[b][k]);
                        }
                    }
                }
            } else {
                proof {
                    assert(fs.cache@ == vp);
                    assert forall|b: int|
                        fs0.data_area_start_block <= b < v0.len()
                            implies #[trigger] fs.data_block_allocated(b)
                        == fs0.data_block_allocated(b) by {
                        assert(fs.data_block_allocated(b) == fsp.data_block_allocated(b));
                        assert(fsp.data_block_allocated(b) == fs0.data_block_allocated(b));
                    }
                    assert(fs.free_data_bits() == fsp.free_data_bits());
                }
            }
            i = i + 1;
        }
    }

    /// Every name in the directory, tombstones left out.
    pub fn ls(&self, fs: &mut EasyFileSystem) -> (r: Vec<Vec<u8>>)
        requires
            old(fs).wf(),
            self.dir_wf(*old(fs)),
        ensures
            final(fs).wf(),
            final(fs).cache@ == old(fs).cache@,
            final(fs).same_layout(old(fs)),
            r@.map_values(|x: Vec<u8>| x@) == live_names(
                old(fs).cache@,
                self.model(*old(fs)),
                dir_count(self.model(*old(fs))),
            ),
    {
        let ghost v0 = fs.cache@;
        let ghost d = self.model(*fs);
        let disk_inode = self.read_disk_inode(fs);
        let file_count: u32 = disk_inode.size / DIRENT_SZ as u32;
        proof {
            assert(file_count == dir_count(d));
            assert(dir_count(d) * 32 == d.size) by (nonlinear_arith)
                requires
                    d.size % 32 == 0,
                    dir_count(d) == d.size / 32,
                    0 <= d.size,
            ;
        }
        let mut r: Vec<Vec<u8>> = Vec::new();
        let mut i: u32 = 0;
        while i < file_count
            invariant
                fs.wf(),
                fs.cache@ == v0,
                fs.same_layout(&*old(fs)),
                disk_inode.wf(),
                disk_inode@ == d,
                d == self.model(*old(fs)),
                self.dir_wf(*old(fs)),
                old(fs).cache@ == v0,
                file_count == dir_count(d),
                dir_count(d) * 32 == d.size,
                i <= file_count,
                r@.map_values(|x: Vec<u8>| x@) == live_names(v0, d, i as int),
            decreases file_count - i,
        {
            let mut buf: Vec<u8> = vec![0u8; DIRENT_SZ];
            proof {
                assert(32 * (i as int) + 32 <= d.size) by (nonlinear_arith)
                    requires
                        (i as int) < dir_count(d),
                        dir_count(d) * 32 == d.size,
                ;
            }
            let _got = disk_inode.read_at(DIRENT_SZ * i as usize, &mut buf, &mut fs.cache);
            let entry = DirEntry::decode(&buf);
            proof {
                reveal(dirent_at);
                assert(entry@.name =~= dirent_at(v0, d, i as int).name);
            }
            let ghost rpre = r@;
            let entry_name = entry.name();
            if entry_name.len() > 0 {
                r.push(entry_name);
            }
            i = i + 1;
            proof {
                let m = r@.map_values(|x: Vec<u8>| x@);
                let mpre = rpre.map_values(|x: Vec<u8>| x@);
                if name_of(dirent_at(v0, d, i - 1).name).len() > 0 {
                    assert(r@ == rpre.push(r@[r@.len() - 1]));
                    assert(m =~= mpre.push(name_of(dirent_at(v0, d, i - 1).name)));
                } else {
                    assert(m =~= mpre);
                }
            }
        }
        r
    }
}

impl EasyFileSystem {
    /// The handle of the root directory: inode 0, the first record of the
    /// inode area.
    pub fn root_inode(&self) -> (r: Inode)
        requires
            self.wf(),
        ensures
            r.block_id == self.inode_area_start_block,
            r.block_offset == 0,
            r.handle_id(*self) == 0,
    {
        let (block_id, block_offset) = self.get_disk_inode_pos(0);
        Inode { block_id: block_id as usize, block_offset }
    }
}

} // verus!
