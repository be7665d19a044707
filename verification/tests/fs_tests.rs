// The filesystem, exercised end to end over an in-memory device.

use easy_fs::block_dev::BlockDevice;
use easy_fs::efs::EasyFileSystem;
use easy_fs::layout::{DiskInode, MODE_DIR, MODE_FILE};

fn fresh_fs() -> EasyFileSystem {
    let device = BlockDevice::new(4096);
    EasyFileSystem::create(device, 4096, 1)
}

#[test]
fn root_bootstrap() {
    let mut fs = fresh_fs();
    fs.cache.sync_all();
    let device = fs.cache.into_device();
    let reopened = EasyFileSystem::open(device);
    let mut fs = reopened.expect("a freshly created filesystem mounts");
    let root = fs.root_inode();
    let st = root.stat(&mut fs);
    assert_eq!(st.ino, 0);
    assert_eq!(st.nlink, 1);
    assert_eq!(st.mode.bits, MODE_DIR);
    assert_eq!(st.dev, 0);
    let names = root.ls(&mut fs);
    assert!(names.is_empty());
}

#[test]
fn create_and_find() {
    let mut fs = fresh_fs();
    let root = fs.root_inode();
    let name = b"hello".to_vec();
    let ino = root.create(&name, &mut fs).expect("fresh name");
    let st = ino.stat(&mut fs);
    assert_eq!(st.nlink, 1);
    assert_eq!(st.mode.bits, MODE_FILE);
    let again = root.create(&name, &mut fs);
    assert!(again.is_none(), "duplicate names are refused");
    let found = root.find(&name, &mut fs).expect("created name resolves");
    assert_eq!(found.block_id, ino.block_id);
    assert_eq!(found.block_offset, ino.block_offset);
    let missing = root.find(&b"absent".to_vec(), &mut fs);
    assert!(missing.is_none());
    let names = root.ls(&mut fs);
    assert_eq!(names, vec![name]);
}

#[test]
fn write_read_round_trip() {
    let mut fs = fresh_fs();
    let root = fs.root_inode();
    let f = root.create(&b"f".to_vec(), &mut fs).unwrap();
    let data: Vec<u8> = (0..3000u32).map(|i| (i * 7 % 251) as u8).collect();
    let n = f.write_at(0, &data, &mut fs);
    assert_eq!(n, data.len());
    let mut buf = vec![0u8; data.len()];
    let m = f.read_at(0, &mut buf, &mut fs);
    assert_eq!(m, data.len());
    assert_eq!(buf, data);
    // a write in the middle leaves the rest alone
    let patch = vec![0xABu8; 100];
    f.write_at(700, &patch, &mut fs);
    let mut buf2 = vec![0u8; data.len()];
    f.read_at(0, &mut buf2, &mut fs);
    assert_eq!(&buf2[..700], &data[..700]);
    assert_eq!(&buf2[700..800], &patch[..]);
    assert_eq!(&buf2[800..], &data[800..]);
}

#[test]
fn read_past_end_is_truncated() {
    let mut fs = fresh_fs();
    let root = fs.root_inode();
    let f = root.create(&b"short".to_vec(), &mut fs).unwrap();
    f.write_at(0, &vec![9u8; 10], &mut fs);
    let mut buf = vec![1u8; 100];
    let n = f.read_at(0, &mut buf, &mut fs);
    assert_eq!(n, 10);
    assert_eq!(&buf[..10], &[9u8; 10]);
    assert_eq!(&buf[10..], &[1u8; 90]);
    let mut buf2 = vec![1u8; 4];
    let n2 = f.read_at(50, &mut buf2, &mut fs);
    assert_eq!(n2, 0);
}

#[test]
fn large_file() {
    let mut fs = fresh_fs();
    let root = fs.root_inode();
    let f = root.create(&b"big".to_vec(), &mut fs).unwrap();
    let data = vec![0x5Au8; 1_000_000];
    let n = f.write_at(0, &data, &mut fs);
    assert_eq!(n, 1_000_000);
    let mut buf = vec![0u8; 1_000_000];
    let m = f.read_at(0, &mut buf, &mut fs);
    assert_eq!(m, 1_000_000);
    assert_eq!(buf, data);
    // data blocks, one indirect1, one indirect2, and the sub-indirect1s
    assert_eq!(DiskInode::total_blocks(1_000_000), 1954 + 1 + 1 + 15);
}

#[test]
fn link_unlink() {
    let mut fs = fresh_fs();
    let root = fs.root_inode();
    let a = b"a".to_vec();
    let b = b"b".to_vec();
    let fa = root.create(&a, &mut fs).unwrap();
    fa.write_at(0, &vec![3u8; 600], &mut fs);
    let free_before_unlink = fs.count_free_data();
    assert_eq!(root.linkat(&a, &b, &mut fs), 0);
    assert_eq!(root.linkat(&a, &a, &mut fs), -1, "same name is refused");
    assert_eq!(root.linkat(&b"zz".to_vec(), &b"y".to_vec(), &mut fs), -1);
    let st = root.find(&a, &mut fs).unwrap().stat(&mut fs);
    assert_eq!(st.nlink, 2);
    assert_eq!(root.unlinkat(&a, &mut fs), 0);
    assert!(root.find(&a, &mut fs).is_none());
    let fb = root.find(&b, &mut fs).expect("the second link still resolves");
    let mut buf = vec![0u8; 600];
    fb.read_at(0, &mut buf, &mut fs);
    assert_eq!(buf, vec![3u8; 600], "content is intact after one unlink");
    assert_eq!(fb.stat(&mut fs).nlink, 1);
    assert_eq!(root.unlinkat(&b, &mut fs), 0);
    assert!(root.find(&b, &mut fs).is_none());
    // the file's two data blocks came back to the bitmap
    let free_after = fs.count_free_data();
    assert_eq!(free_after, free_before_unlink + 2);
    assert_eq!(root.unlinkat(&b, &mut fs), -1, "a gone name is refused");
}

#[test]
fn nlink_counts_match_entries() {
    // link conservation on a concrete run: each inode's nlink equals the
    // number of directory entries naming it
    let mut fs = fresh_fs();
    let root = fs.root_inode();
    let a = b"one".to_vec();
    root.create(&a, &mut fs).unwrap();
    root.linkat(&a, &b"two".to_vec(), &mut fs);
    root.linkat(&a, &b"three".to_vec(), &mut fs);
    let st = root.find(&a, &mut fs).unwrap().stat(&mut fs);
    assert_eq!(st.nlink as usize, root.ls(&mut fs).len());
    root.unlinkat(&b"two".to_vec(), &mut fs);
    let st2 = root.find(&a, &mut fs).unwrap().stat(&mut fs);
    assert_eq!(st2.nlink as usize, root.ls(&mut fs).len());
}

#[test]
fn alloc_inode_counts_up() {
    let mut fs = fresh_fs();
    // the root took inode 0 at creation
    assert_eq!(fs.alloc_inode(), 1);
    assert_eq!(fs.alloc_inode(), 2);
    assert_eq!(fs.alloc_inode(), 3);
}

#[test]
fn data_alloc_dealloc_involution() {
    let mut fs = fresh_fs();
    let before = fs.count_free_data();
    let b1 = fs.alloc_data();
    assert_eq!(fs.count_free_data(), before - 1);
    fs.dealloc_data(b1);
    assert_eq!(fs.count_free_data(), before);
    let b2 = fs.alloc_data();
    assert_eq!(b2, b1, "freeing restores the allocator's choice");
}

#[test]
fn data_conservation_over_writes() {
    // free bits drop by exactly what the file's tree occupies, and return
    // on unlink
    let mut fs = fresh_fs();
    let root = fs.root_inode();
    let base = fs.count_free_data();
    let f = root.create(&b"x".to_vec(), &mut fs).unwrap();
    let sz: usize = 100_000;
    f.write_at(0, &vec![1u8; sz], &mut fs);
    let used = DiskInode::total_blocks(sz as u32) as u64;
    // one more block holds the root directory's single entry
    assert_eq!(fs.count_free_data(), base - used - 1);
    root.unlinkat(&b"x".to_vec(), &mut fs);
    assert_eq!(fs.count_free_data(), base - 1);
}

#[test]
fn entries_survive_link_and_unlink() {
    // slots keep their order: the unlinked name leaves a tombstone, the
    // rest stay where they were
    let mut fs = fresh_fs();
    let root = fs.root_inode();
    for n in [b"f1".to_vec(), b"f2".to_vec(), b"f3".to_vec()] {
        root.create(&n, &mut fs).unwrap();
    }
    assert_eq!(root.linkat(&b"f2".to_vec(), &b"x".to_vec(), &mut fs), 0);
    assert_eq!(root.unlinkat(&b"f2".to_vec(), &mut fs), 0);
    let names = root.ls(&mut fs);
    assert_eq!(names, vec![b"f1".to_vec(), b"f3".to_vec(), b"x".to_vec()]);
    // the other link still reaches the inode
    assert_eq!(root.find(&b"x".to_vec(), &mut fs).unwrap().stat(&mut fs).nlink, 1);
}

#[test]
fn open_rejects_garbage() {
    let device = BlockDevice::new(64);
    assert!(EasyFileSystem::open(device).is_none(), "no magic, no mount");
}
