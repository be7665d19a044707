// The on-disk records and the task-side bookkeeping.

use easy_fs::layout::{DirEntry, DiskInode, DiskInodeType, Stat, StatMode};
use easy_fs::task_ctrl::{TaskContext, TaskControlBlock, TaskInfo, TaskStatus, get_base_i};
use easy_fs::bitmap::decomposition;
use easy_fs::{u32_from_le, u32_to_le, push_u32};

#[test]
fn le32_round_trip() {
    for x in [0u32, 1, 0x1234_5678, u32::MAX] {
        let (b0, b1, b2, b3) = u32_to_le(x);
        assert_eq!(u32_from_le(b0, b1, b2, b3), x);
    }
    let mut v = Vec::new();
    push_u32(&mut v, 0xCAFE_F00D);
    assert_eq!(v, vec![0x0D, 0xF0, 0xFE, 0xCA]);
}

#[test]
fn dirent_round_trip() {
    let e = DirEntry::new(&b"a-name".to_vec(), 42);
    let bytes = e.encode();
    assert_eq!(bytes.len(), 32);
    let back = DirEntry::decode(&bytes);
    assert_eq!(back.name(), b"a-name".to_vec());
    assert_eq!(back.inode_id(), 42);
    let empty = DirEntry::empty();
    assert_eq!(empty.name(), Vec::<u8>::new());
    assert_eq!(empty.inode_id(), 0);
}

#[test]
fn disk_inode_round_trip() {
    let zeros = vec![0u8; 128];
    let mut d = DiskInode::decode(&zeros);
    d.initialize(7, DiskInodeType::Directory);
    assert!(d.is_dir());
    assert!(!d.is_file());
    assert_eq!(d.stat.nlink, 1);
    let bytes = d.encode();
    assert_eq!(bytes.len(), 128);
    let back = DiskInode::decode(&bytes);
    assert!(back.is_dir());
    assert_eq!(back.stat.ino, 7);
    assert_eq!(back.stat.nlink, 1);
    assert_eq!(back.size, 0);
}

#[test]
fn block_math() {
    assert_eq!(DiskInode::total_blocks(0), 0);
    assert_eq!(DiskInode::total_blocks(512), 1);
    assert_eq!(DiskInode::total_blocks(8 * 512), 8);
    assert_eq!(DiskInode::total_blocks(9 * 512), 10); // + indirect1
    assert_eq!(DiskInode::total_blocks(136 * 512), 137);
    assert_eq!(DiskInode::total_blocks(137 * 512), 140); // + indirect2 + one sub
    assert_eq!(decomposition(4096 + 65), (1, 1, 1));
    assert_eq!(decomposition(0), (0, 0, 0));
}

#[test]
fn stat_link_counters() {
    let mut s = Stat::new(9, 5, StatMode::file(), 1);
    assert_eq!(s.dev, 0, "the device id is always zero");
    s.increase_plink();
    assert_eq!(s.nlink, 2);
    assert_eq!(s.decrease_plink(), 1);
    assert_eq!(s.decrease_plink(), 0);
    assert_eq!(s.decrease_plink(), 0, "the count stops at zero");
}

#[test]
fn task_records() {
    let cx = TaskContext::zero_init();
    assert_eq!(cx.ra, 0);
    assert_eq!(cx.sp, 0);
    assert_eq!(cx.s, vec![0usize; 12]);
    let cx2 = TaskContext::goto_trap_return(0x8020_0000, 0x8100_0000);
    assert_eq!(cx2.ra, 0x8020_0000);
    assert_eq!(cx2.sp, 0x8100_0000);
    let mut tcb = TaskControlBlock {
        task_status: TaskStatus::Running,
        task_cx: TaskContext::zero_init(),
        task_info: TaskInfo::new(TaskStatus::Running),
        start_time: 1_000,
    };
    assert_eq!(tcb.time_elapsed(6_000), 5);
    assert_eq!(tcb.task_info.time, 5);
    tcb.syscall_record_update(64);
    tcb.syscall_record_update(64);
    assert_eq!(tcb.task_info.syscall_times[64], 2);
    assert_eq!(get_base_i(2), 0x80400000 + 2 * 0x20000);
}
