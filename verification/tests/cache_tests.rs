// The block cache: its virtual-disk view, write-back and FIFO eviction.

use easy_fs::block_cache::BlockCacheManager;
use easy_fs::block_dev::BlockDevice;

#[test]
fn cache_read_write() {
    let device = BlockDevice::new(64);
    let mut cache = BlockCacheManager::new(device);
    cache.write_bytes(3, 10, &vec![1, 2, 3, 4]);
    let got = cache.read_bytes(3, 9, 6);
    assert_eq!(got, vec![0, 1, 2, 3, 4, 0]);
    cache.write_u32(5, 0, 0xAABBCCDD);
    assert_eq!(cache.read_u32(5, 0), 0xAABBCCDD);
    assert_eq!(cache.read_bytes(5, 0, 4), vec![0xDD, 0xCC, 0xBB, 0xAA]);
}

#[test]
fn eviction_flushes_dirty_front() {
    let device = BlockDevice::new(64);
    let mut cache = BlockCacheManager::new(device);
    let pattern: Vec<u8> = (0..512u32).map(|i| (i % 256) as u8).collect();
    cache.write_bytes(0, 0, &pattern);
    assert!(cache.is_cached(0));
    // not yet on the device: the write sits in the cache
    assert_ne!(cache.disk_block(0), pattern);
    // sixteen further blocks evict the first, flushing it
    for b in 1..=16usize {
        let _ = cache.read_bytes(b, 0, 1);
    }
    assert_eq!(cache.cached_count(), 16);
    assert!(!cache.is_cached(0), "the oldest entry left");
    assert_eq!(cache.disk_block(0), pattern, "its dirty buffer reached the device");
    // reading it again sees the written bytes
    assert_eq!(cache.read_bytes(0, 0, 512), pattern);
}

#[test]
fn sync_all_reaches_the_device() {
    let device = BlockDevice::new(8);
    let mut cache = BlockCacheManager::new(device);
    cache.write_bytes(2, 0, &vec![7u8; 512]);
    assert_ne!(cache.disk_block(2), vec![7u8; 512]);
    cache.sync_all();
    assert_eq!(cache.disk_block(2), vec![7u8; 512]);
}
