use oscore::bitmap::Bitmap;
use oscore::block_cache::{BlockCacheManager, BLOCK_CACHE_SIZE};
use oscore::block_dev::{BlockDevice, MemoryDisk, BLOCK_SIZE};
use oscore::dirent::DirEntry;
use oscore::efs::FileSystem;
use oscore::inode::{DiskINode, INodeType};
use oscore::layout::{SuperBlock, FS_MAGIC};

fn fresh_fs() -> FileSystem<MemoryDisk> {
    let disk = MemoryDisk::new(4096);
    let mut fs = FileSystem::create(disk, 4096, 1);
    let root = fs.create_root_inode();
    assert_eq!(root, Some(0));
    fs
}

fn name_of(bytes: &[u8]) -> Vec<u8> {
    bytes.to_vec()
}

#[test]
fn superblock_round_trip() {
    // create on a 4096-block device with one inode bitmap block, then
    // reopen and compare the recorded layout
    let disk = MemoryDisk::new(4096);
    let fs = FileSystem::create(disk, 4096, 1);
    let inode_bm = fs.inode_bitmap.blocks;
    let data_bm = fs.data_bitmap.blocks;
    assert_eq!(inode_bm, 1);
    let device = fs.into_device();
    let reopened = FileSystem::open(device).expect("magic must be valid after create");
    assert_eq!(reopened.inode_bitmap.blocks, 1);
    assert_eq!(reopened.data_bitmap.blocks, data_bm);
    // the super block itself holds the magic and 1024 inode blocks per
    // bitmap block
    let mut mgr = BlockCacheManager::new(reopened.into_device());
    let sb = SuperBlock::load(&mut mgr);
    assert!(sb.is_valid());
    assert_eq!(sb.magic, FS_MAGIC);
    assert_eq!(sb.inode_bitmap_blocks, 1);
    assert_eq!(sb.inode_blocks, 1024);
}

#[test]
fn open_refuses_bad_magic() {
    let disk = MemoryDisk::new(64);
    // no file system was ever created on this disk
    assert!(FileSystem::open(disk).is_none());
}

#[test]
fn root_listing_in_creation_order() {
    let mut fs = fresh_fs();
    let root = fs.root_inode();
    assert_eq!(root.ls(&mut fs).len(), 0);
    assert!(root.create(&name_of(b"a"), &mut fs).is_some());
    assert!(root.create(&name_of(b"b"), &mut fs).is_some());
    let names = root.ls(&mut fs);
    assert_eq!(names.len(), 2);
    assert_eq!(names[0], b"a".to_vec());
    assert_eq!(names[1], b"b".to_vec());
}

#[test]
fn duplicate_create_returns_none() {
    let mut fs = fresh_fs();
    let root = fs.root_inode();
    assert!(root.create(&name_of(b"a"), &mut fs).is_some());
    assert!(root.create(&name_of(b"a"), &mut fs).is_none());
    let names = root.ls(&mut fs);
    assert_eq!(names.len(), 1);
    assert_eq!(names[0], b"a".to_vec());
}

#[test]
fn find_returns_the_created_file() {
    let mut fs = fresh_fs();
    let root = fs.root_inode();
    let created = root.create(&name_of(b"hello"), &mut fs).unwrap();
    let found = root.find(&name_of(b"hello"), &mut fs).unwrap();
    assert_eq!(found, created);
    assert!(root.find(&name_of(b"missing"), &mut fs).is_none());
}

#[test]
fn file_round_trip_across_indirect1_boundary() {
    // 32 KiB spans 64 data blocks: 28 direct and 36 through indirect1
    let mut fs = fresh_fs();
    let root = fs.root_inode();
    let file = root.create(&name_of(b"big"), &mut fs).unwrap();
    let mut data = Vec::new();
    for i in 0..32768usize {
        data.push((i % 251) as u8);
    }
    assert!(file.write_at(0, &data, &mut fs));
    let back = file.read_at(0, 32768, &mut fs);
    assert_eq!(back, data);
    let ino = file.read_disk_inode(&mut fs);
    assert_eq!(ino.size, 32768);
    assert!(ino.indirect1 != 0);
    assert_eq!(ino.indirect2, 0);
}

#[test]
fn write_at_grows_to_max_of_old_and_end() {
    let mut fs = fresh_fs();
    let root = fs.root_inode();
    let file = root.create(&name_of(b"f"), &mut fs).unwrap();
    let payload = vec![7u8; 100];
    assert!(file.write_at(50, &payload, &mut fs));
    let ino = file.read_disk_inode(&mut fs);
    assert_eq!(ino.size, 150);
    // a shorter write near the start must not shrink the file
    assert!(file.write_at(0, &vec![9u8; 10], &mut fs));
    let ino2 = file.read_disk_inode(&mut fs);
    assert_eq!(ino2.size, 150);
    let back = file.read_at(50, 100, &mut fs);
    assert_eq!(back, payload);
}

#[test]
fn two_files_do_not_disturb_each_other() {
    let mut fs = fresh_fs();
    let root = fs.root_inode();
    let fa = root.create(&name_of(b"a"), &mut fs).unwrap();
    let fb = root.create(&name_of(b"b"), &mut fs).unwrap();
    assert!(fa.write_at(0, &vec![1u8; 2000], &mut fs));
    assert!(fb.write_at(0, &vec![2u8; 2000], &mut fs));
    assert!(fa.write_at(100, &vec![3u8; 50], &mut fs));
    assert_eq!(fb.read_at(0, 2000, &mut fs), vec![2u8; 2000]);
    assert_eq!(fa.read_at(0, 100, &mut fs), vec![1u8; 100]);
    assert_eq!(fa.read_at(100, 50, &mut fs), vec![3u8; 50]);
    assert_eq!(fa.read_at(150, 1850, &mut fs), vec![1u8; 1850]);
}

#[test]
fn bitmap_realloc_returns_freed_bit() {
    let disk = MemoryDisk::new(8);
    let mut mgr = BlockCacheManager::new(disk);
    let bm = Bitmap::new(1, 1);
    let first = bm.alloc_block(&mut mgr).unwrap();
    assert_eq!(first, 0);
    let second = bm.alloc_block(&mut mgr).unwrap();
    assert_eq!(second, 1);
    bm.dealloc(first, &mut mgr);
    // the freed bit is the lowest clear bit again
    let third = bm.alloc_block(&mut mgr).unwrap();
    assert_eq!(third, first);
}

#[test]
fn bitmap_exhaustion_returns_none() {
    let disk = MemoryDisk::new(8);
    let mut mgr = BlockCacheManager::new(disk);
    let bm = Bitmap::new(1, 1);
    for expected in 0..4096u32 {
        assert_eq!(bm.alloc_block(&mut mgr), Some(expected));
    }
    assert_eq!(bm.alloc_block(&mut mgr), None);
}

#[test]
fn block_cache_bounded_and_write_back() {
    let disk = MemoryDisk::new(64);
    let mut mgr = BlockCacheManager::new(disk);
    // touch twice the cache capacity in blocks
    for b in 0..(2 * BLOCK_CACHE_SIZE) {
        mgr.write_range(b, 0, &vec![b as u8 + 1]);
        assert!(mgr.caches.len() <= BLOCK_CACHE_SIZE);
    }
    mgr.flush();
    assert_eq!(mgr.caches.len(), 0);
    for b in 0..(2 * BLOCK_CACHE_SIZE) {
        assert_eq!(mgr.device.data[b][0], b as u8 + 1);
    }
}

#[test]
fn block_cache_read_sees_writes() {
    let disk = MemoryDisk::new(4);
    let mut mgr = BlockCacheManager::new(disk);
    mgr.write_range(2, 100, &vec![5, 6, 7]);
    assert_eq!(mgr.read_range(2, 99, 5), vec![0, 5, 6, 7, 0]);
    mgr.clear_block(2);
    assert_eq!(mgr.read_range(2, 99, 5), vec![0, 0, 0, 0, 0]);
}

#[test]
fn dir_entry_name_stops_at_nul() {
    let e = DirEntry::new(&b"hello".to_vec(), 42);
    assert_eq!(e.name_bytes(), b"hello".to_vec());
    assert_eq!(e.inode_id, 42);
    let empty = DirEntry::empty();
    assert_eq!(empty.name_bytes().len(), 0);
    assert_eq!(empty.inode_id, 0);
}

#[test]
fn disk_inode_block_counts() {
    assert_eq!(DiskINode::data_blocks_for_size(0), 0);
    assert_eq!(DiskINode::data_blocks_for_size(1), 1);
    assert_eq!(DiskINode::data_blocks_for_size(512), 1);
    assert_eq!(DiskINode::data_blocks_for_size(513), 2);
    // no index blocks while the direct pointers cover the file
    assert_eq!(DiskINode::index_blocks_for_size(28 * 512), 0);
    // one indirect1 block right after
    assert_eq!(DiskINode::index_blocks_for_size(28 * 512 + 1), 1);
    assert_eq!(DiskINode::index_blocks_for_size(156 * 512), 1);
    // indirect2 plus one first-level block after that
    assert_eq!(DiskINode::index_blocks_for_size(156 * 512 + 1), 3);
    let mut ino = DiskINode::empty(INodeType::File);
    ino.size = 1024;
    assert_eq!(ino.data_blocks(), 2);
    assert_eq!(ino.total_blocks(), 3);
}

#[test]
fn inode_record_store_and_load() {
    let disk = MemoryDisk::new(8);
    let mut mgr = BlockCacheManager::new(disk);
    let mut ino = DiskINode::empty(INodeType::Directory);
    ino.size = 96;
    ino.indirect1 = 7;
    let mut d = ino.direct.clone();
    d[0] = 1234;
    ino.direct = d;
    ino.store(&mut mgr, 3, 256);
    let back = DiskINode::load(&mut mgr, 3, 256);
    assert_eq!(back.size, 96);
    assert_eq!(back.indirect1, 7);
    assert_eq!(back.indirect2, 0);
    assert_eq!(back.direct[0], 1234);
    assert!(back.is_dir());
}

#[test]
fn memory_disk_blocks_start_zeroed() {
    let disk = MemoryDisk::new(3);
    assert_eq!(disk.num_blocks(), 3);
    for b in 0..3 {
        assert_eq!(disk.data[b], vec![0u8; BLOCK_SIZE]);
    }
}

#[test]
fn alloc_data_block_is_in_data_area() {
    let mut fs = fresh_fs();
    let start = fs.data_area_start;
    let b1 = fs.alloc_data_block().unwrap();
    let b2 = fs.alloc_data_block().unwrap();
    assert_eq!(b1, start);
    assert_eq!(b2, start + 1);
    fs.dealloc_data_block(b1);
    assert_eq!(fs.alloc_data_block(), Some(b1));
}

#[test]
fn created_file_starts_empty() {
    let mut fs = fresh_fs();
    let root = fs.root_inode();
    let f = root.create(&name_of(b"empty"), &mut fs).unwrap();
    let ino = f.read_disk_inode(&mut fs);
    assert_eq!(ino.size, 0);
    assert!(!ino.is_dir());
    assert_eq!(f.read_at(0, 0, &mut fs).len(), 0);
}

#[test]
fn write_fails_when_data_area_is_full() {
    // the smallest layout: one inode bitmap block leaves two usable
    // data blocks on a 1030-block disk
    let disk = MemoryDisk::new(1030);
    let mut fs = FileSystem::create(disk, 1030, 1);
    assert_eq!(fs.create_root_inode(), Some(0));
    let root = fs.root_inode();
    let file = root.create(&name_of(b"f"), &mut fs).unwrap();
    // the directory entry consumed one data block; one remains
    assert!(file.write_at(0, &vec![1u8; 512], &mut fs));
    let before = file.read_disk_inode(&mut fs).size;
    assert!(!file.write_at(0, &vec![1u8; 3 * 512], &mut fs));
    // the failed write left the file as it was
    assert_eq!(file.read_disk_inode(&mut fs).size, before);
    assert_eq!(file.read_at(0, 512, &mut fs), vec![1u8; 512]);
}

#[test]
fn inode_allocation_is_sequential() {
    let mut fs = fresh_fs();
    assert_eq!(fs.alloc_inode(), Some(1));
    assert_eq!(fs.alloc_inode(), Some(2));
    let (block, inner, off) = fs.get_inode_block_id(5);
    assert_eq!(block, fs.inode_area_start + 1);
    assert_eq!(inner, 1);
    assert_eq!(off, 128);
}
