use easy_fs::dirent::DirEntry;
use easy_fs::efs::EasyFileSystem;
use easy_fs::vfs::Inode;

fn fresh_fs() -> EasyFileSystem {
    EasyFileSystem::new(16, 64)
}

#[test]
fn round_trip_write_then_read() {
    let mut fs = fresh_fs();
    let root = Inode::root();
    let file = root.create(&mut fs, "hello-file").expect("create");
    let written = file.write_at(&mut fs, 0, b"hello");
    assert_eq!(written, 5);
    let mut buf = vec![0u8; 5];
    let read = file.read_at(&fs, 0, &mut buf);
    assert_eq!(read, 5);
    assert_eq!(&buf, b"hello");
}

#[test]
fn read_past_end_returns_zero() {
    let mut fs = fresh_fs();
    let root = Inode::root();
    let file = root.create(&mut fs, "short").expect("create");
    file.write_at(&mut fs, 0, b"abc");
    let mut buf = vec![0u8; 4];
    assert_eq!(file.read_at(&fs, 3, &mut buf), 0);
    assert_eq!(file.read_at(&fs, 10, &mut buf), 0);
    // a read over the end is truncated, never an error
    assert_eq!(file.read_at(&fs, 1, &mut buf), 2);
    assert_eq!(&buf[..2], b"bc");
}

#[test]
fn write_at_offset_grows_with_zero_gap() {
    let mut fs = fresh_fs();
    let root = Inode::root();
    let file = root.create(&mut fs, "gap").expect("create");
    assert_eq!(file.write_at(&mut fs, 4, b"xy"), 2);
    let mut buf = vec![9u8; 6];
    assert_eq!(file.read_at(&fs, 0, &mut buf), 6);
    assert_eq!(&buf, &[0, 0, 0, 0, b'x', b'y']);
}

#[test]
fn monotonic_growth_under_writes() {
    let mut fs = fresh_fs();
    let root = Inode::root();
    let file = root.create(&mut fs, "grow").expect("create");
    let mut probe = vec![0u8; 4096];
    file.write_at(&mut fs, 0, &[1u8; 100]);
    assert_eq!(file.read_at(&fs, 0, &mut probe), 100);
    // a shorter later write never shrinks the file
    file.write_at(&mut fs, 0, &[2u8; 10]);
    assert_eq!(file.read_at(&fs, 0, &mut probe), 100);
    file.write_at(&mut fs, 600, &[3u8; 10]);
    assert_eq!(file.read_at(&fs, 0, &mut probe), 610);
    // only clear shrinks, and it shrinks to empty
    file.clear(&mut fs);
    assert_eq!(file.read_at(&fs, 0, &mut probe), 0);
}

#[test]
fn ls_lists_created_names_in_slot_order() {
    let mut fs = fresh_fs();
    let root = Inode::root();
    root.create(&mut fs, "a").unwrap();
    root.create(&mut fs, "b").unwrap();
    root.create(&mut fs, "c").unwrap();
    let names = root.ls(&fs);
    assert_eq!(names, vec!["a".to_string(), "b".to_string(), "c".to_string()]);
}

#[test]
fn duplicate_create_is_rejected_and_changes_nothing() {
    let mut fs = fresh_fs();
    let root = Inode::root();
    root.create(&mut fs, "dup").unwrap();
    let before_inodes = fs.free_inodes();
    let before_blocks = fs.free_data_blocks();
    assert!(root.create(&mut fs, "dup").is_none());
    assert_eq!(fs.free_inodes(), before_inodes);
    assert_eq!(fs.free_data_blocks(), before_blocks);
    assert_eq!(root.ls(&fs), vec!["dup".to_string()]);
}

#[test]
fn linkat_to_existing_name_fails_without_mutation() {
    let mut fs = fresh_fs();
    let root = Inode::root();
    root.create(&mut fs, "one").unwrap();
    root.create(&mut fs, "two").unwrap();
    assert_eq!(root.linkat(&mut fs, "one", "two"), -1);
    assert_eq!(root.ls(&fs), vec!["one".to_string(), "two".to_string()]);
}

#[test]
fn linkat_missing_source_fails() {
    let mut fs = fresh_fs();
    let root = Inode::root();
    assert_eq!(root.linkat(&mut fs, "ghost", "alias"), -1);
    assert!(root.ls(&fs).is_empty());
}

#[test]
fn link_count_over_link_and_unlink() {
    let mut fs = fresh_fs();
    let root = Inode::root();
    let f = root.create(&mut fs, "f").expect("create");
    let (is_file, fid, nlink) = f.stat(&fs);
    assert!(is_file);
    assert_eq!(nlink, 1);
    assert_eq!(root.linkat(&mut fs, "f", "g"), 0);
    let f2 = root.find(&fs, "f").expect("find f");
    let g = root.find(&fs, "g").expect("find g");
    let (_, id_f, nlink_f) = f2.stat(&fs);
    let (_, id_g, nlink_g) = g.stat(&fs);
    assert_eq!(id_f, fid);
    assert_eq!(id_g, fid);
    assert_eq!(nlink_f, 2);
    assert_eq!(nlink_g, 2);
    assert_eq!(root.unlinkat(&mut fs, "f"), 0);
    let g2 = root.find(&fs, "g").expect("g still there");
    let (_, _, nlink_after) = g2.stat(&fs);
    assert_eq!(nlink_after, 1);
    assert!(root.find(&fs, "f").is_none());
    assert!(!root.ls(&fs).contains(&"f".to_string()));
}

#[test]
fn last_unlink_reclaims_inode_and_blocks() {
    let mut fs = fresh_fs();
    let root = Inode::root();
    // seed the directory so later entries stay within its first block
    root.create(&mut fs, "seed").unwrap();
    let free_inodes = fs.free_inodes();
    let free_blocks = fs.free_data_blocks();
    let f = root.create(&mut fs, "f").expect("create");
    f.write_at(&mut fs, 0, &[7u8; 1000]);
    assert_eq!(root.linkat(&mut fs, "f", "g"), 0);
    assert!(fs.free_inodes() < free_inodes);
    assert!(fs.free_data_blocks() < free_blocks);
    assert_eq!(root.unlinkat(&mut fs, "g"), 0);
    assert_eq!(root.unlinkat(&mut fs, "f"), 0);
    assert!(root.find(&fs, "f").is_none());
    assert!(root.find(&fs, "g").is_none());
    assert_eq!(fs.free_inodes(), free_inodes);
    assert_eq!(fs.free_data_blocks(), free_blocks);
}

#[test]
fn unlink_missing_name_fails() {
    let mut fs = fresh_fs();
    let root = Inode::root();
    assert_eq!(root.unlinkat(&mut fs, "nothing"), -1);
}

#[test]
fn compaction_moves_last_entry_into_freed_slot() {
    let mut fs = fresh_fs();
    let root = Inode::root();
    root.create(&mut fs, "A").unwrap();
    root.create(&mut fs, "B").unwrap();
    root.create(&mut fs, "C").unwrap();
    assert_eq!(root.unlinkat(&mut fs, "A"), 0);
    // the last entry fills the freed slot: C first, then B
    assert_eq!(root.ls(&fs), vec!["C".to_string(), "B".to_string()]);
}

#[test]
fn find_resolves_only_existing_names() {
    let mut fs = fresh_fs();
    let root = Inode::root();
    assert!(root.find(&fs, "missing").is_none());
    let made = root.create(&mut fs, "present").expect("create");
    let found = root.find(&fs, "present").expect("find");
    assert_eq!(found.inode_id, made.inode_id);
}

#[test]
fn fresh_fs_counts() {
    let fs = EasyFileSystem::new(8, 32);
    // the root directory takes one inode slot and no data block yet
    assert_eq!(fs.free_inodes(), 7);
    assert_eq!(fs.free_data_blocks(), 32);
    let root = Inode::root();
    assert!(root.ls(&fs).is_empty());
}

#[test]
fn dir_entry_layout_is_bit_exact() {
    let e = DirEntry::new("abc", 0x01020304);
    let bytes = e.as_bytes();
    assert_eq!(bytes.len(), 32);
    assert_eq!(&bytes[..3], b"abc");
    // the name field is zero-padded to 28 bytes
    for i in 3..28 {
        assert_eq!(bytes[i], 0);
    }
    // the inode id is little-endian in the last four bytes
    assert_eq!(&bytes[28..], &[0x04, 0x03, 0x02, 0x01]);
    assert_eq!(e.inode_id(), 0x01020304);
    assert_eq!(e.name(), "abc");
}

#[test]
fn dir_entry_empty_is_all_zero() {
    let e = DirEntry::empty();
    assert!(e.as_bytes().iter().all(|&b| b == 0));
    assert_eq!(e.inode_id(), 0);
    assert_eq!(e.name(), "");
}

#[test]
fn inode_position_follows_layout() {
    let fs = fresh_fs();
    assert_eq!(fs.get_disk_inode_pos(0), (1, 0));
    assert_eq!(fs.get_disk_inode_pos(1), (1, 128));
    assert_eq!(fs.get_disk_inode_pos(4), (2, 0));
    assert_eq!(fs.get_disk_inode_pos(7), (2, 384));
}

#[test]
fn directory_grows_across_block_boundary() {
    let mut fs = EasyFileSystem::new(64, 64);
    let root = Inode::root();
    // 16 entries fill one 512-byte block; the 17th needs a second one
    for i in 0..17 {
        let name = format!("f{}", i);
        assert!(root.create(&mut fs, &name).is_some());
    }
    assert_eq!(root.ls(&fs).len(), 17);
    for i in 0..17 {
        let name = format!("f{}", i);
        assert!(root.find(&fs, &name).is_some(), "missing {}", name);
    }
}
