use wfs::blocks::StartBlock;
use wfs::drive::Drive;
use wfs::drive_actions::block_actions::{check_if_block_is_empty, data_block_read, start_block_read};
use wfs::drive_actions::directory_actions::FileKind;
use wfs::drive_actions::start_block_actions::get_start_block_from_path;
use wfs::filesystem::{
    access, chmod, chown, create, getattr, init, mkdir, read, readdir, rename, rmdir, statfs, truncate, unlink,
    utimens,
};
use wfs::results::FsError;

const NOW: u64 = 1_700_000_000;
const NULL: u32 = u32::MAX;

fn formatted_drive(bytes: usize) -> Drive {
    let mut drive = Drive::new(vec![0u8; bytes]);
    assert_eq!(init(&mut drive, 0, 0, NOW), Ok(()));
    drive
}

fn index_of(drive: &Drive, path: &str) -> u32 {
    *get_start_block_from_path(drive, path).unwrap().unwrap().get_block_index()
}

fn path_exists(drive: &Drive, path: &str) -> bool {
    get_start_block_from_path(drive, path).unwrap().is_some()
}

fn padded(name: &str) -> String {
    let mut s = String::from(name);
    while s.len() < 208 {
        s.push('\0');
    }
    s
}

#[test]
fn test_init() {
    let drive = formatted_drive(2000);
    let root = start_block_read(&drive, 1).unwrap();
    assert_eq!(*root.get_block_index(), 1);
    assert_eq!(*root.get_first_data_block_index(), 2);
    assert_eq!(*root.get_perms(), 0o777);
    assert_eq!(*root.get_file_type(), 3);
    assert_eq!(*root.get_a_time(), NOW);
    assert_eq!(*root.get_size(), 0);
    let data = data_block_read(&drive, 2).unwrap();
    assert_eq!(*data.get_block_index(), 2);
    assert_eq!(*data.get_data(), [255u8; 248]);
    assert_eq!(*data.get_next_block_index(), NULL);
}

#[test]
fn init_keeps_a_formatted_drive() {
    let mut drive = formatted_drive(2000);
    let before = drive.image().clone();
    assert_eq!(init(&mut drive, 5, 5, NOW + 10), Ok(()));
    assert_eq!(drive.image(), &before);
}

#[test]
fn root_path_resolves_to_block_one() {
    let drive = formatted_drive(2000);
    assert_eq!(index_of(&drive, "/"), 1);
    assert!(!path_exists(&drive, "/missing.txt"));
}

#[test]
fn created_file_is_found_by_path() {
    let mut drive = formatted_drive(2000);
    let made = create(&mut drive, 0, 0, 1, b"small_test.txt", 0o644, NOW).unwrap();
    assert_eq!(*made.get_file_type(), 4);
    assert_eq!(*made.get_size(), 0);
    assert_eq!(index_of(&drive, "/small_test.txt"), 3);
    let sb = start_block_read(&drive, 3).unwrap();
    assert_eq!(*sb.get_first_data_block_index(), 4);
    assert_eq!(sb.get_name(), padded("small_test.txt"));
}

#[test]
fn test_file_read_write_small() {
    let mut drive = formatted_drive(2000);
    create(&mut drive, 0, 0, 1, b"small_test.txt", 0o644, NOW).unwrap();
    let i = index_of(&drive, "/small_test.txt");
    assert_eq!(wfs::filesystem::write(&mut drive, 0, 0, i, i, 0, vec![1u8; 200]), Ok(200));
    assert_eq!(read(&drive, 0, 0, i, i, 0, 4096), Ok(vec![1u8; 200]));
}

#[test]
fn test_file_read_write_big() {
    let mut drive = formatted_drive(2000);
    create(&mut drive, 0, 0, 1, b"big_test.txt", 0o644, NOW).unwrap();
    let i = index_of(&drive, "/big_test.txt");
    assert_eq!(wfs::filesystem::write(&mut drive, 0, 0, i, i, 0, vec![1u8; 400]), Ok(400));
    assert_eq!(read(&drive, 0, 0, i, i, 0, 4096), Ok(vec![1u8; 400]));
}

#[test]
fn write_at_an_offset_keeps_other_bytes() {
    let mut drive = formatted_drive(4096);
    create(&mut drive, 0, 0, 1, b"f", 0o644, NOW).unwrap();
    let i = index_of(&drive, "/f");
    assert_eq!(wfs::filesystem::write(&mut drive, 0, 0, i, i, 0, vec![1u8; 300]), Ok(300));
    assert_eq!(wfs::filesystem::write(&mut drive, 0, 0, i, i, 240, vec![2u8; 20]), Ok(20));
    let data = read(&drive, 0, 0, i, i, 0, 4096).unwrap();
    assert_eq!(data.len(), 300);
    assert_eq!(&data[..240], &[1u8; 240][..]);
    assert_eq!(&data[240..260], &[2u8; 20][..]);
    assert_eq!(&data[260..], &[1u8; 40][..]);
}

#[test]
fn read_from_an_offset_stops_at_the_end_of_the_file() {
    let mut drive = formatted_drive(2000);
    create(&mut drive, 0, 0, 1, b"f", 0o644, NOW).unwrap();
    let i = index_of(&drive, "/f");
    let mut data = vec![0u8; 100];
    for (k, b) in data.iter_mut().enumerate() {
        *b = k as u8;
    }
    wfs::filesystem::write(&mut drive, 0, 0, i, i, 0, data.clone()).unwrap();
    assert_eq!(read(&drive, 0, 0, i, i, 50, 10), Ok(data[50..60].to_vec()));
    assert_eq!(read(&drive, 0, 0, i, i, 95, 10), Ok(data[95..].to_vec()));
    assert_eq!(read(&drive, 0, 0, i, i, 100, 10), Ok(vec![]));
    assert_eq!(read(&drive, 0, 0, i, i, 500, 10), Ok(vec![]));
}

#[test]
fn test_mkdir() {
    let mut drive = formatted_drive(2000);
    let made = mkdir(&mut drive, 0, 0, 1, b"test", 0o755, NOW).unwrap();
    assert_eq!(*made.get_file_type(), 3);
    assert_eq!(index_of(&drive, "/test"), 3);
    let dir = start_block_read(&drive, 3).unwrap();
    assert_eq!(*dir.get_perms(), 0o755);
    assert_eq!(*data_block_read(&drive, 4).unwrap().get_data(), [255u8; 248]);
}

#[test]
fn test_small_file_read_write_inside_dir() {
    let mut drive = formatted_drive(2000);
    mkdir(&mut drive, 0, 0, 1, b"test", 0o755, NOW).unwrap();
    let dir = index_of(&drive, "/test");
    create(&mut drive, 0, 0, dir, b"small_test.txt", 0o644, NOW).unwrap();
    let i = index_of(&drive, "/test/small_test.txt");
    assert_eq!(i, 5);
    assert_eq!(wfs::filesystem::write(&mut drive, 0, 0, i, i, 0, vec![1u8; 200]), Ok(200));
    assert_eq!(read(&drive, 0, 0, i, i, 0, 4096), Ok(vec![1u8; 200]));
}

#[test]
fn test_big_file_read_write_inside_dir() {
    // A 2000-byte image holds 7 whole blocks: the root (2), the directory (2)
    // and the file (2) leave none for the file's second data block, so the
    // image is larger here.
    let mut drive = formatted_drive(4096);
    mkdir(&mut drive, 0, 0, 1, b"test", 0o755, NOW).unwrap();
    let dir = index_of(&drive, "/test");
    create(&mut drive, 0, 0, dir, b"big_test.txt", 0o644, NOW).unwrap();
    let i = index_of(&drive, "/test/big_test.txt");
    assert_eq!(wfs::filesystem::write(&mut drive, 0, 0, i, i, 0, vec![1u8; 400]), Ok(400));
    assert_eq!(read(&drive, 0, 0, i, i, 0, 4096), Ok(vec![1u8; 400]));
}

#[test]
fn test_delete_file() {
    let mut drive = formatted_drive(2000);
    create(&mut drive, 0, 0, 1, b"del_test.txt", 0o644, NOW).unwrap();
    let i = index_of(&drive, "/del_test.txt");
    wfs::filesystem::write(&mut drive, 0, 0, i, i, 0, vec![1u8; 400]).unwrap();
    assert_eq!(unlink(&mut drive, 0, 0, 1, i), Ok(()));
    assert!(!path_exists(&drive, "/del_test.txt"));
    for b in [3u32, 4, 5] {
        assert_eq!(check_if_block_is_empty(&drive, b), Ok(true));
    }
}

#[test]
fn rmdir_deletes_its_files() {
    let mut drive = formatted_drive(4096);
    mkdir(&mut drive, 0, 0, 1, b"d", 0o755, NOW).unwrap();
    let d = index_of(&drive, "/d");
    create(&mut drive, 0, 0, d, b"inner", 0o644, NOW).unwrap();
    let f = index_of(&drive, "/d/inner");
    assert_eq!(rmdir(&mut drive, 0, 0, 1, d), Ok(()));
    assert!(!path_exists(&drive, "/d"));
    for b in [d, d + 1, f, f + 1] {
        assert_eq!(check_if_block_is_empty(&drive, b), Ok(true));
    }
}

#[test]
fn test_metadata() {
    let mut drive = formatted_drive(2000);
    create(&mut drive, 0, 0, 1, b"metadata_test.txt", 0o644, NOW).unwrap();
    let i = index_of(&drive, "/metadata_test.txt");
    wfs::filesystem::write(&mut drive, 0, 0, i, i, 0, vec![1u8; 400]).unwrap();
    let sb = getattr(&drive, 0, 0, i, i).unwrap();
    assert_eq!(*sb.get_file_type(), 4);
    assert_eq!(*sb.get_size(), 400);
}

#[test]
fn test_rename() {
    // As in `test_big_file_read_write_inside_dir`, a 2000-byte image has no
    // block left for the file's second data block.
    let mut drive = formatted_drive(4096);
    mkdir(&mut drive, 0, 0, 1, b"test", 0o755, NOW).unwrap();
    create(&mut drive, 0, 0, 1, b"rename_test.txt", 0o644, NOW).unwrap();
    let f = index_of(&drive, "/rename_test.txt");
    wfs::filesystem::write(&mut drive, 0, 0, f, f, 0, vec![1u8; 400]).unwrap();
    let dir = index_of(&drive, "/test");
    assert_eq!(rename(&mut drive, 0, 0, 1, f, dir, "renamed_already_test.txt"), Ok(()));
    assert!(!path_exists(&drive, "/rename_test.txt"));
    assert_eq!(index_of(&drive, "/test/renamed_already_test.txt"), f);
    assert_eq!(read(&drive, 0, 0, f, f, 0, 4096), Ok(vec![1u8; 400]));
}

#[test]
fn readdir_lists_names_and_kinds() {
    let mut drive = formatted_drive(4096);
    create(&mut drive, 0, 0, 1, b"a.txt", 0o644, NOW).unwrap();
    mkdir(&mut drive, 0, 0, 1, b"sub", 0o755, NOW).unwrap();
    let entries = readdir(&drive, 0, 0, 1, 1).unwrap();
    assert_eq!(entries.len(), 2);
    assert_eq!(entries[0].name, padded("a.txt"));
    assert_eq!(entries[0].kind, FileKind::RegularFile);
    assert_eq!(entries[1].name, padded("sub"));
    assert_eq!(entries[1].kind, FileKind::Directory);
}

#[test]
fn empty_directory_lists_nothing() {
    let mut drive = formatted_drive(2000);
    mkdir(&mut drive, 0, 0, 1, b"empty", 0o755, NOW).unwrap();
    let d = index_of(&drive, "/empty");
    assert_eq!(readdir(&drive, 0, 0, d, d).unwrap().len(), 0);
}

#[test]
fn statfs_counts_entries() {
    let mut drive = formatted_drive(4096);
    create(&mut drive, 0, 0, 1, b"a", 0o644, NOW).unwrap();
    create(&mut drive, 0, 0, 1, b"b", 0o644, NOW).unwrap();
    let stats = statfs(&drive, 0, 0, 1, 1).unwrap();
    assert_eq!(stats.files, 2);
    assert_eq!(stats.namelen, 208);
    assert_eq!(stats.frsize, 248);
    assert_eq!(stats.bsize, u32::MAX);
    assert_eq!(stats.blocks, u64::MAX / 2);
    assert_eq!(stats.ffree, u64::MAX / 4);
}

fn owned_file(drive: &mut Drive) -> u32 {
    create(drive, 1000, 100, 1, b"owned", 0o644, NOW).unwrap();
    index_of(drive, "/owned")
}

#[test]
fn access_for_owner_group_and_others() {
    let mut drive = formatted_drive(2000);
    let i = owned_file(&mut drive);
    assert_eq!(access(&drive, 0, 0, i, 7), Ok(()));
    assert_eq!(access(&drive, 1000, 100, i, 4), Ok(()));
    assert_eq!(access(&drive, 1000, 100, i, 6), Ok(()));
    assert_eq!(access(&drive, 1000, 100, i, 1), Err(FsError::Access));
    assert_eq!(access(&drive, 2000, 100, i, 4), Ok(()));
    assert_eq!(access(&drive, 2000, 100, i, 2), Err(FsError::Access));
    assert_eq!(access(&drive, 2000, 200, i, 4), Ok(()));
    assert_eq!(access(&drive, 2000, 200, i, 2), Err(FsError::Access));
    assert_eq!(access(&drive, 1000, 100, NULL, 4), Err(FsError::Io));
}

#[test]
fn denied_write_changes_nothing() {
    let mut drive = formatted_drive(2000);
    let i = owned_file(&mut drive);
    let before = drive.image().clone();
    assert_eq!(wfs::filesystem::write(&mut drive, 2000, 200, i, i, 0, vec![1u8; 10]), Err(FsError::Access));
    assert_eq!(drive.image(), &before);
}

#[test]
fn only_root_changes_permissions() {
    let mut drive = formatted_drive(2000);
    let i = owned_file(&mut drive);
    assert_eq!(chmod(&mut drive, 1000, i, 0o777), Err(FsError::Permission));
    assert_eq!(*start_block_read(&drive, i).unwrap().get_perms(), 0o644);
    assert_eq!(chmod(&mut drive, 0, i, 0o600), Ok(()));
    assert_eq!(*start_block_read(&drive, i).unwrap().get_perms(), 0o600);
}

#[test]
fn only_root_changes_owners() {
    let mut drive = formatted_drive(2000);
    let i = owned_file(&mut drive);
    assert_eq!(chown(&mut drive, 1000, i, Some(5), None), Err(FsError::Permission));
    assert_eq!(chown(&mut drive, 0, i, Some(5), None), Ok(()));
    assert_eq!(*start_block_read(&drive, i).unwrap().get_user_id(), 5);
    assert_eq!(*start_block_read(&drive, i).unwrap().get_group_id(), 100);
    assert_eq!(chown(&mut drive, 0, i, None, Some(7)), Ok(()));
    let sb = start_block_read(&drive, i).unwrap();
    assert_eq!(*sb.get_user_id(), 5);
    assert_eq!(*sb.get_group_id(), 7);
    assert_eq!(chown(&mut drive, 0, i, Some(8), Some(9)), Ok(()));
    let sb = start_block_read(&drive, i).unwrap();
    assert_eq!(*sb.get_user_id(), 8);
    assert_eq!(*sb.get_group_id(), 9);
}

#[test]
fn utimens_sets_times() {
    let mut drive = formatted_drive(2000);
    let i = owned_file(&mut drive);
    assert_eq!(utimens(&mut drive, 0, 0, i, i, Some(11), None), Ok(()));
    let sb = start_block_read(&drive, i).unwrap();
    assert_eq!(*sb.get_a_time(), 11);
    assert_eq!(*sb.get_m_time(), NOW);
    assert_eq!(utimens(&mut drive, 0, 0, i, i, None, Some(12)), Ok(()));
    assert_eq!(*start_block_read(&drive, i).unwrap().get_m_time(), 12);
}

#[test]
fn truncate_shrinks_and_grows() {
    let mut drive = formatted_drive(4096);
    let i = owned_file(&mut drive);
    assert_eq!(wfs::filesystem::write(&mut drive, 0, 0, i, i, 0, vec![1u8; 300]), Ok(300));
    assert_eq!(truncate(&mut drive, 0, 0, i, i, 300), Ok(()));
    assert_eq!(*getattr(&drive, 0, 0, i, i).unwrap().get_size(), 300);
    assert_eq!(truncate(&mut drive, 0, 0, i, i, 100), Ok(()));
    assert_eq!(*getattr(&drive, 0, 0, i, i).unwrap().get_size(), 100);
    assert_eq!(read(&drive, 0, 0, i, i, 0, 4096), Ok(vec![1u8; 100]));
    assert_eq!(truncate(&mut drive, 0, 0, i, i, 500), Ok(()));
    assert_eq!(*getattr(&drive, 0, 0, i, i).unwrap().get_size(), 500);
    let mut expected = vec![1u8; 100];
    expected.extend_from_slice(&[0u8; 400]);
    assert_eq!(read(&drive, 0, 0, i, i, 0, 4096), Ok(expected));
    assert_eq!(truncate(&mut drive, 0, 0, i, i, 0), Ok(()));
    assert_eq!(read(&drive, 0, 0, i, i, 0, 4096), Ok(vec![]));
}

#[test]
fn getattr_of_null_index_is_an_io_error() {
    let drive = formatted_drive(2000);
    assert!(matches!(getattr(&drive, 0, 0, 1, NULL), Err(FsError::Io)));
    assert!(matches!(getattr(&drive, 0, 0, NULL, 1), Err(FsError::Io)));
}

#[test]
fn created_entry_keeps_its_metadata() {
    let mut drive = formatted_drive(2000);
    let made: StartBlock = create(&mut drive, 1000, 100, 1, b"m", 0o640, NOW).unwrap();
    assert_eq!(*made.get_block_index(), 0);
    let sb = start_block_read(&drive, index_of(&drive, "/m")).unwrap();
    assert_eq!(*sb.get_perms(), 0o640);
    assert_eq!(*sb.get_user_id(), 1000);
    assert_eq!(*sb.get_group_id(), 100);
    assert_eq!(*sb.get_m_time(), NOW);
    assert_eq!(*sb.get_size(), 0);
}

#[test]
fn directory_grows_when_its_slots_are_full() {
    // A directory block holds 62 slots; the 63rd entry makes it grow by a block.
    let mut drive = formatted_drive(40_000);
    for k in 0..63 {
        let name = format!("f{}", k);
        create(&mut drive, 0, 0, 1, name.as_bytes(), 0o644, NOW).unwrap();
    }
    let entries = readdir(&drive, 0, 0, 1, 1).unwrap();
    assert_eq!(entries.len(), 63);
    assert_eq!(entries[62].name, padded("f62"));
    assert!(path_exists(&drive, "/f62"));
    let root = start_block_read(&drive, 1).unwrap();
    let first = data_block_read(&drive, *root.get_first_data_block_index()).unwrap();
    assert_ne!(*first.get_next_block_index(), NULL);
}

#[test]
fn removal_frees_the_slot_of_the_entry() {
    let mut drive = formatted_drive(4096);
    create(&mut drive, 0, 0, 1, b"a", 0o644, NOW).unwrap();
    create(&mut drive, 0, 0, 1, b"b", 0o644, NOW).unwrap();
    let a = index_of(&drive, "/a");
    let b = index_of(&drive, "/b");
    assert_eq!(unlink(&mut drive, 0, 0, 1, a), Ok(()));
    assert_eq!(readdir(&drive, 0, 0, 1, 1).unwrap().len(), 1);
    assert!(!path_exists(&drive, "/a"));
    assert_eq!(index_of(&drive, "/b"), b);
    assert_eq!(unlink(&mut drive, 0, 0, 1, b), Ok(()));
    assert_eq!(readdir(&drive, 0, 0, 1, 1).unwrap().len(), 0);
    assert_eq!(check_if_block_is_empty(&drive, b), Ok(true));
    create(&mut drive, 0, 0, 1, b"c", 0o644, NOW).unwrap();
    let entries = readdir(&drive, 0, 0, 1, 1).unwrap();
    assert_eq!(entries.len(), 1);
    assert_eq!(entries[0].name, padded("c"));
}

#[test]
fn removing_an_entry_that_is_not_listed() {
    let mut drive = formatted_drive(2000);
    let mut root = start_block_read(&drive, 1).unwrap();
    let before = drive.image().clone();
    assert_eq!(
        wfs::drive_actions::directory_actions::remove_directory_entry(&mut drive, 42, &mut root),
        Err(FsError::NoEntry)
    );
    assert_eq!(drive.image(), &before);
}

#[test]
fn a_missing_component_names_nothing() {
    let mut drive = formatted_drive(4096);
    create(&mut drive, 0, 0, 1, b"b", 0o644, NOW).unwrap();
    assert!(path_exists(&drive, "/b"));
    assert!(!path_exists(&drive, "/x/b"));
    assert!(!path_exists(&drive, "/b/b"));
}

#[test]
fn nested_entries_with_the_same_name_are_told_apart() {
    let mut drive = formatted_drive(4096);
    mkdir(&mut drive, 0, 0, 1, b"a", 0o755, NOW).unwrap();
    let outer = index_of(&drive, "/a");
    mkdir(&mut drive, 0, 0, outer, b"a", 0o755, NOW).unwrap();
    let inner = index_of(&drive, "/a/a");
    assert_ne!(inner, outer);
    assert_eq!(readdir(&drive, 0, 0, outer, outer).unwrap().len(), 1);
    assert_eq!(readdir(&drive, 0, 0, inner, inner).unwrap().len(), 0);
}

#[test]
fn empty_components_are_passed_over() {
    let mut drive = formatted_drive(4096);
    mkdir(&mut drive, 0, 0, 1, b"d", 0o755, NOW).unwrap();
    let d = index_of(&drive, "/d");
    assert_eq!(index_of(&drive, "/d/"), d);
    assert_eq!(index_of(&drive, "//d"), d);
    assert_eq!(index_of(&drive, ""), 1);
}

#[test]
fn writes_that_end_on_a_block_boundary() {
    let mut drive = formatted_drive(4096);
    create(&mut drive, 0, 0, 1, b"f", 0o644, NOW).unwrap();
    let i = index_of(&drive, "/f");
    assert_eq!(wfs::filesystem::write(&mut drive, 0, 0, i, i, 0, vec![3u8; 248]), Ok(248));
    assert_eq!(read(&drive, 0, 0, i, i, 0, 4096), Ok(vec![3u8; 248]));
    assert_eq!(wfs::filesystem::write(&mut drive, 0, 0, i, i, 248, vec![4u8; 248]), Ok(248));
    let data = read(&drive, 0, 0, i, i, 0, 4096).unwrap();
    assert_eq!(data.len(), 496);
    assert_eq!(&data[..248], &[3u8; 248][..]);
    assert_eq!(&data[248..], &[4u8; 248][..]);
    assert_eq!(*getattr(&drive, 0, 0, i, i).unwrap().get_size(), 496);
}

#[test]
fn create_reports_a_parent_that_cannot_take_the_entry() {
    let mut drive = formatted_drive(4096);
    // A parent whose chain starts at the null index cannot be read.
    let broken = StartBlock::new(6, NULL, 0o777, 3, NOW, NOW, 0, 0, 0, [0u8; 208]);
    wfs::drive_actions::block_actions::start_block_write(&mut drive, broken).unwrap();
    assert_eq!(create(&mut drive, 0, 0, 6, b"x", 0o644, NOW).err(), Some(FsError::Io));
    assert_eq!(mkdir(&mut drive, 0, 0, 6, b"y", 0o755, NOW).err(), Some(FsError::Io));
}

#[test]
fn names_longer_than_208_bytes_are_refused() {
    let mut drive = formatted_drive(4096);
    let before = drive.image().clone();
    let long = [b'n'; 209];
    assert_eq!(mkdir(&mut drive, 0, 0, 1, &long, 0o755, NOW).err(), Some(FsError::NameTooLong));
    assert_eq!(create(&mut drive, 0, 0, 1, &long, 0o644, NOW).err(), Some(FsError::NameTooLong));
    assert_eq!(drive.image(), &before);
    let exact = [b'n'; 208];
    assert!(create(&mut drive, 0, 0, 1, &exact, 0o644, NOW).is_ok());
    assert_eq!(readdir(&drive, 0, 0, 1, 1).unwrap().len(), 1);
    let before = drive.image().clone();
    let long_name = "m".repeat(209);
    assert_eq!(rename(&mut drive, 0, 0, 1, 3, 1, &long_name), Err(FsError::NameTooLong));
    assert_eq!(drive.image(), &before);
}

#[test]
fn truncate_growth_zeroes_stale_bytes_past_the_end() {
    let mut drive = formatted_drive(4096);
    let i = owned_file(&mut drive);
    assert_eq!(wfs::filesystem::write(&mut drive, 0, 0, i, i, 0, vec![1u8; 300]), Ok(300));
    // The size field says 100 bytes while the chain still holds 300 ones.
    let mut sb = start_block_read(&drive, i).unwrap();
    sb.set_size(100);
    wfs::drive_actions::block_actions::start_block_write(&mut drive, sb).unwrap();
    assert_eq!(truncate(&mut drive, 0, 0, i, i, 200), Ok(()));
    let mut expected = vec![1u8; 100];
    expected.extend_from_slice(&[0u8; 100]);
    assert_eq!(read(&drive, 0, 0, i, i, 0, 4096), Ok(expected));
}
