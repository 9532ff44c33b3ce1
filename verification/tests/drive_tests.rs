use wfs::blocks::{DataBlock, StartBlock};
use wfs::drive::Drive;
use wfs::drive_actions::block_actions::{
    bulk_data_block_write, check_if_block_is_empty, data_block_read, data_block_write, direct_block_deletion,
    normal_data_block_vector_write, start_block_read, start_block_write,
};
use wfs::drive_actions::data_block_actions::{
    data_block_vector_set_data_from_data_vector, data_block_vector_write, get_data_block_vec_from_start_block,
    get_data_vec_from_data_block_vec, get_directory_data_from_start_block_index,
    get_directory_index_vec_from_data_block_vec, get_file_data_from_start_block_index,
};
use wfs::drive_actions::drive_utils::find_next_empty_blocks;
use wfs::drive_actions::file_utils::{expand_file, read_file, reduce_file_size};
use wfs::drive_actions::deletion_utils::{deallocate_all_blocks, deallocate_data_blocks_from_end};
use wfs::results::FsError;

const NULL: u32 = u32::MAX;

fn zero_drive(bytes: usize) -> Drive {
    Drive::new(vec![0u8; bytes])
}

fn file_start_block(index: u32, first: u32, size: u64) -> StartBlock {
    StartBlock::new(index, first, 0o644, 4, 0, 0, 0, 0, size, [0u8; 208])
}

#[test]
fn drive_write_extends_the_image() {
    let mut drive = Drive::new(Vec::new());
    drive.write_block(2, &[7u8; 256]);
    assert_eq!(drive.len(), 768);
    assert!(drive.image()[..512].iter().all(|b| *b == 0));
    assert!(drive.image()[512..].iter().all(|b| *b == 7));
    assert_eq!(drive.read_block(2), [7u8; 256]);
    assert_eq!(drive.read_block(0), [0u8; 256]);
}

#[test]
fn drive_write_in_place() {
    let mut drive = zero_drive(1024);
    drive.write_block(1, &[3u8; 256]);
    assert_eq!(drive.len(), 1024);
    let image = drive.into_image();
    assert!(image[256..512].iter().all(|b| *b == 3));
    assert!(image[512..].iter().all(|b| *b == 0));
}

#[test]
fn data_block_write_then_read() {
    let mut drive = zero_drive(1024);
    let block = DataBlock::new(3, [5u8; 248], 1);
    assert_eq!(data_block_write(&mut drive, block), Ok(()));
    let back = data_block_read(&drive, 3).unwrap();
    assert_eq!(*back.get_block_index(), 3);
    assert_eq!(*back.get_data(), [5u8; 248]);
    assert_eq!(*back.get_next_block_index(), 1);
}

#[test]
fn start_block_write_then_read() {
    let mut drive = zero_drive(1024);
    let sb = file_start_block(2, 3, 77);
    assert_eq!(start_block_write(&mut drive, sb), Ok(()));
    let back = start_block_read(&drive, 2).unwrap();
    assert_eq!(*back.get_block_index(), 2);
    assert_eq!(*back.get_first_data_block_index(), 3);
    assert_eq!(*back.get_size(), 77);
}

#[test]
fn null_index_is_an_io_error() {
    let mut drive = zero_drive(1024);
    assert_eq!(data_block_read(&drive, NULL).err(), Some(FsError::Io));
    assert_eq!(start_block_read(&drive, NULL).err(), Some(FsError::Io));
    assert_eq!(data_block_write(&mut drive, DataBlock::new(NULL, [0u8; 248], NULL)), Err(FsError::Io));
    assert_eq!(start_block_write(&mut drive, file_start_block(NULL, 0, 0)), Err(FsError::Io));
    assert_eq!(direct_block_deletion(&mut drive, NULL), Err(FsError::Io));
    assert_eq!(check_if_block_is_empty(&drive, NULL), Err(FsError::Io));
    assert_eq!(drive.image(), &vec![0u8; 1024]);
}

#[test]
fn block_deletion_writes_zeros() {
    let mut drive = zero_drive(1024);
    data_block_write(&mut drive, DataBlock::new(2, [9u8; 248], 3)).unwrap();
    assert_eq!(check_if_block_is_empty(&drive, 2), Ok(false));
    assert_eq!(direct_block_deletion(&mut drive, 2), Ok(()));
    assert_eq!(check_if_block_is_empty(&drive, 2), Ok(true));
}

#[test]
fn a_block_is_empty_when_it_does_not_hold_its_own_index() {
    let mut drive = zero_drive(1024);
    data_block_write(&mut drive, DataBlock::new(2, [0u8; 248], NULL)).unwrap();
    assert_eq!(check_if_block_is_empty(&drive, 2), Ok(false));
    drive.write_block(3, &[9u8; 256]);
    assert_eq!(check_if_block_is_empty(&drive, 3), Ok(true));
    // Block 0 of a zero image holds index 0, its own.
    assert_eq!(check_if_block_is_empty(&drive, 0), Ok(false));
}

#[test]
fn free_blocks_of_a_zero_image() {
    // Block 0 holds index 0, its own; every other zero block is free.
    let drive = zero_drive(2000);
    assert_eq!(find_next_empty_blocks(&drive, 3), Ok(vec![1, 2, 3]));
}

#[test]
fn free_blocks_skip_blocks_in_use() {
    let mut drive = zero_drive(2048);
    data_block_write(&mut drive, DataBlock::new(1, [0u8; 248], NULL)).unwrap();
    data_block_write(&mut drive, DataBlock::new(3, [0u8; 248], NULL)).unwrap();
    assert_eq!(find_next_empty_blocks(&drive, 3), Ok(vec![2, 4, 5]));
}

#[test]
fn bulk_write_stops_at_null_index() {
    let mut drive = zero_drive(1024);
    let blocks = vec![
        DataBlock::new(1, [1u8; 248], NULL),
        DataBlock::new(NULL, [2u8; 248], NULL),
        DataBlock::new(3, [3u8; 248], NULL),
    ];
    assert_eq!(bulk_data_block_write(&mut drive, blocks), Err(FsError::Io));
    assert_eq!(*data_block_read(&drive, 1).unwrap().get_data(), [1u8; 248]);
    assert_eq!(check_if_block_is_empty(&drive, 3), Ok(true));
}

#[test]
fn normal_write_passes_over_null_index() {
    let mut drive = zero_drive(1024);
    let blocks = vec![
        DataBlock::new(1, [1u8; 248], NULL),
        DataBlock::new(NULL, [2u8; 248], NULL),
        DataBlock::new(3, [3u8; 248], NULL),
    ];
    assert_eq!(normal_data_block_vector_write(&mut drive, blocks), Ok(()));
    assert_eq!(*data_block_read(&drive, 1).unwrap().get_data(), [1u8; 248]);
    assert_eq!(*data_block_read(&drive, 3).unwrap().get_data(), [3u8; 248]);
}

fn two_block_file(drive: &mut Drive) -> StartBlock {
    let mut first = [0u8; 248];
    first[0] = 10;
    let mut second = [0u8; 248];
    second[0] = 20;
    data_block_write(drive, DataBlock::new(2, first, 3)).unwrap();
    data_block_write(drive, DataBlock::new(3, second, NULL)).unwrap();
    let sb = file_start_block(1, 2, 300);
    start_block_write(drive, sb).unwrap();
    sb
}

#[test]
fn chain_is_followed_to_the_null_index() {
    let mut drive = zero_drive(2048);
    let sb = two_block_file(&mut drive);
    let chain = get_data_block_vec_from_start_block(&drive, sb).unwrap();
    assert_eq!(chain.len(), 2);
    assert_eq!(*chain[0].get_block_index(), 2);
    assert_eq!(*chain[1].get_block_index(), 3);
    let content = get_data_vec_from_data_block_vec(chain).unwrap();
    assert_eq!(content.len(), 496);
    assert_eq!(content[0], 10);
    assert_eq!(content[248], 20);
    assert_eq!(get_file_data_from_start_block_index(&drive, 1).unwrap(), content);
}

#[test]
fn chain_from_null_index_is_an_error() {
    let drive = zero_drive(1024);
    let sb = file_start_block(1, NULL, 0);
    assert_eq!(get_data_block_vec_from_start_block(&drive, sb).err(), Some(FsError::Io));
}

#[test]
fn directory_entries_leave_free_slots_out() {
    let mut data = [255u8; 248];
    data[0..4].copy_from_slice(&5u32.to_ne_bytes());
    data[8..12].copy_from_slice(&9u32.to_ne_bytes());
    let blocks = vec![DataBlock::new(2, data, NULL)];
    assert_eq!(get_directory_index_vec_from_data_block_vec(blocks), Ok(vec![5, 9]));
}

#[test]
fn directory_data_of_a_start_block() {
    let mut drive = zero_drive(1024);
    let mut data = [255u8; 248];
    data[4..8].copy_from_slice(&7u32.to_ne_bytes());
    data_block_write(&mut drive, DataBlock::new(2, data, NULL)).unwrap();
    start_block_write(&mut drive, StartBlock::new(1, 2, 0o755, 3, 0, 0, 0, 0, 0, [0u8; 208])).unwrap();
    assert_eq!(get_directory_data_from_start_block_index(&drive, 1), Ok(vec![7]));
}

#[test]
fn set_data_across_blocks() {
    let mut blocks = vec![
        DataBlock::new(2, [0u8; 248], 3),
        DataBlock::new(3, [0u8; 248], NULL),
    ];
    let mut data = vec![1u8; 10];
    let result = data_block_vector_set_data_from_data_vector(&mut blocks, &mut data, 244, 0).unwrap();
    assert_eq!(&result[0].get_data()[244..248], &[1u8; 4]);
    assert_eq!(&result[1].get_data()[0..6], &[1u8; 6]);
    assert_eq!(result[1].get_data()[6], 0);
    assert_eq!(data, vec![1u8; 4]);
}

#[test]
fn set_data_too_long_is_a_range_error() {
    let mut blocks = vec![DataBlock::new(2, [0u8; 248], NULL)];
    let mut data = vec![1u8; 248 * 249];
    assert_eq!(
        data_block_vector_set_data_from_data_vector(&mut blocks, &mut data, 0, 0).err(),
        Some(FsError::Range)
    );
    let mut data = vec![1u8; 10];
    assert_eq!(
        data_block_vector_set_data_from_data_vector(&mut blocks, &mut data, 244, 0).err(),
        Some(FsError::Range)
    );
    assert_eq!(data, vec![1u8; 10]);
    assert_eq!(*blocks[0].get_data(), [0u8; 248]);
    let mut data = vec![1u8; 4];
    let result = data_block_vector_set_data_from_data_vector(&mut blocks, &mut data, 244, 0).unwrap();
    assert_eq!(&result[0].get_data()[244..], &[1u8; 4]);
}

#[test]
fn vector_write_relinks_blocks() {
    let mut drive = zero_drive(2048);
    let blocks = vec![DataBlock::new(0, [4u8; 248], 0), DataBlock::new(0, [5u8; 248], 0)];
    assert_eq!(data_block_vector_write(&mut drive, blocks, vec![6, 4]), Ok(()));
    let a = data_block_read(&drive, 6).unwrap();
    let b = data_block_read(&drive, 4).unwrap();
    assert_eq!(*a.get_next_block_index(), 4);
    assert_eq!(*a.get_data(), [4u8; 248]);
    assert_eq!(*b.get_next_block_index(), NULL);
    assert_eq!(*b.get_data(), [5u8; 248]);
}

#[test]
fn vector_write_with_lengths_that_differ_is_a_domain_error() {
    let mut drive = zero_drive(2048);
    let blocks = vec![DataBlock::new(0, [4u8; 248], 0), DataBlock::new(0, [5u8; 248], 0)];
    assert_eq!(data_block_vector_write(&mut drive, blocks, vec![6]), Err(FsError::Domain));
    assert_eq!(drive.image(), &vec![0u8; 2048]);
    let blocks = vec![DataBlock::new(0, [4u8; 248], 0)];
    assert_eq!(data_block_vector_write(&mut drive, blocks, vec![6, 4]), Err(FsError::Domain));
    assert_eq!(drive.image(), &vec![0u8; 2048]);
}

#[test]
fn expand_appends_free_blocks() {
    let mut drive = zero_drive(2048);
    let sb = two_block_file(&mut drive);
    // Blocks 1, 2 and 3 are in use; the first free blocks are 4 and 5.
    assert_eq!(expand_file(&mut drive, sb, 2, false), Ok(()));
    let chain = get_data_block_vec_from_start_block(&drive, sb).unwrap();
    let indexes: Vec<u32> = chain.iter().map(|b| *b.get_block_index()).collect();
    assert_eq!(indexes, vec![2, 3, 4, 5]);
    assert_eq!(*chain[2].get_data(), [0u8; 248]);
    assert_eq!(*chain[3].get_next_block_index(), NULL);
}

#[test]
fn expand_from_null_index_is_an_error() {
    let mut drive = zero_drive(1024);
    let sb = file_start_block(1, NULL, 0);
    assert_eq!(expand_file(&mut drive, sb, 1, false), Err(FsError::Io));
}

#[test]
fn read_file_stops_at_the_size() {
    let mut drive = zero_drive(2048);
    let mut sb = two_block_file(&mut drive);
    let data = read_file(&drive, &mut sb, 0, 250).unwrap();
    assert_eq!(data.len(), 250);
    assert_eq!(data[0], 10);
    assert_eq!(data[248], 20);
    let all = read_file(&drive, &mut sb, 0, 1000).unwrap();
    assert_eq!(all.len(), 300);
    let tail = read_file(&drive, &mut sb, 248, 100).unwrap();
    assert_eq!(tail.len(), 52);
    assert_eq!(tail[0], 20);
    assert_eq!(read_file(&drive, &mut sb, 300, 10), Ok(vec![]));
}

#[test]
fn reduce_file_size_drops_the_blocks_past_the_new_size() {
    let mut drive = zero_drive(2048);
    let mut sb = two_block_file(&mut drive);
    let before = drive.image().clone();
    assert_eq!(reduce_file_size(&mut drive, &mut sb, 400), Err(FsError::Domain));
    assert_eq!(drive.image(), &before);
    assert_eq!(reduce_file_size(&mut drive, &mut sb, 1), Ok(()));
    let first = data_block_read(&drive, 2).unwrap();
    assert_eq!(*first.get_block_index(), 2);
    assert_eq!(*first.get_next_block_index(), NULL);
    assert_eq!(first.get_data()[0], 10);
    assert_eq!(check_if_block_is_empty(&drive, 3), Ok(true));
    assert_eq!(drive.read_block(3), [0u8; 256]);
    assert_eq!(get_data_block_vec_from_start_block(&drive, sb).unwrap().len(), 1);
}

#[test]
fn reduce_file_size_within_a_block_zeroes_the_bytes_past_it() {
    let mut drive = zero_drive(2048);
    let mut data = [0u8; 248];
    data[..100].copy_from_slice(&[7u8; 100]);
    data_block_write(&mut drive, DataBlock::new(2, data, NULL)).unwrap();
    let mut sb = file_start_block(1, 2, 100);
    start_block_write(&mut drive, sb).unwrap();
    assert_eq!(reduce_file_size(&mut drive, &mut sb, 40), Ok(()));
    let block = data_block_read(&drive, 2).unwrap();
    assert_eq!(&block.get_data()[..40], &[7u8; 40][..]);
    assert_eq!(&block.get_data()[40..], &[0u8; 208][..]);
    assert_eq!(*block.get_next_block_index(), NULL);
}

#[test]
fn deallocate_all_blocks_zeroes_them() {
    let mut drive = zero_drive(2048);
    let mut sb = two_block_file(&mut drive);
    assert_eq!(deallocate_all_blocks(&mut drive, &mut sb), Ok(()));
    for i in 1..4 {
        assert_eq!(check_if_block_is_empty(&drive, i), Ok(true));
    }
}

#[test]
fn deallocate_from_end_drops_the_last_blocks() {
    let mut drive = zero_drive(2048);
    let mut sb = two_block_file(&mut drive);
    assert_eq!(deallocate_data_blocks_from_end(&mut drive, &mut sb, 1), Ok(()));
    assert_eq!(drive.read_block(3), [0u8; 256]);
    let first = data_block_read(&drive, 2).unwrap();
    assert_eq!(*first.get_next_block_index(), NULL);
    assert_eq!(first.get_data()[0], 10);
    assert_eq!(get_data_block_vec_from_start_block(&drive, sb).unwrap().len(), 1);
}

#[test]
fn deallocate_from_end_keeps_at_least_one_block() {
    let mut drive = zero_drive(2048);
    let mut sb = two_block_file(&mut drive);
    let before = drive.image().clone();
    assert_eq!(deallocate_data_blocks_from_end(&mut drive, &mut sb, 2), Err(FsError::Domain));
    assert_eq!(deallocate_data_blocks_from_end(&mut drive, &mut sb, 3), Err(FsError::Domain));
    assert_eq!(drive.image(), &before);
}
