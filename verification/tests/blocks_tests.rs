use wfs::blocks::{DataBlock, RawBlock, StartBlock};

fn name_of(s: &str) -> [u8; 208] {
    let mut name = [0u8; 208];
    name[..s.len()].copy_from_slice(s.as_bytes());
    name
}

fn sample_start_block() -> StartBlock {
    StartBlock::new(5, 6, 0o644, 4, 1_700_000_000, 1_700_000_100, 1000, 100, 400, name_of("notes.txt"))
}

#[test]
fn start_block_getters() {
    let sb = sample_start_block();
    assert_eq!(*sb.get_block_index(), 5);
    assert_eq!(*sb.get_first_data_block_index(), 6);
    assert_eq!(*sb.get_perms(), 0o644);
    assert_eq!(*sb.get_file_type(), 4);
    assert_eq!(*sb.get_a_time(), 1_700_000_000);
    assert_eq!(*sb.get_m_time(), 1_700_000_100);
    assert_eq!(*sb.get_user_id(), 1000);
    assert_eq!(*sb.get_group_id(), 100);
    assert_eq!(*sb.get_size(), 400);
    assert_eq!(sb.get_raw_name(), name_of("notes.txt"));
}

#[test]
fn start_block_setters() {
    let mut sb = sample_start_block();
    sb.set_block_index(9);
    sb.set_first_data_block_index(10);
    sb.set_perms(0o600);
    sb.set_file_type(3);
    sb.set_a_time(11);
    sb.set_m_time(12);
    sb.set_user_id(13);
    sb.set_group_id(14);
    sb.set_size(15);
    sb.set_raw_name(name_of("other"));
    assert_eq!(*sb.get_block_index(), 9);
    assert_eq!(*sb.get_first_data_block_index(), 10);
    assert_eq!(*sb.get_perms(), 0o600);
    assert_eq!(*sb.get_file_type(), 3);
    assert_eq!(*sb.get_a_time(), 11);
    assert_eq!(*sb.get_m_time(), 12);
    assert_eq!(*sb.get_user_id(), 13);
    assert_eq!(*sb.get_group_id(), 14);
    assert_eq!(*sb.get_size(), 15);
    assert_eq!(sb.get_raw_name(), name_of("other"));
}

#[test]
fn start_block_name_is_all_208_bytes() {
    let sb = sample_start_block();
    assert!(sb.has_utf8_name());
    let name = sb.get_name();
    assert_eq!(name.len(), 208);
    assert!(name.starts_with("notes.txt"));
    assert!(name["notes.txt".len()..].chars().all(|c| c == '\0'));
}

#[test]
fn start_block_invalid_utf8_name() {
    let mut raw = name_of("x");
    raw[0] = 0xFF;
    let mut sb = sample_start_block();
    sb.set_raw_name(raw);
    assert!(!sb.has_utf8_name());
}

#[test]
fn start_block_set_name_of_208_bytes() {
    let mut sb = sample_start_block();
    let long: String = std::iter::repeat('a').take(208).collect();
    sb.set_name(&long);
    assert_eq!(sb.get_raw_name(), [b'a'; 208]);
    assert_eq!(sb.get_name(), long);
}

#[test]
fn start_block_layout_in_raw_block() {
    let sb = sample_start_block();
    let raw = RawBlock::from(sb);
    assert_eq!(&raw.data[0..4], &5u32.to_ne_bytes());
    assert_eq!(&raw.data[4..8], &6u32.to_ne_bytes());
    assert_eq!(&raw.data[8..10], &0o644u16.to_ne_bytes());
    assert_eq!(&raw.data[10..12], &4u16.to_ne_bytes());
    assert_eq!(&raw.data[12..16], &[0u8, 0, 0, 0]);
    assert_eq!(&raw.data[16..24], &1_700_000_000u64.to_ne_bytes());
    assert_eq!(&raw.data[24..32], &1_700_000_100u64.to_ne_bytes());
    assert_eq!(&raw.data[32..36], &1000u32.to_ne_bytes());
    assert_eq!(&raw.data[36..40], &100u32.to_ne_bytes());
    assert_eq!(&raw.data[40..48], &400u64.to_ne_bytes());
    assert_eq!(&raw.data[48..256], &name_of("notes.txt")[..]);
}

#[test]
fn start_block_roundtrip_through_raw_block() {
    let sb = sample_start_block();
    let back = StartBlock::from(RawBlock::from(sb));
    assert_eq!(*back.get_block_index(), 5);
    assert_eq!(*back.get_first_data_block_index(), 6);
    assert_eq!(*back.get_perms(), 0o644);
    assert_eq!(*back.get_file_type(), 4);
    assert_eq!(*back.get_a_time(), 1_700_000_000);
    assert_eq!(*back.get_m_time(), 1_700_000_100);
    assert_eq!(*back.get_user_id(), 1000);
    assert_eq!(*back.get_group_id(), 100);
    assert_eq!(*back.get_size(), 400);
    assert_eq!(back.get_raw_name(), name_of("notes.txt"));
}

#[test]
fn start_block_padding_is_not_read() {
    let mut raw = RawBlock::from(sample_start_block());
    raw.data[12] = 0xAB;
    raw.data[15] = 0xCD;
    let sb = StartBlock::from(raw);
    assert_eq!(RawBlock::from(sb).data[12..16], [0u8, 0, 0, 0]);
    assert_eq!(*sb.get_file_type(), 4);
    assert_eq!(*sb.get_a_time(), 1_700_000_000);
}

#[test]
fn data_block_layout_and_roundtrip() {
    let mut data = [0u8; 248];
    for (i, b) in data.iter_mut().enumerate() {
        *b = (i % 251) as u8;
    }
    let db = DataBlock::new(7, data, 8);
    let raw = RawBlock::from(db);
    assert_eq!(&raw.data[0..4], &7u32.to_ne_bytes());
    assert_eq!(&raw.data[4..252], &data[..]);
    assert_eq!(&raw.data[252..256], &8u32.to_ne_bytes());
    let back = DataBlock::from(raw);
    assert_eq!(*back.get_block_index(), 7);
    assert_eq!(*back.get_data(), data);
    assert_eq!(*back.get_next_block_index(), 8);
}

#[test]
fn data_block_setters() {
    let mut db = DataBlock::new(1, [0u8; 248], 2);
    db.set_block_index(3);
    db.set_next_block_index(u32::MAX);
    assert_eq!(*db.get_block_index(), 3);
    assert_eq!(*db.get_next_block_index(), u32::MAX);
}

#[test]
fn plain_blocks() {
    let dir = DataBlock::new_plain_dir(4);
    assert_eq!(*dir.get_block_index(), 4);
    assert_eq!(*dir.get_data(), [255u8; 248]);
    assert_eq!(*dir.get_next_block_index(), u32::MAX);
    let file = DataBlock::new_plain_file(5);
    assert_eq!(*file.get_block_index(), 5);
    assert_eq!(*file.get_data(), [0u8; 248]);
    assert_eq!(*file.get_next_block_index(), u32::MAX);
    assert_eq!(*DataBlock::new_plain(6, true).get_data(), [255u8; 248]);
    assert_eq!(*DataBlock::new_plain(6, false).get_data(), [0u8; 248]);
}

#[test]
fn set_data_inside_the_block() {
    let mut db = DataBlock::new(1, [9u8; 248], 2);
    assert_eq!(db.set_data(vec![1, 2, 3], 10), Ok(20));
    let data = db.get_data();
    assert_eq!(&data[10..13], &[1, 2, 3]);
    assert_eq!(data[9], 9);
    assert_eq!(data[13], 9);
    assert_eq!(*db.get_block_index(), 1);
    assert_eq!(*db.get_next_block_index(), 2);
}

#[test]
fn set_data_up_to_the_end() {
    let mut db = DataBlock::new(1, [0u8; 248], 2);
    assert_eq!(db.set_data(vec![7u8; 8], 240), Ok(20));
    assert_eq!(&db.get_data()[240..248], &[7u8; 8]);
}

#[test]
fn set_data_outside_the_block() {
    let mut db = DataBlock::new(1, [0u8; 248], 2);
    assert_eq!(db.set_data(vec![7u8; 10], 240), Err("trying to write outside of block"));
    assert_eq!(*db.get_data(), [0u8; 248]);
}
