//! Directory entries. The content of a directory is a sequence of 4-byte slots,
//! each holding the index of the start block of an entry, or the null index
//! for a free slot.
use vstd::prelude::*;
use crate::blocks::{
    DataBlockModel, StartBlock, NULL_INDEX, lemma_data_block_len, lemma_start_block_name_len, overwrite,
};
use crate::drive::{Drive, block_readable};
use crate::ne_bytes::{u32_ne_bytes, u32_to_ne};
use crate::results::{FsError, ResultEmpty};
use crate::drive_actions::block_actions::{
    all_writable, bulk_data_block_write, models, start_block_at, start_block_read, write_data_blocks_effect,
};
use crate::drive_actions::data_block_actions::{
    blocks_content, block_slice, chain_ok, entries_of, listed_entries, read_chain, read_start_chain,
    start_chain_ok, lemma_slices_of_content, lemma_chain_len, get_data_block_vec_from_start_block,
    get_directory_data_from_start_block_index, get_data_vec_from_data_block_vec, directory_slots,
    data_block_vector_set_data_from_data_vector, directory_slots_from_start_block_index,
};
use crate::drive_actions::deletion_utils::{stored_indexes, until_null};
use crate::drive_actions::file_utils::{expand_effect, expand_ok, expand_file};

verus! {

broadcast use {lemma_data_block_len, lemma_start_block_name_len};

/// The blocks `s` with their content replaced by `c`, 248 bytes per block.
pub open spec fn with_content(s: Seq<DataBlockModel>, c: Seq<u8>) -> Seq<DataBlockModel> {
    Seq::new(s.len(), |j: int| DataBlockModel { data: block_slice(c, j), ..s[j] })
}

/// The blocks of a directory after setting slot `slot` to `value`.
pub open spec fn set_slot_blocks(s: Seq<DataBlockModel>, slot: int, value: u32) -> Seq<DataBlockModel> {
    with_content(s, overwrite(blocks_content(s), slot * 4, u32_ne_bytes(value)))
}

/// Image `d` after writing blocks `s` in turn, stopping at the first block
/// that holds the null index.
pub open spec fn bulk_write_effect(d: Seq<u8>, s: Seq<DataBlockModel>) -> Seq<u8> {
    write_data_blocks_effect(d, s.take(until_null(stored_indexes(s)).len() as int))
}

/// Image `d` after setting slot `slot` of the directory whose chain starts at
/// `first` to `value`.
pub open spec fn modify_effect(d: Seq<u8>, first: u32, slot: int, value: u32) -> Seq<u8> {
    bulk_write_effect(d, set_slot_blocks(read_chain(d, first)->Ok_0, slot, value))
}

/// Setting slot `slot` of the directory whose chain starts at `first` runs
/// without panic: the chain can be read and, when `first` is not null, the slot
/// offset fits in a `u32`, the slot lies in the chain, and the blocks can be
/// written back.
pub open spec fn modify_ok(d: Seq<u8>, first: u32, slot: int, value: u32) -> bool {
    &&& chain_ok(d, first)
    &&& first != NULL_INDEX ==> {
        &&& 0 <= slot
        &&& slot * 4 <= u32::MAX
        &&& slot * 4 / 248 < read_chain(d, first)->Ok_0.len()
        &&& all_writable(set_slot_blocks(read_chain(d, first)->Ok_0, slot, value))
    }
}

/// Slot `i` is the first slot of `e` that holds `x`.
pub open spec fn first_occurrence(e: Seq<u32>, x: u32, i: int) -> bool {
    &&& 0 <= i < e.len()
    &&& e[i] == x
    &&& forall|k: int| 0 <= k < i ==> #[trigger] e[k] != x
}

/// Sets slot `directory_entry_index` of the directory to `new_directory_entry_data`
/// and writes the directory's blocks back.
fn modify_directory_contents(
    drive_file: &mut Drive,
    directory_entry_index: u32,
    new_directory_entry_data: u32,
    directory_start_block: &mut StartBlock,
) -> (r: ResultEmpty)
    requires
        modify_ok(
            old(drive_file)@,
            old(directory_start_block)@.first_data_block_index,
            directory_entry_index as int,
            new_directory_entry_data,
        ),
    ensures
        final(directory_start_block)@ == old(directory_start_block)@,
        old(directory_start_block)@.first_data_block_index == NULL_INDEX ==> r == Err::<(), FsError>(
            FsError::Io,
        ) && final(drive_file)@ == old(drive_file)@,
        old(directory_start_block)@.first_data_block_index != NULL_INDEX ==> r == Ok::<(), FsError>(())
            && final(drive_file)@ == modify_effect(
            old(drive_file)@,
            old(directory_start_block)@.first_data_block_index,
            directory_entry_index as int,
            new_directory_entry_data,
        ),
{
    let ghost d = drive_file@;
    let mut data_block_vec = get_data_block_vec_from_start_block(drive_file, *directory_start_block)?;
    let ghost s = models(data_block_vec@);
    let new_data = u32_to_ne(new_directory_entry_data);
    let data_offset: usize = (directory_entry_index * 4) as usize;
    let mut new_vec: Vec<u8> = Vec::new();
    new_vec.push(new_data[0]);
    new_vec.push(new_data[1]);
    new_vec.push(new_data[2]);
    new_vec.push(new_data[3]);
    assert(new_vec@ =~= u32_ne_bytes(new_directory_entry_data));
    let ghost old_len = data_block_vec@.len();
    proof {
        lemma_chain_len(d, old(directory_start_block)@.first_data_block_index);
    }
    let modified_data_block_vec = data_block_vector_set_data_from_data_vector(
        &mut data_block_vec,
        &mut new_vec,
        data_offset % 248,
        data_offset / 248,
    ).unwrap();
    proof {
        let t = models(modified_data_block_vec@);
        let c = overwrite(blocks_content(s), (data_offset / 248) * 248 + data_offset % 248, u32_ne_bytes(new_directory_entry_data));
        assert((data_offset / 248) * 248 + data_offset % 248 == directory_entry_index * 4);
        assert forall|j: int| 0 <= j < t.len() implies #[trigger] t[j] == set_slot_blocks(s, directory_entry_index as int, new_directory_entry_data)[j] by {
            assert(t[j] == modified_data_block_vec@[j]@);
            assert(t[j].data.len() == 248);
            lemma_slices_of_content(t, j);
        }
        assert(t =~= set_slot_blocks(s, directory_entry_index as int, new_directory_entry_data));
    }
    let _ = bulk_data_block_write(drive_file, modified_data_block_vec);
    Ok(())
}

/// The first slot of `slots` that holds `target`.
pub open spec fn first_position(slots: Seq<u32>, target: u32) -> int {
    choose|i: int| first_occurrence(slots, target, i)
}

/// The entries that the directory whose chain starts at `first` lists.
pub open spec fn listed_in_chain(d: Seq<u8>, first: u32) -> Seq<u32> {
    listed_entries(slots_in_chain(d, first))
}

/// The slots of the directory whose chain starts at `first`, free ones included.
pub open spec fn slots_in_chain(d: Seq<u8>, first: u32) -> Seq<u32> {
    entries_of(blocks_content(read_chain(d, first)->Ok_0))
}

/// Image `d` after removing `target` from the directory whose chain starts at
/// `first`: the first slot that holds it is set to the null index; no change
/// when the chain cannot be read or does not list it.
pub open spec fn remove_effect(d: Seq<u8>, target: u32, first: u32) -> Seq<u8> {
    if read_chain(d, first) is Ok && listed_in_chain(d, first).contains(target) {
        modify_effect(d, first, first_position(slots_in_chain(d, first), target), NULL_INDEX)
    } else {
        d
    }
}

/// What removing `target` from the directory whose chain starts at `first`
/// returns: the error of reading the chain, `NoEntry` when the directory does
/// not list it, else success.
pub open spec fn remove_result(d: Seq<u8>, target: u32, first: u32) -> ResultEmpty {
    match read_chain(d, first) {
        Err(e) => Err(e),
        Ok(_) => if listed_in_chain(d, first).contains(target) {
            Ok(())
        } else {
            Err(FsError::NoEntry)
        },
    }
}

/// Removing `target` from the directory whose chain starts at `first` runs
/// without panic.
pub open spec fn remove_ok(d: Seq<u8>, target: u32, first: u32) -> bool {
    &&& chain_ok(d, first)
    &&& forall|i: int|
        read_chain(d, first) is Ok && first_occurrence(slots_in_chain(d, first), target, i)
            ==> #[trigger] modify_ok(d, first, i, NULL_INDEX)
}

/// A directory lists exactly the indexes other than null that its slots hold.
pub proof fn lemma_listed_contains(e: Seq<u32>, x: u32)
    ensures
        listed_entries(e).contains(x) <==> (x != NULL_INDEX && e.contains(x)),
{
    let p = |y: u32| y != NULL_INDEX;
    if listed_entries(e).contains(x) {
        e.lemma_filter_contains_rev(p, x);
    }
    if x != NULL_INDEX && e.contains(x) {
        let k = choose|k: int| 0 <= k < e.len() && e[k] == x;
        e.lemma_filter_contains(p, k);
    }
}

/// The first occurrence of a value is unique.
pub proof fn lemma_first_occurrence_unique(e: Seq<u32>, x: u32, i: int, j: int)
    requires
        first_occurrence(e, x, i),
        first_occurrence(e, x, j),
    ensures
        i == j,
{
    if i < j {
        assert(e[i] != x);
    } else if j < i {
        assert(e[j] != x);
    }
}

/// Frees the slot of the directory that holds `start_block_entry_index_to_remove`
/// (the first such slot). Fails with `NoEntry` when the directory does not list
/// the index.
#[verifier::loop_isolation(false)]
pub fn remove_directory_entry(
    drive_file: &mut Drive,
    start_block_entry_index_to_remove: u32,
    directory_start_block: &mut StartBlock,
) -> (r: ResultEmpty)
    requires
        remove_ok(
            old(drive_file)@,
            start_block_entry_index_to_remove,
            old(directory_start_block)@.first_data_block_index,
        ),
    ensures
        final(directory_start_block)@ == old(directory_start_block)@,
        final(drive_file)@ == remove_effect(
            old(drive_file)@,
            start_block_entry_index_to_remove,
            old(directory_start_block)@.first_data_block_index,
        ),
        r == remove_result(
            old(drive_file)@,
            start_block_entry_index_to_remove,
            old(directory_start_block)@.first_data_block_index,
        ),
{
    let ghost d = drive_file@;
    let ghost first = directory_start_block@.first_data_block_index;
    let target = start_block_entry_index_to_remove;
    let data_block_vec = get_data_block_vec_from_start_block(drive_file, *directory_start_block)?;
    let ghost s = models(data_block_vec@);
    let data_vec = get_data_vec_from_data_block_vec(data_block_vec)?;
    let slots = directory_slots(&data_vec);
    let ghost e = slots_in_chain(d, first);
    proof {
        lemma_chain_len(d, first);
        lemma_listed_contains(e, target);
        assert(e.len() <= s.len() * 62);
    }
    for i in 0..slots.len()
        invariant
            d == drive_file@,
            slots@ == e,
            e == entries_of(blocks_content(s)),
            read_chain(d, first) == Ok::<Seq<DataBlockModel>, FsError>(s),
            first == directory_start_block@.first_data_block_index,
            directory_start_block@ == old(directory_start_block)@,
            d == old(drive_file)@,
            target == start_block_entry_index_to_remove,
            forall|k: int| 0 <= k < i ==> #[trigger] e[k] != target || target == NULL_INDEX,
            e.len() <= s.len() * 62,
            s.len() <= 0x0100_0000,
    {
        if slots[i] == target && target != u32::MAX {
            assert(first_occurrence(e, target, i as int));
            proof {
                let c = first_position(e, target);
                lemma_first_occurrence_unique(e, target, i as int, c);
            }
            assert(modify_ok(d, first, i as int, NULL_INDEX));
            let _ = modify_directory_contents(drive_file, i as u32, u32::MAX, directory_start_block);
            return Ok(());
        }
    }
    Err(FsError::NoEntry)
}

/// The slots of the directory whose start block is block `i`, free ones included.
pub open spec fn start_slots(d: Seq<u8>, i: u32) -> Result<Seq<u32>, FsError> {
    match read_start_chain(d, i) {
        Ok(s) => Ok(entries_of(blocks_content(s))),
        Err(e) => Err(e),
    }
}

/// Putting `value` into the first free slot of `slots` (the directory's slots
/// in image `d`) runs without panic.
pub open spec fn fill_slot_ok(d: Seq<u8>, first: u32, slots: Seq<u32>, value: u32) -> bool {
    forall|i: int| #[trigger] first_occurrence(slots, NULL_INDEX, i) ==> modify_ok(d, first, i, value)
}

/// Adding an entry to the directory `dir` runs without panic: its slots can be
/// read; a free slot can be set; when there is none, the directory can grow by
/// one block and, after that, its slots can be read and a free slot set.
pub open spec fn append_ok(d: Seq<u8>, dir: crate::blocks::StartBlockModel, value: u32) -> bool {
    &&& start_chain_ok(d, dir.block_index)
    &&& start_slots(d, dir.block_index) matches Ok(slots) ==> {
        &&& fill_slot_ok(d, dir.first_data_block_index, slots, value)
        &&& !slots.contains(NULL_INDEX) ==> {
            &&& expand_ok(d, dir.first_data_block_index, 1)
            &&& dir.first_data_block_index != NULL_INDEX ==> {
                let d1 = expand_effect(d, dir.first_data_block_index, 1, true);
                &&& start_chain_ok(d1, dir.block_index)
                &&& start_slots(d1, dir.block_index) matches Ok(slots1) ==> fill_slot_ok(
                    d1,
                    dir.first_data_block_index,
                    slots1,
                    value,
                )
            }
        }
    }
}

/// What putting `value` into the first free slot of `slots` does to image `d`:
/// when there is a free slot, result `r` and image `d2` are those of setting
/// it; `none` says what holds when there is none.
pub open spec fn fill_slot_result(
    d: Seq<u8>,
    first: u32,
    slots: Seq<u32>,
    value: u32,
    r: ResultEmpty,
    d2: Seq<u8>,
    none: bool,
) -> bool {
    if slots.contains(NULL_INDEX) {
        exists|i: int|
            #[trigger] first_occurrence(slots, NULL_INDEX, i) && if first == NULL_INDEX {
                r == Err::<(), FsError>(FsError::Io) && d2 == d
            } else {
                r == Ok::<(), FsError>(()) && d2 == modify_effect(d, first, i, value)
            }
    } else {
        none
    }
}

/// What adding `value` to directory `dir` gives: result `r` and image `d2`.
/// The slots are read through the start block stored at the directory's index;
/// the first free slot gets the value; when there is none, the directory grows
/// by one block of free slots and the first free slot then gets it.
pub open spec fn append_result(
    d: Seq<u8>,
    dir: crate::blocks::StartBlockModel,
    value: u32,
    r: ResultEmpty,
    d2: Seq<u8>,
) -> bool {
    let first = dir.first_data_block_index;
    match start_slots(d, dir.block_index) {
        Err(e) => r == Err::<(), FsError>(e) && d2 == d,
        Ok(slots) => fill_slot_result(
            d,
            first,
            slots,
            value,
            r,
            d2,
            if first == NULL_INDEX {
                r == Err::<(), FsError>(FsError::Io) && d2 == d
            } else {
                let d1 = expand_effect(d, first, 1, true);
                match start_slots(d1, dir.block_index) {
                    Err(e) => r == Err::<(), FsError>(e) && d2 == d1,
                    Ok(slots1) => fill_slot_result(
                        d1,
                        first,
                        slots1,
                        value,
                        r,
                        d2,
                        r == Ok::<(), FsError>(()) && d2 == d1,
                    ),
                }
            },
        ),
    }
}

/// Puts `value` into the first free slot (one holding the null index) of
/// `slots`, the slots of the directory.
fn fill_first_free_slot(
    drive_file: &mut Drive,
    slots: &Vec<u32>,
    new_directory_entry_data: u32,
    directory_start_block: &mut StartBlock,
) -> (r: Option<ResultEmpty>)
    requires
        fill_slot_ok(
            old(drive_file)@,
            old(directory_start_block)@.first_data_block_index,
            slots@,
            new_directory_entry_data,
        ),
        slots@.len() <= u32::MAX,
    ensures
        final(directory_start_block)@ == old(directory_start_block)@,
        r is Some <==> slots@.contains(NULL_INDEX),
        r is None ==> final(drive_file)@ == old(drive_file)@,
        r matches Some(res) ==> fill_slot_result(
            old(drive_file)@,
            old(directory_start_block)@.first_data_block_index,
            slots@,
            new_directory_entry_data,
            res,
            final(drive_file)@,
            true,
        ),
{
    for i in 0..slots.len()
        invariant
            drive_file@ == old(drive_file)@,
            directory_start_block@ == old(directory_start_block)@,
            slots@.len() <= u32::MAX,
            fill_slot_ok(
                old(drive_file)@,
                old(directory_start_block)@.first_data_block_index,
                slots@,
                new_directory_entry_data,
            ),
            forall|k: int| 0 <= k < i ==> #[trigger] slots@[k] != NULL_INDEX,
    {
        if slots[i] == u32::MAX {
            assert(first_occurrence(slots@, NULL_INDEX, i as int));
            let res = modify_directory_contents(
                drive_file,
                i as u32,
                new_directory_entry_data,
                directory_start_block,
            );
            assert(slots@.contains(NULL_INDEX));
            return Some(res);
        }
    }
    assert(!slots@.contains(NULL_INDEX));
    None
}

/// Adds `new_directory_entry_data` to the directory: it goes into the first
/// free slot, and when there is none the directory first grows by one block.
pub fn append_directory_content(
    drive_file: &mut Drive,
    new_directory_entry_data: u32,
    directory_start_block: &mut StartBlock,
) -> (r: ResultEmpty)
    requires
        append_ok(old(drive_file)@, old(directory_start_block)@, new_directory_entry_data),
    ensures
        final(directory_start_block)@ == old(directory_start_block)@,
        append_result(
            old(drive_file)@,
            old(directory_start_block)@,
            new_directory_entry_data,
            r,
            final(drive_file)@,
        ),
{
    let ghost d = drive_file@;
    let ghost dir = directory_start_block@;
    let directory_data = directory_slots_from_start_block_index(
        drive_file,
        *directory_start_block.get_block_index(),
    )?;
    proof {
        lemma_chain_len(d, start_block_at(d, dir.block_index).first_data_block_index);
    }
    match fill_first_free_slot(drive_file, &directory_data, new_directory_entry_data, directory_start_block) {
        Some(res) => {
            return res;
        },
        None => {},
    }
    expand_file(drive_file, *directory_start_block, 1, true)?;
    let ghost d1 = drive_file@;
    let directory_data = directory_slots_from_start_block_index(
        drive_file,
        *directory_start_block.get_block_index(),
    )?;
    proof {
        lemma_chain_len(d1, start_block_at(d1, dir.block_index).first_data_block_index);
    }
    match fill_first_free_slot(drive_file, &directory_data, new_directory_entry_data, directory_start_block) {
        Some(res) => {
            return res;
        },
        None => {},
    }
    Ok(())
}

/// The kind of a directory entry.
#[derive(Clone, Copy, PartialEq, Eq, Structural, Debug)]
pub enum FileKind {
    NamedPipe,
    CharDevice,
    Directory,
    RegularFile,
    Symlink,
    Socket,
}

/// An entry of a directory listing: the name and the kind of a file.
pub struct DirectoryEntry {
    pub name: String,
    pub kind: FileKind,
}

/// The kind that a start block's file type stands for: 1 a named pipe, 2 a
/// character device, 3 a directory, 4 a regular file, 5 a symbolic link, 6 a
/// socket; any other value a regular file.
pub open spec fn kind_of_file_type(file_type: u16) -> FileKind {
    if file_type == 1 {
        FileKind::NamedPipe
    } else if file_type == 2 {
        FileKind::CharDevice
    } else if file_type == 3 {
        FileKind::Directory
    } else if file_type == 4 {
        FileKind::RegularFile
    } else if file_type == 5 {
        FileKind::Symlink
    } else if file_type == 6 {
        FileKind::Socket
    } else {
        FileKind::RegularFile
    }
}

/// The kind that a start block's file type stands for.
pub fn file_kind(file_type: u16) -> (r: FileKind)
    ensures
        r == kind_of_file_type(file_type),
{
    match file_type {
        1 => FileKind::NamedPipe,
        2 => FileKind::CharDevice,
        3 => FileKind::Directory,
        4 => FileKind::RegularFile,
        5 => FileKind::Symlink,
        6 => FileKind::Socket,
        _ => FileKind::RegularFile,
    }
}

/// The entries that the directory whose start block is block `i` lists.
pub open spec fn listed_of(d: Seq<u8>, i: u32) -> Seq<u32> {
    listed_entries(entries_of(blocks_content(read_start_chain(d, i)->Ok_0)))
}

/// Listing the directory whose start block is block `i` runs without panic:
/// its chain can be read, and each entry it lists is a readable block whose
/// name is valid UTF-8.
pub open spec fn listing_ok(d: Seq<u8>, i: u32) -> bool {
    &&& start_chain_ok(d, i)
    &&& read_start_chain(d, i) is Ok ==> forall|k: int|
        0 <= k < listed_of(d, i).len() ==> block_readable(d, #[trigger] listed_of(d, i)[k])
            && vstd::utf8::valid_utf8(start_block_at(d, listed_of(d, i)[k]).name)
}

/// The listing of the directory whose start block is block `start_block_index`:
/// for each entry, the name and the kind that its start block holds.
pub fn get_directory_entry_vec_from_start_block_index(drive_file: &Drive, start_block_index: u32) -> (r: Result<Vec<DirectoryEntry>, FsError>)
    requires
        listing_ok(drive_file@, start_block_index),
    ensures
        match read_start_chain(drive_file@, start_block_index) {
            Err(e) => r matches Err(e2) && e2 == e,
            Ok(_) => r matches Ok(v) && v@.len() == listed_of(drive_file@, start_block_index).len()
                && forall|k: int|
                0 <= k < v@.len() ==> {
                    let sb = start_block_at(drive_file@, listed_of(drive_file@, start_block_index)[k]);
                    &&& (#[trigger] v@[k]).name@ == vstd::utf8::decode_utf8(sb.name)
                    &&& v@[k].kind == kind_of_file_type(sb.file_type)
                },
        },
{
    let directory_indexes = get_directory_data_from_start_block_index(drive_file, start_block_index)?;
    let ghost listed = listed_of(drive_file@, start_block_index);
    let mut directory_entries: Vec<DirectoryEntry> = Vec::new();
    for k in 0..directory_indexes.len()
        invariant
            directory_indexes@ == listed,
            listed == listed_of(drive_file@, start_block_index),
            read_start_chain(drive_file@, start_block_index) is Ok,
            listing_ok(drive_file@, start_block_index),
            directory_entries@.len() == k,
            forall|j: int|
                0 <= j < k ==> {
                    let sb = start_block_at(drive_file@, listed[j]);
                    &&& (#[trigger] directory_entries@[j]).name@ == vstd::utf8::decode_utf8(sb.name)
                    &&& directory_entries@[j].kind == kind_of_file_type(sb.file_type)
                },
    {
        let index = directory_indexes[k];
        assert(listed[k as int] == index);
        assert(index != NULL_INDEX) by {
            broadcast use vstd::seq_lib::group_filter_ensures;

            assert(listed.contains(index));
        }
        let current_start_block = start_block_read(drive_file, index)?;
        directory_entries.push(
            DirectoryEntry {
                name: current_start_block.get_name(),
                kind: file_kind(*current_start_block.get_file_type()),
            },
        );
    }
    Ok(directory_entries)
}

} // verus!
