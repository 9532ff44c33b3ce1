//! The file system operations on a drive: what each request does once the
//! paths and handles it names have been resolved to the indexes of their
//! start blocks. A request that checks access names the start block of its
//! path (`path_index`) and, apart from it, the start block it works on
//! (`index`, from its file handle when it has one).
use vstd::prelude::*;
use vstd::string::StringSliceAdditionalSpecFns;
use crate::blocks::{StartBlock, StartBlockModel, NULL_INDEX, lemma_start_block_name_len};
use crate::drive::{Drive, block_addressable, block_readable};
use crate::results::{FsError, ResultEmpty, ResultDataVector, ResultStartBlock, outcome};
use crate::drive_actions::block_actions::{
    check_if_block_is_empty, start_block_at, start_block_read, start_block_write,
};
use crate::drive_actions::data_block_actions::{chain_ok, read_chain, read_start_chain};
use crate::drive_actions::deletion_utils::{
    delete_directory, delete_directory_effect, delete_directory_ok, delete_file, delete_file_effect,
    delete_file_ok,
};
use crate::drive_actions::directory_actions::{
    DirectoryEntry, append_directory_content, append_ok, append_result,
    get_directory_entry_vec_from_start_block_index, kind_of_file_type, listed_of, listing_ok,
    remove_directory_entry, remove_effect, remove_ok, remove_result,
};
use crate::drive_actions::drive_utils::{block_free, free_blocks};
use crate::drive_actions::file_utils::{file_bytes, read_range, read_file, reduce_file_size, shrink_effect};
use crate::drive_actions::deletion_utils::{indexes_writable, stored_indexes};
use crate::drive_actions::start_block_actions::padded_name;
use crate::drive_actions::write_utils::{
    blocks_for, create_empty_directory, create_empty_file, create_ok, create_result, new_empty_effect,
    start_write_effect, write_effect, write_grow_effect, write_new_empty_directory, write_ok, write_to_file,
};

verus! {

broadcast use lemma_start_block_name_len;

/// The multiplier that moves permission bits to the place of a user's class:
/// 1 for others, 8 for the group, 64 for the owner.
pub open spec fn class_shift(sb: StartBlockModel, uid: u32, gid: u32) -> int {
    if uid == sb.user_id {
        64
    } else if gid == sb.group_id {
        8
    } else {
        1
    }
}

/// Whether user `uid` of group `gid` may access file `sb` as `mask` (read 4,
/// write 2, execute 1) asks: root may always; anyone else when every bit of
/// the mask, moved to the place of the user's class (owner, group, others),
/// is set in the file's permissions.
pub open spec fn access_granted(sb: StartBlockModel, uid: u32, gid: u32, mask: u32) -> bool {
    let m = (mask * class_shift(sb, uid, gid)) as u16;
    uid == 0 || m & sb.perms == m
}

/// What checking access to the start block at `index` gives: an I/O error for
/// the null index, else success exactly when access is granted.
pub open spec fn access_result(d: Seq<u8>, uid: u32, gid: u32, index: u32, mask: u32) -> ResultEmpty {
    if index == NULL_INDEX {
        Err(FsError::Io)
    } else if access_granted(start_block_at(d, index), uid, gid, mask) {
        Ok(())
    } else {
        Err(FsError::Access)
    }
}

/// Checking an access runs without panic: the start block can be read and
/// the moved mask fits in 16 bits.
pub open spec fn access_ok(d: Seq<u8>, uid: u32, gid: u32, index: u32, mask: u32) -> bool {
    &&& index == NULL_INDEX || block_readable(d, index)
    &&& index != NULL_INDEX && uid != 0 ==> mask * class_shift(start_block_at(d, index), uid, gid) <= u16::MAX
}

/// Checks whether user `uid` of group `gid` may access the file whose start
/// block is block `index` as `mask` asks. Root may always.
pub fn access(drive_file: &Drive, uid: u32, gid: u32, index: u32, mask: u32) -> (r: ResultEmpty)
    requires
        access_ok(drive_file@, uid, gid, index, mask),
    ensures
        r == access_result(drive_file@, uid, gid, index, mask),
{
    let start_block = start_block_read(drive_file, index)?;
    if uid == 0 {
        return Ok(());
    }
    let mut user_relation: u32 = 0;
    if gid == *start_block.get_group_id() {
        user_relation = 1;
    }
    if uid == *start_block.get_user_id() {
        user_relation = 2;
    }
    let factor: u16 = if user_relation == 2 {
        64
    } else if user_relation == 1 {
        8
    } else {
        1
    };
    let bitwise_mask: u16 = (mask as u16) * factor;
    let bitwise_check = bitwise_mask & *start_block.get_perms();
    if bitwise_mask == bitwise_check {
        Ok(())
    } else {
        Err(FsError::Access)
    }
}

/// What writing back start block `sb` returns: an I/O error when it holds the
/// null index.
pub open spec fn write_back_result(sb: StartBlockModel) -> ResultEmpty {
    if sb.block_index == NULL_INDEX {
        Err(FsError::Io)
    } else {
        Ok(())
    }
}

/// Start block `sb` can be written back at the index it holds.
pub open spec fn write_back_ok(sb: StartBlockModel) -> bool {
    sb.block_index == NULL_INDEX || block_addressable(sb.block_index)
}

/// The attributes of a file: its start block, when access to its path is
/// granted for reading and writing.
pub fn getattr(drive_file: &Drive, uid: u32, gid: u32, path_index: u32, index: u32) -> (r: ResultStartBlock)
    requires
        access_ok(drive_file@, uid, gid, path_index, 6),
        access_result(drive_file@, uid, gid, path_index, 6) is Ok ==> index == NULL_INDEX || block_readable(
            drive_file@,
            index,
        ),
    ensures
        match access_result(drive_file@, uid, gid, path_index, 6) {
            Err(e) => r == Err::<StartBlock, FsError>(e),
            Ok(_) => if index == NULL_INDEX {
                r == Err::<StartBlock, FsError>(FsError::Io)
            } else {
                r matches Ok(b) && b@ == start_block_at(drive_file@, index)
            },
        },
{
    access(drive_file, uid, gid, path_index, 6)?;
    start_block_read(drive_file, index)
}

/// Changing the permissions: only root may; the start block of block `index`
/// is read, gets `mode` as permissions and is written back at the index it holds.
pub fn chmod(drive_file: &mut Drive, uid: u32, index: u32, mode: u32) -> (r: ResultEmpty)
    requires
        uid == 0 && index != NULL_INDEX ==> {
            &&& block_readable(old(drive_file)@, index)
            &&& mode <= u16::MAX
            &&& write_back_ok(start_block_at(old(drive_file)@, index))
        },
    ensures
        uid != 0 ==> r == Err::<(), FsError>(FsError::Permission) && final(drive_file)@ == old(drive_file)@,
        uid == 0 && index == NULL_INDEX ==> r == Err::<(), FsError>(FsError::Io) && final(drive_file)@ == old(drive_file)@,
        uid == 0 && index != NULL_INDEX ==> {
            let sb = StartBlockModel { perms: mode as u16, ..start_block_at(old(drive_file)@, index) };
            &&& final(drive_file)@ == start_write_effect(old(drive_file)@, sb)
            &&& r == write_back_result(sb)
        },
{
    if uid != 0 {
        return Err(FsError::Permission);
    }
    let mut start_block = start_block_read(drive_file, index)?;
    start_block.set_perms(mode as u16);
    start_block_write(drive_file, start_block)?;
    Ok(())
}

/// The start block after `chown`: the user id becomes `new_uid` and the
/// group id `new_gid`, each when given.
pub open spec fn chown_block(sb: StartBlockModel, new_uid: Option<u32>, new_gid: Option<u32>) -> StartBlockModel {
    let a = match new_uid {
        Some(u) => StartBlockModel { user_id: u, ..sb },
        None => sb,
    };
    match new_gid {
        Some(g) => StartBlockModel { group_id: g, ..a },
        None => a,
    }
}

/// Changing the owner: only root may; the start block of block `index` is
/// read, changed as `chown_block` says and written back at the index it holds.
pub fn chown(drive_file: &mut Drive, uid: u32, index: u32, new_uid: Option<u32>, new_gid: Option<u32>) -> (r: ResultEmpty)
    requires
        uid == 0 && index != NULL_INDEX ==> {
            &&& block_readable(old(drive_file)@, index)
            &&& write_back_ok(start_block_at(old(drive_file)@, index))
        },
    ensures
        uid != 0 ==> r == Err::<(), FsError>(FsError::Permission) && final(drive_file)@ == old(drive_file)@,
        uid == 0 && index == NULL_INDEX ==> r == Err::<(), FsError>(FsError::Io) && final(drive_file)@ == old(drive_file)@,
        uid == 0 && index != NULL_INDEX ==> {
            let sb = chown_block(start_block_at(old(drive_file)@, index), new_uid, new_gid);
            &&& final(drive_file)@ == start_write_effect(old(drive_file)@, sb)
            &&& r == write_back_result(sb)
        },
{
    if uid != 0 {
        return Err(FsError::Permission);
    }
    let mut start_block = start_block_read(drive_file, index)?;
    match new_uid {
        Some(user_id) => start_block.set_user_id(user_id),
        None => {},
    }
    match new_gid {
        Some(group_id) => start_block.set_group_id(group_id),
        None => {},
    }
    start_block_write(drive_file, start_block)?;
    Ok(())
}

/// `n` zero bytes.
pub open spec fn zeros(n: int) -> Seq<u8> {
    Seq::new(n as nat, |_k: int| 0u8)
}

/// The image that truncating file `sb` to `size` bytes prepares before the
/// start block is written back with the new size (the error when it fails):
/// a shrink cuts the chain to the blocks the new size needs; a growth writes
/// zero bytes from the old end to the new one, the chain growing as the write
/// needs.
pub open spec fn truncate_prepared(d: Seq<u8>, sb: StartBlockModel, size: u64) -> Result<Seq<u8>, FsError> {
    if size < sb.size {
        match read_chain(d, sb.first_data_block_index) {
            Err(e) => Err(e),
            Ok(s) => if blocks_for(size as int) > s.len() {
                Err(FsError::Domain)
            } else {
                Ok(shrink_effect(d, s, size as int))
            },
        }
    } else if sb.size < size {
        if sb.first_data_block_index == NULL_INDEX {
            Err(FsError::Io)
        } else {
            Ok(write_effect(d, sb, sb.size as int, zeros(size - sb.size)))
        }
    } else {
        Ok(d)
    }
}

/// Truncating runs without panic: the start block can be read and written
/// back; a shrink can read the chain and delete and write its blocks; a
/// growth can write zero bytes from the old end to the new one.
pub open spec fn truncate_ok(d: Seq<u8>, index: u32, size: u64) -> bool {
    index != NULL_INDEX ==> {
        let sb = start_block_at(d, index);
        &&& block_readable(d, index)
        &&& write_back_ok(sb)
        &&& size < sb.size ==> {
            &&& chain_ok(d, sb.first_data_block_index)
            &&& read_chain(d, sb.first_data_block_index) matches Ok(s) ==> (blocks_for(size as int) <= s.len()
                ==> indexes_writable(stored_indexes(s)))
        }
        &&& size > sb.size && sb.first_data_block_index != NULL_INDEX ==> write_ok(
            d,
            sb,
            sb.size as int,
            zeros(size - sb.size),
        )
    }
}

/// Setting the length of a file to `size`: a cut keeps the blocks the new
/// size needs and zeroes the bytes past the new end; a growth writes zero
/// bytes from the old end to the new one. Then the start block is written
/// back with the new size.
pub fn truncate(drive_file: &mut Drive, uid: u32, gid: u32, path_index: u32, index: u32, size: u64) -> (r: ResultEmpty)
    requires
        access_ok(old(drive_file)@, uid, gid, path_index, 6),
        access_result(old(drive_file)@, uid, gid, path_index, 6) is Ok ==> truncate_ok(old(drive_file)@, index, size),
    ensures
        ({
            let d = old(drive_file)@;
            match access_result(d, uid, gid, path_index, 6) {
                Err(e) => r == Err::<(), FsError>(e) && final(drive_file)@ == d,
                Ok(_) => if index == NULL_INDEX {
                    r == Err::<(), FsError>(FsError::Io) && final(drive_file)@ == d
                } else {
                    let sb = start_block_at(d, index);
                    let sb2 = StartBlockModel { size, ..sb };
                    match truncate_prepared(d, sb, size) {
                        Err(e) => r == Err::<(), FsError>(e) && final(drive_file)@ == d,
                        Ok(d1) => {
                            &&& final(drive_file)@ == start_write_effect(d1, sb2)
                            &&& r == write_back_result(sb2)
                        },
                    }
                },
            }
        }),
{
    access(drive_file, uid, gid, path_index, 6)?;
    let mut start_block = start_block_read(drive_file, index)?;
    let current_file_size = *start_block.get_size();
    if current_file_size > size {
        reduce_file_size(drive_file, &mut start_block, size)?;
    } else if current_file_size < size {
        if *start_block.get_first_data_block_index() == u32::MAX {
            return Err(FsError::Io);
        }
        let n = (size - current_file_size) as usize;
        let mut padding: Vec<u8> = Vec::new();
        for k in 0..n
            invariant
                padding@ == zeros(k as int),
        {
            padding.push(0u8);
            assert(padding@ =~= zeros(k + 1));
        }
        assert(padding@ =~= zeros(size - current_file_size));
        let mut grown = start_block;
        let _ = write_to_file(drive_file, current_file_size as usize, &mut padding, &mut grown);
    }
    start_block.set_size(size);
    start_block_write(drive_file, start_block)?;
    Ok(())
}

/// The start block after `utimens`: the access and modification times become
/// the given ones.
pub open spec fn times_block(sb: StartBlockModel, a_time: Option<u64>, m_time: Option<u64>) -> StartBlockModel {
    let a = match a_time {
        Some(t) => StartBlockModel { a_time: t, ..sb },
        None => sb,
    };
    match m_time {
        Some(t) => StartBlockModel { m_time: t, ..a },
        None => a,
    }
}

/// Setting the times of the file whose start block is block `index`, in
/// seconds since the epoch; the start block is written back at the index it holds.
pub fn utimens(
    drive_file: &mut Drive,
    uid: u32,
    gid: u32,
    path_index: u32,
    index: u32,
    a_time: Option<u64>,
    m_time: Option<u64>,
) -> (r: ResultEmpty)
    requires
        access_ok(old(drive_file)@, uid, gid, path_index, 6),
        access_result(old(drive_file)@, uid, gid, path_index, 6) is Ok && index != NULL_INDEX ==> {
            &&& block_readable(old(drive_file)@, index)
            &&& write_back_ok(start_block_at(old(drive_file)@, index))
        },
    ensures
        ({
            let d = old(drive_file)@;
            match access_result(d, uid, gid, path_index, 6) {
                Err(e) => r == Err::<(), FsError>(e) && final(drive_file)@ == d,
                Ok(_) => if index == NULL_INDEX {
                    r == Err::<(), FsError>(FsError::Io) && final(drive_file)@ == d
                } else {
                    let sb = times_block(start_block_at(d, index), a_time, m_time);
                    &&& final(drive_file)@ == start_write_effect(d, sb)
                    &&& r == write_back_result(sb)
                },
            }
        }),
{
    access(drive_file, uid, gid, path_index, 6)?;
    let mut start_block = start_block_read(drive_file, index)?;
    match a_time {
        Some(time) => start_block.set_a_time(time),
        None => {},
    }
    match m_time {
        Some(time) => start_block.set_m_time(time),
        None => {},
    }
    start_block_write(drive_file, start_block)?;
    Ok(())
}

/// Reading runs without panic once access is granted: the start block can be
/// read, its chain can be read and holds blocks, and the bytes asked for fit
/// in memory.
pub open spec fn read_ok(d: Seq<u8>, index: u32, offset: u64, size: u32) -> bool {
    &&& index != NULL_INDEX
    &&& block_readable(d, index)
    &&& chain_ok(d, start_block_at(d, index).first_data_block_index)
    &&& read_chain(d, start_block_at(d, index).first_data_block_index) is Ok
    &&& offset + size <= usize::MAX
}

/// Reading `size` bytes of the file from byte `offset`: the bytes of the file
/// in that range, fewer (possibly none) when the file ends before.
pub fn read(drive_file: &Drive, uid: u32, gid: u32, path_index: u32, index: u32, offset: u64, size: u32) -> (r: ResultDataVector)
    requires
        access_ok(drive_file@, uid, gid, path_index, 4),
        access_result(drive_file@, uid, gid, path_index, 4) is Ok ==> read_ok(drive_file@, index, offset, size),
    ensures
        match access_result(drive_file@, uid, gid, path_index, 4) {
            Err(e) => r == Err::<Vec<u8>, FsError>(e),
            Ok(_) => {
                let sb = start_block_at(drive_file@, index);
                r matches Ok(v) && v@ == read_range(
                    file_bytes(read_chain(drive_file@, sb.first_data_block_index)->Ok_0, sb.size as int),
                    offset as int,
                    size as int,
                )
            },
        },
{
    access(drive_file, uid, gid, path_index, 4)?;
    let mut start_block = match start_block_read(drive_file, index) {
        Ok(b) => b,
        Err(_) => {
            assert(false);
            return Err(FsError::Io);
        },
    };
    match read_file(drive_file, &mut start_block, offset as usize, size as usize) {
        Ok(v) => Ok(v),
        Err(e) => {
            assert(false);
            Err(e)
        },
    }
}

/// What a write of `data` at byte `offset` of file `sb` returns: the error of
/// reading the chain once it has grown, else the number of bytes written.
pub open spec fn write_result(d: Seq<u8>, sb: StartBlockModel, offset: int, data: Seq<u8>) -> Result<u32, FsError> {
    let end = offset + data.len();
    match read_chain(write_grow_effect(d, sb, end), sb.first_data_block_index) {
        Err(e) => Err(e),
        Ok(_) => Ok(data.len() as u32),
    }
}

/// Writing `data` into the file from byte `offset`; returns the number of
/// bytes written.
pub fn write(
    drive_file: &mut Drive,
    uid: u32,
    gid: u32,
    path_index: u32,
    index: u32,
    offset: u64,
    data: Vec<u8>,
) -> (r: Result<u32, FsError>)
    requires
        access_ok(old(drive_file)@, uid, gid, path_index, 6),
        access_result(old(drive_file)@, uid, gid, path_index, 6) is Ok ==> {
            &&& index != NULL_INDEX
            &&& block_readable(old(drive_file)@, index)
            &&& offset <= usize::MAX
            &&& write_ok(old(drive_file)@, start_block_at(old(drive_file)@, index), offset as int, data@)
        },
    ensures
        ({
            let d = old(drive_file)@;
            match access_result(d, uid, gid, path_index, 6) {
                Err(e) => r == Err::<u32, FsError>(e) && final(drive_file)@ == d,
                Ok(_) => {
                    let sb = start_block_at(d, index);
                    &&& final(drive_file)@ == write_effect(d, sb, offset as int, data@)
                    &&& r == write_result(d, sb, offset as int, data@)
                },
            }
        }),
{
    access(drive_file, uid, gid, path_index, 6)?;
    let mut start_block = match start_block_read(drive_file, index) {
        Ok(b) => b,
        Err(_) => {
            assert(false);
            return Err(FsError::Io);
        },
    };
    let written = data.len();
    let mut temp_data = data.clone();
    assert(temp_data@ == data@);
    write_to_file(drive_file, offset as usize, &mut temp_data, &mut start_block)?;
    Ok(written as u32)
}

/// The start block of a new entry named `name` in a directory: permissions
/// `mode`, both times `now`, owned by `uid` and `gid`, of type `file_type`
/// and size `size`; its indexes are set when it is placed.
pub open spec fn new_entry(name: Seq<u8>, mode: u32, file_type: u16, now: u64, uid: u32, gid: u32, size: u64) -> StartBlockModel {
    StartBlockModel {
        block_index: 0,
        first_data_block_index: 0,
        perms: mode as u16,
        file_type,
        a_time: now,
        m_time: now,
        user_id: uid,
        group_id: gid,
        size,
        name: padded_name(name),
    }
}

/// The 208 name bytes for `name`: its bytes followed by zero bytes.
fn name_bytes(name: &[u8]) -> (r: [u8; 208])
    requires
        name@.len() <= 208,
    ensures
        r@ == padded_name(name@),
{
    let mut arr: [u8; 208] = [0u8; 208];
    for i in 0..name.len()
        invariant
            name@.len() <= 208,
            arr@.len() == 208,
            forall|k: int| 0 <= k < i ==> arr@[k] == name@[k],
            forall|k: int| i <= k < 208 ==> arr@[k] == 0u8,
    {
        arr[i] = name[i];
    }
    assert(arr@ =~= padded_name(name@));
    arr
}

/// Creating an entry runs without panic once access to the parent is granted:
/// the parent's start block can be read, the name fits, the mode fits in 16
/// bits and the entry can be created in the parent.
pub open spec fn create_entry_ok(
    d: Seq<u8>,
    parent_index: u32,
    child: StartBlockModel,
    name: Seq<u8>,
    mode: u32,
    is_directory: bool,
) -> bool {
    &&& block_readable(d, parent_index)
    &&& name.len() <= 208
    &&& mode <= u16::MAX
    &&& create_ok(d, start_block_at(d, parent_index), child, is_directory)
}

/// Creating a directory named `name` in the directory whose start block is
/// block `parent_index`, at time `now`. Returns the new directory's start
/// block as it was made (before it was placed). A name longer than 208 bytes
/// is refused with `NameTooLong`, changing nothing.
pub fn mkdir(
    drive_file: &mut Drive,
    uid: u32,
    gid: u32,
    parent_index: u32,
    name: &[u8],
    mode: u32,
    now: u64,
) -> (r: ResultStartBlock)
    requires
        access_ok(old(drive_file)@, uid, gid, parent_index, 6),
        access_result(old(drive_file)@, uid, gid, parent_index, 6) is Ok && name@.len() <= 208
            ==> create_entry_ok(
            old(drive_file)@,
            parent_index,
            new_entry(name@, mode, 3, now, uid, gid, 0),
            name@,
            mode,
            true,
        ),
    ensures
        ({
            let d = old(drive_file)@;
            let child = new_entry(name@, mode, 3, now, uid, gid, 0);
            match access_result(d, uid, gid, parent_index, 6) {
                Err(e) => r == Err::<StartBlock, FsError>(e) && final(drive_file)@ == d,
                Ok(_) => if name@.len() > 208 {
                    r == Err::<StartBlock, FsError>(FsError::NameTooLong) && final(drive_file)@ == d
                } else {
                    &&& r matches Ok(b) ==> b@ == child
                    &&& create_result(d, start_block_at(d, parent_index), child, true, outcome(r), final(drive_file)@)
                },
            }
        }),
{
    access(drive_file, uid, gid, parent_index, 6)?;
    if name.len() > 208 {
        return Err(FsError::NameTooLong);
    }
    let parent_start_block = start_block_read(drive_file, parent_index)?;
    let mut child_start_block = StartBlock::new(0, 0, mode as u16, 3, now, now, uid, gid, 0, name_bytes(name));
    let mut parent_copy = parent_start_block;
    let created = create_empty_directory(drive_file, &mut parent_copy, &mut child_start_block);
    match created {
        Ok(_) => Ok(child_start_block),
        Err(e) => Err(e),
    }
}

/// Creating a file named `name` in the directory whose start block is block
/// `parent_index`, at time `now`; a new file is empty. Returns the
/// new file's start block as it was made (before it was placed). A name longer
/// than 208 bytes is refused with `NameTooLong`, changing nothing.
pub fn create(
    drive_file: &mut Drive,
    uid: u32,
    gid: u32,
    parent_index: u32,
    name: &[u8],
    mode: u32,
    now: u64,
) -> (r: ResultStartBlock)
    requires
        access_ok(old(drive_file)@, uid, gid, parent_index, 6),
        access_result(old(drive_file)@, uid, gid, parent_index, 6) is Ok && name@.len() <= 208
            ==> create_entry_ok(
            old(drive_file)@,
            parent_index,
            new_entry(name@, mode, 4, now, uid, gid, 0),
            name@,
            mode,
            false,
        ),
    ensures
        ({
            let d = old(drive_file)@;
            let child = new_entry(name@, mode, 4, now, uid, gid, 0);
            match access_result(d, uid, gid, parent_index, 6) {
                Err(e) => r == Err::<StartBlock, FsError>(e) && final(drive_file)@ == d,
                Ok(_) => if name@.len() > 208 {
                    r == Err::<StartBlock, FsError>(FsError::NameTooLong) && final(drive_file)@ == d
                } else {
                    &&& r matches Ok(b) ==> b@ == child
                    &&& create_result(d, start_block_at(d, parent_index), child, false, outcome(r), final(drive_file)@)
                },
            }
        }),
{
    access(drive_file, uid, gid, parent_index, 6)?;
    if name.len() > 208 {
        return Err(FsError::NameTooLong);
    }
    let parent_start_block = start_block_read(drive_file, parent_index)?;
    let mut child_start_block = StartBlock::new(0, 0, mode as u16, 4, now, now, uid, gid, 0, name_bytes(name));
    let mut parent_copy = parent_start_block;
    let created = create_empty_file(drive_file, &mut parent_copy, &mut child_start_block);
    match created {
        Ok(_) => Ok(child_start_block),
        Err(e) => Err(e),
    }
}

/// Both accesses of a removal pass: to the parent, then to the entry.
pub open spec fn both_granted(d: Seq<u8>, uid: u32, gid: u32, parent_index: u32, target_index: u32) -> bool {
    &&& access_result(d, uid, gid, parent_index, 6) is Ok
    &&& access_result(d, uid, gid, target_index, 6) is Ok
}

/// The result of the two access checks of a removal, when one fails.
pub open spec fn removal_access_result(d: Seq<u8>, uid: u32, gid: u32, parent_index: u32, target_index: u32) -> ResultEmpty {
    match access_result(d, uid, gid, parent_index, 6) {
        Err(e) => Err(e),
        Ok(_) => access_result(d, uid, gid, target_index, 6),
    }
}

/// Removing the file whose start block is block `target_index` from the
/// directory whose start block is block `parent_index`: its entry is removed
/// and all its blocks are deleted.
pub fn unlink(drive_file: &mut Drive, uid: u32, gid: u32, parent_index: u32, target_index: u32) -> (r: ResultEmpty)
    requires
        access_ok(old(drive_file)@, uid, gid, parent_index, 6),
        access_result(old(drive_file)@, uid, gid, parent_index, 6) is Ok ==> access_ok(
            old(drive_file)@,
            uid,
            gid,
            target_index,
            6,
        ),
        both_granted(old(drive_file)@, uid, gid, parent_index, target_index) ==> delete_file_ok(
            old(drive_file)@,
            start_block_at(old(drive_file)@, target_index),
            start_block_at(old(drive_file)@, parent_index),
        ),
    ensures
        ({
            let d = old(drive_file)@;
            if both_granted(d, uid, gid, parent_index, target_index) {
                &&& r == Ok::<(), FsError>(())
                &&& final(drive_file)@ == delete_file_effect(
                    d,
                    start_block_at(d, target_index),
                    start_block_at(d, parent_index),
                )
            } else {
                r == removal_access_result(d, uid, gid, parent_index, target_index) && final(drive_file)@ == d
            }
        }),
{
    access(drive_file, uid, gid, parent_index, 6)?;
    access(drive_file, uid, gid, target_index, 6)?;
    let mut to_del_start_block = start_block_read(drive_file, target_index)?;
    let mut parent_start_block = start_block_read(drive_file, parent_index)?;
    delete_file(drive_file, &mut to_del_start_block, &mut parent_start_block)?;
    Ok(())
}

/// Removing the directory whose start block is block `target_index` from the
/// directory whose start block is block `parent_index`: every file it lists is
/// deleted, then the directory itself.
pub fn rmdir(drive_file: &mut Drive, uid: u32, gid: u32, parent_index: u32, target_index: u32) -> (r: ResultEmpty)
    requires
        access_ok(old(drive_file)@, uid, gid, parent_index, 6),
        access_result(old(drive_file)@, uid, gid, parent_index, 6) is Ok ==> access_ok(
            old(drive_file)@,
            uid,
            gid,
            target_index,
            6,
        ),
        both_granted(old(drive_file)@, uid, gid, parent_index, target_index) ==> delete_directory_ok(
            old(drive_file)@,
            start_block_at(old(drive_file)@, target_index),
            start_block_at(old(drive_file)@, parent_index),
        ),
    ensures
        ({
            let d = old(drive_file)@;
            if both_granted(d, uid, gid, parent_index, target_index) {
                let dir = start_block_at(d, target_index);
                &&& final(drive_file)@ == delete_directory_effect(d, dir, start_block_at(d, parent_index))
                &&& r == match read_start_chain(d, dir.block_index) {
                    Ok(_) => Ok::<(), FsError>(()),
                    Err(e) => Err::<(), FsError>(e),
                }
            } else {
                r == removal_access_result(d, uid, gid, parent_index, target_index) && final(drive_file)@ == d
            }
        }),
{
    access(drive_file, uid, gid, parent_index, 6)?;
    access(drive_file, uid, gid, target_index, 6)?;
    let mut to_del_start_block = start_block_read(drive_file, target_index)?;
    let mut parent_start_block = start_block_read(drive_file, parent_index)?;
    delete_directory(drive_file, &mut to_del_start_block, &mut parent_start_block)?;
    Ok(())
}

/// The three accesses of a rename pass: to the old parent, to the entry and
/// to the new parent.
pub open spec fn rename_granted(d: Seq<u8>, uid: u32, gid: u32, parent_index: u32, file_index: u32, new_parent_index: u32) -> bool {
    &&& access_result(d, uid, gid, parent_index, 6) is Ok
    &&& access_result(d, uid, gid, file_index, 6) is Ok
    &&& access_result(d, uid, gid, new_parent_index, 6) is Ok
}

/// The result of the three access checks of a rename, when one fails.
pub open spec fn rename_access_result(
    d: Seq<u8>,
    uid: u32,
    gid: u32,
    parent_index: u32,
    file_index: u32,
    new_parent_index: u32,
) -> ResultEmpty {
    match access_result(d, uid, gid, parent_index, 6) {
        Err(e) => Err(e),
        Ok(_) => match access_result(d, uid, gid, file_index, 6) {
            Err(e) => Err(e),
            Ok(_) => access_result(d, uid, gid, new_parent_index, 6),
        },
    }
}

/// The entry's start block after a rename: it carries the new name.
pub open spec fn renamed(sb: StartBlockModel, new_name: Seq<u8>) -> StartBlockModel {
    StartBlockModel { name: padded_name(new_name), ..sb }
}

/// A rename runs without panic once the accesses pass: the three start blocks
/// can be read; the entry can be removed from the old parent; then, when that
/// succeeds, added to the new parent; then, when that succeeds, its start
/// block can be written back; and the new name fits.
pub open spec fn rename_ok(d: Seq<u8>, parent_index: u32, file_index: u32, new_parent_index: u32, new_name: Seq<u8>) -> bool {
    let f = start_block_at(d, file_index);
    let old_dir = start_block_at(d, parent_index);
    let new_dir = start_block_at(d, new_parent_index);
    let d1 = remove_effect(d, f.block_index, old_dir.first_data_block_index);
    &&& block_readable(d, file_index)
    &&& block_readable(d, parent_index)
    &&& block_readable(d, new_parent_index)
    &&& new_name.len() <= 208
    &&& remove_ok(d, f.block_index, old_dir.first_data_block_index)
    &&& remove_result(d, f.block_index, old_dir.first_data_block_index) is Ok ==> append_ok(d1, new_dir, f.block_index)
    &&& write_back_ok(f)
}

/// Moving the entry whose start block is block `file_index` from the directory
/// at `parent_index` to the one at `new_parent_index`, under the name
/// `new_name`: the entry is removed from the old directory, added to the new
/// one, and its start block is written back with the new name. A new name
/// longer than 208 bytes is refused with `NameTooLong`, changing nothing.
pub fn rename(
    drive_file: &mut Drive,
    uid: u32,
    gid: u32,
    parent_index: u32,
    file_index: u32,
    new_parent_index: u32,
    new_name: &str,
) -> (r: ResultEmpty)
    requires
        access_ok(old(drive_file)@, uid, gid, parent_index, 6),
        access_result(old(drive_file)@, uid, gid, parent_index, 6) is Ok ==> access_ok(
            old(drive_file)@,
            uid,
            gid,
            file_index,
            6,
        ),
        access_result(old(drive_file)@, uid, gid, parent_index, 6) is Ok && access_result(
            old(drive_file)@,
            uid,
            gid,
            file_index,
            6,
        ) is Ok ==> access_ok(old(drive_file)@, uid, gid, new_parent_index, 6),
        rename_granted(old(drive_file)@, uid, gid, parent_index, file_index, new_parent_index)
            && new_name.spec_bytes().len() <= 208 ==> rename_ok(
            old(drive_file)@,
            parent_index,
            file_index,
            new_parent_index,
            new_name.spec_bytes(),
        ),
    ensures
        ({
            let d = old(drive_file)@;
            let f = start_block_at(d, file_index);
            let old_dir = start_block_at(d, parent_index);
            let new_dir = start_block_at(d, new_parent_index);
            let d1 = remove_effect(d, f.block_index, old_dir.first_data_block_index);
            if !rename_granted(d, uid, gid, parent_index, file_index, new_parent_index) {
                r == rename_access_result(d, uid, gid, parent_index, file_index, new_parent_index)
                    && final(drive_file)@ == d
            } else if new_name.spec_bytes().len() > 208 {
                r == Err::<(), FsError>(FsError::NameTooLong) && final(drive_file)@ == d
            } else if remove_result(d, f.block_index, old_dir.first_data_block_index) is Err {
                r == remove_result(d, f.block_index, old_dir.first_data_block_index) && final(drive_file)@ == d1
            } else {
                exists|r2: ResultEmpty, d2: Seq<u8>|
                    #[trigger] append_result(d1, new_dir, f.block_index, r2, d2) && if r2 is Err {
                        r == r2 && final(drive_file)@ == d2
                    } else {
                        let f2 = renamed(f, new_name.spec_bytes());
                        r == write_back_result(f2) && final(drive_file)@ == start_write_effect(d2, f2)
                    }
            }
        }),
{
    access(drive_file, uid, gid, parent_index, 6)?;
    access(drive_file, uid, gid, file_index, 6)?;
    access(drive_file, uid, gid, new_parent_index, 6)?;
    if new_name.as_bytes().len() > 208 {
        return Err(FsError::NameTooLong);
    }
    let ghost d = drive_file@;
    let mut file_start_block = start_block_read(drive_file, file_index)?;
    let mut old_directory_start_block = start_block_read(drive_file, parent_index)?;
    let mut new_directory_start_block = start_block_read(drive_file, new_parent_index)?;
    let entry = *file_start_block.get_block_index();
    remove_directory_entry(drive_file, entry, &mut old_directory_start_block)?;
    let ghost d1 = drive_file@;
    let appended = append_directory_content(drive_file, entry, &mut new_directory_start_block);
    let ghost d2 = drive_file@;
    assert(append_result(d1, new_directory_start_block@, entry, appended, d2));
    appended?;
    let name = new_name.as_bytes();
    file_start_block.set_raw_name(name_bytes(name));
    start_block_write(drive_file, file_start_block)?;
    Ok(())
}

/// The entries of a directory, when access to its path is granted for
/// reading: the name and the kind that each listed start block holds.
pub fn readdir(drive_file: &Drive, uid: u32, gid: u32, path_index: u32, index: u32) -> (r: Result<Vec<DirectoryEntry>, FsError>)
    requires
        access_ok(drive_file@, uid, gid, path_index, 4),
        access_result(drive_file@, uid, gid, path_index, 4) is Ok ==> {
            &&& index != NULL_INDEX
            &&& block_readable(drive_file@, index)
            &&& listing_ok(drive_file@, start_block_at(drive_file@, index).block_index)
        },
    ensures
        ({
            let d = drive_file@;
            match access_result(d, uid, gid, path_index, 4) {
                Err(e) => r == Err::<Vec<DirectoryEntry>, FsError>(e),
                Ok(_) => {
                    let i = start_block_at(d, index).block_index;
                    match read_start_chain(d, i) {
                        Err(e) => r matches Err(e2) && e2 == e,
                        Ok(_) => r matches Ok(v) && v@.len() == listed_of(d, i).len() && forall|k: int|
                            0 <= k < v@.len() ==> {
                                let sb = start_block_at(d, listed_of(d, i)[k]);
                                &&& (#[trigger] v@[k]).name@ == vstd::utf8::decode_utf8(sb.name)
                                &&& v@[k].kind == kind_of_file_type(sb.file_type)
                            },
                    }
                },
            }
        }),
{
    access(drive_file, uid, gid, path_index, 4)?;
    let start_block = match start_block_read(drive_file, index) {
        Ok(b) => b,
        Err(_) => {
            assert(false);
            return Err(FsError::Io);
        },
    };
    get_directory_entry_vec_from_start_block_index(drive_file, *start_block.get_block_index())
}

/// File system statistics.
#[derive(Clone, Copy, PartialEq, Eq, Structural, Debug)]
pub struct FsStats {
    /// Total data blocks.
    pub blocks: u64,
    /// Free blocks.
    pub bfree: u64,
    /// Free blocks available to unprivileged users.
    pub bavail: u64,
    /// Total file nodes.
    pub files: u64,
    /// Free file nodes.
    pub ffree: u64,
    /// Block size.
    pub bsize: u32,
    /// Maximum length of a file name.
    pub namelen: u32,
    /// Fragment size.
    pub frsize: u32,
}

/// The statistics reported for a directory that lists `files` entries: fixed
/// block counts, the 208-byte name length, 248 content bytes per block.
pub open spec fn stats_for(files: u64) -> FsStats {
    FsStats {
        blocks: (u64::MAX / 2) as u64,
        bfree: (u64::MAX / 2) as u64,
        ffree: (u64::MAX / 4) as u64,
        bavail: (u64::MAX / 4) as u64,
        files,
        bsize: u32::MAX,
        namelen: 208,
        frsize: 248,
    }
}

/// File system statistics, when access to the path is granted for reading;
/// the number of files is the number of entries of the directory at `index`.
pub fn statfs(drive_file: &Drive, uid: u32, gid: u32, path_index: u32, index: u32) -> (r: Result<FsStats, FsError>)
    requires
        access_ok(drive_file@, uid, gid, path_index, 4),
        access_result(drive_file@, uid, gid, path_index, 4) is Ok ==> {
            &&& index != NULL_INDEX
            &&& block_readable(drive_file@, index)
            &&& listing_ok(drive_file@, start_block_at(drive_file@, index).block_index)
        },
    ensures
        ({
            let d = drive_file@;
            match access_result(d, uid, gid, path_index, 4) {
                Err(e) => r == Err::<FsStats, FsError>(e),
                Ok(_) => {
                    let i = start_block_at(d, index).block_index;
                    match read_start_chain(d, i) {
                        Err(e) => r == Err::<FsStats, FsError>(e),
                        Ok(_) => r == Ok::<FsStats, FsError>(stats_for(listed_of(d, i).len() as u64)),
                    }
                },
            }
        }),
{
    access(drive_file, uid, gid, path_index, 4)?;
    let start_block = match start_block_read(drive_file, index) {
        Ok(b) => b,
        Err(_) => {
            assert(false);
            return Err(FsError::Io);
        },
    };
    let directory_entries = get_directory_entry_vec_from_start_block_index(drive_file, *start_block.get_block_index())?;
    Ok(
        FsStats {
            blocks: u64::MAX / 2,
            bfree: u64::MAX / 2,
            ffree: u64::MAX / 4,
            bavail: u64::MAX / 4,
            files: directory_entries.len() as u64,
            bsize: u32::MAX,
            namelen: 208,
            frsize: 248,
        },
    )
}

/// The start block of the root directory made by `init`: permissions 0o777,
/// directory type, both times `now`, owned by `uid` and `gid`, first data
/// block 1, an empty name.
pub open spec fn root_entry(now: u64, uid: u32, gid: u32) -> StartBlockModel {
    StartBlockModel {
        block_index: 0,
        first_data_block_index: 1,
        perms: 0o777,
        file_type: 3,
        a_time: now,
        m_time: now,
        user_id: uid,
        group_id: gid,
        size: 0,
        name: Seq::new(208, |_k: int| 0u8),
    }
}

/// Preparing a drive: when block 1 is empty, a new empty root directory is
/// written in the first two free blocks.
pub fn init(drive_file: &mut Drive, uid: u32, gid: u32, now: u64) -> (r: ResultEmpty)
    requires
        block_readable(old(drive_file)@, 1),
        block_free(old(drive_file)@, 1) ==> free_blocks(old(drive_file)@).len() >= 2,
    ensures
        r == Ok::<(), FsError>(()),
        final(drive_file)@ == if block_free(old(drive_file)@, 1) {
            new_empty_effect(old(drive_file)@, root_entry(now, uid, gid), true)
        } else {
            old(drive_file)@
        },
{
    let is_empty = match check_if_block_is_empty(drive_file, 1) {
        Ok(b) => b,
        Err(_) => {
            assert(false);
            false
        },
    };
    if is_empty {
        let mut new_start_block = StartBlock::new(0, 1, 0o777, 3, now, now, uid, gid, 0, [0u8; 208]);
        assert(new_start_block@.name =~= root_entry(now, uid, gid).name);
        write_new_empty_directory(drive_file, &mut new_start_block)?;
    }
    Ok(())
}

} // verus!
