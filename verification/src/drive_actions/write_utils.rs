//! Creating files and directories, and writing into files.
use vstd::prelude::*;
use crate::blocks::{
    DataBlock, DataBlockModel, StartBlock, StartBlockModel, NULL_INDEX, overwrite, plain_block,
    data_block_bytes, start_block_bytes, lemma_data_block_len,
};
use crate::drive::{Drive, block_addressable, with_block};
use crate::results::{FsError, ResultBlockIndex, ResultSize, ResultStartBlock, outcome};
use crate::drive_actions::block_actions::{
    all_writable, data_block_write, models, start_block_write, write_data_blocks_effect,
};
use crate::drive_actions::data_block_actions::{
    blocks_content, chain_ok, read_chain, get_data_block_vec_from_start_block,
    data_block_vector_set_data_from_data_vector, lemma_slices_of_content,
};
use crate::drive_actions::directory_actions::{append_directory_content, append_ok, append_result, with_content};
use crate::drive_actions::drive_utils::{free_blocks, lemma_free_below, scan_limit};
use crate::drive_actions::file_utils::{expand_effect, expand_ok, expand_file};

pub use crate::drive_actions::drive_utils::find_next_empty_blocks;

verus! {

broadcast use lemma_data_block_len;

/// Image `d` after writing start block `sb` at the index it holds; writing at
/// the null index changes nothing.
pub open spec fn start_write_effect(d: Seq<u8>, sb: StartBlockModel) -> Seq<u8> {
    if sb.block_index == NULL_INDEX {
        d
    } else {
        with_block(d, sb.block_index as int, start_block_bytes(sb))
    }
}

/// The start block of a new file or directory: `sb` placed at the first free
/// block, with its first data block at the second free block.
pub open spec fn placed_start_block(d: Seq<u8>, sb: StartBlockModel) -> StartBlockModel {
    StartBlockModel {
        block_index: free_blocks(d)[0],
        first_data_block_index: free_blocks(d)[1],
        ..sb
    }
}

/// Image `d` after creating an empty file or directory from `sb`: a fresh data
/// block at the second free block, then the start block at the first.
pub open spec fn new_empty_effect(d: Seq<u8>, sb: StartBlockModel, is_directory: bool) -> Seq<u8> {
    let e1 = free_blocks(d)[1];
    let d1 = with_block(d, e1 as int, data_block_bytes(plain_block(e1, is_directory)));
    with_block(d1, free_blocks(d)[0] as int, start_block_bytes(placed_start_block(d, sb)))
}

/// Writes a new empty file or directory with the metadata of `start_block`,
/// using the first two free blocks.
fn write_new_empty(drive_file: &mut Drive, start_block: &mut StartBlock, is_directory: bool) -> (r: ResultStartBlock)
    requires
        free_blocks(old(drive_file)@).len() >= 2,
    ensures
        final(start_block)@ == placed_start_block(old(drive_file)@, old(start_block)@),
        r matches Ok(b) && b@ == final(start_block)@,
        final(drive_file)@ == new_empty_effect(old(drive_file)@, old(start_block)@, is_directory),
{
    let ghost d = drive_file@;
    let _n = drive_file.len();
    let empty_blocks = find_next_empty_blocks(drive_file, 2)?;
    proof {
        lemma_free_below(d, scan_limit(d), scan_limit(d));
        assert(free_blocks(d)[0] < scan_limit(d));
        assert(free_blocks(d)[1] < scan_limit(d));
    }
    start_block.set_block_index(empty_blocks[0]);
    start_block.set_first_data_block_index(empty_blocks[1]);
    let block = if is_directory {
        DataBlock::new_plain_dir(empty_blocks[1])
    } else {
        DataBlock::new_plain_file(empty_blocks[1])
    };
    assert(block@ == plain_block(empty_blocks[1], is_directory));
    let _ = data_block_write(drive_file, block);
    let _ = start_block_write(drive_file, *start_block);
    Ok(*start_block)
}

/// Writes a new empty directory: its start block with the metadata of
/// `start_block`, and one data block of free slots. It is not added to any
/// directory.
pub fn write_new_empty_directory(drive_file: &mut Drive, start_block: &mut StartBlock) -> (r: ResultStartBlock)
    requires
        free_blocks(old(drive_file)@).len() >= 2,
    ensures
        final(start_block)@ == placed_start_block(old(drive_file)@, old(start_block)@),
        r matches Ok(b) && b@ == final(start_block)@,
        final(drive_file)@ == new_empty_effect(old(drive_file)@, old(start_block)@, true),
{
    write_new_empty(drive_file, start_block, true)
}

/// Writes a new empty file: its start block with the metadata of
/// `start_block`, and one data block of zero bytes. It is not added to any
/// directory.
pub fn write_new_empty_file(drive_file: &mut Drive, start_block: &mut StartBlock) -> (r: ResultStartBlock)
    requires
        free_blocks(old(drive_file)@).len() >= 2,
    ensures
        final(start_block)@ == placed_start_block(old(drive_file)@, old(start_block)@),
        r matches Ok(b) && b@ == final(start_block)@,
        final(drive_file)@ == new_empty_effect(old(drive_file)@, old(start_block)@, false),
{
    write_new_empty(drive_file, start_block, false)
}

/// Creating an empty file or directory from `child` in `parent` runs without
/// panic.
pub open spec fn create_ok(d: Seq<u8>, parent: StartBlockModel, child: StartBlockModel, is_directory: bool) -> bool {
    &&& free_blocks(d).len() >= 2
    &&& append_ok(new_empty_effect(d, child, is_directory), parent, free_blocks(d)[0])
}

/// Result `r` and image `d2` are what creating an empty file or directory from
/// `child` in `parent` gives from `d`: the new file is written, then its start
/// block's index is added to the parent, whose result is the result.
pub open spec fn create_result(
    d: Seq<u8>,
    parent: StartBlockModel,
    child: StartBlockModel,
    is_directory: bool,
    r: crate::results::ResultEmpty,
    d2: Seq<u8>,
) -> bool {
    append_result(new_empty_effect(d, child, is_directory), parent, free_blocks(d)[0], r, d2)
}

/// Creates an empty directory from the metadata of `child_start_block` and adds
/// it to the parent. Returns the block index that `child_start_block` holds,
/// which is left unchanged, or the error of adding it to the parent.
pub fn create_empty_directory(
    drive_file: &mut Drive,
    parent_start_block: &mut StartBlock,
    child_start_block: &mut StartBlock,
) -> (r: ResultBlockIndex)
    requires
        create_ok(old(drive_file)@, old(parent_start_block)@, old(child_start_block)@, true),
    ensures
        r is Ok ==> r == Ok::<u32, FsError>(old(child_start_block)@.block_index),
        final(child_start_block)@ == old(child_start_block)@,
        final(parent_start_block)@ == old(parent_start_block)@,
        create_result(
            old(drive_file)@,
            old(parent_start_block)@,
            old(child_start_block)@,
            true,
            outcome(r),
            final(drive_file)@,
        ),
{
    let mut child = *child_start_block;
    let new_child_start_block = write_new_empty_directory(drive_file, &mut child)?;
    append_directory_content(drive_file, *new_child_start_block.get_block_index(), parent_start_block)?;
    Ok(*child_start_block.get_block_index())
}

/// Creates an empty file from the metadata of `child_start_block` and adds it
/// to the parent. Returns the block index that `child_start_block` holds,
/// which is left unchanged, or the error of adding it to the parent.
pub fn create_empty_file(
    drive_file: &mut Drive,
    parent_start_block: &mut StartBlock,
    child_start_block: &mut StartBlock,
) -> (r: ResultBlockIndex)
    requires
        create_ok(old(drive_file)@, old(parent_start_block)@, old(child_start_block)@, false),
    ensures
        r is Ok ==> r == Ok::<u32, FsError>(old(child_start_block)@.block_index),
        final(child_start_block)@ == old(child_start_block)@,
        final(parent_start_block)@ == old(parent_start_block)@,
        create_result(
            old(drive_file)@,
            old(parent_start_block)@,
            old(child_start_block)@,
            false,
            outcome(r),
            final(drive_file)@,
        ),
{
    let mut child = *child_start_block;
    let new_child_start_block = write_new_empty_file(drive_file, &mut child)?;
    append_directory_content(drive_file, *new_child_start_block.get_block_index(), parent_start_block)?;
    Ok(*child_start_block.get_block_index())
}


/// The number of blocks of a file of `x` bytes: enough 248-byte blocks to
/// hold them, and at least one.
pub open spec fn blocks_for(x: int) -> int {
    if x <= 0 {
        1
    } else {
        (x + 247) / 248
    }
}

/// The number of blocks of a file of `x` bytes.
pub fn blocks_needed(x: u64) -> (r: u64)
    ensures
        r == blocks_for(x as int),
{
    if x == 0 {
        1
    } else {
        x / 248 + if x % 248 == 0 {
            0
        } else {
            1
        }
    }
}

/// Start block `sb` after a write that ends at byte `end`: the size grows to
/// `end` when the write goes past it.
pub open spec fn grown_start_block(sb: StartBlockModel, end: int) -> StartBlockModel {
    if end > sb.size {
        StartBlockModel { size: end as u64, ..sb }
    } else {
        sb
    }
}

/// Image `d` after a write that ends at byte `end` has prepared file `sb`:
/// when the file grows its start block is written with the new size, and when
/// the new size needs more blocks than the old one the chain grows by the
/// difference (directory blocks for a file of type 3).
pub open spec fn write_grow_effect(d: Seq<u8>, sb: StartBlockModel, end: int) -> Seq<u8> {
    let d1 = if end > sb.size {
        start_write_effect(d, grown_start_block(sb, end))
    } else {
        d
    };
    if blocks_for(sb.size as int) < blocks_for(end) && sb.first_data_block_index != NULL_INDEX {
        expand_effect(
            d1,
            sb.first_data_block_index,
            blocks_for(end) - blocks_for(sb.size as int),
            sb.file_type == 3,
        )
    } else {
        d1
    }
}

/// One past the last block of a chain that a write of bytes `offset..end`
/// touches: the blocks that hold those bytes, or the block of `offset` alone
/// when nothing is written.
pub open spec fn written_end(offset: int, end: int) -> int {
    if end > offset {
        (end + 247) / 248
    } else {
        offset / 248 + 1
    }
}

/// The blocks that a write of `data` at byte `offset` changes, with their new
/// content: blocks `offset / 248` up to `written_end` of the chain.
pub open spec fn written_blocks(s: Seq<DataBlockModel>, offset: int, data: Seq<u8>) -> Seq<DataBlockModel> {
    let m = s.subrange(offset / 248, written_end(offset, offset + data.len()));
    with_content(m, overwrite(blocks_content(m), offset % 248, data))
}

/// Writing `data` at byte `offset` of file `sb` runs without panic: the old
/// size and the end of the write fit in a `u32`; the start block can be
/// written when the file grows; the chain can grow when more blocks are
/// needed; the chain can then be read, holds the block where the write ends,
/// and the changed blocks can be written back.
pub open spec fn write_ok(d: Seq<u8>, sb: StartBlockModel, offset: int, data: Seq<u8>) -> bool {
    let end = offset + data.len();
    let d1 = if end > sb.size {
        start_write_effect(d, grown_start_block(sb, end))
    } else {
        d
    };
    let d2 = write_grow_effect(d, sb, end);
    &&& sb.size <= u32::MAX
    &&& end <= u32::MAX
    &&& end > sb.size ==> (sb.block_index == NULL_INDEX || block_addressable(sb.block_index))
    &&& blocks_for(sb.size as int) < blocks_for(end) ==> expand_ok(
        d1,
        sb.first_data_block_index,
        blocks_for(end) - blocks_for(sb.size as int),
    )
    &&& chain_ok(d2, sb.first_data_block_index)
    &&& read_chain(d2, sb.first_data_block_index) matches Ok(s) ==> {
        &&& written_end(offset, end) <= s.len()
        &&& all_writable(written_blocks(s, offset, data))
    }
}

/// Image `d` after writing `data` at byte `offset` of file `sb`.
pub open spec fn write_effect(d: Seq<u8>, sb: StartBlockModel, offset: int, data: Seq<u8>) -> Seq<u8> {
    let d2 = write_grow_effect(d, sb, offset + data.len());
    match read_chain(d2, sb.first_data_block_index) {
        Ok(s) => write_data_blocks_effect(d2, written_blocks(s, offset, data)),
        Err(_) => d2,
    }
}

/// Writes `data` into the file from byte `offset` on. The size becomes
/// `offset + length` when that is larger; the chain first grows when the new
/// size needs more blocks. The blocks that hold bytes `offset` to
/// `offset + length` are then read, changed and written back. Returns the size. The data vector
/// keeps the bytes that went into the first block written.
#[verifier::rlimit(40)]
pub fn write_to_file(drive_file: &mut Drive, offset: usize, data: &mut Vec<u8>, start_block: &mut StartBlock) -> (r: ResultSize)
    requires
        write_ok(old(drive_file)@, old(start_block)@, offset as int, old(data)@),
    ensures
        ({
            let sb = old(start_block)@;
            let end = offset + old(data)@.len();
            let d2 = write_grow_effect(old(drive_file)@, sb, end);
            &&& final(start_block)@ == grown_start_block(sb, end)
            &&& final(drive_file)@ == write_effect(old(drive_file)@, sb, offset as int, old(data)@)
            &&& match read_chain(d2, sb.first_data_block_index) {
                Err(e) => r == Err::<usize, FsError>(e) && final(drive_file)@ == d2 && final(data)@
                    == old(data)@,
                Ok(s) => {
                    &&& r == Ok::<usize, FsError>(grown_start_block(sb, end).size as usize)
                    &&& final(drive_file)@ == write_data_blocks_effect(
                        d2,
                        written_blocks(s, offset as int, old(data)@),
                    )
                    &&& final(data)@ == old(data)@.take(
                        if old(data)@.len() <= 248 - offset % 248 {
                            old(data)@.len() as int
                        } else {
                            248 - offset % 248
                        },
                    )
                },
            }
        }),
{
    let ghost d = drive_file@;
    let ghost sb0 = start_block@;
    let ghost data0 = data@;
    let total_size = *start_block.get_size();
    let data_size = data.len();
    let final_changed_byte = offset + data_size;
    let total_inital_block_size: u64 = blocks_needed(total_size);
    let final_modified_block_size: usize = blocks_needed(final_changed_byte as u64) as usize;
    if final_changed_byte as u64 > total_size {
        start_block.set_size(final_changed_byte as u64);
        let _ = start_block_write(drive_file, *start_block);
    }
    assert(start_block@ == grown_start_block(sb0, offset + data0.len()));
    if total_inital_block_size < final_modified_block_size as u64 {
        let _ = expand_file(
            drive_file,
            *start_block,
            final_modified_block_size - total_inital_block_size as usize,
            *start_block.get_file_type() == 3,
        );
    }
    assert(drive_file@ == write_grow_effect(d, sb0, offset + data0.len()));
    let current_full_data_block_vector = get_data_block_vec_from_start_block(drive_file, *start_block)?;
    let ghost s = models(current_full_data_block_vector@);
    let mut modified_data_block_vector: Vec<DataBlock> = Vec::new();
    let lo = offset / 248;
    assert(final_changed_byte <= u32::MAX);
    let hi: usize = if final_changed_byte > offset {
        ((final_changed_byte as u64 + 247) / 248) as usize
    } else {
        offset / 248 + 1
    };
    proof {
        crate::laws::lemma_written_end(offset as int, final_changed_byte as int);
    }
    for i in lo..hi
        invariant
            lo <= hi,
            hi <= s.len(),
            s == models(current_full_data_block_vector@),
            models(modified_data_block_vector@) == s.subrange(lo as int, i as int),
    {
        let b = current_full_data_block_vector[i];
        assert(b@ == s[i as int]);
        let ghost prev = modified_data_block_vector@;
        modified_data_block_vector.push(b);
        assert(modified_data_block_vector@ == prev.push(b));
        assert(models(prev.push(b)) =~= models(prev).push(b@));
        assert(models(modified_data_block_vector@) =~= s.subrange(lo as int, i + 1));
    }
    let ghost m = models(modified_data_block_vector@);
    proof {
        crate::drive_actions::data_block_actions::lemma_chain_len(drive_file@, sb0.first_data_block_index);
    }
    let first_block_offset = offset % 248;
    proof {
        assert(first_block_offset + data0.len() <= (hi - lo) * 248);
    }
    let blocks_to_be_written = data_block_vector_set_data_from_data_vector(
        &mut modified_data_block_vector,
        data,
        first_block_offset,
        0,
    )?;
    proof {
        let t = models(blocks_to_be_written@);
        assert(t == models(modified_data_block_vector@));
        assert forall|j: int| 0 <= j < t.len() implies #[trigger] t[j] == written_blocks(s, offset as int, data0)[j] by {
            assert(t[j] == blocks_to_be_written@[j]@);
            lemma_slices_of_content(t, j);
        }
        assert(t =~= written_blocks(s, offset as int, data0));
    }
    let ghost t = models(blocks_to_be_written@);
    let ghost d2 = drive_file@;
    let n = blocks_to_be_written.len();
    for k in 0..n
        invariant
            n == blocks_to_be_written@.len(),
            t == models(blocks_to_be_written@),
            all_writable(t),
            drive_file@ == write_data_blocks_effect(d2, t.take(k as int)),
    {
        let block = blocks_to_be_written[k];
        assert(t[k as int] == block@);
        assert(t.take(k + 1).drop_last() =~= t.take(k as int));
        let _ = data_block_write(drive_file, block);
    }
    assert(t.take(n as int) =~= t);
    Ok(*start_block.get_size() as usize)
}

} // verus!
