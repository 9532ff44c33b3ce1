//! Growing, reading and shrinking files.
use vstd::prelude::*;
use crate::blocks::{DataBlock, DataBlockModel, StartBlock, NULL_INDEX, plain_block, lemma_data_block_len};
use crate::drive::{Drive, block_addressable};
use crate::results::{FsError, ResultDataVector, ResultEmpty};
use crate::drive_actions::block_actions::{
    data_block_at, data_block_write, models, write_data_block_effect, write_data_blocks_effect,
};
use crate::drive_actions::data_block_actions::{
    blocks_content, chain_blocks, chain_of, chain_ok, read_chain, get_data_block_vec_from_start_block,
    get_data_vector_from_start_block, lemma_chain_fuel, };
use crate::drive_actions::deletion_utils::{
    deallocate_data_blocks_from_end, indexes_writable, remove_last_blocks_effect, stored_indexes,
};
use crate::drive_actions::write_utils::{blocks_for, blocks_needed};
use crate::blocks::overwrite;
use crate::drive_actions::drive_utils::{find_next_empty_blocks, free_blocks, lemma_free_below, scan_limit};

verus! {

broadcast use lemma_data_block_len;

/// The blocks added at the end of a chain: fresh blocks at the indexes `new`,
/// each linked to the next one, the last to the null index.
pub open spec fn new_chain_blocks(new: Seq<u32>, is_directory: bool) -> Seq<DataBlockModel> {
    Seq::new(
        new.len(),
        |k: int|
            DataBlockModel {
                next_block_index: if k + 1 < new.len() {
                    new[k + 1]
                } else {
                    NULL_INDEX
                },
                ..plain_block(new[k], is_directory)
            },
    )
}

/// The last block of the chain from `first`.
pub open spec fn last_block_of_chain(d: Seq<u8>, first: u32) -> DataBlockModel {
    data_block_at(d, chain_of(d, first).unwrap().last())
}

/// The blocks that growing the chain from `first` by `n` blocks uses: the
/// first `n` free blocks of the drive.
pub open spec fn expansion_blocks(d: Seq<u8>, n: int) -> Seq<u32> {
    free_blocks(d).take(n)
}

/// Image `d` after growing the chain from `first` by `n` blocks: the last block
/// of the chain is linked to the first new block and written at the index it
/// holds, then the new blocks are written.
pub open spec fn expand_effect(d: Seq<u8>, first: u32, n: int, is_directory: bool) -> Seq<u8> {
    let new = expansion_blocks(d, n);
    let last = last_block_of_chain(d, first);
    let d1 = write_data_block_effect(d, DataBlockModel { next_block_index: new[0], ..last });
    write_data_blocks_effect(d1, new_chain_blocks(new, is_directory))
}

/// Growing the chain from `first` by `n` blocks runs without panic: the chain
/// can be read, at least one block is asked for and that many are free, and
/// the last block of the chain holds an index that can be written.
pub open spec fn expand_ok(d: Seq<u8>, first: u32, n: int) -> bool {
    &&& chain_ok(d, first)
    &&& first != NULL_INDEX ==> {
        &&& 1 <= n <= free_blocks(d).len()
        &&& last_block_of_chain(d, first).block_index == NULL_INDEX || block_addressable(
            last_block_of_chain(d, first).block_index,
        )
    }
}

/// Adds `number_of_additonal_blocks` fresh blocks at the end of the file's
/// chain: the first free blocks of the drive, linked in increasing order, all
/// zero bytes for a file and all empty slots for a directory.
pub fn expand_file(
    drive_file: &mut Drive,
    start_block: StartBlock,
    number_of_additonal_blocks: usize,
    is_directory: bool,
) -> (r: ResultEmpty)
    requires
        expand_ok(old(drive_file)@, start_block@.first_data_block_index, number_of_additonal_blocks as int),
    ensures
        start_block@.first_data_block_index == NULL_INDEX ==> r == Err::<(), FsError>(FsError::Io)
            && final(drive_file)@ == old(drive_file)@,
        start_block@.first_data_block_index != NULL_INDEX ==> r == Ok::<(), FsError>(()) && final(drive_file)@ == expand_effect(
            old(drive_file)@,
            start_block@.first_data_block_index,
            number_of_additonal_blocks as int,
            is_directory,
        ),
{
    let ghost d = drive_file@;
    let ghost first = start_block@.first_data_block_index;
    let chain = get_data_block_vec_from_start_block(drive_file, start_block)?;
    proof {
        lemma_chain_fuel(d, first, crate::drive::block_count(d), crate::drive::block_count(d));
        let idxs = chain_of(d, first).unwrap();
        assert(models(chain@) == chain_blocks(d, idxs));
        assert(chain@.len() == idxs.len());
        assert(models(chain@)[chain@.len() - 1] == last_block_of_chain(d, first));
    }
    let mut current_data_block = chain[chain.len() - 1];
    let n = drive_file.len();
    let new_block_indexes = find_next_empty_blocks(drive_file, number_of_additonal_blocks)?;
    let ghost new = new_block_indexes@;
    proof {
        lemma_free_below(d, scan_limit(d), scan_limit(d));
    }
    current_data_block.set_next_block_index(new_block_indexes[0]);
    let _ = data_block_write(drive_file, current_data_block);
    let ghost d1 = drive_file@;
    let ghost fresh = new_chain_blocks(new, is_directory);
    let m = new_block_indexes.len();
    for i in 0..m
        invariant
            m == new.len(),
            new == new_block_indexes@,
            new == free_blocks(d).take(m as int),
            m <= free_blocks(d).len(),
            n == d.len(),
            forall|k: int| 0 <= k < free_blocks(d).len() ==> #[trigger] free_blocks(d)[k] < scan_limit(d),
            fresh == new_chain_blocks(new, is_directory),
            drive_file@ == write_data_blocks_effect(d1, fresh.take(i as int)),
    {
        let mut block = DataBlock::new_plain(new_block_indexes[i], is_directory);
        if i + 1 < m {
            block.set_next_block_index(new_block_indexes[i + 1]);
        }
        proof {
            assert(free_blocks(d)[i as int] < scan_limit(d));
            assert(block@ == fresh[i as int]);
            assert(fresh.take(i + 1).drop_last() =~= fresh.take(i as int));
        }
        let _ = data_block_write(drive_file, block);
    }
    assert(fresh.take(m as int) =~= fresh);
    Ok(())
}

/// The content of a file whose chain holds blocks `s` and whose size is
/// `size`: the first `size` bytes of the chain (all of them when the chain is
/// shorter).
pub open spec fn file_bytes(s: Seq<DataBlockModel>, size: int) -> Seq<u8> {
    let c = blocks_content(s);
    c.take(if size <= c.len() { size } else { c.len() as int })
}

/// Bytes `offset .. offset + size` of content `c`, cut at its end.
pub open spec fn read_range(c: Seq<u8>, offset: int, size: int) -> Seq<u8> {
    let lo = if offset <= c.len() { offset } else { c.len() as int };
    let hi = if offset + size <= c.len() { offset + size } else { c.len() as int };
    c.subrange(lo, hi)
}

/// Bytes `offset .. offset + size` of the file, fewer (possibly none) when the
/// file ends before.
pub fn read_file(drive_file: &Drive, start_block: &mut StartBlock, offset: usize, size: usize) -> (r: ResultDataVector)
    requires
        chain_ok(drive_file@, old(start_block)@.first_data_block_index),
        offset + size <= usize::MAX,
    ensures
        final(start_block)@ == old(start_block)@,
        match read_chain(drive_file@, old(start_block)@.first_data_block_index) {
            Ok(s) => r matches Ok(v) && v@ == read_range(
                file_bytes(s, old(start_block)@.size as int),
                offset as int,
                size as int,
            ),
            Err(e) => r == Err::<Vec<u8>, FsError>(e),
        },
{
    let ghost s = read_chain(drive_file@, start_block@.first_data_block_index)->Ok_0;
    let full_data_vector = get_data_vector_from_start_block(drive_file, start_block)?;
    let file_size = *start_block.get_size();
    let len: usize = if file_size <= full_data_vector.len() as u64 {
        file_size as usize
    } else {
        full_data_vector.len()
    };
    let ghost c = file_bytes(s, start_block@.size as int);
    assert(c =~= full_data_vector@.take(len as int));
    let lo: usize = if offset <= len { offset } else { len };
    let hi: usize = if offset + size <= len { offset + size } else { len };
    let mut returned_data_vector: Vec<u8> = Vec::new();
    let mut k: usize = lo;
    while k < hi
        invariant
            lo <= k <= hi,
            hi <= len <= full_data_vector@.len(),
            returned_data_vector@ == full_data_vector@.subrange(lo as int, k as int),
        decreases hi - k,
    {
        returned_data_vector.push(full_data_vector[k]);
        k = k + 1;
        assert(returned_data_vector@ =~= full_data_vector@.subrange(lo as int, k as int));
    }
    assert(returned_data_vector@ =~= read_range(c, offset as int, size as int));
    Ok(returned_data_vector)
}

/// How many bytes of its last block a file of `x` bytes uses.
pub open spec fn bytes_in_last_block(x: int) -> int {
    if x <= 0 {
        0
    } else if x % 248 == 0 {
        248
    } else {
        x % 248
    }
}

/// The block that is last once chain `s` is cut to the blocks of a file of
/// `new_size` bytes: its bytes from the end of the file on are zero, and it
/// is linked to the null index.
pub open spec fn shrunk_last_block(s: Seq<DataBlockModel>, new_size: int) -> DataBlockModel {
    let b = s[blocks_for(new_size) - 1];
    let t = bytes_in_last_block(new_size);
    DataBlockModel {
        data: overwrite(b.data, t, Seq::new((248 - t) as nat, |_i: int| 0u8)),
        next_block_index: NULL_INDEX,
        ..b
    }
}

/// Image `d` after cutting the file whose chain is `s` to `new_size` bytes:
/// the blocks past those the new size needs are removed, and the last kept
/// block is written back with the bytes past the end zeroed.
pub open spec fn shrink_effect(d: Seq<u8>, s: Seq<DataBlockModel>, new_size: int) -> Seq<u8> {
    let m = blocks_for(new_size);
    let d1 = if m < s.len() {
        remove_last_blocks_effect(d, s, s.len() - m)
    } else {
        d
    };
    write_data_block_effect(d1, shrunk_last_block(s, new_size))
}

/// Shrinks the content of a file to `new_size` bytes: the chain keeps the
/// blocks that the new size needs (at least one), the blocks after them are
/// deleted, and the bytes of the last kept block past the new size are
/// zeroed. The start block is not changed. Fails with `Domain`, changing
/// nothing, when the new size is larger than the file's size or the chain has
/// fewer blocks than the new size needs.
pub fn reduce_file_size(drive_file: &mut Drive, start_block: &mut StartBlock, new_size: u64) -> (r: ResultEmpty)
    requires
        chain_ok(old(drive_file)@, old(start_block)@.first_data_block_index),
        new_size <= old(start_block)@.size ==> (read_chain(
            old(drive_file)@,
            old(start_block)@.first_data_block_index,
        ) matches Ok(s) ==> (blocks_for(new_size as int) <= s.len() ==> indexes_writable(stored_indexes(s)))),
    ensures
        final(start_block)@ == old(start_block)@,
        old(start_block)@.size < new_size ==> r == Err::<(), FsError>(FsError::Domain) && final(drive_file)@
            == old(drive_file)@,
        new_size <= old(start_block)@.size ==> match read_chain(
            old(drive_file)@,
            old(start_block)@.first_data_block_index,
        ) {
            Err(e) => r == Err::<(), FsError>(e) && final(drive_file)@ == old(drive_file)@,
            Ok(s) => if blocks_for(new_size as int) > s.len() {
                r == Err::<(), FsError>(FsError::Domain) && final(drive_file)@ == old(drive_file)@
            } else {
                r == Ok::<(), FsError>(()) && final(drive_file)@ == shrink_effect(
                    old(drive_file)@,
                    s,
                    new_size as int,
                )
            },
        },
{
    let ghost d = drive_file@;
    let inital_file_size = *start_block.get_size();
    if inital_file_size < new_size {
        return Err(FsError::Domain);
    }
    let blocks = get_data_block_vec_from_start_block(drive_file, *start_block)?;
    let ghost s = models(blocks@);
    let k = blocks.len();
    let kept = blocks_needed(new_size);
    if kept > k as u64 {
        return Err(FsError::Domain);
    }
    let m = kept as usize;
    if m < k {
        let _ = deallocate_data_blocks_from_end(drive_file, start_block, k - m);
    }
    assert(drive_file@ == if m < k {
        remove_last_blocks_effect(d, s, k - m)
    } else {
        d
    });
    let mut last = blocks[m - 1];
    assert(last@ == s[m - 1]);
    let t: usize = if new_size == 0 {
        0
    } else if new_size % 248 == 0 {
        248
    } else {
        (new_size % 248) as usize
    };
    let mut zeros: Vec<u8> = Vec::new();
    for _i in t..248
        invariant
            zeros@.len() == _i - t,
            forall|j: int| 0 <= j < zeros@.len() ==> zeros@[j] == 0u8,
    {
        zeros.push(0u8);
    }
    assert(zeros@ =~= Seq::new((248 - t) as nat, |_i: int| 0u8));
    let _ = last.set_data(zeros, t);
    last.set_next_block_index(u32::MAX);
    assert(last@ == shrunk_last_block(s, new_size as int));
    assert(stored_indexes(s)[m - 1] == last@.block_index);
    let _ = data_block_write(drive_file, last);
    Ok(())
}

} // verus!
