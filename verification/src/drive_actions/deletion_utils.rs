//! Deleting data blocks, files and directories. A deleted block has all its
//! bytes zero.
use vstd::prelude::*;
use crate::blocks::{DataBlockModel, StartBlock, StartBlockModel, NULL_INDEX, lemma_data_block_len};
use crate::drive::{Drive, block_addressable, block_readable, with_block, zero_block};
use crate::results::{FsError, ResultEmpty};
use crate::drive_actions::block_actions::{
    data_block_write, direct_block_deletion, models, start_block_at, start_block_read, write_data_block_effect,
};
use crate::drive_actions::data_block_actions::{
    chain_ok, read_chain, start_chain_ok, get_data_block_vec_from_start_block,
    get_directory_data_from_start_block_index,
};
use crate::drive_actions::directory_actions::{listed_of, remove_directory_entry, remove_effect, remove_ok};

verus! {

broadcast use lemma_data_block_len;

/// The indexes that a sequence of data blocks hold.
pub open spec fn stored_indexes(s: Seq<DataBlockModel>) -> Seq<u32> {
    s.map_values(|b: DataBlockModel| b.block_index)
}

/// The indexes before the first null one.
pub open spec fn until_null(idxs: Seq<u32>) -> Seq<u32>
    decreases idxs.len(),
{
    if idxs.len() == 0 {
        idxs
    } else {
        let p = until_null(idxs.drop_last());
        if p.len() == idxs.len() - 1 && idxs.last() != NULL_INDEX {
            idxs
        } else {
            p
        }
    }
}

/// Image `d` after deleting the blocks `idxs` in turn, passing over null ones.
pub open spec fn zero_blocks_effect(d: Seq<u8>, idxs: Seq<u32>) -> Seq<u8>
    decreases idxs.len(),
{
    if idxs.len() == 0 {
        d
    } else {
        let p = zero_blocks_effect(d, idxs.drop_last());
        if idxs.last() == NULL_INDEX {
            p
        } else {
            with_block(p, idxs.last() as int, zero_block())
        }
    }
}

/// Every index is null or can be written.
pub open spec fn indexes_writable(idxs: Seq<u32>) -> bool {
    forall|k: int| 0 <= k < idxs.len() ==> #[trigger] idxs[k] == NULL_INDEX || block_addressable(idxs[k])
}

/// `until_null` of a prefix that has no null index is the prefix itself; once
/// a null index is met it stays the part before it.
pub proof fn lemma_until_null_step(idxs: Seq<u32>, i: int)
    requires
        0 <= i < idxs.len(),
    ensures
        until_null(idxs.take(i)) == idxs.take(i) && idxs[i] != NULL_INDEX ==> until_null(
            idxs.take(i + 1),
        ) == idxs.take(i + 1),
        until_null(idxs.take(i)) == idxs.take(i) && idxs[i] == NULL_INDEX ==> until_null(
            idxs.take(i + 1),
        ) == idxs.take(i),
        until_null(idxs.take(i)).len() < i ==> until_null(idxs.take(i + 1)) == until_null(
            idxs.take(i),
        ),
{
    assert(idxs.take(i + 1).drop_last() =~= idxs.take(i));
}

/// Once a null index at position `k` is met, `until_null` of every longer
/// prefix is the part before `k`.
pub proof fn lemma_until_null_stays(idxs: Seq<u32>, k: int, j: int)
    requires
        0 <= k < j <= idxs.len(),
        until_null(idxs.take(k + 1)) == idxs.take(k),
    ensures
        until_null(idxs.take(j)) == idxs.take(k),
    decreases j,
{
    if j > k + 1 {
        lemma_until_null_stays(idxs, k, j - 1);
        lemma_until_null_step(idxs, j - 1);
    }
}

/// `until_null` never gives more indexes than it was given.
pub proof fn lemma_until_null_len(idxs: Seq<u32>)
    ensures
        until_null(idxs).len() <= idxs.len(),
    decreases idxs.len(),
{
    if idxs.len() > 0 {
        lemma_until_null_len(idxs.drop_last());
    }
}

/// Deleting the prefix up to position `i + 1` is deleting the prefix up to `i`
/// and then index `i` (when not null).
pub proof fn lemma_zero_blocks_step(d: Seq<u8>, idxs: Seq<u32>, i: int)
    requires
        0 <= i < idxs.len(),
    ensures
        zero_blocks_effect(d, idxs.take(i + 1)) == if idxs[i] == NULL_INDEX {
            zero_blocks_effect(d, idxs.take(i))
        } else {
            with_block(zero_blocks_effect(d, idxs.take(i)), idxs[i] as int, zero_block())
        },
{
    assert(idxs.take(i + 1).drop_last() =~= idxs.take(i));
}

/// Image `d` after removing the last `n` blocks of the chain `s`: they are
/// deleted (at the indexes they hold) and the block that is now last is
/// written back linked to the null index.
pub open spec fn remove_last_blocks_effect(d: Seq<u8>, s: Seq<DataBlockModel>, n: int) -> Seq<u8> {
    let k = s.len() as int;
    let d1 = zero_blocks_effect(d, stored_indexes(s).subrange(k - n, k));
    write_data_block_effect(d1, DataBlockModel { next_block_index: NULL_INDEX, ..s[k - n - 1] })
}

/// Deletes the last `number_of_blocks` data blocks of the file and links the
/// block that is then last to the null index. At least one block must stay:
/// when the chain has no more blocks than that, it fails with `Domain` and
/// changes nothing.
pub fn deallocate_data_blocks_from_end(
    drive_file: &mut Drive,
    start_block: &mut StartBlock,
    number_of_blocks: usize,
) -> (r: ResultEmpty)
    requires
        chain_ok(old(drive_file)@, old(start_block)@.first_data_block_index),
        read_chain(old(drive_file)@, old(start_block)@.first_data_block_index) matches Ok(s)
            ==> (number_of_blocks < s.len() ==> indexes_writable(stored_indexes(s))),
    ensures
        final(start_block)@ == old(start_block)@,
        match read_chain(old(drive_file)@, old(start_block)@.first_data_block_index) {
            Err(e) => r == Err::<(), FsError>(e) && final(drive_file)@ == old(drive_file)@,
            Ok(s) => if number_of_blocks >= s.len() {
                r == Err::<(), FsError>(FsError::Domain) && final(drive_file)@ == old(drive_file)@
            } else {
                r == Ok::<(), FsError>(()) && final(drive_file)@ == remove_last_blocks_effect(
                    old(drive_file)@,
                    s,
                    number_of_blocks as int,
                )
            },
        },
{
    let data_block_vector = get_data_block_vec_from_start_block(drive_file, *start_block)?;
    let k = data_block_vector.len();
    if number_of_blocks >= k {
        return Err(FsError::Domain);
    }
    let ghost d0 = drive_file@;
    let ghost s = models(data_block_vector@);
    let ghost idxs = stored_indexes(s).subrange(k - number_of_blocks, k as int);
    assert(zero_blocks_effect(d0, idxs.take(0)) == d0);
    let first_removed = k - number_of_blocks;
    for i in first_removed..k
        invariant
            k == s.len(),
            s == models(data_block_vector@),
            first_removed == k - number_of_blocks,
            idxs == stored_indexes(s).subrange(first_removed as int, k as int),
            indexes_writable(stored_indexes(s)),
            drive_file@ == zero_blocks_effect(d0, idxs.take(i - first_removed)),
    {
        proof {
            lemma_zero_blocks_step(d0, idxs, i - first_removed);
            assert(idxs[i - first_removed] == stored_indexes(s)[i as int]);
            assert(s[i as int] == data_block_vector@[i as int]@);
        }
        let _ = direct_block_deletion(drive_file, *data_block_vector[i].get_block_index());
    }
    assert(idxs.take(k - first_removed) =~= idxs);
    let mut new_last_block = data_block_vector[first_removed - 1];
    assert(new_last_block@ == s[first_removed - 1]);
    new_last_block.set_next_block_index(u32::MAX);
    assert(stored_indexes(s)[first_removed - 1] == new_last_block@.block_index);
    let _ = data_block_write(drive_file, new_last_block);
    Ok(())
}

/// Image `d` after deleting every block of the file `sb`: its data blocks (at
/// the indexes they hold) and its start block; no change when its chain
/// cannot be read.
pub open spec fn deallocate_all_effect(d: Seq<u8>, sb: StartBlockModel) -> Seq<u8> {
    match read_chain(d, sb.first_data_block_index) {
        Ok(s) => zero_blocks_effect(d, stored_indexes(s).push(sb.block_index)),
        Err(_) => d,
    }
}

/// Deleting every block of file `sb` runs without panic.
pub open spec fn deallocate_all_ok(d: Seq<u8>, sb: StartBlockModel) -> bool {
    &&& chain_ok(d, sb.first_data_block_index)
    &&& read_chain(d, sb.first_data_block_index) matches Ok(s) ==> indexes_writable(
        stored_indexes(s).push(sb.block_index),
    )
}

/// Deletes every block of the file: its data blocks and its start block.
pub fn deallocate_all_blocks(drive_file: &mut Drive, start_block: &mut StartBlock) -> (r: ResultEmpty)
    requires
        deallocate_all_ok(old(drive_file)@, old(start_block)@),
    ensures
        final(start_block)@ == old(start_block)@,
        final(drive_file)@ == deallocate_all_effect(old(drive_file)@, old(start_block)@),
        match read_chain(old(drive_file)@, old(start_block)@.first_data_block_index) {
            Ok(_) => r == Ok::<(), FsError>(()),
            Err(e) => r == Err::<(), FsError>(e),
        },
{
    let data_block_vec = get_data_block_vec_from_start_block(drive_file, *start_block)?;
    let ghost s = models(data_block_vec@);
    let mut indexes_to_delete: Vec<u32> = Vec::new();
    for k in 0..data_block_vec.len()
        invariant
            s == models(data_block_vec@),
            indexes_to_delete@ == stored_indexes(s).take(k as int),
    {
        indexes_to_delete.push(*data_block_vec[k].get_block_index());
        assert(indexes_to_delete@ =~= stored_indexes(s).take(k + 1));
    }
    indexes_to_delete.push(*start_block.get_block_index());
    assert(indexes_to_delete@ =~= stored_indexes(s).push(start_block@.block_index));
    let ghost idxs = indexes_to_delete@;
    let ghost d0 = drive_file@;
    assert(zero_blocks_effect(d0, idxs.take(0)) == d0);
    for k in 0..indexes_to_delete.len()
        invariant
            idxs == indexes_to_delete@,
            indexes_writable(idxs),
            drive_file@ == zero_blocks_effect(d0, idxs.take(k as int)),
    {
        proof {
            lemma_zero_blocks_step(d0, idxs, k as int);
        }
        let _ = direct_block_deletion(drive_file, indexes_to_delete[k]);
    }
    assert(idxs.take(idxs.len() as int) =~= idxs);
    Ok(())
}

/// Image `d` after deleting file `sb` from directory `parent`: its entry is
/// removed, then all its blocks are deleted.
pub open spec fn delete_file_effect(d: Seq<u8>, sb: StartBlockModel, parent: StartBlockModel) -> Seq<u8> {
    deallocate_all_effect(
        remove_effect(d, sb.block_index, parent.first_data_block_index),
        sb,
    )
}

/// Deleting file `sb` from directory `parent` runs without panic.
pub open spec fn delete_file_ok(d: Seq<u8>, sb: StartBlockModel, parent: StartBlockModel) -> bool {
    &&& remove_ok(d, sb.block_index, parent.first_data_block_index)
    &&& deallocate_all_ok(remove_effect(d, sb.block_index, parent.first_data_block_index), sb)
}

/// Removes the file's entry from the directory and deletes all the file's
/// blocks; whether either step fails is not reported.
pub fn delete_file(drive_file: &mut Drive, start_block: &mut StartBlock, parent_start_block: &mut StartBlock) -> (r: ResultEmpty)
    requires
        delete_file_ok(old(drive_file)@, old(start_block)@, old(parent_start_block)@),
    ensures
        r == Ok::<(), FsError>(()),
        final(start_block)@ == old(start_block)@,
        final(parent_start_block)@ == old(parent_start_block)@,
        final(drive_file)@ == delete_file_effect(old(drive_file)@, old(start_block)@, old(parent_start_block)@),
{
    let _ = remove_directory_entry(drive_file, *start_block.get_block_index(), parent_start_block);
    let _ = deallocate_all_blocks(drive_file, start_block);
    Ok(())
}

/// Image `d` after deleting, in turn, the files whose start blocks are at
/// `children` from directory `dir`; each start block is read from the image
/// as it is at that point.
pub open spec fn delete_children_effect(d: Seq<u8>, children: Seq<u32>, dir: StartBlockModel) -> Seq<u8>
    decreases children.len(),
{
    if children.len() == 0 {
        d
    } else {
        let p = delete_children_effect(d, children.drop_last(), dir);
        delete_file_effect(p, start_block_at(p, children.last()), dir)
    }
}

/// Deleting the files at `children` in turn runs without panic.
pub open spec fn delete_children_ok(d: Seq<u8>, children: Seq<u32>, dir: StartBlockModel) -> bool {
    forall|k: int|
        0 <= k < children.len() ==> {
            let p = #[trigger] delete_children_effect(d, children.take(k), dir);
            &&& block_readable(p, children[k])
            &&& delete_file_ok(p, start_block_at(p, children[k]), dir)
        }
}

/// Image `d` after deleting every file that directory `dir` lists (read
/// through the start block stored at its index).
pub open spec fn delete_all_files_effect(d: Seq<u8>, dir: StartBlockModel) -> Seq<u8> {
    if read_start_chain_ok_listing(d, dir) {
        delete_children_effect(d, listed_of(d, dir.block_index), dir)
    } else {
        d
    }
}

/// The chain of the directory stored at `dir`'s index can be read.
pub open spec fn read_start_chain_ok_listing(d: Seq<u8>, dir: StartBlockModel) -> bool {
    crate::drive_actions::data_block_actions::read_start_chain(d, dir.block_index) is Ok
}

/// Deleting every file of directory `dir` runs without panic.
pub open spec fn delete_all_files_ok(d: Seq<u8>, dir: StartBlockModel) -> bool {
    &&& start_chain_ok(d, dir.block_index)
    &&& read_start_chain_ok_listing(d, dir) ==> delete_children_ok(d, listed_of(d, dir.block_index), dir)
}

/// Deletes every file that the directory lists (files only: the content of a
/// listed directory is not deleted).
pub fn delete_all_files_in_directory(drive_file: &mut Drive, directory_start_block: &mut StartBlock) -> (r: ResultEmpty)
    requires
        delete_all_files_ok(old(drive_file)@, old(directory_start_block)@),
    ensures
        final(directory_start_block)@ == old(directory_start_block)@,
        final(drive_file)@ == delete_all_files_effect(old(drive_file)@, old(directory_start_block)@),
        match crate::drive_actions::data_block_actions::read_start_chain(
            old(drive_file)@,
            old(directory_start_block)@.block_index,
        ) {
            Ok(_) => r == Ok::<(), FsError>(()),
            Err(e) => r == Err::<(), FsError>(e),
        },
{
    let ghost d0 = drive_file@;
    let ghost dir = directory_start_block@;
    let child_start_block_index_vector = get_directory_data_from_start_block_index(
        drive_file,
        *directory_start_block.get_block_index(),
    )?;
    let ghost children = child_start_block_index_vector@;
    assert(children == listed_of(d0, dir.block_index));
    assert(children.take(0) =~= Seq::<u32>::empty());
    for k in 0..child_start_block_index_vector.len()
        invariant
            children == child_start_block_index_vector@,
            children == listed_of(d0, dir.block_index),
            directory_start_block@ == dir,
            delete_children_ok(d0, children, dir),
            drive_file@ == delete_children_effect(d0, children.take(k as int), dir),
    {
        let block_index = child_start_block_index_vector[k];
        assert(children.take(k + 1).drop_last() =~= children.take(k as int));
        assert(block_readable(drive_file@, block_index) && delete_file_ok(
            drive_file@,
            start_block_at(drive_file@, block_index),
            dir,
        ));
        let mut child = start_block_read(drive_file, block_index)?;
        delete_file(drive_file, &mut child, directory_start_block)?;
    }
    assert(children.take(children.len() as int) =~= children);
    Ok(())
}

/// Image `d` after deleting directory `dir` from `parent`.
pub open spec fn delete_directory_effect(d: Seq<u8>, dir: StartBlockModel, parent: StartBlockModel) -> Seq<u8> {
    let d1 = delete_all_files_effect(d, dir);
    if read_start_chain_ok_listing(d, dir) {
        delete_file_effect(d1, dir, parent)
    } else {
        d1
    }
}

/// Deleting directory `dir` from `parent` runs without panic.
pub open spec fn delete_directory_ok(d: Seq<u8>, dir: StartBlockModel, parent: StartBlockModel) -> bool {
    &&& delete_all_files_ok(d, dir)
    &&& read_start_chain_ok_listing(d, dir) ==> delete_file_ok(delete_all_files_effect(d, dir), dir, parent)
}

/// Deletes every file that the directory lists, then the directory itself.
pub fn delete_directory(
    drive_file: &mut Drive,
    directory_start_block: &mut StartBlock,
    parent_start_block: &mut StartBlock,
) -> (r: ResultEmpty)
    requires
        delete_directory_ok(old(drive_file)@, old(directory_start_block)@, old(parent_start_block)@),
    ensures
        final(directory_start_block)@ == old(directory_start_block)@,
        final(parent_start_block)@ == old(parent_start_block)@,
        final(drive_file)@ == delete_directory_effect(
            old(drive_file)@,
            old(directory_start_block)@,
            old(parent_start_block)@,
        ),
        match crate::drive_actions::data_block_actions::read_start_chain(
            old(drive_file)@,
            old(directory_start_block)@.block_index,
        ) {
            Ok(_) => r == Ok::<(), FsError>(()),
            Err(e) => r == Err::<(), FsError>(e),
        },
{
    delete_all_files_in_directory(drive_file, directory_start_block)?;
    delete_file(drive_file, directory_start_block, parent_start_block)?;
    Ok(())
}

} // verus!
