//! Reading, writing and deleting single blocks of a drive.
use vstd::prelude::*;
use crate::blocks::{
    DataBlock, DataBlockModel, RawBlock, StartBlock, StartBlockModel, NULL_INDEX, data_block_bytes,
    data_block_of_bytes, start_block_bytes, start_block_of_bytes,
};
use crate::drive::{Drive, block_addressable, block_readable, raw_at, with_block, zero_block};
use crate::drive_actions::deletion_utils::{
    stored_indexes, until_null, lemma_until_null_step, lemma_until_null_stays,
};
use crate::results::{FsError, ResultBool, ResultDataBlock, ResultEmpty, ResultRawBlock, ResultStartBlock};

verus! {

/// The data block that block `i` of image `d` holds.
pub open spec fn data_block_at(d: Seq<u8>, i: u32) -> DataBlockModel {
    data_block_of_bytes(raw_at(d, i as int))
}

/// The start block that block `i` of image `d` holds.
pub open spec fn start_block_at(d: Seq<u8>, i: u32) -> StartBlockModel {
    start_block_of_bytes(raw_at(d, i as int))
}

/// Image `d` after writing data block `b` at the index it holds; writing at
/// the null index changes nothing.
pub open spec fn write_data_block_effect(d: Seq<u8>, b: DataBlockModel) -> Seq<u8> {
    if b.block_index == NULL_INDEX {
        d
    } else {
        with_block(d, b.block_index as int, data_block_bytes(b))
    }
}

/// Image `d` after writing each of `blocks` in turn, skipping those with the
/// null index.
pub open spec fn write_data_blocks_effect(d: Seq<u8>, blocks: Seq<DataBlockModel>) -> Seq<u8>
    decreases blocks.len(),
{
    if blocks.len() == 0 {
        d
    } else {
        write_data_block_effect(write_data_blocks_effect(d, blocks.drop_last()), blocks.last())
    }
}

/// Every block of `blocks` can be written: its index is null or addressable.
pub open spec fn all_writable(blocks: Seq<DataBlockModel>) -> bool {
    forall|k: int|
        0 <= k < blocks.len() ==> #[trigger] blocks[k].block_index == NULL_INDEX
            || block_addressable(blocks[k].block_index)
}

/// Block `n` of `blocks` is the first one whose index is null.
pub open spec fn first_null_at(blocks: Seq<DataBlockModel>, n: int) -> bool {
    &&& 0 <= n < blocks.len()
    &&& blocks[n].block_index == NULL_INDEX
    &&& forall|k: int| 0 <= k < n ==> #[trigger] blocks[k].block_index != NULL_INDEX
}

/// The models of a sequence of data blocks.
pub open spec fn models(v: Seq<DataBlock>) -> Seq<DataBlockModel> {
    v.map_values(|b: DataBlock| b@)
}

/// The byte offset of a block: `block_index * 256`.
fn get_offset_from_block_index(block_index: u32) -> (r: Result<u32, FsError>)
    requires
        block_index < 0x0100_0000,
    ensures
        r == Ok::<u32, FsError>((block_index * 256) as u32),
{
    Ok(block_index * 256)
}

/// Deletes a single block: its 256 bytes become zero.
pub fn direct_block_deletion(drive_file: &mut Drive, block_index: u32) -> (r: ResultEmpty)
    requires
        block_index == NULL_INDEX || block_addressable(block_index),
    ensures
        block_index == NULL_INDEX ==> r == Err::<(), FsError>(FsError::Io) && final(drive_file)@
            == old(drive_file)@,
        block_index != NULL_INDEX ==> r == Ok::<(), FsError>(()) && final(drive_file)@
            == with_block(old(drive_file)@, block_index as int, zero_block()),
{
    if block_index == u32::MAX {
        return Err(FsError::Io);
    }
    let _write_offset = get_offset_from_block_index(block_index)?;
    let crap: [u8; 256] = [0u8; 256];
    assert(crap@ =~= zero_block());
    drive_file.write_block(block_index, &crap);
    Ok(())
}

/// Reads the 256 bytes of a block.
fn direct_raw_block_read(drive_file: &Drive, block_index: u32) -> (r: ResultRawBlock)
    requires
        block_index == NULL_INDEX || block_readable(drive_file@, block_index),
    ensures
        block_index == NULL_INDEX ==> r == Err::<RawBlock, FsError>(FsError::Io),
        block_index != NULL_INDEX ==> (r matches Ok(raw) && raw.data@ == raw_at(
            drive_file@,
            block_index as int,
        )),
{
    if block_index == u32::MAX {
        return Err(FsError::Io);
    }
    let _read_offset = get_offset_from_block_index(block_index)?;
    let read_buffer = drive_file.read_block(block_index);
    Ok(RawBlock { data: read_buffer })
}

/// Writes the 256 bytes of a block.
fn direct_raw_block_write(drive_file: &mut Drive, block_index: u32, block: RawBlock) -> (r: ResultEmpty)
    requires
        block_index == NULL_INDEX || block_addressable(block_index),
    ensures
        block_index == NULL_INDEX ==> r == Err::<(), FsError>(FsError::Io) && final(drive_file)@
            == old(drive_file)@,
        block_index != NULL_INDEX ==> r == Ok::<(), FsError>(()) && final(drive_file)@
            == with_block(old(drive_file)@, block_index as int, block.data@),
{
    if block_index == u32::MAX {
        return Err(FsError::Io);
    }
    let _write_offset = get_offset_from_block_index(block_index)?;
    drive_file.write_block(block_index, &block.data);
    Ok(())
}

/// Reads a block as a data block (whatever the block really holds).
pub fn data_block_read(drive_file: &Drive, block_index: u32) -> (r: ResultDataBlock)
    requires
        block_index == NULL_INDEX || block_readable(drive_file@, block_index),
    ensures
        block_index == NULL_INDEX ==> r is Err && r->Err_0 == FsError::Io,
        block_index != NULL_INDEX ==> (r matches Ok(b) && b@ == data_block_at(drive_file@, block_index)),
{
    Ok(DataBlock::from(direct_raw_block_read(drive_file, block_index)?))
}

/// Reads a block as a start block (whatever the block really holds).
pub fn start_block_read(drive_file: &Drive, block_index: u32) -> (r: ResultStartBlock)
    requires
        block_index == NULL_INDEX || block_readable(drive_file@, block_index),
    ensures
        block_index == NULL_INDEX ==> r is Err && r->Err_0 == FsError::Io,
        block_index != NULL_INDEX ==> (r matches Ok(b) && b@ == start_block_at(drive_file@, block_index)),
{
    Ok(StartBlock::from(direct_raw_block_read(drive_file, block_index)?))
}

/// Writes a data block at the index it holds.
pub fn data_block_write(drive_file: &mut Drive, block: DataBlock) -> (r: ResultEmpty)
    requires
        block@.block_index == NULL_INDEX || block_addressable(block@.block_index),
    ensures
        block@.block_index == NULL_INDEX ==> r == Err::<(), FsError>(FsError::Io),
        block@.block_index != NULL_INDEX ==> r == Ok::<(), FsError>(()),
        final(drive_file)@ == write_data_block_effect(old(drive_file)@, block@),
{
    direct_raw_block_write(drive_file, *block.get_block_index(), RawBlock::from(block))
}

/// Writes a start block at the index it holds.
pub fn start_block_write(drive_file: &mut Drive, block: StartBlock) -> (r: ResultEmpty)
    requires
        block@.block_index == NULL_INDEX || block_addressable(block@.block_index),
    ensures
        block@.block_index == NULL_INDEX ==> r == Err::<(), FsError>(FsError::Io) && final(drive_file)@ == old(drive_file)@,
        block@.block_index != NULL_INDEX ==> r == Ok::<(), FsError>(()) && final(drive_file)@
            == with_block(old(drive_file)@, block@.block_index as int, start_block_bytes(block@)),
{
    direct_raw_block_write(drive_file, *block.get_block_index(), RawBlock::from(block))
}

/// Writes the blocks in turn, each at the index it holds, and stops with an
/// error at the first block whose index is null.
pub fn bulk_data_block_write(drive_file: &mut Drive, data_block_vector: Vec<DataBlock>) -> (r: ResultEmpty)
    requires
        all_writable(models(data_block_vector@)),
    ensures
        ({
            let s = models(data_block_vector@);
            match r {
                Ok(()) => {
                    &&& forall|k: int| 0 <= k < s.len() ==> #[trigger] s[k].block_index != NULL_INDEX
                    &&& final(drive_file)@ == write_data_blocks_effect(old(drive_file)@, s)
                },
                Err(e) => {
                    &&& e == FsError::Io
                    &&& exists|n: int|
                        #[trigger] first_null_at(s, n) && final(drive_file)@
                            == write_data_blocks_effect(old(drive_file)@, s.take(n))
                },
            }
        }),
        final(drive_file)@ == write_data_blocks_effect(
            old(drive_file)@,
            models(data_block_vector@).take(
                until_null(stored_indexes(models(data_block_vector@))).len() as int,
            ),
        ),
{
    let ghost s = models(data_block_vector@);
    let ghost st = stored_indexes(s);
    let ghost d0 = drive_file@;
    let n = data_block_vector.len();
    let mut i: usize = 0;
    assert(until_null(st.take(0)) =~= st.take(0));
    while i < n
        invariant
            n == data_block_vector@.len(),
            s == models(data_block_vector@),
            st == stored_indexes(s),
            all_writable(s),
            0 <= i <= n,
            until_null(st.take(i as int)) == st.take(i as int),
            forall|k: int| 0 <= k < i ==> #[trigger] s[k].block_index != NULL_INDEX,
            d0 == old(drive_file)@,
            drive_file@ == write_data_blocks_effect(d0, s.take(i as int)),
        decreases n - i,
    {
        let block = data_block_vector[i];
        assert(s[i as int] == block@);
        assert(s.take(i + 1).drop_last() =~= s.take(i as int));
        proof {
            lemma_until_null_step(st, i as int);
        }
        if *block.get_block_index() == u32::MAX {
            assert(s[i as int].block_index == NULL_INDEX);
            assert(first_null_at(s, i as int));
            proof {
                lemma_until_null_stays(st, i as int, n as int);
                assert(st.take(n as int) =~= st);
            }
            return Err(FsError::Io);
        }
        data_block_write(drive_file, block)?;
        i = i + 1;
    }
    assert(s.take(n as int) =~= s);
    assert(st.take(n as int) =~= st);
    Ok(())
}

/// Whether a block is empty: it does not hold its own index (the test that
/// finding free blocks uses).
pub fn check_if_block_is_empty(drive_file: &Drive, block_index_to_be_checked: u32) -> (r: ResultBool)
    requires
        block_index_to_be_checked == NULL_INDEX || block_readable(
            drive_file@,
            block_index_to_be_checked,
        ),
    ensures
        block_index_to_be_checked == NULL_INDEX ==> r == Err::<bool, FsError>(FsError::Io),
        block_index_to_be_checked != NULL_INDEX ==> r == Ok::<bool, FsError>(
            data_block_at(drive_file@, block_index_to_be_checked).block_index != block_index_to_be_checked,
        ),
{
    let block = data_block_read(drive_file, block_index_to_be_checked)?;
    Ok(*block.get_block_index() != block_index_to_be_checked)
}

/// Writes the blocks in turn, each at the index it holds, passing over those
/// whose index is null.
pub fn normal_data_block_vector_write(drive_file: &mut Drive, data_block_vector: Vec<DataBlock>) -> (r: ResultEmpty)
    requires
        all_writable(models(data_block_vector@)),
    ensures
        r == Ok::<(), FsError>(()),
        final(drive_file)@ == write_data_blocks_effect(old(drive_file)@, models(data_block_vector@)),
{
    let ghost s = models(data_block_vector@);
    let ghost d0 = drive_file@;
    let n = data_block_vector.len();
    let mut i: usize = 0;
    while i < n
        invariant
            n == data_block_vector@.len(),
            s == models(data_block_vector@),
            all_writable(s),
            0 <= i <= n,
            drive_file@ == write_data_blocks_effect(d0, s.take(i as int)),
        decreases n - i,
    {
        let block = data_block_vector[i];
        assert(s[i as int] == block@);
        assert(s.take(i + 1).drop_last() =~= s.take(i as int));
        let _ = data_block_write(drive_file, block);
        i = i + 1;
    }
    assert(s.take(n as int) =~= s);
    Ok(())
}

} // verus!
