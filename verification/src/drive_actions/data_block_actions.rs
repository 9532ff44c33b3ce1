//! Chains of data blocks: following them on the drive, the content they hold,
//! the directory entries stored in that content, and writing content into them.
use vstd::prelude::*;
use crate::blocks::{DataBlock, DataBlockModel, StartBlock, NULL_INDEX, overwrite, lemma_data_block_len};
use crate::drive::{Drive, block_count, block_readable};
use crate::ne_bytes::{u32_of_ne, u32_from_ne};
use crate::results::{FsError, ResultBlockIndexVector, ResultDataBlockVector, ResultDataVector, ResultEmpty};
use crate::drive_actions::block_actions::{
    all_writable, data_block_at, data_block_read, data_block_write, models, start_block_at, start_block_read,
    write_data_blocks_effect,
};

verus! {

broadcast use lemma_data_block_len;

/// The indexes of the chain that starts at block `i`, following the next-block
/// links until one is null, when that takes at most `fuel` blocks that can all
/// be read.
pub open spec fn chain_from(d: Seq<u8>, i: u32, fuel: nat) -> Option<Seq<u32>>
    decreases fuel,
{
    if fuel == 0 || !block_readable(d, i) {
        None
    } else if data_block_at(d, i).next_block_index == NULL_INDEX {
        Some(seq![i])
    } else {
        match chain_from(d, data_block_at(d, i).next_block_index, (fuel - 1) as nat) {
            Some(rest) => Some(seq![i] + rest),
            None => None,
        }
    }
}

/// The chain that starts at block `first`. A chain that ends has no block twice
/// and only readable blocks, so it is never longer than the image has blocks:
/// `None` means that following the links reads past the image or never ends.
pub open spec fn chain_of(d: Seq<u8>, first: u32) -> Option<Seq<u32>> {
    chain_from(d, first, block_count(d))
}

/// Following the chain from `first` ends without error or panic: either the
/// first index is null (an error) or the chain ends.
pub open spec fn chain_ok(d: Seq<u8>, first: u32) -> bool {
    first == NULL_INDEX || chain_of(d, first) is Some
}

/// A chain found with some fuel is found, the same, with more fuel; it is never
/// longer than the fuel, and its blocks are all readable.
pub proof fn lemma_chain_fuel(d: Seq<u8>, i: u32, f: nat, g: nat)
    requires
        chain_from(d, i, f) is Some,
        f <= g,
    ensures
        chain_from(d, i, g) == chain_from(d, i, f),
        chain_from(d, i, f).unwrap().len() <= f,
        chain_from(d, i, f).unwrap().len() >= 1,
        chain_from(d, i, f).unwrap()[0] == i,
        forall|k: int|
            0 <= k < chain_from(d, i, f).unwrap().len() ==> block_readable(
                d,
                #[trigger] chain_from(d, i, f).unwrap()[k],
            ),
    decreases f,
{
    let n = data_block_at(d, i).next_block_index;
    if n != NULL_INDEX {
        lemma_chain_fuel(d, n, (f - 1) as nat, (g - 1) as nat);
        let s = chain_from(d, i, f).unwrap();
        let r = chain_from(d, n, (f - 1) as nat).unwrap();
        assert(s == seq![i] + r);
        assert forall|k: int| 0 <= k < s.len() implies block_readable(d, #[trigger] s[k]) by {
            if k > 0 {
                assert(s[k] == r[k - 1]);
            }
        }
    }
}

/// Each suffix of a chain is the chain from the block where it starts.
pub proof fn lemma_chain_suffix(d: Seq<u8>, i: u32, f: nat, k: int)
    requires
        chain_from(d, i, f) is Some,
        0 <= k < chain_from(d, i, f).unwrap().len(),
    ensures
        k <= f,
        chain_from(d, chain_from(d, i, f).unwrap()[k], (f - k) as nat) == Some(
            chain_from(d, i, f).unwrap().skip(k),
        ),
    decreases k,
{
    lemma_chain_fuel(d, i, f, f);
    let s = chain_from(d, i, f).unwrap();
    if k == 0 {
        assert(s.skip(0) =~= s);
    } else {
        let n = data_block_at(d, i).next_block_index;
        let r = chain_from(d, n, (f - 1) as nat).unwrap();
        assert(s == seq![i] + r);
        lemma_chain_suffix(d, n, (f - 1) as nat, k - 1);
        assert(r.skip(k - 1) =~= s.skip(k));
    }
}

/// A chain that ends never visits a block twice.
pub proof fn lemma_chain_no_duplicates(d: Seq<u8>, i: u32, f: nat)
    requires
        chain_from(d, i, f) is Some,
    ensures
        chain_from(d, i, f).unwrap().no_duplicates(),
    decreases f,
{
    lemma_chain_fuel(d, i, f, f);
    let s = chain_from(d, i, f).unwrap();
    let n = data_block_at(d, i).next_block_index;
    if n != NULL_INDEX {
        let r = chain_from(d, n, (f - 1) as nat).unwrap();
        assert(s == seq![i] + r);
        lemma_chain_no_duplicates(d, n, (f - 1) as nat);
        assert forall|a: int, b: int| 0 <= a < s.len() && 0 <= b < s.len() && a != b implies s[a]
            != s[b] by {
            if s[a] == s[b] {
                if a > 0 && b > 0 {
                    assert(r[a - 1] == r[b - 1]);
                } else {
                    let k = if a == 0 { b - 1 } else { a - 1 };
                    assert(r[k] == i);
                    lemma_chain_suffix(d, n, (f - 1) as nat, k);
                    lemma_chain_fuel(d, i, (f - 1 - k) as nat, f);
                    assert(r.skip(k).len() < s.len());
                }
            }
        }
    }
}

/// A chain that ends holds at most as many blocks as can be addressed.
pub proof fn lemma_chain_len(d: Seq<u8>, first: u32)
    requires
        chain_of(d, first) is Some,
    ensures
        chain_of(d, first).unwrap().len() <= 0x0100_0000,
{
    let s = chain_of(d, first).unwrap();
    lemma_chain_fuel(d, first, block_count(d), block_count(d));
    lemma_chain_no_duplicates(d, first, block_count(d));
    let si = s.map_values(|x: u32| x as int);
    s.lemma_no_duplicates_injective(|x: u32| x as int);
    si.unique_seq_to_set();
    vstd::set_lib::lemma_int_range(0, 0x0100_0000);
    assert forall|x: int| si.to_set().contains(x) implies vstd::set_lib::set_int_range(
        0,
        0x0100_0000,
    ).contains(x) by {
        let k = choose|k: int| 0 <= k < si.len() && si[k] == x;
        assert(block_readable(d, s[k]));
    }
    vstd::set_lib::lemma_len_subset(si.to_set(), vstd::set_lib::set_int_range(0, 0x0100_0000));
}

/// `path` is a chain of image `d`: at least one block, all readable, each
/// linked to the next one and the last one to the null index.
pub open spec fn is_chain_path(d: Seq<u8>, path: Seq<u32>) -> bool {
    &&& path.len() >= 1
    &&& forall|k: int| 0 <= k < path.len() ==> block_readable(d, #[trigger] path[k])
    &&& forall|k: int|
        0 <= k < path.len() - 1 ==> #[trigger] data_block_at(d, path[k]).next_block_index == path[k
            + 1]
    &&& data_block_at(d, path.last()).next_block_index == NULL_INDEX
}

/// A chain that ends is a chain path.
pub proof fn lemma_chain_is_path(d: Seq<u8>, i: u32, f: nat)
    requires
        chain_from(d, i, f) is Some,
    ensures
        is_chain_path(d, chain_from(d, i, f).unwrap()),
        chain_from(d, i, f).unwrap()[0] == i,
    decreases f,
{
    lemma_chain_fuel(d, i, f, f);
    let s = chain_from(d, i, f).unwrap();
    let n = data_block_at(d, i).next_block_index;
    if n != NULL_INDEX {
        let r = chain_from(d, n, (f - 1) as nat).unwrap();
        lemma_chain_is_path(d, n, (f - 1) as nat);
        assert(s == seq![i] + r);
        assert forall|k: int| 0 <= k < s.len() - 1 implies #[trigger] data_block_at(d, s[k]).next_block_index == s[k + 1] by {
            if k > 0 {
                assert(s[k] == r[k - 1] && s[k + 1] == r[k]);
            }
        }
        assert(s.last() == r.last());
    }
}

/// Indexes that are all different and all below `bound` are at most `bound`.
pub proof fn lemma_distinct_bounded(s: Seq<u32>, bound: int)
    requires
        s.no_duplicates(),
        0 <= bound,
        forall|k: int| 0 <= k < s.len() ==> #[trigger] s[k] < bound,
    ensures
        s.len() <= bound,
{
    let si = s.map_values(|x: u32| x as int);
    s.lemma_no_duplicates_injective(|x: u32| x as int);
    si.unique_seq_to_set();
    vstd::set_lib::lemma_int_range(0, bound);
    assert forall|x: int| si.to_set().contains(x) implies vstd::set_lib::set_int_range(0, bound).contains(
        x,
    ) by {
        let k = choose|k: int| 0 <= k < si.len() && si[k] == x;
        assert(s[k] < bound);
    }
    vstd::set_lib::lemma_len_subset(si.to_set(), vstd::set_lib::set_int_range(0, bound));
}

/// A chain path with no block twice is the chain that starts at its first block.
pub proof fn lemma_path_is_chain(d: Seq<u8>, path: Seq<u32>)
    requires
        is_chain_path(d, path),
        path.no_duplicates(),
    ensures
        chain_of(d, path[0]) == Some(path),
{
    lemma_path_chain_from(d, path);
    assert forall|k: int| 0 <= k < path.len() implies #[trigger] path[k] < block_count(d) by {
        assert(block_readable(d, path[k]));
    }
    lemma_distinct_bounded(path, block_count(d) as int);
    lemma_chain_fuel(d, path[0], path.len(), block_count(d));
}

/// A chain path is found from its first block with as much fuel as it has
/// blocks.
pub proof fn lemma_path_chain_from(d: Seq<u8>, path: Seq<u32>)
    requires
        is_chain_path(d, path),
    ensures
        chain_from(d, path[0], path.len()) == Some(path),
    decreases path.len(),
{
    assert(block_readable(d, path[0]));
    if path.len() == 1 {
        assert(path =~= seq![path[0]]);
    } else {
        let r = path.drop_first();
        assert(data_block_at(d, path[0]).next_block_index == path[1]);
        assert forall|k: int| 0 <= k < r.len() - 1 implies #[trigger] data_block_at(d, r[k]).next_block_index == r[k + 1] by {
            assert(data_block_at(d, path[k + 1]).next_block_index == path[k + 2]);
        }
        assert forall|k: int| 0 <= k < r.len() implies block_readable(d, #[trigger] r[k]) by {
            assert(block_readable(d, path[k + 1]));
        }
        lemma_path_chain_from(d, r);
        assert(seq![path[0]] + r =~= path);
    }
}

/// The chain from `first` ends and each of its blocks holds its own index.
pub open spec fn chain_well_formed(d: Seq<u8>, first: u32) -> bool {
    &&& chain_of(d, first) is Some
    &&& forall|k: int|
        0 <= k < chain_of(d, first).unwrap().len() ==> #[trigger] data_block_at(
            d,
            chain_of(d, first).unwrap()[k],
        ).block_index == chain_of(d, first).unwrap()[k]
}

/// The content of the file whose chain starts at `first`.
pub open spec fn file_content(d: Seq<u8>, first: u32) -> Seq<u8> {
    blocks_content(chain_blocks(d, chain_of(d, first).unwrap()))
}

/// The data blocks of image `d` at the indexes `idxs`.
pub open spec fn chain_blocks(d: Seq<u8>, idxs: Seq<u32>) -> Seq<DataBlockModel> {
    idxs.map_values(|i: u32| data_block_at(d, i))
}

/// What reading the chain from `first` gives: an I/O error for the null index,
/// else the blocks of the chain.
pub open spec fn read_chain(d: Seq<u8>, first: u32) -> Result<Seq<DataBlockModel>, FsError> {
    if first == NULL_INDEX {
        Err(FsError::Io)
    } else {
        Ok(chain_blocks(d, chain_of(d, first).unwrap()))
    }
}

/// A vector of blocks (or an error) matches a sequence of models (or that error).
pub open spec fn matches_blocks(
    r: Result<Vec<DataBlock>, FsError>,
    s: Result<Seq<DataBlockModel>, FsError>,
) -> bool {
    match (r, s) {
        (Ok(v), Ok(m)) => models(v@) == m,
        (Err(e1), Err(e2)) => e1 == e2,
        _ => false,
    }
}

/// The chain of the file or directory whose start block is block `i` can be
/// read without panic: `i` is null (an error) or a readable block whose first
/// data block starts a chain that can be read.
pub open spec fn start_chain_ok(d: Seq<u8>, i: u32) -> bool {
    i == NULL_INDEX || (block_readable(d, i) && chain_ok(d, start_block_at(d, i).first_data_block_index))
}

/// What reading the chain of the start block at block `i` gives.
pub open spec fn read_start_chain(d: Seq<u8>, i: u32) -> Result<Seq<DataBlockModel>, FsError> {
    if i == NULL_INDEX {
        Err(FsError::Io)
    } else {
        read_chain(d, start_block_at(d, i).first_data_block_index)
    }
}

/// The content of a sequence of data blocks: their 248 data bytes one after
/// the other.
pub open spec fn blocks_content(s: Seq<DataBlockModel>) -> Seq<u8> {
    Seq::new(s.len() * 248, |k: int| s[k / 248].data[k % 248])
}

/// The 4-byte slots of a directory's content, each read as a block index.
pub open spec fn entries_of(c: Seq<u8>) -> Seq<u32> {
    Seq::new(c.len() / 4, |k: int| u32_of_ne(c.subrange(4 * k, 4 * k + 4)))
}

/// The entries of a directory: its slots that are not null.
pub open spec fn listed_entries(e: Seq<u32>) -> Seq<u32> {
    e.filter(|x: u32| x != NULL_INDEX)
}

/// Positions `i * 248 .. i * 248 + 248` of the content belong to block `i`.
pub proof fn lemma_block_position(k: int, i: int)
    requires
        0 <= i,
        i * 248 <= k < i * 248 + 248,
    ensures
        k / 248 == i,
        k % 248 == k - i * 248,
{
    vstd::arithmetic::div_mod::lemma_fundamental_div_mod_converse(k, 248, i, k - i * 248);
}

/// Appending a block to a sequence appends its data to the content.
pub proof fn lemma_content_push(s: Seq<DataBlockModel>, b: DataBlockModel)
    requires
        b.data.len() == 248,
    ensures
        blocks_content(s.push(b)) == blocks_content(s) + b.data,
{
    let l = blocks_content(s.push(b));
    let r = blocks_content(s) + b.data;
    assert forall|k: int| 0 <= k < l.len() implies l[k] == r[k] by {
        if k < s.len() * 248 {
            let i = k / 248;
            assert(0 <= i < s.len()) by (nonlinear_arith)
                requires
                    0 <= k < s.len() * 248,
                    i == k / 248,
            ;
        } else {
            lemma_block_position(k, s.len() as int);
        }
    }
    assert(l =~= r);
}

/// The content of the first `i + 1` blocks is the content of the first `i`
/// blocks followed by the data of block `i`.
pub proof fn lemma_content_take(s: Seq<DataBlockModel>, i: int)
    requires
        0 <= i < s.len(),
        s[i].data.len() == 248,
    ensures
        blocks_content(s.take(i + 1)) == blocks_content(s.take(i)) + s[i].data,
{
    assert(s.take(i + 1) =~= s.take(i).push(s[i]));
    lemma_content_push(s.take(i), s[i]);
}

/// Copies a vector of data blocks.
fn copy_blocks(v: &Vec<DataBlock>) -> (r: Vec<DataBlock>)
    ensures
        r@ == v@,
{
    let mut r: Vec<DataBlock> = Vec::new();
    for i in 0..v.len()
        invariant
            r@ == v@.take(i as int),
    {
        r.push(v[i]);
        assert(r@ =~= v@.take(i + 1));
    }
    assert(r@ =~= v@);
    r
}

/// Follows the chain that starts at `first_block_index` and returns its blocks.
fn get_data_block_vec_from_first_data_block_index(drive_file: &Drive, first_block_index: u32) -> (r: ResultDataBlockVector)
    requires
        chain_ok(drive_file@, first_block_index),
    ensures
        matches_blocks(r, read_chain(drive_file@, first_block_index)),
{
    let ghost d = drive_file@;
    let mut block_vec: Vec<DataBlock> = Vec::new();
    let first_block = data_block_read(drive_file, first_block_index)?;
    let ghost full = chain_of(d, first_block_index).unwrap();
    block_vec.push(first_block);
    let mut current_next_index = *first_block.get_next_block_index();
    let ghost mut visited: Seq<u32> = seq![first_block_index];
    let ghost mut rest: Seq<u32> = full.drop_first();
    let ghost mut fuel: nat = (block_count(d) - 1) as nat;
    assert(models(block_vec@) =~= chain_blocks(d, visited));
    assert(full =~= visited + rest);
    while current_next_index != u32::MAX
        invariant
            d == drive_file@,
            full == chain_of(d, first_block_index).unwrap(),
            full == visited + rest,
            models(block_vec@) == chain_blocks(d, visited),
            current_next_index == NULL_INDEX ==> rest.len() == 0,
            current_next_index != NULL_INDEX ==> chain_from(d, current_next_index, fuel) == Some(
                rest,
            ),
        decreases fuel,
    {
        let current_block = data_block_read(drive_file, current_next_index).unwrap();
        proof {
            let c = current_next_index;
            assert(rest[0] == c);
            assert(models(block_vec@.push(current_block)) =~= models(block_vec@).push(current_block@));
            assert(chain_blocks(d, visited.push(c)) =~= chain_blocks(d, visited).push(data_block_at(d, c)));
            assert(visited.push(c) + rest.drop_first() =~= visited + rest);
            visited = visited.push(c);
            rest = rest.drop_first();
            fuel = (fuel - 1) as nat;
        }
        block_vec.push(current_block);
        current_next_index = *current_block.get_next_block_index();
    }
    assert(full =~= visited);
    Ok(block_vec)
}

/// All the data blocks of a file, following the chain from its first data block.
pub fn get_data_block_vec_from_start_block(drive_file: &Drive, start_block: StartBlock) -> (r: ResultDataBlockVector)
    requires
        chain_ok(drive_file@, start_block@.first_data_block_index),
    ensures
        matches_blocks(r, read_chain(drive_file@, start_block@.first_data_block_index)),
{
    get_data_block_vec_from_first_data_block_index(drive_file, *start_block.get_first_data_block_index())
}

/// All the data blocks of the file whose start block is block `start_block_index`.
fn get_data_block_vec_from_start_block_index(drive_file: &Drive, start_block_index: u32) -> (r: ResultDataBlockVector)
    requires
        start_chain_ok(drive_file@, start_block_index),
    ensures
        matches_blocks(r, read_start_chain(drive_file@, start_block_index)),
{
    get_data_block_vec_from_start_block(drive_file, start_block_read(drive_file, start_block_index)?)
}

/// The content of the blocks: their data bytes one after the other.
pub fn get_data_vec_from_data_block_vec(data_block_vec: Vec<DataBlock>) -> (r: ResultDataVector)
    ensures
        r matches Ok(v) && v@ == blocks_content(models(data_block_vec@)),
{
    let ghost s = models(data_block_vec@);
    let mut data_vec: Vec<u8> = Vec::new();
    assert(data_vec@ =~= blocks_content(s.take(0)));
    for i in 0..data_block_vec.len()
        invariant
            s == models(data_block_vec@),
            data_vec@ == blocks_content(s.take(i as int)),
    {
        let block = data_block_vec[i];
        let data = block.get_data();
        let ghost before = data_vec@;
        for j in 0..248
            invariant
                data@ == block@.data,
                data_vec@ == before + data@.take(j as int),
        {
            data_vec.push(data[j]);
            assert(data_vec@ =~= before + data@.take(j + 1));
        }
        proof {
            assert(data@.take(248) =~= data@);
            assert(s[i as int] == block@);
            lemma_content_take(s, i as int);
        }
    }
    assert(s.take(data_block_vec@.len() as int) =~= s);
    Ok(data_vec)
}

/// Reads every 4-byte slot of `data` as a block index.
pub(crate) fn directory_slots(data: &Vec<u8>) -> (r: Vec<u32>)
    ensures
        r@ == entries_of(data@),
{
    let mut slots: Vec<u32> = Vec::new();
    let n = data.len() / 4;
    for k in 0..n
        invariant
            n == data@.len() / 4,
            slots@ == entries_of(data@).take(k as int),
    {
        assert(4 * k + 4 <= data@.len()) by (nonlinear_arith)
            requires
                k < n,
                n == data@.len() / 4,
        ;
        assert(data@.len() == data.len());
        let b = 4 * k;
        let chunk: [u8; 4] = [data[b], data[b + 1], data[b + 2], data[b + 3]];
        assert(chunk@ =~= data@.subrange(4 * k, 4 * k + 4));
        let x = u32_from_ne(chunk);
        slots.push(x);
        assert(slots@ =~= entries_of(data@).take(k + 1));
    }
    assert(slots@ =~= entries_of(data@));
    slots
}

/// Keeps the slots that are not null.
fn non_null_entries(slots: &Vec<u32>) -> (r: Vec<u32>)
    ensures
        r@ == listed_entries(slots@),
{
    let mut v: Vec<u32> = Vec::new();
    for k in 0..slots.len()
        invariant
            v@ == listed_entries(slots@.take(k as int)),
    {
        let x = slots[k];
        proof {
            reveal_with_fuel(Seq::<_>::filter, 1);
            assert(slots@.take(k + 1).drop_last() =~= slots@.take(k as int));
        }
        if x != u32::MAX {
            v.push(x);
        }
    }
    assert(slots@.take(slots@.len() as int) =~= slots@);
    v
}

/// The entries of a directory held by these blocks: the content read as 4-byte
/// block indexes, null slots left out.
pub fn get_directory_index_vec_from_data_block_vec(data_block_vec: Vec<DataBlock>) -> (r: ResultBlockIndexVector)
    ensures
        r matches Ok(v) && v@ == listed_entries(entries_of(blocks_content(models(data_block_vec@)))),
{
    let data_vec = get_data_vec_from_data_block_vec(data_block_vec)?;
    let slots = directory_slots(&data_vec);
    Ok(non_null_entries(&slots))
}

/// The entries of the directory whose start block is block `start_block_index`.
pub fn get_directory_data_from_start_block_index(drive_file: &Drive, start_block_index: u32) -> (r: ResultBlockIndexVector)
    requires
        start_chain_ok(drive_file@, start_block_index),
    ensures
        match read_start_chain(drive_file@, start_block_index) {
            Ok(s) => r matches Ok(v) && v@ == listed_entries(entries_of(blocks_content(s))),
            Err(e) => r == Err::<Vec<u32>, FsError>(e),
        },
{
    get_directory_index_vec_from_data_block_vec(
        get_data_block_vec_from_start_block_index(drive_file, start_block_index)?,
    )
}

/// The content of the file whose start block is block `start_block_index`.
pub fn get_file_data_from_start_block_index(drive_file: &Drive, start_block_index: u32) -> (r: ResultDataVector)
    requires
        start_chain_ok(drive_file@, start_block_index),
    ensures
        match read_start_chain(drive_file@, start_block_index) {
            Ok(s) => r matches Ok(v) && v@ == blocks_content(s),
            Err(e) => r == Err::<Vec<u8>, FsError>(e),
        },
{
    get_data_vec_from_data_block_vec(get_data_block_vec_from_start_block_index(drive_file, start_block_index)?)
}

/// The content of the file that a start block describes.
pub fn get_data_vector_from_start_block(drive_file: &Drive, start_block: &mut StartBlock) -> (r: ResultDataVector)
    requires
        chain_ok(drive_file@, old(start_block)@.first_data_block_index),
    ensures
        final(start_block)@ == old(start_block)@,
        match read_chain(drive_file@, old(start_block)@.first_data_block_index) {
            Ok(s) => r matches Ok(v) && v@ == blocks_content(s),
            Err(e) => r == Err::<Vec<u8>, FsError>(e),
        },
{
    Ok(get_data_vec_from_data_block_vec(get_data_block_vec_from_start_block(drive_file, *start_block)?)?)
}

/// Block `j` of content `c`: bytes `j * 248 .. j * 248 + 248`.
pub open spec fn block_slice(c: Seq<u8>, j: int) -> Seq<u8> {
    c.subrange(j * 248, j * 248 + 248)
}

/// Blocks whose data are the consecutive 248-byte slices of `c` hold `c`.
pub proof fn lemma_content_from_slices(s: Seq<DataBlockModel>, c: Seq<u8>)
    requires
        c.len() == s.len() * 248,
        forall|j: int| 0 <= j < s.len() ==> #[trigger] s[j].data == block_slice(c, j),
    ensures
        blocks_content(s) == c,
{
    let l = blocks_content(s);
    assert forall|k: int| 0 <= k < l.len() implies l[k] == c[k] by {
        let j = k / 248;
        assert(0 <= j < s.len()) by (nonlinear_arith)
            requires
                0 <= k < s.len() * 248,
                j == k / 248,
        ;
        vstd::arithmetic::div_mod::lemma_fundamental_div_mod(k, 248);
        assert(s[j].data == block_slice(c, j));
    }
    assert(l =~= c);
}

/// The data of each block is its slice of the content.
pub proof fn lemma_slices_of_content(s: Seq<DataBlockModel>, j: int)
    requires
        0 <= j < s.len(),
        s[j].data.len() == 248,
    ensures
        s[j].data == block_slice(blocks_content(s), j),
{
    let c = blocks_content(s);
    assert(j * 248 + 248 <= s.len() * 248) by (nonlinear_arith)
        requires
            0 <= j < s.len(),
    ;
    assert forall|t: int| 0 <= t < 248 implies block_slice(c, j)[t] == s[j].data[t] by {
        lemma_block_position(j * 248 + t, j);
    }
    assert(block_slice(c, j) =~= s[j].data);
}

/// The two sequences of blocks have the same indexes and the same links.
pub open spec fn same_links(a: Seq<DataBlockModel>, b: Seq<DataBlockModel>) -> bool {
    &&& a.len() == b.len()
    &&& forall|k: int|
        0 <= k < a.len() ==> (#[trigger] a[k]).block_index == b[k].block_index
            && a[k].next_block_index == b[k].next_block_index
}

/// Copies a vector of bytes.
fn copy_bytes(v: &Vec<u8>) -> (r: Vec<u8>)
    ensures
        r@ == v@,
{
    let mut r: Vec<u8> = Vec::new();
    for i in 0..v.len()
        invariant
            r@ == v@.take(i as int),
    {
        r.push(v[i]);
        assert(r@ =~= v@.take(i + 1));
    }
    assert(r@ =~= v@);
    r
}

/// Writes `data_vector` into the content of the blocks, starting at byte
/// `first_block_offset` of block `block_offset` and going on into the blocks
/// that follow it, 248 bytes per block. Fails with `Range`, changing nothing,
/// when the bytes would go past the end of the last block. The data vector
/// keeps the bytes that went into the first block written. Returns a copy of
/// the new blocks.
pub fn data_block_vector_set_data_from_data_vector(
    data_block_vector: &mut Vec<DataBlock>,
    data_vector: &mut Vec<u8>,
    first_block_offset: usize,
    block_offset: usize,
) -> (r: ResultDataBlockVector)
    requires
        first_block_offset <= 248,
        block_offset < old(data_block_vector)@.len(),
        old(data_block_vector)@.len() * 248 <= usize::MAX,
    ensures
        ({
            let end = block_offset * 248 + first_block_offset + old(data_vector)@.len();
            let old_blocks = models(old(data_block_vector)@);
            let new_blocks = models(final(data_block_vector)@);
            if end > old(data_block_vector)@.len() * 248 {
                &&& r == Err::<Vec<DataBlock>, FsError>(FsError::Range)
                &&& final(data_block_vector)@ == old(data_block_vector)@
                &&& final(data_vector)@ == old(data_vector)@
            } else {
                &&& r matches Ok(v) && v@ == final(data_block_vector)@
                &&& same_links(new_blocks, old_blocks)
                &&& blocks_content(new_blocks) == overwrite(
                    blocks_content(old_blocks),
                    block_offset * 248 + first_block_offset,
                    old(data_vector)@,
                )
                &&& final(data_vector)@ == old(data_vector)@.take(
                    if old(data_vector)@.len() <= 248 - first_block_offset {
                        old(data_vector)@.len() as int
                    } else {
                        248 - first_block_offset
                    },
                )
            }
        }),
{
    assert(block_offset * 248 + 248 <= data_block_vector.len() * 248) by (nonlinear_arith)
        requires
            block_offset < data_block_vector.len(),
    ;
    let room = data_block_vector.len() * 248 - block_offset * 248 - first_block_offset;
    if data_vector.len() > room {
        return Err(FsError::Range);
    }
    let ghost old_blocks = models(data_block_vector@);
    let ghost old_content = blocks_content(old_blocks);
    let ghost data = data_vector@;
    let ghost p = block_offset * 248 + first_block_offset;
    let ghost target = overwrite(old_content, p, data);
    let n = data_block_vector.len();
    let cut = 248 - first_block_offset;
    let remaining_data = if data_vector.len() > cut {
        data_vector.split_off(cut)
    } else {
        Vec::new()
    };
    let ghost cutl: int = if data.len() <= cut { data.len() as int } else { cut as int };
    assert(remaining_data@ =~= data.skip(cutl));
    let mut first = data_block_vector[block_offset];
    let ghost prev = models(data_block_vector@);
    assert(prev[block_offset as int] == first@);
    let _ = first.set_data(copy_bytes(data_vector), first_block_offset);
    data_block_vector.set(block_offset, first);
    assert(models(data_block_vector@) =~= prev.update(block_offset as int, first@));
    proof {
        let b = block_offset as int;
        assert(old_blocks[b].data.len() == 248);
        lemma_slices_of_content(old_blocks, b);
        assert(models(data_block_vector@)[b].data =~= block_slice(target, b));
    }
    let mut pos: usize = 0;
    let mut i = block_offset + 1;
    while i < n
        invariant
            n == data_block_vector@.len(),
            n == old_blocks.len(),
            block_offset < i <= n,
            first_block_offset <= 248,
            cut == 248 - first_block_offset,
            p == block_offset * 248 + first_block_offset,
            target == overwrite(old_content, p, data),
            old_content == blocks_content(old_blocks),
            cutl == (if data.len() <= cut { data.len() as int } else { cut as int }),
            remaining_data@ == data.skip(cutl),
            pos as int == if remaining_data@.len() < (i - block_offset - 1) * 248 {
                remaining_data@.len() as int
            } else {
                (i - block_offset - 1) * 248
            },
            same_links(models(data_block_vector@), old_blocks),
            forall|j: int|
                0 <= j < n ==> (#[trigger] models(data_block_vector@)[j]).data == if block_offset
                    <= j < i {
                    block_slice(target, j)
                } else {
                    old_blocks[j].data
                },
        decreases n - i,
    {
        let ghost pos0 = pos;
        let mut data_to_write: Vec<u8> = Vec::new();
        while data_to_write.len() < 248 && pos < remaining_data.len()
            invariant
                pos0 <= pos <= remaining_data@.len(),
                data_to_write@ == remaining_data@.subrange(pos0 as int, pos as int),
                data_to_write@.len() <= 248,
            decreases remaining_data@.len() - pos,
        {
            data_to_write.push(remaining_data[pos]);
            pos = pos + 1;
            assert(data_to_write@ =~= remaining_data@.subrange(pos0 as int, pos as int));
        }
        let mut block = data_block_vector[i];
        let ghost prev = models(data_block_vector@);
        assert(prev[i as int] == block@);
        let ghost old_data = block@.data;
        let _ = block.set_data(data_to_write, 0);
        data_block_vector.set(i, block);
        assert(models(data_block_vector@) =~= prev.update(i as int, block@));
        proof {
            let ii = i as int;
            assert(old_data == old_blocks[ii].data);
            lemma_slices_of_content(old_blocks, ii);
            assert forall|t: int| 0 <= t < 248 implies #[trigger] models(data_block_vector@)[ii].data[t]
                == block_slice(target, ii)[t] by {
                let k = ii * 248 + t;
                if pos0 as int == (ii - block_offset - 1) * 248 {
                    assert(k - p == cut + pos0 + t);
                } else {
                    assert(k - p >= data.len());
                }
            }
            assert(models(data_block_vector@)[ii].data =~= block_slice(target, ii));
        }
        i = i + 1;
    }
    proof {
        let s = models(data_block_vector@);
        assert(target.len() == s.len() * 248);
        assert forall|j: int| 0 <= j < s.len() implies #[trigger] s[j].data == block_slice(target, j) by {
            if j < block_offset {
                lemma_slices_of_content(old_blocks, j);
                assert(block_slice(target, j) =~= block_slice(old_content, j));
            }
        }
        lemma_content_from_slices(s, target);
    }
    Ok(copy_blocks(data_block_vector))
}

/// The blocks after taking the indexes `idxs` in turn and linking each block
/// to the next one of them (the last to the null index); blocks past the end
/// of `idxs` are left as they are.
pub open spec fn relinked(s: Seq<DataBlockModel>, idxs: Seq<u32>) -> Seq<DataBlockModel> {
    Seq::new(
        s.len(),
        |k: int|
            if k < idxs.len() {
                DataBlockModel {
                    block_index: idxs[k],
                    next_block_index: if k == idxs.len() - 1 {
                        NULL_INDEX
                    } else {
                        idxs[k + 1]
                    },
                    ..s[k]
                }
            } else {
                s[k]
            },
    )
}

/// Gives the blocks the indexes `data_block_index_vector`, links them in that
/// order and writes them all, passing over any whose index is null. The two
/// vectors must have the same length; otherwise it fails with `Domain` and
/// writes nothing.
pub fn data_block_vector_write(
    drive_file: &mut Drive,
    data_block_vector: Vec<DataBlock>,
    data_block_index_vector: Vec<u32>,
) -> (r: ResultEmpty)
    requires
        data_block_vector@.len() == data_block_index_vector@.len() ==> all_writable(
            relinked(models(data_block_vector@), data_block_index_vector@),
        ),
    ensures
        data_block_vector@.len() != data_block_index_vector@.len() ==> r == Err::<(), FsError>(FsError::Domain)
            && final(drive_file)@ == old(drive_file)@,
        data_block_vector@.len() == data_block_index_vector@.len() ==> r == Ok::<(), FsError>(())
            && final(drive_file)@ == write_data_blocks_effect(
            old(drive_file)@,
            relinked(models(data_block_vector@), data_block_index_vector@),
        ),
{
    if data_block_vector.len() != data_block_index_vector.len() {
        return Err(FsError::Domain);
    }
    let ghost s0 = models(data_block_vector@);
    let ghost idxs = data_block_index_vector@;
    let mut data_block_vector = data_block_vector;
    let n = data_block_index_vector.len();
    for i in 0..n
        invariant
            n == idxs.len(),
            idxs == data_block_index_vector@,
            data_block_vector@.len() == s0.len(),
            s0.len() >= n,
            forall|k: int|
                0 <= k < s0.len() ==> #[trigger] models(data_block_vector@)[k] == if k < i {
                    relinked(s0, idxs)[k]
                } else {
                    s0[k]
                },
    {
        let mut block = data_block_vector[i];
        let ghost prev = models(data_block_vector@);
        assert(prev[i as int] == block@);
        block.set_block_index(data_block_index_vector[i]);
        if i == n - 1 {
            block.set_next_block_index(u32::MAX);
        } else {
            block.set_next_block_index(data_block_index_vector[i + 1]);
        }
        data_block_vector.set(i, block);
        assert(models(data_block_vector@) =~= prev.update(i as int, block@));
    }
    assert(models(data_block_vector@) =~= relinked(s0, idxs));
    let ghost s = models(data_block_vector@);
    let ghost d0 = drive_file@;
    let m = data_block_vector.len();
    let mut j: usize = 0;
    while j < m
        invariant
            m == data_block_vector@.len(),
            s == models(data_block_vector@),
            all_writable(s),
            0 <= j <= m,
            drive_file@ == write_data_blocks_effect(d0, s.take(j as int)),
        decreases m - j,
    {
        let block = data_block_vector[j];
        assert(s[j as int] == block@);
        assert(s.take(j + 1).drop_last() =~= s.take(j as int));
        let _ = data_block_write(drive_file, block);
        j = j + 1;
    }
    assert(s.take(m as int) =~= s);
    Ok(())
}

/// Every slot of the directory whose start block is block `start_block_index`,
/// free slots included.
pub fn directory_slots_from_start_block_index(drive_file: &Drive, start_block_index: u32) -> (r: ResultBlockIndexVector)
    requires
        start_chain_ok(drive_file@, start_block_index),
    ensures
        match read_start_chain(drive_file@, start_block_index) {
            Ok(s) => r matches Ok(v) && v@ == entries_of(blocks_content(s)),
            Err(e) => r == Err::<Vec<u32>, FsError>(e),
        },
{
    let data_vec = get_data_vec_from_data_block_vec(
        get_data_block_vec_from_start_block_index(drive_file, start_block_index)?,
    )?;
    Ok(directory_slots(&data_vec))
}

} // verus!
