//! Finding free blocks: a block is free when the index it holds (read as a
//! data block) is not its own index; a block in use always holds its own index.
use vstd::prelude::*;
use crate::drive::{Drive, block_count, block_readable};
use crate::results::ResultBlockIndexVector;
use crate::drive_actions::block_actions::{data_block_at, data_block_read};

verus! {

/// Block `i` of image `d` is free: it does not hold its own index.
pub open spec fn block_free(d: Seq<u8>, i: u32) -> bool {
    data_block_at(d, i).block_index != i
}

/// How far a scan for free blocks can read: the blocks that the image holds
/// in full and whose offset can be addressed.
pub open spec fn scan_limit(d: Seq<u8>) -> int {
    if block_count(d) < 0x0100_0000 {
        block_count(d) as int
    } else {
        0x0100_0000
    }
}

/// The free blocks below block `m`, in increasing order.
pub open spec fn free_below(d: Seq<u8>, m: int) -> Seq<u32>
    decreases m,
{
    if m <= 0 {
        seq![]
    } else {
        let r = free_below(d, m - 1);
        if block_free(d, (m - 1) as u32) {
            r.push((m - 1) as u32)
        } else {
            r
        }
    }
}

/// The free blocks that a scan of the image can find, in increasing order.
pub open spec fn free_blocks(d: Seq<u8>) -> Seq<u32> {
    free_below(d, scan_limit(d))
}

/// The free blocks below `m` are the first ones below any `m2 >= m`; they are
/// free, below `m`, and in increasing order.
pub proof fn lemma_free_below(d: Seq<u8>, m: int, m2: int)
    requires
        0 <= m <= m2 <= 0x0100_0000,
    ensures
        free_below(d, m).len() <= free_below(d, m2).len(),
        free_below(d, m2).take(free_below(d, m).len() as int) == free_below(d, m),
        forall|k: int|
            0 <= k < free_below(d, m).len() ==> #[trigger] free_below(d, m)[k] < m && block_free(
                d,
                free_below(d, m)[k],
            ),
        forall|a: int, b: int|
            0 <= a < b < free_below(d, m).len() ==> #[trigger] free_below(d, m)[a]
                < #[trigger] free_below(d, m)[b],
    decreases m2,
{
    if m2 > m {
        lemma_free_below(d, m, m2 - 1);
        assert(free_below(d, m2).take(free_below(d, m2 - 1).len() as int) =~= free_below(d, m2 - 1));
        assert(free_below(d, m2).take(free_below(d, m).len() as int) =~= free_below(d, m2 - 1).take(
            free_below(d, m).len() as int,
        ));
    } else {
        assert(free_below(d, m2).take(free_below(d, m).len() as int) =~= free_below(d, m));
        if m > 0 {
            lemma_free_below(d, m - 1, m - 1);
            let r = free_below(d, m - 1);
            let f = free_below(d, m);
            assert forall|a: int, b: int| 0 <= a < b < f.len() implies #[trigger] f[a] < #[trigger] f[b] by {
                if b < r.len() {
                    assert(f[a] == r[a] && f[b] == r[b]);
                } else {
                    assert(f[a] == r[a]);
                }
            }
        }
    }
}

/// The first `number_of_blocks` free blocks of the drive: blocks that do not
/// hold their own index, in increasing order.
/// The scan reads block after block from block 0 on; it must find them among
/// the blocks that the image holds, and at least one block is asked for.
pub fn find_next_empty_blocks(drive_file: &Drive, number_of_blocks: usize) -> (r: ResultBlockIndexVector)
    requires
        1 <= number_of_blocks <= free_blocks(drive_file@).len(),
    ensures
        r matches Ok(v) && v@ == free_blocks(drive_file@).take(number_of_blocks as int),
        r matches Ok(v) && forall|k: int| 0 <= k < v@.len() ==> #[trigger] block_free(drive_file@, v@[k]),
        r matches Ok(v) && forall|a: int, b: int| 0 <= a < b < v@.len() ==> #[trigger] v@[a] < #[trigger] v@[b],
{
    proof {
        lemma_free_below(drive_file@, scan_limit(drive_file@), scan_limit(drive_file@));
    }
    let ghost d = drive_file@;
    let ghost lim = scan_limit(d);
    let mut index_vec: Vec<u32> = Vec::with_capacity(number_of_blocks);
    for i in 0..u32::MAX
        invariant
            d == drive_file@,
            lim == scan_limit(d),
            1 <= number_of_blocks <= free_blocks(d).len(),
            i <= lim,
            index_vec@ == free_below(d, i as int),
            index_vec@.len() < number_of_blocks,
    {
        proof {
            if i == lim {
                lemma_free_below(d, i as int, lim);
            }
            lemma_free_below(d, i as int, i + 1);
        }
        assert(block_readable(d, i));
        if *data_block_read(drive_file, i).unwrap().get_block_index() != i {
            index_vec.push(i);
            if index_vec.len() == number_of_blocks {
                proof {
                    lemma_free_below(d, i + 1, lim);
                }
                return Ok(index_vec);
            }
        }
        proof {
            if i + 1 == lim {
                lemma_free_below(d, i + 1, lim);
            }
        }
        assert(index_vec@ == free_below(d, i + 1));
    }
    Ok(index_vec)
}

} // verus!
