//! What a write leaves alone: every block in use outside the file it writes,
//! so the start blocks and chains of all other files and directories.
use vstd::prelude::*;
use crate::blocks::{StartBlockModel, NULL_INDEX, start_block_bytes, lemma_data_block_len};
use crate::drive::{block_readable, lemma_with_block};
use crate::drive_actions::block_actions::{data_block_at, start_block_at, write_data_blocks_effect};
use crate::drive_actions::data_block_actions::{
    chain_blocks, chain_of, chain_well_formed, file_content, read_chain,
};
use crate::drive_actions::drive_utils::{block_free, free_blocks, lemma_free_below, scan_limit};
use crate::drive_actions::file_utils::expansion_blocks;
use crate::drive_actions::write_utils::{
    blocks_for, grown_start_block, start_write_effect, write_effect, write_grow_effect, write_ok,
    written_blocks,
};
use crate::deletion_laws::{disjoint, file_separate, kept, lemma_chain_kept, lemma_same_raw, own_blocks};
use crate::laws::{law_expand, lemma_start_write_keeps_chain, lemma_well_formed_path, lemma_write_chain_blocks};

verus! {

broadcast use lemma_data_block_len;

/// A file of more bytes needs at least as many blocks.
pub proof fn lemma_blocks_for_monotone(x: int, y: int)
    requires
        0 <= x <= y,
    ensures
        blocks_for(x) <= blocks_for(y),
{
    if x > 0 {
        vstd::arithmetic::div_mod::lemma_div_is_ordered(x + 247, y + 247, 248);
    }
}

/// A write touches only its own file. When file `sb` is the start block stored
/// at its index, with a well-formed chain off that block, writing `data` at
/// byte `offset` leaves a well-formed chain that starts with the old one and
/// goes on with blocks that were free; its start block then holds the grown
/// size, it is on no chain block, and every other block in use (holding its
/// own index) off the old chain reads exactly as before.
pub proof fn law_write_frame(d: Seq<u8>, sb: StartBlockModel, offset: int, data: Seq<u8>)
    requires
        d.len() <= usize::MAX,
        sb.name.len() == 208,
        0 <= offset,
        write_ok(d, sb, offset, data),
        sb.block_index != NULL_INDEX,
        block_readable(d, sb.block_index),
        start_block_at(d, sb.block_index) == sb,
        sb.first_data_block_index != NULL_INDEX,
        chain_well_formed(d, sb.first_data_block_index),
        !chain_of(d, sb.first_data_block_index).unwrap().contains(sb.block_index),
    ensures
        ({
            let first = sb.first_data_block_index;
            let idxs = chain_of(d, first).unwrap();
            let d3 = write_effect(d, sb, offset, data);
            let idxs3 = chain_of(d3, first).unwrap();
            &&& chain_well_formed(d3, first)
            &&& idxs.len() <= idxs3.len()
            &&& idxs3.take(idxs.len() as int) == idxs
            &&& forall|k: int|
                idxs.len() <= k < idxs3.len() ==> block_readable(d, #[trigger] idxs3[k]) && block_free(
                    d,
                    idxs3[k],
                )
            &&& !idxs3.contains(sb.block_index)
            &&& block_readable(d3, sb.block_index)
            &&& start_block_at(d3, sb.block_index) == grown_start_block(sb, offset + data.len())
            &&& forall|j: u32|
                block_readable(d, j) && !block_free(d, j) && j != sb.block_index && !idxs.contains(j)
                    ==> #[trigger] kept(d, d3, j)
        }),
{
    let first = sb.first_data_block_index;
    let idxs = chain_of(d, first).unwrap();
    let idx = sb.block_index;
    let end = offset + data.len();
    let grown = grown_start_block(sb, end);
    let d1 = if end > sb.size {
        start_write_effect(d, grown)
    } else {
        d
    };
    crate::blocks::lemma_start_block_roundtrip(grown);
    if end > sb.size {
        lemma_start_write_keeps_chain(d, grown, first);
        lemma_with_block(d, idx, start_block_bytes(grown), idx);
    }
    assert(d1.len() == d.len());
    assert forall|j: u32| block_readable(d, j) && j != idx implies #[trigger] kept(d, d1, j) by {
        if end > sb.size {
            lemma_with_block(d, idx, start_block_bytes(grown), j);
        }
    }
    assert(start_block_at(d1, idx) == grown);
    assert(data_block_at(d1, idx).block_index == idx);
    assert(chain_of(d1, first) == Some(idxs));
    assert(chain_well_formed(d1, first));
    let d2 = write_grow_effect(d, sb, end);
    let expands = blocks_for(sb.size as int) < blocks_for(end);
    let g = blocks_for(end) - blocks_for(sb.size as int);
    let new = expansion_blocks(d1, g);
    let idxs2 = if expands {
        idxs + new
    } else {
        idxs
    };
    if expands {
        if end <= sb.size {
            lemma_blocks_for_monotone(end, sb.size as int);
        }
        assert(end > sb.size);
        law_expand(d1, first, g, sb.file_type == 3);
        lemma_free_below(d1, scan_limit(d1), scan_limit(d1));
        lemma_well_formed_path(d2, first);
        assert forall|k: int| 0 <= k < new.len() implies block_readable(d, #[trigger] new[k]) && block_free(d, new[k])
            && new[k] != idx by {
            assert(new[k] == free_blocks(d1)[k]);
            assert(block_free(d1, new[k]));
            assert(idxs2[idxs.len() + k] == new[k]);
            assert(block_readable(d2, idxs2[idxs.len() + k]));
            assert(new[k] != idx);
            assert(kept(d, d1, new[k]));
        }
    }
    assert(chain_of(d2, first) == Some(idxs2));
    assert(chain_well_formed(d2, first));
    assert(d2.len() == d.len());
    assert(!idxs2.contains(idx)) by {
        if idxs2.contains(idx) {
            let k = choose|k: int| 0 <= k < idxs2.len() && idxs2[k] == idx;
            if k < idxs.len() {
                assert(idxs[k] == idx);
            } else {
                assert(new[k - idxs.len()] == idx);
            }
        }
    }
    // From `d1` to `d2` only the chain and the new blocks are written.
    assert forall|j: u32| block_readable(d1, j) && !idxs2.contains(j) implies #[trigger] kept(d1, d2, j) by {
        if expands {
            assert(!idxs.contains(j)) by {
                if idxs.contains(j) {
                    let k = choose|k: int| 0 <= k < idxs.len() && idxs[k] == j;
                    assert(idxs2[k] == j);
                }
            }
            assert(!new.contains(j)) by {
                if new.contains(j) {
                    let k = choose|k: int| 0 <= k < new.len() && new[k] == j;
                    assert(idxs2[idxs.len() + k] == j);
                }
            }
            lemma_same_raw(d1, d2, j);
        }
    }
    // Then the write changes blocks of the chain only.
    let s2 = chain_blocks(d2, idxs2);
    assert(read_chain(d2, first) == Ok::<Seq<crate::blocks::DataBlockModel>, crate::results::FsError>(s2));
    lemma_write_chain_blocks(d2, first, offset, data);
    let d3 = write_effect(d, sb, offset, data);
    assert(d3 == write_data_blocks_effect(d2, written_blocks(s2, offset, data)));
    assert(chain_of(d3, first) == Some(idxs2));
    assert(block_readable(d1, idx));
    assert(kept(d1, d2, idx));
    assert(kept(d2, d3, idx));
    assert(start_block_at(d3, idx) == start_block_at(d1, idx));
    assert forall|j: u32|
        block_readable(d, j) && !block_free(d, j) && j != idx && !idxs.contains(j) implies #[trigger] kept(
        d,
        d3,
        j,
    ) by {
        assert(kept(d, d1, j));
        assert(!block_free(d1, j));
        assert(!idxs2.contains(j)) by {
            if idxs2.contains(j) {
                let k = choose|k: int| 0 <= k < idxs2.len() && idxs2[k] == j;
                if k < idxs.len() {
                    assert(idxs[k] == j);
                } else {
                    assert(new[k - idxs.len()] == j);
                }
            }
        }
        assert(kept(d1, d2, j));
        assert(kept(d2, d3, j));
    }
    assert(idxs2.take(idxs.len() as int) =~= idxs);
    assert forall|k: int| idxs.len() <= k < idxs2.len() implies block_readable(d, #[trigger] idxs2[k]) && block_free(
        d,
        idxs2[k],
    ) by {
        assert(expands);
        assert(idxs2[k] == new[k - idxs.len()]);
    }
}

/// A write keeps every other file. When, besides what `law_write_frame` asks,
/// file `other` has a readable start block stored at its index and a
/// well-formed chain, and none of its blocks is a block of file `sb`, then
/// after writing into `sb` the start block of `other`, its chain and its
/// content are as before.
pub proof fn law_write_keeps_other_files(
    d: Seq<u8>,
    sb: StartBlockModel,
    offset: int,
    data: Seq<u8>,
    other: StartBlockModel,
)
    requires
        d.len() <= usize::MAX,
        sb.name.len() == 208,
        0 <= offset,
        write_ok(d, sb, offset, data),
        sb.block_index != NULL_INDEX,
        block_readable(d, sb.block_index),
        start_block_at(d, sb.block_index) == sb,
        sb.first_data_block_index != NULL_INDEX,
        chain_well_formed(d, sb.first_data_block_index),
        !chain_of(d, sb.first_data_block_index).unwrap().contains(sb.block_index),
        start_block_at(d, other.block_index) == other,
        file_separate(d, other, own_blocks(d, sb)),
    ensures
        ({
            let d3 = write_effect(d, sb, offset, data);
            let of = other.first_data_block_index;
            &&& block_readable(d3, other.block_index)
            &&& start_block_at(d3, other.block_index) == other
            &&& chain_of(d3, of) == chain_of(d, of)
            &&& chain_well_formed(d3, of)
            &&& file_content(d3, of) == file_content(d, of)
        }),
{
    law_write_frame(d, sb, offset, data);
    let d3 = write_effect(d, sb, offset, data);
    let idxs = chain_of(d, sb.first_data_block_index).unwrap();
    let mine = own_blocks(d, sb);
    let theirs = own_blocks(d, other);
    let of = other.first_data_block_index;
    let oc = chain_of(d, of).unwrap();
    assert(mine == idxs.push(sb.block_index));
    assert(theirs == oc.push(other.block_index));
    // A block of `other` is in use and is no block of `sb`.
    assert forall|j: u32| #[trigger] theirs.contains(j) && block_readable(d, j) && data_block_at(d, j).block_index
        == j implies kept(d, d3, j) by {
        assert(!mine.contains(j));
        assert(j != sb.block_index) by {
            assert(mine[idxs.len() as int] == sb.block_index);
        }
        assert(!idxs.contains(j)) by {
            if idxs.contains(j) {
                let k = choose|k: int| 0 <= k < idxs.len() && idxs[k] == j;
                assert(mine[k] == j);
            }
        }
        assert(!block_free(d, j));
    }
    assert(theirs[oc.len() as int] == other.block_index);
    assert(theirs.contains(other.block_index));
    assert(kept(d, d3, other.block_index));
    lemma_well_formed_path(d, of);
    assert forall|k: int| 0 <= k < oc.len() implies #[trigger] kept(d, d3, oc[k]) by {
        assert(theirs[k] == oc[k]);
        assert(theirs.contains(oc[k]));
        assert(block_readable(d, oc[k]));
    }
    lemma_chain_kept(d, d3, of);
}

/// File `sb` is consistent in image `d`: its start block is stored at its
/// index, and its chain is well formed, off that block, and holds the file's
/// bytes.
pub open spec fn file_consistent(d: Seq<u8>, sb: StartBlockModel) -> bool {
    &&& sb.block_index != NULL_INDEX
    &&& block_readable(d, sb.block_index)
    &&& start_block_at(d, sb.block_index) == sb
    &&& sb.first_data_block_index != NULL_INDEX
    &&& chain_well_formed(d, sb.first_data_block_index)
    &&& !chain_of(d, sb.first_data_block_index).unwrap().contains(sb.block_index)
    &&& sb.size <= file_content(d, sb.first_data_block_index).len()
}

/// A write keeps the files consistent and apart. When file `sb` is consistent,
/// writing `data` at byte `offset` leaves it consistent with its grown size;
/// and every file `other` that was consistent and had no block in common with
/// `sb` stays consistent, unchanged, and still has no block in common with it.
pub proof fn law_write_keeps_files_consistent(
    d: Seq<u8>,
    sb: StartBlockModel,
    offset: int,
    data: Seq<u8>,
    other: StartBlockModel,
)
    requires
        d.len() <= usize::MAX,
        sb.name.len() == 208,
        0 <= offset,
        write_ok(d, sb, offset, data),
        file_consistent(d, sb),
    ensures
        ({
            let d3 = write_effect(d, sb, offset, data);
            let sb3 = grown_start_block(sb, offset + data.len());
            &&& file_consistent(d3, sb3)
            &&& file_consistent(d, other) && disjoint(own_blocks(d, other), own_blocks(d, sb)) ==> {
                &&& file_consistent(d3, other)
                &&& file_content(d3, other.first_data_block_index) == file_content(
                    d,
                    other.first_data_block_index,
                )
                &&& disjoint(own_blocks(d3, other), own_blocks(d3, sb3))
            }
        }),
{
    let first = sb.first_data_block_index;
    let idxs = chain_of(d, first).unwrap();
    let d3 = write_effect(d, sb, offset, data);
    let end = offset + data.len();
    let sb3 = grown_start_block(sb, end);
    law_write_frame(d, sb, offset, data);
    crate::laws::law_write_then_read(d, sb, offset, data);
    let idxs3 = chain_of(d3, first).unwrap();
    let c = file_content(d, first);
    let c3 = file_content(d3, first);
    assert(c.len() == idxs.len() * 248);
    assert(c3.len() == idxs3.len() * 248);
    assert(c.len() <= c3.len()) by (nonlinear_arith)
        requires
            c.len() == idxs.len() * 248,
            c3.len() == idxs3.len() * 248,
            idxs.len() <= idxs3.len(),
    ;
    assert(sb3.first_data_block_index == first && sb3.block_index == sb.block_index);
    assert(file_consistent(d3, sb3));
    if file_consistent(d, other) && disjoint(own_blocks(d, other), own_blocks(d, sb)) {
        let of = other.first_data_block_index;
        let oc = chain_of(d, of).unwrap();
        assert(file_separate(d, other, own_blocks(d, sb)));
        law_write_keeps_other_files(d, sb, offset, data, other);
        let theirs = own_blocks(d, other);
        assert(own_blocks(d3, other) == theirs);
        let mine3 = own_blocks(d3, sb3);
        assert(mine3 == idxs3.push(sb.block_index));
        lemma_well_formed_path(d, of);
        assert forall|j: u32| #[trigger] theirs.contains(j) implies !mine3.contains(j) by {
            let t = choose|t: int| 0 <= t < theirs.len() && theirs[t] == j;
            // `j` is in use in `d`: it holds its own index.
            if t < oc.len() {
                assert(oc[t] == j);
                assert(block_readable(d, oc[t]));
            } else {
                assert(j == other.block_index);
            }
            assert(block_readable(d, j) && !block_free(d, j));
            assert(!own_blocks(d, sb).contains(j));
            assert(j != sb.block_index) by {
                assert(own_blocks(d, sb)[idxs.len() as int] == sb.block_index);
            }
            if mine3.contains(j) {
                let k = choose|k: int| 0 <= k < mine3.len() && mine3[k] == j;
                if k < idxs.len() {
                    assert(idxs3.take(idxs.len() as int)[k] == idxs[k]);
                    assert(own_blocks(d, sb)[k] == j);
                } else if k < idxs3.len() {
                    assert(block_free(d, idxs3[k]));
                }
            }
        }
    }
}

} // verus!
