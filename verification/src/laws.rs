//! What holds across the drive actions: how writes change the chains that the
//! drive holds, and what reading gives back after writing.
use vstd::prelude::*;
use crate::blocks::{
    DataBlockModel, StartBlockModel, NULL_INDEX, data_block_bytes, start_block_bytes,
    lemma_data_block_roundtrip,
};
use crate::drive::{block_addressable, block_readable, lemma_with_block};
use crate::drive_actions::block_actions::{data_block_at, write_data_block_effect, write_data_blocks_effect};
use crate::drive_actions::data_block_actions::{
    chain_of, chain_well_formed, is_chain_path, lemma_chain_is_path, lemma_chain_no_duplicates,
    lemma_path_is_chain,
};
use crate::drive_actions::drive_utils::{free_blocks, lemma_free_below, scan_limit, block_free};
use crate::drive_actions::file_utils::{
    expand_effect, expand_ok, expansion_blocks, last_block_of_chain, new_chain_blocks,
};
use crate::drive::block_count;
use crate::blocks::overwrite;
use crate::drive_actions::data_block_actions::{
    blocks_content, chain_blocks, file_content, read_chain, lemma_block_position, block_slice,
};
use crate::drive_actions::directory_actions::with_content;
use crate::drive_actions::write_utils::{
    start_write_effect, write_grow_effect, grown_start_block, written_blocks, written_end, write_effect, write_ok,
    blocks_for,
};

use crate::deletion_laws::kept;

verus! {

/// The blocks of `w` hold different, addressable indexes and 248 data bytes each.
pub open spec fn distinct_writes(w: Seq<DataBlockModel>) -> bool {
    &&& forall|k: int| 0 <= k < w.len() ==> block_addressable(#[trigger] w[k].block_index)
    &&& forall|k: int| 0 <= k < w.len() ==> (#[trigger] w[k]).data.len() == 248
    &&& forall|a: int, b: int|
        0 <= a < w.len() && 0 <= b < w.len() && a != b ==> #[trigger] w[a].block_index
            != #[trigger] w[b].block_index
}

/// `j` is not the index of any block of `w`.
pub open spec fn not_written(w: Seq<DataBlockModel>, j: u32) -> bool {
    forall|k: int| 0 <= k < w.len() ==> #[trigger] w[k].block_index != j
}

/// Writing one data block: it can then be read back at its index, and every
/// other readable block keeps what it held.
pub proof fn lemma_write_block_at(d: Seq<u8>, b: DataBlockModel, j: u32)
    requires
        b.data.len() == 248,
        block_addressable(b.block_index),
    ensures
        block_readable(write_data_block_effect(d, b), b.block_index),
        data_block_at(write_data_block_effect(d, b), b.block_index) == b,
        block_readable(d, j) ==> block_readable(write_data_block_effect(d, b), j),
        block_readable(d, j) && j != b.block_index ==> data_block_at(write_data_block_effect(d, b), j)
            == data_block_at(d, j),
        write_data_block_effect(d, b).len() >= d.len(),
        block_readable(d, b.block_index) ==> write_data_block_effect(d, b).len() == d.len(),
{
    lemma_data_block_roundtrip(b);
    lemma_with_block(d, b.block_index, data_block_bytes(b), j);
}

/// Writing blocks at different indexes: each can then be read back at its
/// index, and every other readable block keeps what it held.
pub proof fn lemma_write_blocks(d: Seq<u8>, w: Seq<DataBlockModel>, j: u32)
    requires
        distinct_writes(w),
    ensures
        forall|k: int|
            0 <= k < w.len() ==> block_readable(write_data_blocks_effect(d, w), #[trigger] w[k].block_index)
                && data_block_at(write_data_blocks_effect(d, w), w[k].block_index) == w[k],
        block_readable(d, j) ==> block_readable(write_data_blocks_effect(d, w), j),
        block_readable(d, j) && not_written(w, j) ==> data_block_at(write_data_blocks_effect(d, w), j)
            == data_block_at(d, j),
        write_data_blocks_effect(d, w).len() >= d.len(),
        (forall|k: int| 0 <= k < w.len() ==> block_readable(d, #[trigger] w[k].block_index))
            ==> write_data_blocks_effect(d, w).len() == d.len(),
    decreases w.len(),
{
    if w.len() > 0 {
        let p = w.drop_last();
        let e = write_data_blocks_effect(d, p);
        let b = w.last();
        assert(distinct_writes(p)) by {
            assert forall|a: int, c: int| 0 <= a < p.len() && 0 <= c < p.len() && a != c implies #[trigger] p[a].block_index
                != #[trigger] p[c].block_index by {
                assert(p[a] == w[a] && p[c] == w[c]);
            }
        }
        assert(b == w[w.len() - 1]);
        lemma_write_blocks(d, p, j);
        lemma_write_block_at(e, b, j);
        if forall|k: int| 0 <= k < w.len() ==> block_readable(d, #[trigger] w[k].block_index) {
            assert forall|k: int| 0 <= k < p.len() implies block_readable(d, #[trigger] p[k].block_index) by {
                assert(p[k] == w[k]);
            }
            lemma_write_blocks(d, p, b.block_index);
            lemma_write_block_at(e, b, b.block_index);
        }
        assert forall|k: int| 0 <= k < w.len() implies block_readable(write_data_blocks_effect(d, w), #[trigger] w[k].block_index)
            && data_block_at(write_data_blocks_effect(d, w), w[k].block_index) == w[k] by {
            if k < w.len() - 1 {
                assert(p[k] == w[k]);
                lemma_write_blocks(d, p, w[k].block_index);
                assert(w[k].block_index != b.block_index);
                lemma_write_block_at(e, b, w[k].block_index);
            }
        }
        if block_readable(d, j) && not_written(w, j) {
            assert(not_written(p, j)) by {
                assert forall|k: int| 0 <= k < p.len() implies #[trigger] p[k].block_index != j by {
                    assert(p[k] == w[k]);
                }
            }
            assert(b.block_index != j);
        }
    }
}

/// The chain from `first` is well formed, and its path has no block twice.
pub proof fn lemma_well_formed_path(d: Seq<u8>, first: u32)
    requires
        chain_of(d, first) is Some,
    ensures
        is_chain_path(d, chain_of(d, first).unwrap()),
        chain_of(d, first).unwrap().no_duplicates(),
        chain_of(d, first).unwrap()[0] == first,
{
    lemma_chain_is_path(d, first, block_count(d));
    lemma_chain_no_duplicates(d, first, block_count(d));
}

/// Growing a well-formed chain by `n` blocks appends the first `n` free
/// blocks of the drive to it: the old blocks keep their data, the new ones
/// are fresh, and the chain stays well formed.
pub proof fn law_expand(d: Seq<u8>, first: u32, n: int, is_directory: bool)
    requires
        d.len() <= usize::MAX,
        first != NULL_INDEX,
        chain_well_formed(d, first),
        expand_ok(d, first, n),
    ensures
        ({
            let d2 = expand_effect(d, first, n, is_directory);
            let old_chain = chain_of(d, first).unwrap();
            let new = expansion_blocks(d, n);
            &&& chain_of(d2, first) == Some(old_chain + new)
            &&& chain_well_formed(d2, first)
            &&& forall|k: int|
                0 <= k < old_chain.len() ==> (#[trigger] data_block_at(d2, old_chain[k])).data
                    == data_block_at(d, old_chain[k]).data
            &&& forall|k: int|
                0 <= k < new.len() ==> #[trigger] data_block_at(d2, new[k]) == new_chain_blocks(
                    new,
                    is_directory,
                )[k]
            &&& forall|j: u32|
                block_readable(d, j) && !old_chain.contains(j) && !new.contains(j) ==> block_readable(d2, j)
                    && #[trigger] data_block_at(d2, j) == data_block_at(d, j)
            &&& d2.len() == d.len()
        }),
{
    let idxs = chain_of(d, first).unwrap();
    lemma_well_formed_path(d, first);
    let new = expansion_blocks(d, n);
    let lim = scan_limit(d);
    lemma_free_below(d, lim, lim);
    let last = idxs.last();
    assert(idxs[idxs.len() - 1] == last);
    let lastb = last_block_of_chain(d, first);
    assert(lastb.block_index == last);
    let updated = DataBlockModel { next_block_index: new[0], ..lastb };
    let d1 = write_data_block_effect(d, updated);
    let fresh = new_chain_blocks(new, is_directory);
    let d2 = write_data_blocks_effect(d1, fresh);
    assert(d2 == expand_effect(d, first, n, is_directory));
    // The new blocks are free, so none of them is a block of the chain.
    assert forall|k: int, j: int| 0 <= k < new.len() && 0 <= j < idxs.len() implies #[trigger] new[k]
        != #[trigger] idxs[j] by {
        assert(free_blocks(d)[k] == new[k]);
        assert(block_free(d, new[k]));
        assert(data_block_at(d, idxs[j]).block_index == idxs[j]);
    }
    assert forall|k: int| 0 <= k < new.len() implies block_readable(d, #[trigger] new[k]) && block_addressable(new[k]) by {
        assert(free_blocks(d)[k] == new[k]);
        assert(new[k] < lim);
    }
    assert(distinct_writes(fresh)) by {
        assert forall|a: int, b: int| 0 <= a < fresh.len() && 0 <= b < fresh.len() && a != b implies #[trigger] fresh[a].block_index
            != #[trigger] fresh[b].block_index by {
            assert(free_blocks(d)[a] == new[a] && free_blocks(d)[b] == new[b]);
        }
        assert forall|k: int| 0 <= k < fresh.len() implies block_addressable(#[trigger] fresh[k].block_index) by {
            assert(fresh[k].block_index == new[k]);
        }
    }
    assert(block_readable(d, last));
    assert(data_block_at(d, last).data.len() == 248);
    // State after linking the last block.
    assert forall|j: u32| block_readable(d, j) implies block_readable(d1, j) && (j != last ==> data_block_at(d1, j) == data_block_at(d, j)) by {
        lemma_write_block_at(d, updated, j);
    }
    lemma_write_block_at(d, updated, last);
    // State after writing the new blocks.
    assert forall|j: u32| block_readable(d1, j) && not_written(fresh, j) implies block_readable(d2, j) && data_block_at(d2, j) == data_block_at(d1, j) by {
        lemma_write_blocks(d1, fresh, j);
    }
    assert forall|j: u32| block_readable(d, j) && !idxs.contains(j) && !new.contains(j) implies block_readable(d2, j)
        && #[trigger] data_block_at(d2, j) == data_block_at(d, j) by {
        assert(j != last);
        assert(not_written(fresh, j)) by {
            assert forall|k: int| 0 <= k < fresh.len() implies #[trigger] fresh[k].block_index != j by {
                assert(fresh[k].block_index == new[k]);
            }
        }
    }
    lemma_write_blocks(d1, fresh, last);
    let path = idxs + new;
    assert forall|j: int| 0 <= j < idxs.len() implies not_written(fresh, #[trigger] idxs[j]) by {
        assert forall|k: int| 0 <= k < fresh.len() implies #[trigger] fresh[k].block_index != idxs[j] by {
            assert(fresh[k].block_index == new[k]);
        }
    }
    assert forall|k: int| 0 <= k < path.len() implies block_readable(d2, #[trigger] path[k])
        && data_block_at(d2, path[k]).block_index == path[k] by {
        if k < idxs.len() {
            assert(path[k] == idxs[k]);
            assert(block_readable(d, idxs[k]));
            assert(data_block_at(d, idxs[k]).block_index == idxs[k]);
        } else {
            assert(path[k] == new[k - idxs.len()]);
            assert(fresh[k - idxs.len()].block_index == new[k - idxs.len()]);
        }
    }
    assert forall|k: int| 0 <= k < path.len() - 1 implies #[trigger] data_block_at(d2, path[k]).next_block_index
        == path[k + 1] by {
        if k < idxs.len() - 1 {
            assert(path[k] == idxs[k] && path[k + 1] == idxs[k + 1]);
            assert(data_block_at(d, idxs[k]).next_block_index == idxs[k + 1]);
        } else if k == idxs.len() - 1 {
            assert(path[k] == last && path[k + 1] == new[0]);
        } else {
            assert(path[k] == new[k - idxs.len()]);
            assert(fresh[k - idxs.len()].block_index == new[k - idxs.len()]);
        }
    }
    assert(path.last() == new.last());
    assert(fresh[new.len() - 1].block_index == new[new.len() - 1]);
    assert(is_chain_path(d2, path));
    assert(path.no_duplicates()) by {
        assert forall|a: int, b: int| 0 <= a < path.len() && 0 <= b < path.len() && a != b implies path[a] != path[b] by {
            if a < idxs.len() && b < idxs.len() {
            } else if a >= idxs.len() && b >= idxs.len() {
                assert(free_blocks(d)[a - idxs.len()] == new[a - idxs.len()]);
                assert(free_blocks(d)[b - idxs.len()] == new[b - idxs.len()]);
            } else if a < idxs.len() {
                assert(path[b] == new[b - idxs.len()]);
                assert(path[a] == idxs[a]);
            } else {
                assert(path[a] == new[a - idxs.len()]);
                assert(path[b] == idxs[b]);
            }
        }
    }
    assert(path[0] == first);
    lemma_path_is_chain(d2, path);
    assert forall|k: int| 0 <= k < idxs.len() implies (#[trigger] data_block_at(d2, idxs[k])).data == data_block_at(d, idxs[k]).data by {
        assert(block_readable(d, idxs[k]));
    }
    assert forall|k: int| 0 <= k < new.len() implies #[trigger] data_block_at(d2, new[k]) == fresh[k] by {
        assert(fresh[k].block_index == new[k]);
    }
    assert forall|k: int| 0 <= k < fresh.len() implies block_readable(d1, #[trigger] fresh[k].block_index) by {
        assert(fresh[k].block_index == new[k]);
        assert(block_readable(d, new[k]));
    }
    lemma_write_blocks(d1, fresh, last);
}

/// A byte of the content of a sequence of blocks is the byte of its block.
pub proof fn lemma_content_at(s: Seq<DataBlockModel>, k: int)
    requires
        0 <= k < s.len() * 248,
    ensures
        0 <= k / 248 < s.len(),
        k % 248 == k - (k / 248) * 248,
        blocks_content(s)[k] == s[k / 248].data[k % 248],
{
    vstd::arithmetic::div_mod::lemma_fundamental_div_mod(k, 248);
    assert(0 <= k / 248 < s.len()) by (nonlinear_arith)
        requires
            0 <= k < s.len() * 248,
    ;
}

/// Writing a start block that is not a block of a well-formed chain keeps
/// the chain and the data of its blocks.
pub proof fn lemma_start_write_keeps_chain(d: Seq<u8>, sb: StartBlockModel, first: u32)
    requires
        sb.name.len() == 208,
        chain_well_formed(d, first),
        !chain_of(d, first).unwrap().contains(sb.block_index),
        sb.block_index == NULL_INDEX || block_addressable(sb.block_index),
    ensures
        chain_of(start_write_effect(d, sb), first) == chain_of(d, first),
        chain_well_formed(start_write_effect(d, sb), first),
        forall|k: int|
            0 <= k < chain_of(d, first).unwrap().len() ==> #[trigger] data_block_at(
                start_write_effect(d, sb),
                chain_of(d, first).unwrap()[k],
            ) == data_block_at(d, chain_of(d, first).unwrap()[k]),
        start_write_effect(d, sb).len() >= d.len(),
{
    let idxs = chain_of(d, first).unwrap();
    lemma_well_formed_path(d, first);
    let d1 = start_write_effect(d, sb);
    if sb.block_index != NULL_INDEX {
        assert forall|k: int| 0 <= k < idxs.len() implies block_readable(d1, #[trigger] idxs[k])
            && data_block_at(d1, idxs[k]) == data_block_at(d, idxs[k]) by {
            assert(block_readable(d, idxs[k]));
            assert(idxs[k] != sb.block_index);
            crate::blocks::lemma_start_block_roundtrip(sb);
            lemma_with_block(d, sb.block_index, start_block_bytes(sb), idxs[k]);
        }
        crate::blocks::lemma_start_block_roundtrip(sb);
        lemma_with_block(d, sb.block_index, start_block_bytes(sb), sb.block_index);
        assert forall|k: int| 0 <= k < idxs.len() - 1 implies #[trigger] data_block_at(d1, idxs[k]).next_block_index
            == idxs[k + 1] by {
            assert(data_block_at(d1, idxs[k]) == data_block_at(d, idxs[k]));
        }
        assert(data_block_at(d1, idxs.last()) == data_block_at(d, idxs[idxs.len() - 1]));
        assert(is_chain_path(d1, idxs));
        lemma_path_is_chain(d1, idxs);
    }
}

/// The blocks that a write of bytes `offset..end` changes start at the block
/// of `offset`, end where the bytes do, and are at least one.
pub proof fn lemma_written_end(offset: int, end: int)
    requires
        0 <= offset <= end,
    ensures
        offset / 248 < written_end(offset, end),
        end <= written_end(offset, end) * 248,
        written_end(offset, end) <= end / 248 + 1,
        end > offset ==> written_end(offset, end) == blocks_for(end),
        offset % 248 + (end - offset) <= (written_end(offset, end) - offset / 248) * 248,
{
    vstd::arithmetic::div_mod::lemma_fundamental_div_mod(offset, 248);
    vstd::arithmetic::div_mod::lemma_fundamental_div_mod(end, 248);
    vstd::arithmetic::div_mod::lemma_fundamental_div_mod(end + 247, 248);
    assert(offset % 248 + (end - offset) <= (written_end(offset, end) - offset / 248) * 248) by (nonlinear_arith)
        requires
            offset == 248 * (offset / 248) + offset % 248,
            end <= written_end(offset, end) * 248,
    ;
}

/// The blocks that a write of `data` at byte `offset` changes in blocks `s`
/// replace blocks `offset / 248` up to `written_end`; putting them in
/// their places gives blocks whose content is that of `s` with `data` at
/// `offset`.
pub proof fn lemma_written_content(s: Seq<DataBlockModel>, offset: int, data: Seq<u8>, s3: Seq<DataBlockModel>)
    requires
        0 <= offset,
        written_end(offset, offset + data.len()) <= s.len(),
        forall|j: int| 0 <= j < s.len() ==> (#[trigger] s[j]).data.len() == 248,
        s3.len() == s.len(),
        forall|j: int|
            0 <= j < s.len() ==> #[trigger] s3[j] == if offset / 248 <= j < written_end(
                offset,
                offset + data.len(),
            ) {
                written_blocks(s, offset, data)[j - offset / 248]
            } else {
                s[j]
            },
    ensures
        blocks_content(s3) == overwrite(blocks_content(s), offset, data),
{
    let end = offset + data.len();
    let lo = offset / 248;
    let hi = written_end(offset, end);
    lemma_written_end(offset, end);
    let m = s.subrange(lo, hi);
    let c = overwrite(blocks_content(m), offset % 248, data);
    let w = written_blocks(s, offset, data);
    assert(w == with_content(m, c));
    vstd::arithmetic::div_mod::lemma_fundamental_div_mod(offset, 248);
    vstd::arithmetic::div_mod::lemma_fundamental_div_mod(end, 248);
    let c3 = blocks_content(s3);
    let target = overwrite(blocks_content(s), offset, data);
    assert forall|k: int| 0 <= k < c3.len() implies c3[k] == target[k] by {
        lemma_content_at(s3, k);
        lemma_content_at(s, k);
        let j = k / 248;
        let t = k % 248;
        if lo <= j < hi {
            let kk = (j - lo) * 248 + t;
            assert(0 <= kk < (hi - lo) * 248) by (nonlinear_arith)
                requires
                    lo <= j < hi,
                    0 <= t < 248,
                    kk == (j - lo) * 248 + t,
            ;
            assert(w[j - lo].data == block_slice(c, j - lo));
            assert(block_slice(c, j - lo)[t] == c[kk]);
            lemma_content_at(m, kk);
            lemma_block_position(kk, j - lo);
            assert(m[j - lo] == s[j]);
            assert(kk - offset % 248 == k - offset);
        }
    }
    assert(c3 =~= target);
}

/// Writing back the blocks of a well-formed chain that a write of `data` at
/// byte `offset` changes keeps the chain and puts `data` into its content.
pub proof fn lemma_write_chain_blocks(d: Seq<u8>, first: u32, offset: int, data: Seq<u8>)
    requires
        d.len() <= usize::MAX,
        chain_well_formed(d, first),
        0 <= offset,
        written_end(offset, offset + data.len()) <= chain_of(d, first).unwrap().len(),
    ensures
        ({
            let s = chain_blocks(d, chain_of(d, first).unwrap());
            let d3 = write_data_blocks_effect(d, written_blocks(s, offset, data));
            &&& chain_of(d3, first) == chain_of(d, first)
            &&& chain_well_formed(d3, first)
            &&& file_content(d3, first) == overwrite(file_content(d, first), offset, data)
            &&& d3.len() >= d.len()
            &&& forall|j: u32|
                block_readable(d, j) && !chain_of(d, first).unwrap().contains(j) ==> #[trigger] kept(d, d3, j)
        }),
{
    let idxs = chain_of(d, first).unwrap();
    lemma_well_formed_path(d, first);
    let s = chain_blocks(d, idxs);
    let end = offset + data.len();
    let lo = offset / 248;
    let hi = written_end(offset, end);
    lemma_written_end(offset, end);
    let m = s.subrange(lo, hi);
    let c = overwrite(blocks_content(m), offset % 248, data);
    let w = written_blocks(s, offset, data);
    assert(w == with_content(m, c));
    let d3 = write_data_blocks_effect(d, w);
    vstd::arithmetic::div_mod::lemma_fundamental_div_mod(offset, 248);
    vstd::arithmetic::div_mod::lemma_fundamental_div_mod(end, 248);
    assert(0 <= lo <= hi);
    assert forall|j: int| 0 <= j < s.len() implies (#[trigger] s[j]).data.len() == 248 by {
        assert(block_readable(d, idxs[j]));
    }
    assert(c.len() == (hi - lo) * 248);
    assert forall|k: int| 0 <= k < w.len() implies (#[trigger] w[k]).block_index == idxs[lo + k]
        && w[k].next_block_index == data_block_at(d, idxs[lo + k]).next_block_index
        && w[k].data.len() == 248 by {
        assert(s[lo + k] == data_block_at(d, idxs[lo + k]));
        assert(data_block_at(d, idxs[lo + k]).block_index == idxs[lo + k]);
        assert((hi - lo) * 248 >= (k + 1) * 248) by (nonlinear_arith)
            requires
                k + 1 <= hi - lo,
        ;
    }
    assert(distinct_writes(w)) by {
        assert forall|k: int| 0 <= k < w.len() implies block_addressable(#[trigger] w[k].block_index) by {
            assert(w[k].block_index == idxs[lo + k]);
            assert(block_readable(d, idxs[lo + k]));
        }
        assert forall|a: int, b: int| 0 <= a < w.len() && 0 <= b < w.len() && a != b implies #[trigger] w[a].block_index
            != #[trigger] w[b].block_index by {
            assert(w[a].block_index == idxs[lo + a]);
            assert(w[b].block_index == idxs[lo + b]);
        }
    }
    // Each block of the chain is the written one or the old one.
    assert forall|j: int| 0 <= j < idxs.len() implies block_readable(d3, #[trigger] idxs[j])
        && data_block_at(d3, idxs[j]) == if lo <= j < hi {
        w[j - lo]
    } else {
        s[j]
    } by {
        assert(block_readable(d, idxs[j]));
        lemma_write_blocks(d, w, idxs[j]);
        if lo <= j < hi {
            assert(w[j - lo].block_index == idxs[j]);
        } else {
            assert forall|k: int| 0 <= k < w.len() implies #[trigger] w[k].block_index != idxs[j] by {
                assert(w[k].block_index == idxs[lo + k]);
            }
        }
    }
    assert forall|j: int| 0 <= j < idxs.len() - 1 implies #[trigger] data_block_at(d3, idxs[j]).next_block_index
        == idxs[j + 1] by {
        if lo <= j < hi {
            assert(w[j - lo].next_block_index == data_block_at(d, idxs[j]).next_block_index);
        }
    }
    assert(data_block_at(d3, idxs.last()).next_block_index == NULL_INDEX) by {
        let j = idxs.len() - 1;
        assert(idxs.last() == idxs[j]);
        if lo <= j < hi {
            assert(w[j - lo].next_block_index == data_block_at(d, idxs[j]).next_block_index);
        }
    }
    assert(is_chain_path(d3, idxs));
    lemma_path_is_chain(d3, idxs);
    assert(chain_well_formed(d3, first)) by {
        assert forall|j: int| 0 <= j < idxs.len() implies #[trigger] data_block_at(d3, idxs[j]).block_index == idxs[j] by {
            assert(data_block_at(d, idxs[j]).block_index == idxs[j]);
        }
    }
    let s3 = chain_blocks(d3, idxs);
    assert forall|j: int| 0 <= j < s.len() implies #[trigger] s3[j] == if lo <= j < hi {
        w[j - lo]
    } else {
        s[j]
    } by {
        assert(s3[j] == data_block_at(d3, idxs[j]));
    }
    lemma_written_content(s, offset, data, s3);
    lemma_write_blocks(d, w, first);
    assert forall|j: u32| block_readable(d, j) && !idxs.contains(j) implies #[trigger] kept(d, d3, j) by {
        assert(not_written(w, j)) by {
            assert forall|k: int| 0 <= k < w.len() implies #[trigger] w[k].block_index != j by {
                assert(w[k].block_index == idxs[lo + k]);
            }
        }
        lemma_write_blocks(d, w, j);
        crate::deletion_laws::lemma_same_raw(d, d3, j);
    }
}

/// Blocks `prefix` of `s2` hold the data of the blocks of `s`: the content of
/// `s2` starts with the content of `s`.
pub proof fn lemma_content_prefix(s: Seq<DataBlockModel>, s2: Seq<DataBlockModel>)
    requires
        s.len() <= s2.len(),
        forall|j: int| 0 <= j < s.len() ==> (#[trigger] s2[j]).data == s[j].data,
    ensures
        forall|k: int|
            0 <= k < blocks_content(s).len() ==> #[trigger] blocks_content(s2)[k] == blocks_content(
                s,
            )[k],
        blocks_content(s).len() <= blocks_content(s2).len(),
{
    assert forall|k: int| 0 <= k < blocks_content(s).len() implies #[trigger] blocks_content(s2)[k]
        == blocks_content(s)[k] by {
        lemma_content_at(s, k);
        assert(k < s2.len() * 248) by (nonlinear_arith)
            requires
                k < s.len() * 248,
                s.len() <= s2.len(),
        ;
        lemma_content_at(s2, k);
    }
    assert(s.len() * 248 <= s2.len() * 248) by (nonlinear_arith)
        requires
            s.len() <= s2.len(),
    ;
}

/// Writing into a file and reading it back. When the file's chain is well
/// formed and its start block is not one of its own data blocks, after
/// writing `data` at byte `offset` the chain is still well formed, the
/// content holds `data` from `offset` on, and every other byte of the old
/// content is unchanged; so reading the file from the start gives `data` at
/// `offset`.
pub proof fn law_write_then_read(d: Seq<u8>, sb: StartBlockModel, offset: int, data: Seq<u8>)
    requires
        d.len() <= usize::MAX,
        sb.name.len() == 208,
        0 <= offset,
        write_ok(d, sb, offset, data),
        sb.first_data_block_index != NULL_INDEX,
        chain_well_formed(d, sb.first_data_block_index),
        !chain_of(d, sb.first_data_block_index).unwrap().contains(sb.block_index),
    ensures
        ({
            let first = sb.first_data_block_index;
            let d3 = write_effect(d, sb, offset, data);
            let c = file_content(d, first);
            let c3 = file_content(d3, first);
            &&& chain_well_formed(d3, first)
            &&& offset + data.len() <= c3.len()
            &&& c3.subrange(offset, offset + data.len()) == data
            &&& forall|k: int|
                0 <= k < c.len() && !(offset <= k < offset + data.len()) ==> #[trigger] c3[k] == c[k]
        }),
{
    let first = sb.first_data_block_index;
    let end = offset + data.len();
    let idxs = chain_of(d, first).unwrap();
    let grown = grown_start_block(sb, end);
    let d1 = if end > sb.size {
        start_write_effect(d, grown)
    } else {
        d
    };
    if end > sb.size {
        lemma_start_write_keeps_chain(d, grown, first);
        if grown.block_index != NULL_INDEX {
            crate::blocks::lemma_start_block_roundtrip(grown);
            lemma_with_block(d, grown.block_index, start_block_bytes(grown), grown.block_index);
        }
    }
    assert(chain_of(d1, first) == Some(idxs));
    assert(chain_well_formed(d1, first));
    assert(d1.len() <= usize::MAX);
    assert forall|j: int| 0 <= j < idxs.len() implies #[trigger] data_block_at(d1, idxs[j]) == data_block_at(d, idxs[j]) by {
        if end > sb.size {
            lemma_start_write_keeps_chain(d, grown, first);
        }
    }
    let d2 = write_grow_effect(d, sb, end);
    let expands = blocks_for(sb.size as int) < blocks_for(end);
    if expands {
        law_expand(d1, first, blocks_for(end) - blocks_for(sb.size as int), sb.file_type == 3);
    }
    let idxs2 = chain_of(d2, first).unwrap();
    assert(chain_well_formed(d2, first));
    assert(d2.len() <= usize::MAX);
    assert(idxs2.len() >= idxs.len());
    assert forall|j: int| 0 <= j < idxs.len() implies #[trigger] idxs2[j] == idxs[j] && data_block_at(d2, idxs2[j]).data == data_block_at(d, idxs[j]).data by {
        if expands {
            assert(idxs2 == idxs + expansion_blocks(d1, blocks_for(end) - blocks_for(sb.size as int)));
        }
    }
    let s = chain_blocks(d, idxs);
    let s2 = chain_blocks(d2, idxs2);
    assert forall|j: int| 0 <= j < s.len() implies (#[trigger] s2[j]).data == s[j].data by {
        assert(s2[j] == data_block_at(d2, idxs2[j]));
        assert(idxs2[j] == idxs[j]);
    }
    lemma_content_prefix(s, s2);
    assert(read_chain(d2, first) == Ok::<Seq<DataBlockModel>, crate::results::FsError>(s2));
    lemma_write_chain_blocks(d2, first, offset, data);
    let d3 = write_effect(d, sb, offset, data);
    assert(d3 == write_data_blocks_effect(d2, written_blocks(s2, offset, data)));
    let c2 = file_content(d2, first);
    let c3 = file_content(d3, first);
    assert(c3 == overwrite(c2, offset, data));
    lemma_written_end(offset, end);
    assert(c2.len() == idxs2.len() * 248);
    assert(end <= idxs2.len() * 248) by (nonlinear_arith)
        requires
            written_end(offset, end) <= idxs2.len(),
            end <= written_end(offset, end) * 248,
    ;
    assert(c3.subrange(offset, end) =~= data);
}

} // verus!
