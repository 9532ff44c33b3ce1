//! What holds of directory entries and deleted files: a deleted file's
//! blocks read as zero bytes, an entry added to a directory is listed, a
//! removed one is not, and a new directory lists nothing.
use vstd::prelude::*;
use crate::blocks::{DataBlockModel, StartBlockModel, NULL_INDEX, lemma_data_block_len, overwrite, plain_block};
use crate::drive::{block_readable, raw_at, with_block, zero_block, lemma_with_block};
use crate::ne_bytes::{u32_ne_bytes, lemma_u32_all_ones, lemma_u32_ne};
use crate::drive_actions::block_actions::{data_block_at, start_block_at, write_data_blocks_effect};
use crate::drive_actions::data_block_actions::{
    blocks_content, chain_blocks, chain_from, chain_of, chain_well_formed, entries_of, file_content,
    is_chain_path, lemma_block_position, lemma_content_from_slices, lemma_path_is_chain, listed_entries,
    read_chain, read_start_chain,
};
use crate::drive_actions::deletion_utils::{
    deallocate_all_ok, delete_file_effect, delete_file_ok, indexes_writable, stored_indexes, until_null,
    zero_blocks_effect,
};
use crate::drive_actions::directory_actions::{
    append_ok, append_result, first_occurrence, first_position, lemma_first_occurrence_unique,
    lemma_listed_contains, listed_in_chain, listed_of, modify_effect, remove_effect, set_slot_blocks,
    slots_in_chain, start_slots, with_content,
};
use crate::drive_actions::drive_utils::{free_blocks, lemma_free_below, scan_limit};
use crate::drive_actions::file_utils::{expand_effect, expansion_blocks, new_chain_blocks};
use crate::drive_actions::write_utils::{new_empty_effect, placed_start_block};
use crate::laws::{distinct_writes, law_expand, lemma_well_formed_path, lemma_write_blocks};
use crate::results::ResultEmpty;

verus! {

broadcast use lemma_data_block_len;

/// Deleting blocks `idxs` in turn leaves each of them (but the null index)
/// readable and all zero bytes.
pub proof fn lemma_zero_blocks_zeroed(d: Seq<u8>, idxs: Seq<u32>)
    requires
        indexes_writable(idxs),
    ensures
        forall|k: int|
            0 <= k < idxs.len() && idxs[k] != NULL_INDEX ==> block_readable(
                zero_blocks_effect(d, idxs),
                #[trigger] idxs[k],
            ) && raw_at(zero_blocks_effect(d, idxs), idxs[k] as int) == zero_block(),
    decreases idxs.len(),
{
    if idxs.len() > 0 {
        let p = idxs.drop_last();
        assert(indexes_writable(p)) by {
            assert forall|k: int| 0 <= k < p.len() implies #[trigger] p[k] == NULL_INDEX || crate::drive::block_addressable(p[k]) by {
                assert(p[k] == idxs[k]);
            }
        }
        lemma_zero_blocks_zeroed(d, p);
        let z = zero_blocks_effect(d, p);
        let last = idxs.last();
        assert(last == idxs[idxs.len() - 1]);
        assert forall|k: int| 0 <= k < idxs.len() && idxs[k] != NULL_INDEX implies block_readable(
            zero_blocks_effect(d, idxs),
            #[trigger] idxs[k],
        ) && raw_at(zero_blocks_effect(d, idxs), idxs[k] as int) == zero_block() by {
            if last != NULL_INDEX {
                lemma_with_block(z, last, zero_block(), idxs[k]);
                if k < idxs.len() - 1 {
                    assert(p[k] == idxs[k]);
                }
            } else {
                assert(k < idxs.len() - 1);
                assert(p[k] == idxs[k]);
            }
        }
    }
}

/// The blocks of file `sb` in image `d`: the indexes that the blocks of its
/// chain hold, then its start block's index.
pub open spec fn file_blocks(d: Seq<u8>, sb: StartBlockModel) -> Seq<u32> {
    stored_indexes(read_chain(d, sb.first_data_block_index)->Ok_0).push(sb.block_index)
}

/// When a file is deleted all of its blocks are written to zero: after the
/// entry is removed from the parent, every block of the file's chain (at the
/// index the block holds) and the file's start block read as 256 zero bytes.
pub proof fn law_delete_zeroes_blocks(d: Seq<u8>, sb: StartBlockModel, parent: StartBlockModel)
    requires
        delete_file_ok(d, sb, parent),
    ensures
        ({
            let d1 = remove_effect(d, sb.block_index, parent.first_data_block_index);
            let d2 = delete_file_effect(d, sb, parent);
            let b = file_blocks(d1, sb);
            read_chain(d1, sb.first_data_block_index) is Ok ==> forall|k: int|
                0 <= k < b.len() && b[k] != NULL_INDEX ==> block_readable(d2, #[trigger] b[k]) && raw_at(
                    d2,
                    b[k] as int,
                ) == zero_block()
        }),
{
    let d1 = remove_effect(d, sb.block_index, parent.first_data_block_index);
    assert(deallocate_all_ok(d1, sb));
    if read_chain(d1, sb.first_data_block_index) is Ok {
        lemma_zero_blocks_zeroed(d1, file_blocks(d1, sb));
    }
}

/// A sequence of indexes none of which is null is kept whole by `until_null`.
pub proof fn lemma_until_null_all(idxs: Seq<u32>)
    requires
        forall|k: int| 0 <= k < idxs.len() ==> #[trigger] idxs[k] != NULL_INDEX,
    ensures
        until_null(idxs) == idxs,
    decreases idxs.len(),
{
    if idxs.len() > 0 {
        let p = idxs.drop_last();
        assert forall|k: int| 0 <= k < p.len() implies #[trigger] p[k] != NULL_INDEX by {
            assert(p[k] == idxs[k]);
        }
        lemma_until_null_all(p);
        assert(idxs.last() == idxs[idxs.len() - 1]);
    }
}

/// Writing back all the blocks of a well-formed chain with new content `c`
/// keeps the chain, and its content becomes `c`.
pub proof fn lemma_rewrite_chain(d: Seq<u8>, first: u32, c: Seq<u8>)
    requires
        d.len() <= usize::MAX,
        chain_well_formed(d, first),
        c.len() == chain_of(d, first).unwrap().len() * 248,
    ensures
        ({
            let s = chain_blocks(d, chain_of(d, first).unwrap());
            let d3 = write_data_blocks_effect(d, with_content(s, c));
            &&& chain_of(d3, first) == chain_of(d, first)
            &&& chain_well_formed(d3, first)
            &&& file_content(d3, first) == c
        }),
{
    let idxs = chain_of(d, first).unwrap();
    lemma_well_formed_path(d, first);
    let s = chain_blocks(d, idxs);
    let w = with_content(s, c);
    let d3 = write_data_blocks_effect(d, w);
    assert forall|k: int| 0 <= k < w.len() implies (#[trigger] w[k]).block_index == idxs[k]
        && w[k].next_block_index == data_block_at(d, idxs[k]).next_block_index && w[k].data.len() == 248 by {
        assert(s[k] == data_block_at(d, idxs[k]));
        assert(data_block_at(d, idxs[k]).block_index == idxs[k]);
        assert(k * 248 + 248 <= idxs.len() * 248) by (nonlinear_arith)
            requires
                0 <= k < idxs.len(),
        ;
    }
    assert(distinct_writes(w)) by {
        assert forall|k: int| 0 <= k < w.len() implies crate::drive::block_addressable(#[trigger] w[k].block_index) by {
            assert(w[k].block_index == idxs[k]);
            assert(block_readable(d, idxs[k]));
        }
        assert forall|a: int, b: int| 0 <= a < w.len() && 0 <= b < w.len() && a != b implies #[trigger] w[a].block_index
            != #[trigger] w[b].block_index by {
            assert(w[a].block_index == idxs[a]);
            assert(w[b].block_index == idxs[b]);
        }
    }
    assert forall|j: int| 0 <= j < idxs.len() implies block_readable(d3, #[trigger] idxs[j])
        && data_block_at(d3, idxs[j]) == w[j] by {
        lemma_write_blocks(d, w, idxs[j]);
    }
    assert forall|j: int| 0 <= j < idxs.len() - 1 implies #[trigger] data_block_at(d3, idxs[j]).next_block_index
        == idxs[j + 1] by {
        assert(data_block_at(d3, idxs[j]) == w[j]);
    }
    assert(data_block_at(d3, idxs.last()).next_block_index == NULL_INDEX) by {
        assert(idxs.last() == idxs[idxs.len() - 1]);
        assert(data_block_at(d3, idxs[idxs.len() - 1]) == w[idxs.len() - 1]);
    }
    assert(is_chain_path(d3, idxs));
    lemma_path_is_chain(d3, idxs);
    assert(chain_well_formed(d3, first)) by {
        assert forall|j: int| 0 <= j < idxs.len() implies #[trigger] data_block_at(d3, idxs[j]).block_index == idxs[j] by {
            assert(data_block_at(d3, idxs[j]) == w[j]);
        }
    }
    let s3 = chain_blocks(d3, idxs);
    assert forall|j: int| 0 <= j < s3.len() implies #[trigger] s3[j].data == crate::drive_actions::data_block_actions::block_slice(c, j) by {
        assert(s3[j] == data_block_at(d3, idxs[j]));
    }
    lemma_content_from_slices(s3, c);
}

/// Setting a slot of a well-formed directory chain: the chain stays well
/// formed, and the slot then holds the value.
pub proof fn lemma_modify_sets_slot(d: Seq<u8>, first: u32, slot: int, value: u32)
    requires
        d.len() <= usize::MAX,
        first != NULL_INDEX,
        chain_well_formed(d, first),
        0 <= slot < entries_of(file_content(d, first)).len(),
    ensures
        chain_of(modify_effect(d, first, slot, value), first) == chain_of(d, first),
        chain_well_formed(modify_effect(d, first, slot, value), first),
        entries_of(file_content(modify_effect(d, first, slot, value), first)).len() == entries_of(
            file_content(d, first),
        ).len(),
        entries_of(file_content(modify_effect(d, first, slot, value), first))[slot] == value,
        forall|j: int|
            0 <= j < entries_of(file_content(d, first)).len() && j != slot ==> #[trigger] entries_of(
                file_content(modify_effect(d, first, slot, value), first),
            )[j] == entries_of(file_content(d, first))[j],
{
    broadcast use lemma_u32_ne;

    let idxs = chain_of(d, first).unwrap();
    lemma_well_formed_path(d, first);
    let s = chain_blocks(d, idxs);
    let content = blocks_content(s);
    assert(content == file_content(d, first));
    let c = overwrite(content, slot * 4, u32_ne_bytes(value));
    let w = set_slot_blocks(s, slot, value);
    assert(read_chain(d, first)->Ok_0 == s);
    assert(w == with_content(s, c));
    assert(stored_indexes(w) =~= idxs) by {
        assert forall|k: int| 0 <= k < idxs.len() implies stored_indexes(w)[k] == idxs[k] by {
            assert(s[k] == data_block_at(d, idxs[k]));
        }
    }
    assert forall|k: int| 0 <= k < idxs.len() implies #[trigger] idxs[k] != NULL_INDEX by {
        assert(block_readable(d, idxs[k]));
    }
    lemma_until_null_all(idxs);
    assert(w.take(w.len() as int) =~= w);
    assert(modify_effect(d, first, slot, value) == write_data_blocks_effect(d, w));
    assert(slot * 4 + 4 <= content.len());
    lemma_rewrite_chain(d, first, c);
    let c2 = file_content(modify_effect(d, first, slot, value), first);
    assert(c2 == c);
    assert(c.subrange(slot * 4, slot * 4 + 4) =~= u32_ne_bytes(value));
    assert forall|j: int| 0 <= j < entries_of(content).len() && j != slot implies #[trigger] entries_of(c2)[j]
        == entries_of(content)[j] by {
        assert(4 * j + 4 <= content.len());
        assert(c2.subrange(4 * j, 4 * j + 4) =~= content.subrange(4 * j, 4 * j + 4));
    }
}

/// A value put into a slot of a directory is among its listed entries, when it
/// is not the null index.
pub proof fn lemma_slot_listed(d: Seq<u8>, first: u32, slot: int, value: u32)
    requires
        first != NULL_INDEX,
        chain_of(d, first) is Some,
        value != NULL_INDEX,
        0 <= slot < entries_of(file_content(d, first)).len(),
        entries_of(file_content(d, first))[slot] == value,
    ensures
        listed_in_chain(d, first).contains(value),
{
    broadcast use vstd::seq_lib::group_filter_ensures;

    let e = entries_of(file_content(d, first));
    assert(read_chain(d, first)->Ok_0 == chain_blocks(d, chain_of(d, first).unwrap()));
    assert(listed_in_chain(d, first) == listed_entries(e));
    assert(e.contains(value));
}

/// An entry added to a directory is listed. When the directory's start block
/// is the one stored at its index, its chain is well formed and does not hold
/// that start block, a successful append of a value other than the null index
/// leaves the chain well formed and the value among the listed entries, both
/// when a free slot was found and when the directory had to grow first.
#[verifier::rlimit(40)]
pub proof fn law_append_lists(d: Seq<u8>, dir: StartBlockModel, value: u32, r: ResultEmpty, d2: Seq<u8>)
    requires
        d.len() <= usize::MAX,
        value != NULL_INDEX,
        block_readable(d, dir.block_index),
        start_block_at(d, dir.block_index) == dir,
        chain_well_formed(d, dir.first_data_block_index),
        !chain_of(d, dir.first_data_block_index).unwrap().contains(dir.block_index),
        append_ok(d, dir, value),
        append_result(d, dir, value, r, d2),
        r is Ok,
    ensures
        chain_well_formed(d2, dir.first_data_block_index),
        listed_in_chain(d2, dir.first_data_block_index).contains(value),
        chain_of(d2, dir.first_data_block_index) == chain_of(d, dir.first_data_block_index) || (free_blocks(
            d,
        ).len() >= 1 && chain_of(d2, dir.first_data_block_index) == Some(
            chain_of(d, dir.first_data_block_index).unwrap() + expansion_blocks(d, 1),
        )),
{
    let first = dir.first_data_block_index;
    let idxs = chain_of(d, first).unwrap();
    lemma_well_formed_path(d, first);
    assert(block_readable(d, idxs[0]));
    assert(first != NULL_INDEX);
    let slots = entries_of(file_content(d, first));
    assert(start_slots(d, dir.block_index) == Ok::<Seq<u32>, crate::results::FsError>(slots));
    if slots.contains(NULL_INDEX) {
        let i = choose|i: int|
            #[trigger] first_occurrence(slots, NULL_INDEX, i) && r == Ok::<(), crate::results::FsError>(())
                && d2 == modify_effect(d, first, i, value);
        lemma_modify_sets_slot(d, first, i, value);
        lemma_slot_listed(d2, first, i, value);
    } else {
        let d1 = expand_effect(d, first, 1, true);
        law_expand(d, first, 1, true);
        let new = expansion_blocks(d, 1);
        let idxs1 = idxs + new;
        let j = dir.block_index;
        lemma_free_below(d, scan_limit(d), scan_limit(d));
        assert(new[0] == free_blocks(d)[0]);
        assert(data_block_at(d, j).block_index == j);
        assert(!new.contains(j)) by {
            if new.contains(j) {
                assert(new[0] == j);
            }
        }
        assert(data_block_at(d1, j) == data_block_at(d, j));
        crate::blocks::lemma_data_block_bytes_roundtrip(raw_at(d, j as int));
        crate::blocks::lemma_data_block_bytes_roundtrip(raw_at(d1, j as int));
        assert(raw_at(d1, j as int) == raw_at(d, j as int));
        assert(start_block_at(d1, j) == dir);
        let c1 = file_content(d1, first);
        let slots1 = entries_of(c1);
        assert(start_slots(d1, j) == Ok::<Seq<u32>, crate::results::FsError>(slots1));
        let n = idxs.len();
        let s1 = chain_blocks(d1, idxs1);
        assert(c1 == blocks_content(s1));
        assert(s1.len() == n + 1);
        assert(s1[n as int] == data_block_at(d1, new[0]));
        assert(data_block_at(d1, new[0]) == new_chain_blocks(new, true)[0]);
        let k: int = (62 * n) as int;
        assert(c1.len() == (n + 1) * 248);
        assert(4 * k + 4 <= c1.len()) by (nonlinear_arith)
            requires
                c1.len() == (n + 1) * 248,
                k == 62 * n,
        ;
        assert(slots1.len() == c1.len() / 4);
        assert(k < slots1.len());
        assert(c1.subrange(4 * k, 4 * k + 4) =~= seq![255u8, 255u8, 255u8, 255u8]) by {
            assert forall|t: int| 0 <= t < 4 implies #[trigger] c1.subrange(4 * k, 4 * k + 4)[t] == 255u8 by {
                lemma_block_position(4 * k + t, n as int);
                crate::laws::lemma_content_at(s1, 4 * k + t);
                assert(c1.subrange(4 * k, 4 * k + 4)[t] == c1[4 * k + t]);
            }
        }
        lemma_u32_all_ones();
        assert(slots1[k] == NULL_INDEX);
        assert(slots1.contains(NULL_INDEX));
        assert(d1.len() <= usize::MAX);
        let i = choose|i: int|
            #[trigger] first_occurrence(slots1, NULL_INDEX, i) && r == Ok::<(), crate::results::FsError>(())
                && d2 == modify_effect(d1, first, i, value);
        lemma_modify_sets_slot(d1, first, i, value);
        lemma_slot_listed(d2, first, i, value);
    }
}

/// Keeping the elements that satisfy `p` keeps all of a sequence whose
/// elements all satisfy it.
pub proof fn lemma_filter_all(s: Seq<u32>, p: spec_fn(u32) -> bool)
    requires
        forall|k: int| 0 <= k < s.len() ==> p(#[trigger] s[k]),
    ensures
        s.filter(p) == s,
    decreases s.len(),
{
    reveal(Seq::filter);
    if s.len() > 0 {
        let q = s.drop_last();
        assert forall|k: int| 0 <= k < q.len() implies p(#[trigger] q[k]) by {
            assert(q[k] == s[k]);
        }
        lemma_filter_all(q, p);
        assert(p(s[s.len() - 1]));
        assert(s.filter(p) =~= s);
    }
}

/// Removing an entry from a directory unlists it. When the entry is held by
/// exactly one slot `i` of a well-formed directory chain, removing it leaves
/// the chain well formed, frees that slot and lists the entry no more.
pub proof fn law_remove_unlists(d: Seq<u8>, target: u32, first: u32, i: int)
    requires
        d.len() <= usize::MAX,
        first != NULL_INDEX,
        chain_well_formed(d, first),
        target != NULL_INDEX,
        0 <= i < entries_of(file_content(d, first)).len(),
        entries_of(file_content(d, first))[i] == target,
        forall|j: int|
            0 <= j < entries_of(file_content(d, first)).len() && j != i ==> #[trigger] entries_of(
                file_content(d, first),
            )[j] != target,
    ensures
        chain_well_formed(remove_effect(d, target, first), first),
        entries_of(file_content(remove_effect(d, target, first), first))[i] == NULL_INDEX,
        !listed_in_chain(remove_effect(d, target, first), first).contains(target),
{
    broadcast use vstd::seq_lib::group_filter_ensures;

    let slots = entries_of(file_content(d, first));
    let p = |x: u32| x != NULL_INDEX;
    assert(read_chain(d, first)->Ok_0 == chain_blocks(d, chain_of(d, first).unwrap()));
    assert(slots_in_chain(d, first) == slots);
    assert(first_occurrence(slots, target, i));
    let pos = first_position(slots, target);
    lemma_first_occurrence_unique(slots, target, i, pos);
    lemma_listed_contains(slots, target);
    assert(remove_effect(d, target, first) == modify_effect(d, first, i, NULL_INDEX));
    lemma_modify_sets_slot(d, first, i, NULL_INDEX);
    let d2 = modify_effect(d, first, i, NULL_INDEX);
    let slots2 = entries_of(file_content(d2, first));
    assert(!slots2.contains(target)) by {
        if slots2.contains(target) {
            let j = choose|j: int| 0 <= j < slots2.len() && slots2[j] == target;
            if j != i {
                assert(slots2[j] == slots[j]);
            }
        }
    }
    assert(read_chain(d2, first)->Ok_0 == chain_blocks(d2, chain_of(d2, first).unwrap()));
    assert(listed_in_chain(d2, first) == slots2.filter(p));
    if slots2.filter(p).contains(target) {
        slots2.lemma_filter_contains_rev(p, target);
    }
}

/// The slots of a fresh directory block are all free: it lists no entry.
pub proof fn lemma_fresh_directory_block_empty(e1: u32)
    ensures
        listed_entries(entries_of(blocks_content(seq![plain_block(e1, true)]))).len() == 0,
{
    broadcast use vstd::seq_lib::group_filter_ensures;

    let s = seq![plain_block(e1, true)];
    let c = blocks_content(s);
    let e = entries_of(c);
    lemma_u32_all_ones();
    assert forall|k: int| 0 <= k < e.len() implies #[trigger] e[k] == NULL_INDEX by {
        assert(c.subrange(4 * k, 4 * k + 4) =~= seq![255u8, 255u8, 255u8, 255u8]) by {
            assert forall|t: int| 0 <= t < 4 implies #[trigger] c.subrange(4 * k, 4 * k + 4)[t] == 255u8 by {
                crate::laws::lemma_content_at(s, 4 * k + t);
                assert(c.subrange(4 * k, 4 * k + 4)[t] == c[4 * k + t]);
            }
        }
    }
    let p = |x: u32| x != NULL_INDEX;
    assert(listed_entries(e) == e.filter(p));
    if e.filter(p).len() > 0 {
        let x = e.filter(p)[0];
        assert(p(x));
        assert(e.filter(p).contains(x));
        e.lemma_filter_contains_rev(p, x);
    }
}

/// A new empty directory lists nothing. After a new empty directory is written
/// from start block `sb`, the first free block holds its start block, its
/// chain is the one fresh block at the second free block, all of whose slots
/// are free, and so it lists no entry.
pub proof fn law_new_directory_empty(d: Seq<u8>, sb: StartBlockModel)
    requires
        free_blocks(d).len() >= 2,
        sb.name.len() == 208,
    ensures
        ({
            let d2 = new_empty_effect(d, sb, true);
            let e0 = free_blocks(d)[0];
            let e1 = free_blocks(d)[1];
            &&& block_readable(d2, e0)
            &&& start_block_at(d2, e0) == placed_start_block(d, sb)
            &&& read_start_chain(d2, e0) == Ok::<Seq<DataBlockModel>, crate::results::FsError>(
                seq![plain_block(e1, true)],
            )
            &&& listed_of(d2, e0).len() == 0
        }),
{
    let e0 = free_blocks(d)[0];
    let e1 = free_blocks(d)[1];
    lemma_free_below(d, scan_limit(d), scan_limit(d));
    assert(e0 < e1);
    let placed = placed_start_block(d, sb);
    let b1 = plain_block(e1, true);
    let d1 = with_block(d, e1 as int, crate::blocks::data_block_bytes(b1));
    let d2 = with_block(d1, e0 as int, crate::blocks::start_block_bytes(placed));
    assert(d2 == new_empty_effect(d, sb, true));
    crate::blocks::lemma_data_block_roundtrip(b1);
    crate::blocks::lemma_start_block_roundtrip(placed);
    lemma_with_block(d, e1, crate::blocks::data_block_bytes(b1), e1);
    lemma_with_block(d1, e0, crate::blocks::start_block_bytes(placed), e1);
    lemma_with_block(d1, e0, crate::blocks::start_block_bytes(placed), e0);
    assert(start_block_at(d2, e0) == placed);
    assert(data_block_at(d2, e1) == b1);
    assert(crate::drive::block_count(d2) >= 1);
    assert(chain_from(d2, e1, crate::drive::block_count(d2)) == Some(seq![e1]));
    let s = seq![b1];
    assert(chain_blocks(d2, seq![e1]) =~= s);
    assert(read_start_chain(d2, e0) == Ok::<Seq<DataBlockModel>, crate::results::FsError>(s));
    lemma_fresh_directory_block_empty(e1);
}

} // verus!
