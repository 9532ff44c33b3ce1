//! What creating and moving entries leave behind: a new entry is listed in its
//! parent with the metadata it was made with, and a moved entry is listed in
//! its new directory, no more in its old one, under its new name.
use vstd::prelude::*;
use crate::blocks::{StartBlockModel, NULL_INDEX, data_block_bytes, plain_block, start_block_bytes};
use crate::drive::{block_readable, with_block, lemma_with_block};
use crate::drive_actions::block_actions::{data_block_at, start_block_at};
use crate::drive_actions::data_block_actions::{chain_of, chain_well_formed, entries_of, file_content};
use crate::drive_actions::directory_actions::{
    append_ok, append_result, first_occurrence, listed_in_chain, modify_effect, remove_effect, start_slots,
};
use crate::drive_actions::drive_utils::{block_free, free_blocks, lemma_free_below, scan_limit};
use crate::drive_actions::file_utils::{expand_effect, expansion_blocks};
use crate::drive_actions::write_utils::{create_ok, new_empty_effect, placed_start_block, start_write_effect};
use crate::deletion_laws::{disjoint, kept, lemma_chain_kept, lemma_modify_frame, lemma_remove_frame, lemma_same_raw};
use crate::directory_laws::{law_append_lists, law_remove_unlists};
use crate::filesystem::renamed;
use crate::laws::{law_expand, lemma_well_formed_path};
use crate::results::{FsError, ResultEmpty};

verus! {

/// Adding an entry to a directory writes only the directory's chain and, when
/// the directory grows, a block that was free: every other readable block
/// that is not free reads the same, and the image keeps its length.
pub proof fn lemma_append_frame(d: Seq<u8>, dir: StartBlockModel, value: u32, r: ResultEmpty, d2: Seq<u8>, j: u32)
    requires
        d.len() <= usize::MAX,
        block_readable(d, dir.block_index),
        start_block_at(d, dir.block_index) == dir,
        chain_well_formed(d, dir.first_data_block_index),
        !chain_of(d, dir.first_data_block_index).unwrap().contains(dir.block_index),
        append_ok(d, dir, value),
        append_result(d, dir, value, r, d2),
        block_readable(d, j),
        !chain_of(d, dir.first_data_block_index).unwrap().contains(j),
        !block_free(d, j),
    ensures
        kept(d, d2, j),
        d2.len() == d.len(),
{
    let first = dir.first_data_block_index;
    let idxs = chain_of(d, first).unwrap();
    lemma_well_formed_path(d, first);
    assert(block_readable(d, idxs[0]));
    assert(first != NULL_INDEX);
    let slots = entries_of(file_content(d, first));
    assert(start_slots(d, dir.block_index) == Ok::<Seq<u32>, FsError>(slots));
    if slots.contains(NULL_INDEX) {
        let i = choose|i: int|
            #[trigger] first_occurrence(slots, NULL_INDEX, i) && r == Ok::<(), FsError>(())
                && d2 == modify_effect(d, first, i, value);
        lemma_modify_frame(d, first, i, value);
    } else {
        let d1 = expand_effect(d, first, 1, true);
        law_expand(d, first, 1, true);
        let new = expansion_blocks(d, 1);
        lemma_free_below(d, scan_limit(d), scan_limit(d));
        assert(new[0] == free_blocks(d)[0]);
        assert(block_free(d, new[0]));
        assert forall|b: u32| block_readable(d, b) && !idxs.contains(b) && !block_free(d, b) implies #[trigger] kept(d, d1, b) by {
            assert(!new.contains(b)) by {
                if new.contains(b) {
                    assert(new[0] == b);
                }
            }
            lemma_same_raw(d, d1, b);
        }
        let bi = dir.block_index;
        assert(data_block_at(d, bi).block_index == bi);
        assert(kept(d, d1, bi));
        assert(kept(d, d1, j));
        assert(start_block_at(d1, bi) == dir);
        match start_slots(d1, bi) {
            Err(_) => {},
            Ok(slots1) => {
                if slots1.contains(NULL_INDEX) {
                    let i = choose|i: int|
                        #[trigger] first_occurrence(slots1, NULL_INDEX, i) && r == Ok::<(), FsError>(())
                            && d2 == modify_effect(d1, first, i, value);
                    lemma_modify_frame(d1, first, i, value);
                    assert(!(idxs + new).contains(j)) by {
                        if (idxs + new).contains(j) {
                            let k = choose|k: int| 0 <= k < (idxs + new).len() && (idxs + new)[k] == j;
                            if k < idxs.len() {
                                assert(idxs[k] == j);
                            } else {
                                assert(new[k - idxs.len()] == j);
                            }
                        }
                    }
                    assert(kept(d1, d2, j));
                }
            },
        }
    }
}

/// Writing a new empty file or directory writes only the first two free
/// blocks: the second gets a fresh data block and the first the new start
/// block; every other readable block reads the same.
pub proof fn lemma_new_empty_frame(d: Seq<u8>, child: StartBlockModel, is_directory: bool)
    requires
        free_blocks(d).len() >= 2,
        child.name.len() == 208,
    ensures
        ({
            let d1 = new_empty_effect(d, child, is_directory);
            let e0 = free_blocks(d)[0];
            let e1 = free_blocks(d)[1];
            &&& d1.len() == d.len()
            &&& block_free(d, e0) && block_free(d, e1) && e0 != e1
            &&& block_readable(d, e0) && block_readable(d, e1)
            &&& forall|b: u32| block_readable(d, b) && b != e0 && b != e1 ==> #[trigger] kept(d, d1, b)
            &&& block_readable(d1, e0)
            &&& start_block_at(d1, e0) == placed_start_block(d, child)
            &&& data_block_at(d1, e0).block_index == e0
        }),
{
    let e0 = free_blocks(d)[0];
    let e1 = free_blocks(d)[1];
    lemma_free_below(d, scan_limit(d), scan_limit(d));
    assert(block_free(d, e0) && block_free(d, e1) && e0 < e1);
    let placed = placed_start_block(d, child);
    let b1 = plain_block(e1, is_directory);
    let da = with_block(d, e1 as int, data_block_bytes(b1));
    let d1 = with_block(da, e0 as int, start_block_bytes(placed));
    assert(d1 == new_empty_effect(d, child, is_directory));
    crate::blocks::lemma_data_block_roundtrip(b1);
    crate::blocks::lemma_start_block_roundtrip(placed);
    lemma_with_block(d, e1, data_block_bytes(b1), e0);
    lemma_with_block(da, e0, start_block_bytes(placed), e0);
    assert(d1.len() == d.len());
    assert forall|b: u32| block_readable(d, b) && b != e0 && b != e1 implies #[trigger] kept(d, d1, b) by {
        lemma_with_block(d, e1, data_block_bytes(b1), b);
        lemma_with_block(da, e0, start_block_bytes(placed), b);
    }
    assert(start_block_at(d1, e0) == placed);
}

/// A created file or directory is listed in its parent, and its start block
/// holds the metadata it was made with. When the parent's start block is the
/// one stored at its index, off its well-formed chain, creating an entry
/// places its start block at the first free block, and a successful addition
/// to the parent leaves the parent's chain well formed and listing that block,
/// which still holds the new start block.
pub proof fn law_create_lists_entry(
    d: Seq<u8>,
    parent: StartBlockModel,
    child: StartBlockModel,
    is_directory: bool,
    r: ResultEmpty,
    d2: Seq<u8>,
)
    requires
        d.len() <= usize::MAX,
        block_readable(d, parent.block_index),
        start_block_at(d, parent.block_index) == parent,
        chain_well_formed(d, parent.first_data_block_index),
        !chain_of(d, parent.first_data_block_index).unwrap().contains(parent.block_index),
        child.name.len() == 208,
        create_ok(d, parent, child, is_directory),
        append_result(new_empty_effect(d, child, is_directory), parent, free_blocks(d)[0], r, d2),
        r is Ok,
    ensures
        chain_well_formed(d2, parent.first_data_block_index),
        listed_in_chain(d2, parent.first_data_block_index).contains(free_blocks(d)[0]),
        block_readable(d2, free_blocks(d)[0]),
        start_block_at(d2, free_blocks(d)[0]) == placed_start_block(d, child),
{
    let pf = parent.first_data_block_index;
    let pc = chain_of(d, pf).unwrap();
    let e0 = free_blocks(d)[0];
    let placed = placed_start_block(d, child);
    lemma_new_empty_frame(d, child, is_directory);
    let d1 = new_empty_effect(d, child, is_directory);
    lemma_well_formed_path(d, pf);
    assert forall|k: int| 0 <= k < pc.len() implies #[trigger] kept(d, d1, pc[k]) by {
        assert(block_readable(d, pc[k]));
        assert(data_block_at(d, pc[k]).block_index == pc[k]);
    }
    lemma_chain_kept(d, d1, pf);
    let pb = parent.block_index;
    assert(data_block_at(d, pb).block_index == pb);
    assert(kept(d, d1, pb));
    assert(start_block_at(d1, pb) == parent);
    assert(start_block_at(d1, e0) == placed);
    assert(data_block_at(d1, e0).block_index == e0);
    assert(!pc.contains(e0)) by {
        if pc.contains(e0) {
            let k = choose|k: int| 0 <= k < pc.len() && pc[k] == e0;
            assert(data_block_at(d, pc[k]).block_index == pc[k]);
        }
    }
    law_append_lists(d1, parent, e0, r, d2);
    lemma_append_frame(d1, parent, e0, r, d2, e0);
}

/// Moving an entry to another directory lists it there, under its new name,
/// and no more in its old directory. The entry's start block `f` is the one
/// stored at its index; it is held by exactly one slot `i` of its old
/// directory; the old and new directories have
/// well-formed chains with no block in common and off the entry's start block,
/// and the new directory's start block is the one stored at its index, off
/// both chains. After the entry is removed from the old directory, added to
/// the new one with result `r2` and image `d2`, and its start block is written
/// back with the new name (as `rename` does), the old directory does not list
/// it, the new one does, and its start block carries the new name.
pub proof fn law_rename_moves_entry(
    d: Seq<u8>,
    old_dir: StartBlockModel,
    new_dir: StartBlockModel,
    f: StartBlockModel,
    new_name: Seq<u8>,
    i: int,
    r2: ResultEmpty,
    d2: Seq<u8>,
)
    requires
        d.len() <= usize::MAX,
        block_readable(d, f.block_index),
        start_block_at(d, f.block_index) == f,
        new_name.len() <= 208,
        old_dir.first_data_block_index != NULL_INDEX,
        chain_well_formed(d, old_dir.first_data_block_index),
        chain_well_formed(d, new_dir.first_data_block_index),
        disjoint(
            chain_of(d, old_dir.first_data_block_index).unwrap(),
            chain_of(d, new_dir.first_data_block_index).unwrap(),
        ),
        !chain_of(d, old_dir.first_data_block_index).unwrap().contains(f.block_index),
        !chain_of(d, new_dir.first_data_block_index).unwrap().contains(f.block_index),
        block_readable(d, new_dir.block_index),
        start_block_at(d, new_dir.block_index) == new_dir,
        !chain_of(d, new_dir.first_data_block_index).unwrap().contains(new_dir.block_index),
        !chain_of(d, old_dir.first_data_block_index).unwrap().contains(new_dir.block_index),
        0 <= i < entries_of(file_content(d, old_dir.first_data_block_index)).len(),
        entries_of(file_content(d, old_dir.first_data_block_index))[i] == f.block_index,
        forall|j: int|
            0 <= j < entries_of(file_content(d, old_dir.first_data_block_index)).len() && j != i
                ==> #[trigger] entries_of(file_content(d, old_dir.first_data_block_index))[j] != f.block_index,
        append_ok(remove_effect(d, f.block_index, old_dir.first_data_block_index), new_dir, f.block_index),
        append_result(remove_effect(d, f.block_index, old_dir.first_data_block_index), new_dir, f.block_index, r2, d2),
        r2 is Ok,
    ensures
        ({
            let d3 = start_write_effect(d2, renamed(f, new_name));
            &&& !listed_in_chain(d3, old_dir.first_data_block_index).contains(f.block_index)
            &&& listed_in_chain(d3, new_dir.first_data_block_index).contains(f.block_index)
            &&& start_block_at(d3, f.block_index) == renamed(f, new_name)
        }),
{
    let fi = f.block_index;
    let of = old_dir.first_data_block_index;
    let nf = new_dir.first_data_block_index;
    let oc = chain_of(d, of).unwrap();
    let nc = chain_of(d, nf).unwrap();
    lemma_well_formed_path(d, of);
    lemma_well_formed_path(d, nf);
    assert(block_readable(d, fi) && fi != NULL_INDEX);
    // Removing the entry from the old directory writes only the old chain.
    law_remove_unlists(d, fi, of, i);
    lemma_remove_frame(d, fi, of);
    let d1 = remove_effect(d, fi, of);
    assert forall|k: int| 0 <= k < nc.len() implies #[trigger] kept(d, d1, nc[k]) by {
        assert(nc.contains(nc[k]));
        assert(block_readable(d, nc[k]));
    }
    lemma_chain_kept(d, d1, nf);
    assert(kept(d, d1, new_dir.block_index));
    assert(start_block_at(d1, new_dir.block_index) == new_dir);
    assert(kept(d, d1, fi));
    // Adding it to the new directory writes only the new chain and a free block.
    law_append_lists(d1, new_dir, fi, r2, d2);
    assert(data_block_at(d1, fi).block_index == fi);
    lemma_append_frame(d1, new_dir, fi, r2, d2, fi);
    let oc1 = chain_of(d1, of).unwrap();
    assert(oc1 == oc);
    assert forall|k: int| 0 <= k < oc.len() implies #[trigger] kept(d1, d2, oc[k]) by {
        assert(block_readable(d, oc[k]));
        assert(data_block_at(d1, oc[k]).block_index == oc[k]);
        assert(!nc.contains(oc[k])) by {
            assert(oc.contains(oc[k]));
        }
        lemma_append_frame(d1, new_dir, fi, r2, d2, oc[k]);
    }
    lemma_chain_kept(d1, d2, of);
    // Writing the start block back writes only the entry's block.
    let f2 = renamed(f, new_name);
    assert(f2.block_index == fi);
    crate::blocks::lemma_start_block_roundtrip(f2);
    let d3 = start_write_effect(d2, f2);
    assert(d3 == with_block(d2, fi as int, start_block_bytes(f2)));
    lemma_with_block(d2, fi, start_block_bytes(f2), fi);
    assert(start_block_at(d3, fi) == f2);
    assert forall|k: int| 0 <= k < oc.len() implies #[trigger] kept(d2, d3, oc[k]) by {
        assert(block_readable(d, oc[k]));
        assert(oc[k] != fi);
        lemma_with_block(d2, fi, start_block_bytes(f2), oc[k]);
    }
    lemma_chain_kept(d2, d3, of);
    let nc2 = chain_of(d2, nf).unwrap();
    let e = expansion_blocks(d1, 1);
    lemma_free_below(d1, scan_limit(d1), scan_limit(d1));
    assert forall|k: int| 0 <= k < nc2.len() implies #[trigger] kept(d2, d3, nc2[k]) by {
        lemma_well_formed_path(d2, nf);
        assert(block_readable(d2, nc2[k]));
        if nc2 == nc {
            assert(nc.contains(nc2[k]));
        } else {
            assert(nc2 == nc + e);
            if k < nc.len() {
                assert(nc[k] == nc2[k]);
                assert(nc.contains(nc2[k]));
            } else {
                assert(e[k - nc.len()] == nc2[k]);
                assert(e[0] == free_blocks(d1)[0]);
                assert(block_free(d1, e[0]));
            }
        }
        assert(nc2[k] != fi);
        lemma_with_block(d2, fi, start_block_bytes(f2), nc2[k]);
    }
    lemma_chain_kept(d2, d3, nf);
    assert(crate::drive_actions::data_block_actions::read_chain(d3, of)->Ok_0
        == crate::drive_actions::data_block_actions::read_chain(d1, of)->Ok_0);
    assert(listed_in_chain(d3, of) == listed_in_chain(d1, of));
    assert(listed_in_chain(d3, nf) == listed_in_chain(d2, nf));
}

} // verus!
