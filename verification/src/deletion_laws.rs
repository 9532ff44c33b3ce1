//! What deleting leaves behind: which blocks each deletion step writes, and
//! that deleting a directory deletes all the files it lists.
use vstd::prelude::*;
use crate::blocks::{StartBlockModel, NULL_INDEX, lemma_data_block_len};
use crate::drive::{block_addressable, block_readable, raw_at, zero_block, lemma_with_block};
use crate::drive_actions::block_actions::{data_block_at, start_block_at, write_data_blocks_effect};
use crate::drive_actions::data_block_actions::{
    blocks_content, chain_blocks, chain_of, chain_well_formed, is_chain_path, lemma_path_is_chain, read_chain,
};
use crate::drive_actions::deletion_utils::{
    delete_all_files_effect, delete_children_effect, delete_directory_effect, delete_file_effect,
    indexes_writable, stored_indexes, zero_blocks_effect,
};
use crate::drive_actions::directory_actions::{
    first_position, listed_in_chain, slots_in_chain, listed_of, modify_effect, remove_effect, set_slot_blocks,
};
use crate::directory_laws::{file_blocks, lemma_until_null_all, lemma_zero_blocks_zeroed};
use crate::laws::{distinct_writes, lemma_well_formed_path, lemma_write_blocks, not_written};

verus! {

broadcast use lemma_data_block_len;

/// Block `j` reads the same in `d2` as in `d`.
pub open spec fn kept(d: Seq<u8>, d2: Seq<u8>, j: u32) -> bool {
    block_readable(d2, j) && raw_at(d2, j as int) == raw_at(d, j as int)
}

/// Block `j` of `d` reads as 256 zero bytes.
pub open spec fn zeroed(d: Seq<u8>, j: u32) -> bool {
    block_readable(d, j) && raw_at(d, j as int) == zero_block()
}

/// A block that reads as the same data block reads as the same bytes.
pub proof fn lemma_same_raw(d: Seq<u8>, d2: Seq<u8>, j: u32)
    requires
        block_readable(d, j),
        block_readable(d2, j),
        data_block_at(d2, j) == data_block_at(d, j),
    ensures
        raw_at(d2, j as int) == raw_at(d, j as int),
{
    crate::blocks::lemma_data_block_bytes_roundtrip(raw_at(d, j as int));
    crate::blocks::lemma_data_block_bytes_roundtrip(raw_at(d2, j as int));
}

/// A well-formed chain is kept in `d2` when each of its blocks reads the same.
pub proof fn lemma_chain_kept(d: Seq<u8>, d2: Seq<u8>, first: u32)
    requires
        chain_well_formed(d, first),
        forall|j: int|
            0 <= j < chain_of(d, first).unwrap().len() ==> #[trigger] kept(d, d2, chain_of(d, first).unwrap()[j]),
    ensures
        chain_of(d2, first) == chain_of(d, first),
        chain_well_formed(d2, first),
        chain_blocks(d2, chain_of(d, first).unwrap()) == chain_blocks(d, chain_of(d, first).unwrap()),
{
    let idxs = chain_of(d, first).unwrap();
    lemma_well_formed_path(d, first);
    assert forall|k: int| 0 <= k < idxs.len() implies #[trigger] data_block_at(d2, idxs[k]) == data_block_at(d, idxs[k]) by {
        assert(kept(d, d2, idxs[k]));
    }
    assert forall|k: int| 0 <= k < idxs.len() implies block_readable(d2, #[trigger] idxs[k]) by {
        assert(kept(d, d2, idxs[k]));
    }
    assert forall|k: int| 0 <= k < idxs.len() - 1 implies #[trigger] data_block_at(d2, idxs[k]).next_block_index == idxs[k + 1] by {
        assert(data_block_at(d2, idxs[k]) == data_block_at(d, idxs[k]));
    }
    assert(data_block_at(d2, idxs.last()) == data_block_at(d, idxs[idxs.len() - 1]));
    assert(is_chain_path(d2, idxs));
    lemma_path_is_chain(d2, idxs);
    assert(chain_blocks(d2, idxs) =~= chain_blocks(d, idxs));
}

/// Setting a slot of a well-formed directory chain writes only the blocks of
/// the chain: the chain is kept, every other readable block reads the same,
/// and the image keeps its length.
pub proof fn lemma_modify_frame(d: Seq<u8>, first: u32, slot: int, value: u32)
    requires
        d.len() <= usize::MAX,
        first != NULL_INDEX,
        chain_well_formed(d, first),
    ensures
        ({
            let d3 = modify_effect(d, first, slot, value);
            let idxs = chain_of(d, first).unwrap();
            &&& d3.len() == d.len()
            &&& chain_of(d3, first) == chain_of(d, first)
            &&& chain_well_formed(d3, first)
            &&& forall|j: u32| block_readable(d, j) && !idxs.contains(j) ==> #[trigger] kept(d, d3, j)
        }),
{
    let idxs = chain_of(d, first).unwrap();
    lemma_well_formed_path(d, first);
    let s = chain_blocks(d, idxs);
    let w = set_slot_blocks(s, slot, value);
    assert(read_chain(d, first)->Ok_0 == s);
    let c = crate::blocks::overwrite(blocks_content(s), slot * 4, crate::ne_bytes::u32_ne_bytes(value));
    assert(c.len() == idxs.len() * 248);
    assert forall|k: int| 0 <= k < w.len() implies (#[trigger] w[k]).block_index == idxs[k]
        && w[k].next_block_index == data_block_at(d, idxs[k]).next_block_index && w[k].data.len() == 248 by {
        assert(s[k] == data_block_at(d, idxs[k]));
        assert(data_block_at(d, idxs[k]).block_index == idxs[k]);
        assert(k * 248 + 248 <= idxs.len() * 248) by (nonlinear_arith)
            requires
                0 <= k < idxs.len(),
        ;
    }
    assert(stored_indexes(w) =~= idxs);
    assert forall|k: int| 0 <= k < idxs.len() implies #[trigger] idxs[k] != NULL_INDEX by {
        assert(block_readable(d, idxs[k]));
    }
    lemma_until_null_all(idxs);
    assert(w.take(w.len() as int) =~= w);
    let d3 = write_data_blocks_effect(d, w);
    assert(modify_effect(d, first, slot, value) == d3);
    assert(distinct_writes(w)) by {
        assert forall|k: int| 0 <= k < w.len() implies block_addressable(#[trigger] w[k].block_index) by {
            assert(block_readable(d, idxs[k]));
        }
        assert forall|a: int, b: int| 0 <= a < w.len() && 0 <= b < w.len() && a != b implies #[trigger] w[a].block_index
            != #[trigger] w[b].block_index by {
            assert(w[a].block_index == idxs[a]);
            assert(w[b].block_index == idxs[b]);
        }
    }
    assert forall|k: int| 0 <= k < w.len() implies block_readable(d, #[trigger] w[k].block_index) by {
        assert(block_readable(d, idxs[k]));
    }
    lemma_write_blocks(d, w, first);
    assert forall|j: u32| block_readable(d, j) && !idxs.contains(j) implies #[trigger] kept(d, d3, j) by {
        assert(not_written(w, j)) by {
            assert forall|k: int| 0 <= k < w.len() implies #[trigger] w[k].block_index != j by {
                assert(w[k].block_index == idxs[k]);
            }
        }
        lemma_write_blocks(d, w, j);
        lemma_same_raw(d, d3, j);
    }
    assert forall|k: int| 0 <= k < idxs.len() implies block_readable(d3, #[trigger] idxs[k])
        && data_block_at(d3, idxs[k]).next_block_index == data_block_at(d, idxs[k]).next_block_index
        && data_block_at(d3, idxs[k]).block_index == idxs[k] by {
        lemma_write_blocks(d, w, idxs[k]);
        assert(w[k].block_index == idxs[k]);
    }
    assert forall|k: int| 0 <= k < idxs.len() - 1 implies #[trigger] data_block_at(d3, idxs[k]).next_block_index == idxs[k + 1] by {
        assert(data_block_at(d3, idxs[k]).next_block_index == data_block_at(d, idxs[k]).next_block_index);
    }
    assert(data_block_at(d3, idxs.last()).next_block_index == NULL_INDEX) by {
        assert(idxs.last() == idxs[idxs.len() - 1]);
    }
    assert(is_chain_path(d3, idxs));
    lemma_path_is_chain(d3, idxs);
}

/// Removing an entry from a well-formed directory chain writes only the blocks
/// of the chain.
pub proof fn lemma_remove_frame(d: Seq<u8>, target: u32, first: u32)
    requires
        d.len() <= usize::MAX,
        first != NULL_INDEX,
        chain_well_formed(d, first),
    ensures
        ({
            let d3 = remove_effect(d, target, first);
            let idxs = chain_of(d, first).unwrap();
            &&& d3.len() == d.len()
            &&& chain_of(d3, first) == chain_of(d, first)
            &&& chain_well_formed(d3, first)
            &&& forall|j: u32| block_readable(d, j) && !idxs.contains(j) ==> #[trigger] kept(d, d3, j)
        }),
{
    let listed = listed_in_chain(d, first);
    if read_chain(d, first) is Ok && listed.contains(target) {
        lemma_modify_frame(d, first, first_position(slots_in_chain(d, first), target), NULL_INDEX);
    } else {
        lemma_well_formed_path(d, first);
        let idxs = chain_of(d, first).unwrap();
        assert forall|j: int| 0 <= j < idxs.len() implies #[trigger] kept(d, d, idxs[j]) by {
            assert(block_readable(d, idxs[j]));
        }
    }
}

/// Deleting blocks `idxs` writes zero bytes over them and nothing else: every
/// other readable block reads the same, and the image keeps its length when
/// the blocks are all readable.
pub proof fn lemma_zero_frame(d: Seq<u8>, idxs: Seq<u32>)
    requires
        indexes_writable(idxs),
    ensures
        forall|j: u32| block_readable(d, j) && !idxs.contains(j) ==> #[trigger] kept(d, zero_blocks_effect(d, idxs), j),
        forall|j: u32| zeroed(d, j) ==> #[trigger] zeroed(zero_blocks_effect(d, idxs), j),
        (forall|k: int| 0 <= k < idxs.len() && idxs[k] != NULL_INDEX ==> block_readable(d, #[trigger] idxs[k]))
            ==> zero_blocks_effect(d, idxs).len() == d.len(),
    decreases idxs.len(),
{
    if idxs.len() > 0 {
        let p = idxs.drop_last();
        assert(indexes_writable(p)) by {
            assert forall|k: int| 0 <= k < p.len() implies #[trigger] p[k] == NULL_INDEX || block_addressable(p[k]) by {
                assert(p[k] == idxs[k]);
            }
        }
        lemma_zero_frame(d, p);
        let z = zero_blocks_effect(d, p);
        let last = idxs.last();
        assert(last == idxs[idxs.len() - 1]);
        assert forall|j: u32| block_readable(d, j) && !idxs.contains(j) implies #[trigger] kept(d, zero_blocks_effect(d, idxs), j) by {
            assert(!p.contains(j)) by {
                if p.contains(j) {
                    let k = choose|k: int| 0 <= k < p.len() && p[k] == j;
                    assert(idxs[k] == j);
                }
            }
            assert(kept(d, z, j));
            if last != NULL_INDEX {
                lemma_with_block(z, last, zero_block(), j);
            }
        }
        assert forall|j: u32| zeroed(d, j) implies #[trigger] zeroed(zero_blocks_effect(d, idxs), j) by {
            assert(zeroed(z, j));
            if last != NULL_INDEX {
                lemma_with_block(z, last, zero_block(), j);
            }
        }
        if forall|k: int| 0 <= k < idxs.len() && idxs[k] != NULL_INDEX ==> block_readable(d, #[trigger] idxs[k]) {
            assert forall|k: int| 0 <= k < p.len() && p[k] != NULL_INDEX implies block_readable(d, #[trigger] p[k]) by {
                assert(p[k] == idxs[k]);
            }
            if last != NULL_INDEX {
                assert(block_readable(d, last));
                assert(z.len() == d.len());
            }
        }
    }
}

/// The blocks of file `sb`: the blocks of its chain, then its start block.
pub open spec fn own_blocks(d: Seq<u8>, sb: StartBlockModel) -> Seq<u32> {
    chain_of(d, sb.first_data_block_index).unwrap().push(sb.block_index)
}

/// `a` and `b` have no index in common.
pub open spec fn disjoint(a: Seq<u32>, b: Seq<u32>) -> bool {
    forall|j: u32| #[trigger] a.contains(j) ==> !b.contains(j)
}

/// File `sb` has a readable start block and a well-formed chain, and none of
/// its blocks is a block of the chain `other`.
pub open spec fn file_separate(d: Seq<u8>, sb: StartBlockModel, other: Seq<u32>) -> bool {
    &&& block_readable(d, sb.block_index)
    &&& sb.first_data_block_index != NULL_INDEX
    &&& chain_well_formed(d, sb.first_data_block_index)
    &&& disjoint(own_blocks(d, sb), other)
}

/// Deleting a file whose blocks are separate from its parent's well-formed
/// chain writes zero bytes over the file's blocks and otherwise writes only
/// the parent's chain, which it keeps.
pub proof fn lemma_delete_file_frame(d: Seq<u8>, sb: StartBlockModel, parent: StartBlockModel)
    requires
        d.len() <= usize::MAX,
        parent.first_data_block_index != NULL_INDEX,
        chain_well_formed(d, parent.first_data_block_index),
        file_separate(d, sb, chain_of(d, parent.first_data_block_index).unwrap()),
    ensures
        ({
            let d3 = delete_file_effect(d, sb, parent);
            let p = chain_of(d, parent.first_data_block_index).unwrap();
            let b = own_blocks(d, sb);
            &&& d3.len() == d.len()
            &&& chain_of(d3, parent.first_data_block_index) == chain_of(d, parent.first_data_block_index)
            &&& chain_well_formed(d3, parent.first_data_block_index)
            &&& forall|j: u32| block_readable(d, j) && !p.contains(j) && !b.contains(j) ==> #[trigger] kept(d, d3, j)
            &&& forall|j: u32| b.contains(j) ==> #[trigger] zeroed(d3, j)
            &&& forall|j: u32| zeroed(d, j) && !p.contains(j) ==> #[trigger] zeroed(d3, j)
        }),
{
    let pf = parent.first_data_block_index;
    let p = chain_of(d, pf).unwrap();
    let c = chain_of(d, sb.first_data_block_index).unwrap();
    let b = own_blocks(d, sb);
    lemma_well_formed_path(d, sb.first_data_block_index);
    lemma_remove_frame(d, sb.block_index, pf);
    let d1 = remove_effect(d, sb.block_index, pf);
    assert forall|k: int| 0 <= k < c.len() implies #[trigger] kept(d, d1, c[k]) by {
        assert(b.contains(c[k])) by {
            assert(b[k] == c[k]);
        }
        assert(block_readable(d, c[k]));
    }
    lemma_chain_kept(d, d1, sb.first_data_block_index);
    let s = chain_blocks(d, c);
    assert(read_chain(d1, sb.first_data_block_index) == Ok::<Seq<crate::blocks::DataBlockModel>, crate::results::FsError>(s));
    assert(stored_indexes(s) =~= c) by {
        assert forall|k: int| 0 <= k < c.len() implies stored_indexes(s)[k] == c[k] by {
            assert(s[k] == data_block_at(d, c[k]));
        }
    }
    assert(file_blocks(d1, sb) == b);
    let d3 = delete_file_effect(d, sb, parent);
    assert(d3 == zero_blocks_effect(d1, b));
    assert forall|k: int| 0 <= k < b.len() implies block_readable(d1, #[trigger] b[k]) && block_addressable(b[k]) by {
        if k < c.len() {
            assert(b[k] == c[k]);
            assert(block_readable(d, c[k]));
        } else {
            assert(b[k] == sb.block_index);
        }
    }
    assert(indexes_writable(b));
    lemma_zero_blocks_zeroed(d1, b);
    lemma_zero_frame(d1, b);
    assert forall|j: u32| b.contains(j) implies #[trigger] zeroed(d3, j) by {
        let k = choose|k: int| 0 <= k < b.len() && b[k] == j;
        assert(block_readable(d1, b[k]));
    }
    assert forall|j: u32| block_readable(d, j) && !p.contains(j) && !b.contains(j) implies #[trigger] kept(d, d3, j) by {
        assert(kept(d, d1, j));
        assert(kept(d1, d3, j));
    }
    assert forall|k: int| 0 <= k < p.len() implies #[trigger] kept(d1, d3, p[k]) by {
        lemma_well_formed_path(d, pf);
        assert(block_readable(d, p[k]));
        assert(!b.contains(p[k]));
    }
    lemma_chain_kept(d1, d3, pf);
    assert forall|j: u32| zeroed(d, j) && !p.contains(j) implies #[trigger] zeroed(d3, j) by {
        if !b.contains(j) {
            assert(kept(d, d3, j));
        }
    }
}

/// The files at `children` in image `d`: each has a readable start block that
/// holds its own index and a well-formed chain; the blocks of each are
/// separate from the chains `dir_chain` and `parent_chain` and from the
/// blocks of the others.
pub open spec fn children_separate(d: Seq<u8>, children: Seq<u32>, dir_chain: Seq<u32>, parent_chain: Seq<u32>) -> bool {
    &&& forall|k: int|
        0 <= k < children.len() ==> {
            let sb = #[trigger] start_block_at(d, children[k]);
            &&& sb.block_index == children[k]
            &&& file_separate(d, sb, dir_chain)
            &&& disjoint(own_blocks(d, sb), parent_chain)
        }
    &&& forall|k: int, l: int|
        #![trigger children[k], children[l]]
        0 <= k < l < children.len() ==> disjoint(
            own_blocks(d, start_block_at(d, children[k])),
            own_blocks(d, start_block_at(d, children[l])),
        )
}

/// Block `j` belongs to one of the first `n` files at `children`.
pub open spec fn in_first_children(d: Seq<u8>, children: Seq<u32>, n: int, j: u32) -> bool {
    exists|l: int| 0 <= l < n && #[trigger] own_blocks(d, start_block_at(d, children[l])).contains(j)
}

/// Deleting the first `n` of separate files from a directory: the directory's
/// chain is kept, their blocks read as zero bytes, and every other readable
/// block off the directory's chain reads the same.
pub proof fn lemma_delete_children(d: Seq<u8>, children: Seq<u32>, dir: StartBlockModel, parent_chain: Seq<u32>, n: int)
    requires
        d.len() <= usize::MAX,
        dir.first_data_block_index != NULL_INDEX,
        chain_well_formed(d, dir.first_data_block_index),
        children_separate(d, children, chain_of(d, dir.first_data_block_index).unwrap(), parent_chain),
        0 <= n <= children.len(),
    ensures
        ({
            let p = delete_children_effect(d, children.take(n), dir);
            let dc = chain_of(d, dir.first_data_block_index).unwrap();
            &&& p.len() == d.len()
            &&& chain_of(p, dir.first_data_block_index) == chain_of(d, dir.first_data_block_index)
            &&& chain_well_formed(p, dir.first_data_block_index)
            &&& forall|j: u32|
                block_readable(d, j) && !dc.contains(j) && !in_first_children(d, children, n, j) ==> #[trigger] kept(
                    d,
                    p,
                    j,
                )
            &&& forall|j: u32| in_first_children(d, children, n, j) ==> #[trigger] zeroed(p, j)
        }),
    decreases n,
{
    let df = dir.first_data_block_index;
    let dc = chain_of(d, df).unwrap();
    if n == 0 {
        assert(children.take(0).len() == 0);
        lemma_well_formed_path(d, df);
        assert forall|k: int| 0 <= k < dc.len() implies #[trigger] kept(d, d, dc[k]) by {
            assert(block_readable(d, dc[k]));
        }
        lemma_chain_kept(d, d, df);
    } else {
        lemma_delete_children(d, children, dir, parent_chain, n - 1);
        let q = delete_children_effect(d, children.take(n - 1), dir);
        assert(children.take(n).drop_last() =~= children.take(n - 1));
        let c = children[n - 1];
        assert(children.take(n).last() == c);
        let sb = start_block_at(d, c);
        assert(sb.block_index == c && file_separate(d, sb, dc) && disjoint(own_blocks(d, sb), parent_chain));
        let cc = chain_of(d, sb.first_data_block_index).unwrap();
        let b = own_blocks(d, sb);
        // The blocks of this file were not touched by the earlier deletions.
        assert forall|j: u32| b.contains(j) implies !in_first_children(d, children, n - 1, j) && !dc.contains(j) by {
            if in_first_children(d, children, n - 1, j) {
                let l = choose|l: int| 0 <= l < n - 1 && #[trigger] own_blocks(d, start_block_at(d, children[l])).contains(j);
                assert(disjoint(own_blocks(d, start_block_at(d, children[l])), own_blocks(d, start_block_at(d, children[n - 1]))));
            }
        }
        lemma_well_formed_path(d, sb.first_data_block_index);
        assert forall|k: int| 0 <= k < cc.len() implies #[trigger] kept(d, q, cc[k]) by {
            assert(b[k] == cc[k]);
            assert(b.contains(cc[k]));
            assert(block_readable(d, cc[k]));
        }
        assert(b[cc.len() as int] == c);
        assert(kept(d, q, c));
        assert(start_block_at(q, c) == sb);
        lemma_chain_kept(d, q, sb.first_data_block_index);
        assert(own_blocks(q, sb) == b);
        assert(chain_of(q, df).unwrap() == dc);
        assert(file_separate(q, sb, chain_of(q, df).unwrap()));
        lemma_delete_file_frame(q, sb, dir);
        let p = delete_file_effect(q, sb, dir);
        assert(p == delete_children_effect(d, children.take(n), dir));
        assert forall|j: u32| block_readable(d, j) && !dc.contains(j) && !in_first_children(d, children, n, j) implies #[trigger] kept(
            d,
            p,
            j,
        ) by {
            assert(!in_first_children(d, children, n - 1, j)) by {
                if in_first_children(d, children, n - 1, j) {
                    let l = choose|l: int| 0 <= l < n - 1 && #[trigger] own_blocks(d, start_block_at(d, children[l])).contains(j);
                    assert(0 <= l < n && own_blocks(d, start_block_at(d, children[l])).contains(j));
                }
            }
            assert(!b.contains(j)) by {
                if b.contains(j) {
                    assert(own_blocks(d, start_block_at(d, children[n - 1])).contains(j));
                }
            }
            assert(kept(d, q, j));
            assert(kept(q, p, j));
        }
        assert forall|j: u32| in_first_children(d, children, n, j) implies #[trigger] zeroed(p, j) by {
            let l = choose|l: int| 0 <= l < n && #[trigger] own_blocks(d, start_block_at(d, children[l])).contains(j);
            if l < n - 1 {
                assert(in_first_children(d, children, n - 1, j));
                assert(zeroed(q, j));
                let sl = start_block_at(d, children[l]);
                assert(file_separate(d, sl, dc));
                assert(!dc.contains(j));
            } else {
                assert(b.contains(j));
            }
        }
    }
}

/// When a directory is deleted all the files it lists are deleted. When the
/// directory's start block is the one stored at its index, its chain and its
/// parent's chain are well formed and separate, its start block is off the
/// parent's chain, and the files it lists are separate from both chains and
/// from each other (each with a start block that holds its own index and a
/// well-formed chain), deleting the directory writes zero bytes over every
/// block of every file it lists and over every block of the directory itself.
pub proof fn law_delete_directory_deletes_files(d: Seq<u8>, dir: StartBlockModel, parent: StartBlockModel)
    requires
        d.len() <= usize::MAX,
        block_readable(d, dir.block_index),
        start_block_at(d, dir.block_index) == dir,
        dir.first_data_block_index != NULL_INDEX,
        chain_well_formed(d, dir.first_data_block_index),
        parent.first_data_block_index != NULL_INDEX,
        chain_well_formed(d, parent.first_data_block_index),
        disjoint(own_blocks(d, dir), chain_of(d, parent.first_data_block_index).unwrap()),
        children_separate(
            d,
            listed_of(d, dir.block_index),
            chain_of(d, dir.first_data_block_index).unwrap(),
            chain_of(d, parent.first_data_block_index).unwrap(),
        ),
    ensures
        ({
            let d3 = delete_directory_effect(d, dir, parent);
            let children = listed_of(d, dir.block_index);
            &&& forall|j: u32| in_first_children(d, children, children.len() as int, j) ==> #[trigger] zeroed(d3, j)
            &&& forall|j: u32| own_blocks(d, dir).contains(j) ==> #[trigger] zeroed(d3, j)
        }),
{
    let df = dir.first_data_block_index;
    let pf = parent.first_data_block_index;
    let dc = chain_of(d, df).unwrap();
    let pc = chain_of(d, pf).unwrap();
    let children = listed_of(d, dir.block_index);
    let n = children.len() as int;
    assert(crate::drive_actions::deletion_utils::read_start_chain_ok_listing(d, dir));
    assert(children.take(n) =~= children);
    lemma_delete_children(d, children, dir, pc, n);
    let d1 = delete_all_files_effect(d, dir);
    assert(d1 == delete_children_effect(d, children.take(n), dir));
    lemma_well_formed_path(d, pf);
    lemma_well_formed_path(d, df);
    assert forall|j: u32| pc.contains(j) implies !dc.contains(j) && !in_first_children(d, children, n, j) by {
        assert(own_blocks(d, dir)[dc.len() as int] == dir.block_index);
        if dc.contains(j) {
            let k = choose|k: int| 0 <= k < dc.len() && dc[k] == j;
            assert(own_blocks(d, dir)[k] == j);
            assert(own_blocks(d, dir).contains(j));
        }
        if in_first_children(d, children, n, j) {
            let l = choose|l: int| 0 <= l < n && #[trigger] own_blocks(d, start_block_at(d, children[l])).contains(j);
            assert(disjoint(own_blocks(d, start_block_at(d, children[l])), pc));
        }
    }
    assert forall|k: int| 0 <= k < pc.len() implies #[trigger] kept(d, d1, pc[k]) by {
        assert(pc.contains(pc[k]));
        assert(block_readable(d, pc[k]));
    }
    lemma_chain_kept(d, d1, pf);
    assert(own_blocks(d1, dir) == own_blocks(d, dir));
    assert(file_separate(d1, dir, chain_of(d1, pf).unwrap()));
    lemma_delete_file_frame(d1, dir, parent);
    let d3 = delete_directory_effect(d, dir, parent);
    assert(d3 == delete_file_effect(d1, dir, parent));
    assert forall|j: u32| in_first_children(d, children, n, j) implies #[trigger] zeroed(d3, j) by {
        assert(zeroed(d1, j));
        let l = choose|l: int| 0 <= l < n && #[trigger] own_blocks(d, start_block_at(d, children[l])).contains(j);
        assert(disjoint(own_blocks(d, start_block_at(d, children[l])), pc));
    }
}

} // verus!
