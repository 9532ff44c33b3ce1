//! What looking up a name gives after an entry is created: the new entry, when
//! no other entry of the directory carries its name.
use vstd::prelude::*;
use crate::blocks::{StartBlockModel, NULL_INDEX};
use crate::drive::block_readable;
use crate::drive_actions::block_actions::{data_block_at, start_block_at};
use crate::drive_actions::data_block_actions::{
    blocks_content, chain_blocks, chain_of, chain_well_formed, entries_of, file_content, lemma_block_position,
    listed_entries, read_chain, read_start_chain,
};
use crate::drive_actions::directory_actions::{
    append_ok, append_result, first_occurrence, listed_in_chain, listed_of, modify_effect, start_slots,
};
use crate::drive_actions::drive_utils::{free_blocks, lemma_free_below, scan_limit};
use crate::drive_actions::file_utils::{expand_effect, expansion_blocks, new_chain_blocks};
use crate::drive_actions::start_block_actions::{
    first_named, has_name, lemma_split_single, lemma_split_step, lookup, padded_name, path_components,
    resolve_path, slash_free, walk,
};
use crate::drive_actions::write_utils::{create_ok, new_empty_effect, placed_start_block};
use crate::creation_laws::{lemma_append_frame, lemma_new_empty_frame, law_create_lists_entry};
use crate::deletion_laws::{kept, lemma_chain_kept};
use crate::directory_laws::{lemma_modify_sets_slot, law_append_lists};
use crate::laws::{law_expand, lemma_content_at, lemma_content_prefix, lemma_well_formed_path};
use crate::ne_bytes::lemma_u32_all_ones;
use crate::results::{FsError, ResultEmpty};

verus! {

/// `e2` is `e` with slot `i` set to `value`.
pub open spec fn same_but_slot(e2: Seq<u32>, e: Seq<u32>, i: int, value: u32) -> bool {
    &&& 0 <= i < e.len()
    &&& e2.len() == e.len()
    &&& e2[i] == value
    &&& forall|k: int| 0 <= k < e.len() && k != i ==> #[trigger] e2[k] == e[k]
}

/// An entry listed after a value is added to a directory is the value or an
/// entry listed before.
pub proof fn lemma_append_listing(d: Seq<u8>, dir: StartBlockModel, value: u32, r: ResultEmpty, d2: Seq<u8>)
    requires
        d.len() <= usize::MAX,
        value != NULL_INDEX,
        block_readable(d, dir.block_index),
        start_block_at(d, dir.block_index) == dir,
        chain_well_formed(d, dir.first_data_block_index),
        !chain_of(d, dir.first_data_block_index).unwrap().contains(dir.block_index),
        append_ok(d, dir, value),
        append_result(d, dir, value, r, d2),
        r is Ok,
    ensures
        forall|x: u32|
            #[trigger] listed_in_chain(d2, dir.first_data_block_index).contains(x) ==> x == value
                || listed_in_chain(d, dir.first_data_block_index).contains(x),
{
    broadcast use vstd::seq_lib::group_filter_ensures;

    let first = dir.first_data_block_index;
    let idxs = chain_of(d, first).unwrap();
    lemma_well_formed_path(d, first);
    assert(block_readable(d, idxs[0]));
    let slots = entries_of(file_content(d, first));
    assert(start_slots(d, dir.block_index) == Ok::<Seq<u32>, FsError>(slots));
    assert(read_chain(d, first)->Ok_0 == chain_blocks(d, idxs));
    assert(listed_in_chain(d, first) == listed_entries(slots));
    // The slots before the value is put in: those of `d`, or those of the grown
    // directory, whose first slots are those of `d` and the others free.
    let (d1, slots1) = if slots.contains(NULL_INDEX) {
        (d, slots)
    } else {
        let d1 = expand_effect(d, first, 1, true);
        (d1, entries_of(file_content(d1, first)))
    };
    if !slots.contains(NULL_INDEX) {
        law_expand(d, first, 1, true);
        let new = expansion_blocks(d, 1);
        let idxs1 = idxs + new;
        let s = chain_blocks(d, idxs);
        let s1 = chain_blocks(d1, idxs1);
        assert(chain_of(d1, first) == Some(idxs1));
        assert(file_content(d1, first) == blocks_content(s1));
        assert forall|j: int| 0 <= j < s.len() implies (#[trigger] s1[j]).data == s[j].data by {
            assert(s1[j] == data_block_at(d1, idxs1[j]));
            assert(idxs1[j] == idxs[j]);
        }
        lemma_content_prefix(s, s1);
        let n = idxs.len();
        let c = blocks_content(s);
        let c1 = blocks_content(s1);
        assert(s1[n as int] == data_block_at(d1, new[0]));
        assert(data_block_at(d1, new[0]) == new_chain_blocks(new, true)[0]);
        lemma_u32_all_ones();
        assert forall|k: int| 0 <= k < slots1.len() && k >= slots.len() implies #[trigger] slots1[k] == NULL_INDEX by {
            assert(c1.len() == (n + 1) * 248);
            assert(c.len() == n * 248);
            assert(4 * k + 4 <= c1.len());
            assert(4 * k >= c.len()) by (nonlinear_arith)
                requires
                    k >= c.len() / 4,
                    c.len() == n * 248,
            ;
            assert(c1.subrange(4 * k, 4 * k + 4) =~= seq![255u8, 255u8, 255u8, 255u8]) by {
                assert forall|t: int| 0 <= t < 4 implies #[trigger] c1.subrange(4 * k, 4 * k + 4)[t] == 255u8 by {
                    lemma_block_position(4 * k + t, n as int);
                    lemma_content_at(s1, 4 * k + t);
                    assert(c1.subrange(4 * k, 4 * k + 4)[t] == c1[4 * k + t]);
                }
            }
        }
        assert forall|k: int| 0 <= k < slots.len() implies #[trigger] slots1[k] == slots[k] by {
            assert(4 * k + 4 <= c.len());
            assert(c1.subrange(4 * k, 4 * k + 4) =~= c.subrange(4 * k, 4 * k + 4));
        }
        assert(slots1.len() >= slots.len());
    }
    let e2 = entries_of(file_content(d2, first));
    // The value goes into one slot; the others keep what `slots1` holds.
    assert(exists|i: int| #[trigger] same_but_slot(e2, slots1, i, value)) by {
        if slots.contains(NULL_INDEX) {
            let i = choose|i: int|
                #[trigger] first_occurrence(slots, NULL_INDEX, i) && r == Ok::<(), FsError>(())
                    && d2 == modify_effect(d, first, i, value);
            lemma_modify_sets_slot(d, first, i, value);
            assert(same_but_slot(e2, slots1, i, value));
        } else {
            law_expand(d, first, 1, true);
            let bi = dir.block_index;
            lemma_free_below(d, scan_limit(d), scan_limit(d));
            let new = expansion_blocks(d, 1);
            assert(new[0] == free_blocks(d)[0]);
            assert(data_block_at(d, bi).block_index == bi);
            assert(!new.contains(bi)) by {
                if new.contains(bi) {
                    assert(new[0] == bi);
                }
            }
            crate::deletion_laws::lemma_same_raw(d, d1, bi);
            assert(start_block_at(d1, bi) == dir);
            assert(start_slots(d1, bi) == Ok::<Seq<u32>, FsError>(slots1)) by {
                assert(read_start_chain(d1, bi) == read_chain(d1, first));
            }
            assert(slots1.contains(NULL_INDEX)) by {
                assert(slots1[slots.len() as int] == NULL_INDEX);
            }
            let i = choose|i: int|
                #[trigger] first_occurrence(slots1, NULL_INDEX, i) && r == Ok::<(), FsError>(())
                    && d2 == modify_effect(d1, first, i, value);
            lemma_modify_sets_slot(d1, first, i, value);
            assert(same_but_slot(e2, slots1, i, value));
        }
    }
    let i = choose|i: int| #[trigger] same_but_slot(e2, slots1, i, value);
    law_append_lists(d, dir, value, r, d2);
    assert(read_chain(d2, first)->Ok_0 == chain_blocks(d2, chain_of(d2, first).unwrap()));
    assert(listed_in_chain(d2, first) == listed_entries(e2));
    let p = |y: u32| y != NULL_INDEX;
    assert(listed_entries(e2) == e2.filter(p));
    assert(listed_entries(slots) == slots.filter(p));
    assert forall|x: u32| #[trigger] listed_in_chain(d2, first).contains(x) implies x == value || listed_in_chain(
        d,
        first,
    ).contains(x) by {
        e2.lemma_filter_contains_rev(p, x);
        let k = choose|k: int| 0 <= k < e2.len() && e2[k] == x;
        assert(x != NULL_INDEX);
        if k != i {
            assert(same_but_slot(e2, slots1, i, value));
            assert(e2[k] == slots1[k]);
            assert(slots1[k] == x);
            if k < slots.len() {
                assert(slots1[k] == slots[k]);
                assert(slots[k] == x);
                slots.lemma_filter_contains(p, k);
                assert(slots.filter(p).contains(x));
            } else {
                assert(slots1[k] == NULL_INDEX);
            }
        }
    }
}

/// The first entry carrying a name is the one entry that carries it.
pub proof fn lemma_first_named_single(d: Seq<u8>, entries: Seq<u32>, name: Seq<u8>, e: u32)
    requires
        entries.contains(e),
        has_name(start_block_at(d, e), name),
        forall|k: int|
            0 <= k < entries.len() && entries[k] != e ==> !has_name(start_block_at(d, #[trigger] entries[k]), name),
    ensures
        first_named(d, entries, name) == Some(start_block_at(d, e)),
    decreases entries.len(),
{
    if entries[0] != e {
        let rest = entries.drop_first();
        assert(rest.contains(e)) by {
            let k = choose|k: int| 0 <= k < entries.len() && entries[k] == e;
            assert(k > 0);
            assert(rest[k - 1] == e);
        }
        assert forall|k: int| 0 <= k < rest.len() && rest[k] != e implies !has_name(start_block_at(d, #[trigger] rest[k]), name) by {
            assert(rest[k] == entries[k + 1]);
        }
        lemma_first_named_single(d, rest, name, e);
    }
}

/// The parent's listing after a successful creation: the parent's start block
/// is kept; every entry listed is the new one or an entry listed before, whose
/// start block is kept; the new entry is listed and holds the new start block;
/// so looking a name up goes through that listing.
pub proof fn lemma_created_listing(
    d: Seq<u8>,
    parent: StartBlockModel,
    child: StartBlockModel,
    is_directory: bool,
    r: ResultEmpty,
    d2: Seq<u8>,
)
    requires
        d.len() <= usize::MAX,
        block_readable(d, parent.block_index),
        start_block_at(d, parent.block_index) == parent,
        chain_well_formed(d, parent.first_data_block_index),
        !chain_of(d, parent.first_data_block_index).unwrap().contains(parent.block_index),
        child.name.len() == 208,
        create_ok(d, parent, child, is_directory),
        append_result(new_empty_effect(d, child, is_directory), parent, free_blocks(d)[0], r, d2),
        r is Ok,
        forall|k: int|
            0 <= k < listed_of(d, parent.block_index).len() ==> {
                let x = #[trigger] listed_of(d, parent.block_index)[k];
                &&& block_readable(d, x)
                &&& start_block_at(d, x).block_index == x
                &&& !chain_of(d, parent.first_data_block_index).unwrap().contains(x)
            },
    ensures
        ({
            let l = listed_of(d, parent.block_index);
            let l2 = listed_in_chain(d2, parent.first_data_block_index);
            let e0 = free_blocks(d)[0];
            &&& start_block_at(d2, parent.block_index) == parent
            &&& l2.contains(e0)
            &&& start_block_at(d2, e0) == placed_start_block(d, child)
            &&& forall|k: int|
                0 <= k < l2.len() && l2[k] != e0 ==> l.contains(#[trigger] l2[k]) && start_block_at(d2, l2[k])
                    == start_block_at(d, l2[k])
            &&& forall|nm: Seq<u8>|
                #[trigger] lookup(d2, parent.block_index, nm) == Ok::<Option<StartBlockModel>, FsError>(
                    first_named(d2, l2, nm),
                )
        }),
{
    broadcast use vstd::seq_lib::group_filter_ensures;

    let pf = parent.first_data_block_index;
    let pb = parent.block_index;
    let pc = chain_of(d, pf).unwrap();
    let e0 = free_blocks(d)[0];
    lemma_new_empty_frame(d, child, is_directory);
    let d1 = new_empty_effect(d, child, is_directory);
    lemma_well_formed_path(d, pf);
    assert forall|k: int| 0 <= k < pc.len() implies #[trigger] kept(d, d1, pc[k]) by {
        assert(block_readable(d, pc[k]));
        assert(data_block_at(d, pc[k]).block_index == pc[k]);
    }
    lemma_chain_kept(d, d1, pf);
    assert(data_block_at(d, pb).block_index == pb);
    assert(kept(d, d1, pb));
    assert(start_block_at(d1, pb) == parent);
    let l = listed_of(d, pb);
    assert(read_start_chain(d, pb) == read_chain(d, pf));
    assert(l == listed_in_chain(d, pf));
    assert(listed_in_chain(d1, pf) == listed_in_chain(d, pf));
    assert(!pc.contains(e0)) by {
        if pc.contains(e0) {
            let k = choose|k: int| 0 <= k < pc.len() && pc[k] == e0;
            assert(data_block_at(d, pc[k]).block_index == pc[k]);
        }
    }
    law_create_lists_entry(d, parent, child, is_directory, r, d2);
    lemma_append_listing(d1, parent, e0, r, d2);
    lemma_append_frame(d1, parent, e0, r, d2, pb);
    assert(start_block_at(d2, pb) == parent);
    let l2 = listed_in_chain(d2, pf);
    assert(read_start_chain(d2, pb) == read_chain(d2, pf));
    assert forall|nm: Seq<u8>| #[trigger] lookup(d2, pb, nm) == Ok::<Option<StartBlockModel>, FsError>(
        first_named(d2, l2, nm),
    ) by {}
    assert forall|k: int| 0 <= k < l2.len() && l2[k] != e0 implies l.contains(#[trigger] l2[k]) && start_block_at(
        d2,
        l2[k],
    ) == start_block_at(d, l2[k]) by {
        let x = l2[k];
        assert(l2.contains(x));
        assert(l.contains(x));
        let j = choose|j: int| 0 <= j < l.len() && l[j] == x;
        assert(block_readable(d, l[j]) && start_block_at(d, l[j]).block_index == l[j]);
        assert(data_block_at(d, x).block_index == x);
        assert(x != e0 && x != free_blocks(d)[1]);
        assert(kept(d, d1, x));
        assert(data_block_at(d1, x) == data_block_at(d, x));
        lemma_append_frame(d1, parent, e0, r, d2, x);
    }
}

/// No entry carries a name that none of their start blocks carries.
pub proof fn lemma_first_named_none(d: Seq<u8>, entries: Seq<u32>, name: Seq<u8>)
    requires
        forall|k: int| 0 <= k < entries.len() ==> !has_name(start_block_at(d, #[trigger] entries[k]), name),
    ensures
        first_named(d, entries, name) == None::<StartBlockModel>,
    decreases entries.len(),
{
    if entries.len() > 0 {
        let rest = entries.drop_first();
        assert forall|k: int| 0 <= k < rest.len() implies !has_name(start_block_at(d, #[trigger] rest[k]), name) by {
            assert(rest[k] == entries[k + 1]);
        }
        lemma_first_named_none(d, rest, name);
    }
}

/// A created entry is found by its name in its parent. When, besides what
/// `law_create_lists_entry` asks, the new start block carries `name` and every
/// entry the parent lists has a start block that holds its own index, lies off
/// the parent's chain and carries another name, then after a successful
/// creation looking `name` up in the parent finds the new start block.
pub proof fn law_create_then_lookup(
    d: Seq<u8>,
    parent: StartBlockModel,
    child: StartBlockModel,
    is_directory: bool,
    r: ResultEmpty,
    d2: Seq<u8>,
    name: Seq<u8>,
)
    requires
        d.len() <= usize::MAX,
        block_readable(d, parent.block_index),
        start_block_at(d, parent.block_index) == parent,
        chain_well_formed(d, parent.first_data_block_index),
        !chain_of(d, parent.first_data_block_index).unwrap().contains(parent.block_index),
        name.len() <= 208,
        child.name == padded_name(name),
        create_ok(d, parent, child, is_directory),
        append_result(new_empty_effect(d, child, is_directory), parent, free_blocks(d)[0], r, d2),
        r is Ok,
        forall|k: int|
            0 <= k < listed_of(d, parent.block_index).len() ==> {
                let x = #[trigger] listed_of(d, parent.block_index)[k];
                &&& block_readable(d, x)
                &&& start_block_at(d, x).block_index == x
                &&& !chain_of(d, parent.first_data_block_index).unwrap().contains(x)
                &&& !has_name(start_block_at(d, x), name)
            },
    ensures
        lookup(d2, parent.block_index, name) == Ok::<Option<StartBlockModel>, FsError>(
            Some(placed_start_block(d, child)),
        ),
{
    lemma_created_listing(d, parent, child, is_directory, r, d2);
    let l = listed_of(d, parent.block_index);
    let l2 = listed_in_chain(d2, parent.first_data_block_index);
    let e0 = free_blocks(d)[0];
    assert(lookup(d2, parent.block_index, name) == Ok::<Option<StartBlockModel>, FsError>(first_named(d2, l2, name)));
    assert forall|k: int| 0 <= k < l2.len() && l2[k] != e0 implies !has_name(start_block_at(d2, #[trigger] l2[k]), name) by {
        assert(l.contains(l2[k]));
        let j = choose|j: int| 0 <= j < l.len() && l[j] == l2[k];
        assert(!has_name(start_block_at(d, l[j]), name));
    }
    lemma_first_named_single(d2, l2, name, e0);
}

/// A file or directory created in the root directory is found at its path.
/// When the root directory's start block is block 1, `name` is not empty and
/// holds no `/` byte, and the root's entries satisfy what
/// `law_create_then_lookup` asks, then after a successful creation the path
/// `/name` resolves to the new start block.
pub proof fn law_create_then_resolve(
    d: Seq<u8>,
    root: StartBlockModel,
    child: StartBlockModel,
    is_directory: bool,
    r: ResultEmpty,
    d2: Seq<u8>,
    name: Seq<u8>,
)
    requires
        d.len() <= usize::MAX,
        root.block_index == 1,
        block_readable(d, 1),
        start_block_at(d, 1) == root,
        chain_well_formed(d, root.first_data_block_index),
        !chain_of(d, root.first_data_block_index).unwrap().contains(1),
        1 <= name.len() <= 208,
        slash_free(name),
        child.name == padded_name(name),
        create_ok(d, root, child, is_directory),
        append_result(new_empty_effect(d, child, is_directory), root, free_blocks(d)[0], r, d2),
        r is Ok,
        forall|k: int|
            0 <= k < listed_of(d, 1).len() ==> {
                let x = #[trigger] listed_of(d, 1)[k];
                &&& block_readable(d, x)
                &&& start_block_at(d, x).block_index == x
                &&& !chain_of(d, root.first_data_block_index).unwrap().contains(x)
                &&& !has_name(start_block_at(d, x), name)
            },
    ensures
        resolve_path(d2, seq![47u8] + name) == Ok::<Option<StartBlockModel>, FsError>(
            Some(placed_start_block(d, child)),
        ),
{
    let p = seq![47u8] + name;
    let empty = Seq::<u8>::empty();
    assert(p[0] == 47u8);
    assert(slash_free(p.take(0)));
    lemma_split_step(p, 20, 0);
    assert(p.take(0) =~= empty);
    assert(p.skip(1) =~= name);
    lemma_split_single(name, 19);
    let c = path_components(p);
    assert(c =~= seq![empty, name]);
    law_create_then_lookup(d, root, child, is_directory, r, d2, name);
    lemma_created_listing(d, root, child, is_directory, r, d2);
    let placed = placed_start_block(d, child);
    assert(start_block_at(d2, 1) == root);
    assert(walk(d2, c, 2, placed) == Ok::<Option<StartBlockModel>, FsError>(Some(placed)));
    assert(walk(d2, c, 1, root) == walk(d2, c, 2, placed));
    assert(walk(d2, c, 0, root) == walk(d2, c, 1, root));
}

} // verus!
