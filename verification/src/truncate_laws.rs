//! What setting the length of a file does to its chain and its content.
use vstd::prelude::*;
use crate::blocks::{DataBlockModel, StartBlockModel, NULL_INDEX, lemma_data_block_len, start_block_bytes};
use crate::drive::{block_readable, lemma_with_block};
use crate::drive_actions::block_actions::{data_block_at, start_block_at, write_data_block_effect};
use crate::drive_actions::data_block_actions::{
    chain_blocks, chain_of, chain_well_formed, file_content, is_chain_path, lemma_path_is_chain, read_chain,
};
use crate::drive_actions::drive_utils::block_free;
use crate::drive_actions::deletion_utils::{indexes_writable, stored_indexes, zero_blocks_effect};
use crate::drive_actions::file_utils::{
    bytes_in_last_block, file_bytes, shrink_effect,
    shrunk_last_block,
};
use crate::drive_actions::write_utils::{blocks_for, start_write_effect, write_effect, write_ok};
use crate::filesystem::{truncate_prepared, zeros};
use crate::frame_laws::law_write_frame;
use crate::deletion_laws::{kept, lemma_zero_frame, zeroed};
use crate::directory_laws::lemma_zero_blocks_zeroed;
use crate::laws::{
    law_write_then_read, lemma_content_at, lemma_start_write_keeps_chain, lemma_well_formed_path, lemma_write_block_at,
};

verus! {

broadcast use lemma_data_block_len;

/// A file of `x` bytes fills all its blocks but the last, and `bytes_in_last_block`
/// bytes of the last one.
pub proof fn lemma_last_block_bytes(x: int)
    requires
        0 <= x,
    ensures
        1 <= blocks_for(x),
        0 <= bytes_in_last_block(x) <= 248,
        (blocks_for(x) - 1) * 248 + bytes_in_last_block(x) == x,
{
    if x > 0 {
        vstd::arithmetic::div_mod::lemma_fundamental_div_mod(x, 248);
        vstd::arithmetic::div_mod::lemma_fundamental_div_mod(x + 247, 248);
    }
}

/// Writing a data block keeps every other readable block as it read.
proof fn lemma_write_other(d: Seq<u8>, b: DataBlockModel, j: u32)
    requires
        b.data.len() == 248,
        crate::drive::block_addressable(b.block_index),
        block_readable(d, j),
        j != b.block_index,
    ensures
        kept(d, write_data_block_effect(d, b), j),
{
    lemma_write_block_at(d, b, j);
    crate::blocks::lemma_data_block_roundtrip(b);
    lemma_with_block(d, b.block_index, crate::blocks::data_block_bytes(b), j);
}

/// Cutting a file to `new_size` bytes. When the file's chain is well formed
/// and holds at least the blocks that the new size needs, after the cut the
/// chain is its first `blocks_for(new_size)` blocks and still well formed, the
/// content keeps the first `new_size` bytes and is zero after them, and every
/// block dropped from the chain reads as zero bytes.
pub proof fn law_shrink_cuts_file(d: Seq<u8>, first: u32, new_size: int)
    requires
        d.len() <= usize::MAX,
        first != NULL_INDEX,
        chain_well_formed(d, first),
        0 <= new_size,
        blocks_for(new_size) <= chain_of(d, first).unwrap().len(),
    ensures
        ({
            let idxs = chain_of(d, first).unwrap();
            let m = blocks_for(new_size);
            let c = file_content(d, first);
            let d2 = shrink_effect(d, chain_blocks(d, idxs), new_size);
            let c2 = file_content(d2, first);
            &&& chain_of(d2, first) == Some(idxs.take(m))
            &&& chain_well_formed(d2, first)
            &&& c2.len() == m * 248
            &&& c2.take(new_size) == c.take(new_size)
            &&& forall|k: int| new_size <= k < c2.len() ==> #[trigger] c2[k] == 0u8
            &&& forall|j: int| m <= j < idxs.len() ==> #[trigger] zeroed(d2, idxs[j])
            &&& d2.len() == d.len()
            &&& forall|j: u32| block_readable(d, j) && !idxs.contains(j) ==> #[trigger] kept(d, d2, j)
        }),
{
    let idxs = chain_of(d, first).unwrap();
    let n = idxs.len() as int;
    let m = blocks_for(new_size);
    let s = chain_blocks(d, idxs);
    lemma_well_formed_path(d, first);
    lemma_last_block_bytes(new_size);
    assert forall|k: int| 0 <= k < n implies #[trigger] s[k] == data_block_at(d, idxs[k])
        && s[k].block_index == idxs[k] && block_readable(d, idxs[k]) && crate::drive::block_addressable(
        idxs[k],
    ) by {
        assert(block_readable(d, idxs[k]));
    }
    assert(stored_indexes(s) =~= idxs);
    let tail = idxs.subrange(m, n);
    let last = idxs[m - 1];
    let b1 = DataBlockModel { next_block_index: NULL_INDEX, ..s[m - 1] };
    let b2 = shrunk_last_block(s, new_size);
    assert(b2.block_index == last && b2.data.len() == 248);
    assert(!tail.contains(last));
    let dz = zero_blocks_effect(d, tail);
    let d1 = if m < n {
        write_data_block_effect(dz, b1)
    } else {
        d
    };
    let d2 = write_data_block_effect(d1, b2);
    assert(d2 == shrink_effect(d, s, new_size));
    assert(indexes_writable(tail)) by {
        assert forall|k: int| 0 <= k < tail.len() implies #[trigger] tail[k] == NULL_INDEX
            || crate::drive::block_addressable(tail[k]) by {
            assert(tail[k] == idxs[m + k]);
        }
    }
    lemma_zero_frame(d, tail);
    lemma_zero_blocks_zeroed(d, tail);
    // Blocks of the chain before the last kept one read as before.
    assert forall|j: int| 0 <= j < m - 1 implies #[trigger] kept(d, d2, idxs[j]) by {
        assert(idxs[j] != last);
        if m < n {
            assert(!tail.contains(idxs[j])) by {
                if tail.contains(idxs[j]) {
                    let k = choose|k: int| 0 <= k < tail.len() && tail[k] == idxs[j];
                    assert(tail[k] == idxs[m + k]);
                }
            }
            assert(kept(d, dz, idxs[j]));
            lemma_write_other(dz, b1, idxs[j]);
        }
        lemma_write_other(d1, b2, idxs[j]);
    }
    // The dropped blocks read as zero bytes.
    assert forall|j: int| m <= j < n implies #[trigger] zeroed(d2, idxs[j]) by {
        assert(tail[j - m] == idxs[j]);
        assert(idxs[j] != last);
        assert(zeroed(dz, idxs[j]));
        lemma_write_other(dz, b1, idxs[j]);
        lemma_write_other(d1, b2, idxs[j]);
    }
    assert forall|k: int| 0 <= k < tail.len() && tail[k] != NULL_INDEX implies block_readable(d, #[trigger] tail[k]) by {
        assert(tail[k] == idxs[m + k]);
    }
    assert(dz.len() == d.len());
    if m < n {
        assert(block_readable(dz, last)) by {
            lemma_zero_frame(d, tail);
        }
        lemma_write_block_at(dz, b1, last);
    }
    assert(block_readable(d1, last));
    lemma_write_block_at(d1, b2, last);
    assert(data_block_at(d2, last) == b2);
    // The kept blocks form the chain from `first`.
    let path = idxs.take(m);
    assert forall|j: int| 0 <= j < m implies block_readable(d2, #[trigger] path[j]) && data_block_at(
        d2,
        path[j],
    ) == if j == m - 1 {
        b2
    } else {
        s[j]
    } by {
        assert(path[j] == idxs[j]);
        if j < m - 1 {
            assert(kept(d, d2, idxs[j]));
        }
    }
    assert forall|j: int| 0 <= j < m - 1 implies #[trigger] data_block_at(d2, path[j]).next_block_index
        == path[j + 1] by {
        assert(data_block_at(d, idxs[j]).next_block_index == idxs[j + 1]);
    }
    assert(path.last() == path[m - 1]);
    assert(is_chain_path(d2, path));
    assert(path.no_duplicates());
    lemma_path_is_chain(d2, path);
    assert(path[0] == first);
    let s2 = chain_blocks(d2, path);
    assert forall|j: int| 0 <= j < m implies #[trigger] s2[j] == if j == m - 1 {
        b2
    } else {
        s[j]
    } by {}
    assert(chain_well_formed(d2, first));
    // The content keeps the bytes before `new_size` and is zero after them.
    let c = file_content(d, first);
    let c2 = file_content(d2, first);
    let t = bytes_in_last_block(new_size);
    assert forall|k: int| 0 <= k < c2.len() implies #[trigger] c2[k] == if k < new_size {
        c[k]
    } else {
        0u8
    } by {
        lemma_content_at(s2, k);
        let j = k / 248;
        assert(k < n * 248) by (nonlinear_arith)
            requires
                k < m * 248,
                m <= n,
        ;
        lemma_content_at(s, k);
        if j < m - 1 {
            assert(k < (m - 1) * 248) by (nonlinear_arith)
                requires
                    j == k / 248,
                    j < m - 1,
                    k == j * 248 + k % 248,
                    0 <= k % 248 < 248,
            ;
        } else {
            assert(j == m - 1);
            assert(k == (m - 1) * 248 + k % 248);
        }
    }
    assert forall|j: u32| block_readable(d, j) && !idxs.contains(j) implies #[trigger] kept(d, d2, j) by {
        assert(!tail.contains(j)) by {
            if tail.contains(j) {
                let k = choose|k: int| 0 <= k < tail.len() && tail[k] == j;
                assert(tail[k] == idxs[m + k]);
            }
        }
        assert(j != last);
        if m < n {
            assert(kept(d, dz, j));
            lemma_write_other(dz, b1, j);
        }
        lemma_write_other(d1, b2, j);
    }
    assert(c2.take(new_size) =~= c.take(new_size)) by {
        assert(new_size <= c2.len()) by (nonlinear_arith)
            requires
                (m - 1) * 248 + t == new_size,
                t <= 248,
                c2.len() == m * 248,
        ;
        assert(c.len() == n * 248);
        assert(new_size <= c.len()) by (nonlinear_arith)
            requires
                new_size <= m * 248,
                m <= n,
                c.len() == n * 248,
        ;
    }
}

/// The start block written back at its index reads back as written, and the
/// chain of a file, off that block, is kept with the data of its blocks.
proof fn lemma_write_back(d: Seq<u8>, sb: StartBlockModel, first: u32)
    requires
        sb.name.len() == 208,
        sb.block_index != NULL_INDEX,
        crate::drive::block_addressable(sb.block_index),
        chain_well_formed(d, first),
        !chain_of(d, first).unwrap().contains(sb.block_index),
    ensures
        chain_of(start_write_effect(d, sb), first) == chain_of(d, first),
        chain_well_formed(start_write_effect(d, sb), first),
        file_content(start_write_effect(d, sb), first) == file_content(d, first),
        start_block_at(start_write_effect(d, sb), sb.block_index) == sb,
{
    let idxs = chain_of(d, first).unwrap();
    lemma_start_write_keeps_chain(d, sb, first);
    crate::blocks::lemma_start_block_roundtrip(sb);
    lemma_with_block(d, sb.block_index, start_block_bytes(sb), sb.block_index);
    let d3 = start_write_effect(d, sb);
    assert(chain_blocks(d3, idxs) =~= chain_blocks(d, idxs));
}

/// Setting the length of a file below its size keeps its first bytes. When
/// the file `sb` has a well-formed chain, off its start block, that holds the
/// blocks the new size needs, then truncating it to `size` bytes, less than
/// its size, succeeds in preparing the chain; once its start block is written
/// back with the new size it reads back so, the chain is well formed, and
/// reading the file whole gives its first `size` bytes.
pub proof fn law_truncate_shrinks(d: Seq<u8>, sb: StartBlockModel, size: u64)
    requires
        d.len() <= usize::MAX,
        sb.name.len() == 208,
        sb.block_index != NULL_INDEX,
        crate::drive::block_addressable(sb.block_index),
        sb.first_data_block_index != NULL_INDEX,
        chain_well_formed(d, sb.first_data_block_index),
        !chain_of(d, sb.first_data_block_index).unwrap().contains(sb.block_index),
        size < sb.size,
        blocks_for(size as int) <= chain_of(d, sb.first_data_block_index).unwrap().len(),
    ensures
        truncate_prepared(d, sb, size) is Ok,
        ({
            let first = sb.first_data_block_index;
            let sb2 = StartBlockModel { size, ..sb };
            let d3 = start_write_effect(truncate_prepared(d, sb, size)->Ok_0, sb2);
            let before = file_bytes(read_chain(d, first)->Ok_0, sb.size as int);
            let after = file_bytes(read_chain(d3, first)->Ok_0, size as int);
            &&& start_block_at(d3, sb.block_index) == sb2
            &&& chain_well_formed(d3, first)
            &&& after.len() == size
            &&& after == before.take(size as int)
            &&& forall|j: u32|
                block_readable(d, j) && j != sb.block_index && !chain_of(d, first).unwrap().contains(j)
                    ==> #[trigger] kept(d, d3, j)
        }),
{
    let first = sb.first_data_block_index;
    let idxs = chain_of(d, first).unwrap();
    let m = blocks_for(size as int);
    let s = chain_blocks(d, idxs);
    let d1 = shrink_effect(d, s, size as int);
    assert(truncate_prepared(d, sb, size) == Ok::<Seq<u8>, crate::results::FsError>(d1));
    law_shrink_cuts_file(d, first, size as int);
    assert(!idxs.take(m).contains(sb.block_index)) by {
        if idxs.take(m).contains(sb.block_index) {
            let k = choose|k: int| 0 <= k < m && idxs.take(m)[k] == sb.block_index;
            assert(idxs[k] == sb.block_index);
        }
    }
    let sb2 = StartBlockModel { size, ..sb };
    lemma_write_back(d1, sb2, first);
    let d3 = start_write_effect(d1, sb2);
    let c = file_content(d, first);
    let c2 = file_content(d1, first);
    lemma_last_block_bytes(size as int);
    assert(size <= m * 248);
    assert(c.len() == idxs.len() * 248);
    assert(size <= c.len()) by (nonlinear_arith)
        requires
            size <= m * 248,
            m <= idxs.len(),
            c.len() == idxs.len() * 248,
    ;
    assert(read_chain(d3, first)->Ok_0 == chain_blocks(d3, idxs.take(m)));
    assert(file_bytes(read_chain(d3, first)->Ok_0, size as int) == c2.take(size as int));
    assert(file_bytes(read_chain(d, first)->Ok_0, sb.size as int).take(size as int) =~= c.take(size as int));
    assert forall|j: u32| block_readable(d, j) && j != sb.block_index && !idxs.contains(j) implies #[trigger] kept(
        d,
        d3,
        j,
    ) by {
        assert(kept(d, d1, j));
        crate::blocks::lemma_start_block_roundtrip(sb2);
        lemma_with_block(d1, sb.block_index, start_block_bytes(sb2), j);
    }
}

/// Setting the length of a file above its size adds zero bytes. When the
/// file `sb` is the start block stored at its index, with a well-formed chain
/// off that block that holds its bytes, and the zero bytes up to `size` can
/// be written, then truncating it to `size` bytes succeeds in preparing the
/// chain; once its start block is written back with the new size it reads
/// back so, the chain is well formed, and reading the file whole gives its old
/// bytes followed by zero bytes up to `size`.
pub proof fn law_truncate_grows(d: Seq<u8>, sb: StartBlockModel, size: u64)
    requires
        d.len() <= usize::MAX,
        sb.name.len() == 208,
        sb.block_index != NULL_INDEX,
        block_readable(d, sb.block_index),
        start_block_at(d, sb.block_index) == sb,
        sb.first_data_block_index != NULL_INDEX,
        chain_well_formed(d, sb.first_data_block_index),
        !chain_of(d, sb.first_data_block_index).unwrap().contains(sb.block_index),
        sb.size <= file_content(d, sb.first_data_block_index).len(),
        sb.size < size,
        write_ok(d, sb, sb.size as int, zeros(size - sb.size)),
    ensures
        truncate_prepared(d, sb, size) is Ok,
        ({
            let first = sb.first_data_block_index;
            let sb2 = StartBlockModel { size, ..sb };
            let d3 = start_write_effect(truncate_prepared(d, sb, size)->Ok_0, sb2);
            let before = file_bytes(read_chain(d, first)->Ok_0, sb.size as int);
            let after = file_bytes(read_chain(d3, first)->Ok_0, size as int);
            &&& start_block_at(d3, sb.block_index) == sb2
            &&& chain_well_formed(d3, first)
            &&& after == before + zeros(size - sb.size)
            &&& forall|j: u32|
                block_readable(d, j) && !block_free(d, j) && j != sb.block_index && !chain_of(
                    d,
                    first,
                ).unwrap().contains(j) ==> #[trigger] kept(d, d3, j)
        }),
{
    let first = sb.first_data_block_index;
    let z = zeros(size - sb.size);
    let d1 = write_effect(d, sb, sb.size as int, z);
    assert(truncate_prepared(d, sb, size) == Ok::<Seq<u8>, crate::results::FsError>(d1));
    law_write_frame(d, sb, sb.size as int, z);
    law_write_then_read(d, sb, sb.size as int, z);
    let sb2 = StartBlockModel { size, ..sb };
    lemma_write_back(d1, sb2, first);
    let d3 = start_write_effect(d1, sb2);
    let c = file_content(d, first);
    let c1 = file_content(d1, first);
    let idxs1 = chain_of(d1, first).unwrap();
    assert(read_chain(d3, first)->Ok_0 == chain_blocks(d3, idxs1));
    let before = file_bytes(read_chain(d, first)->Ok_0, sb.size as int);
    let after = file_bytes(read_chain(d3, first)->Ok_0, size as int);
    assert(before == c.take(sb.size as int));
    assert(after == c1.take(size as int));
    assert forall|k: int| 0 <= k < size implies #[trigger] after[k] == (before + z)[k] by {
        if k >= sb.size {
            assert(c1.subrange(sb.size as int, size as int)[k - sb.size] == c1[k]);
        }
    }
    assert(after =~= before + z);
    assert forall|j: u32|
        block_readable(d, j) && !block_free(d, j) && j != sb.block_index && !chain_of(d, first).unwrap().contains(j)
        implies #[trigger] kept(d, d3, j) by {
        assert(kept(d, d1, j));
        crate::blocks::lemma_start_block_roundtrip(sb2);
        lemma_with_block(d1, sb.block_index, start_block_bytes(sb2), j);
    }
}

} // verus!
