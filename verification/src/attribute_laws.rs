//! What the metadata requests decide: who may access a file, which name a
//! start block carries, and which times, owners and names new, touched and
//! renamed entries hold.
use vstd::prelude::*;
use crate::blocks::StartBlockModel;
use crate::drive::{block_addressable, block_readable, lemma_with_block};
use crate::drive_actions::block_actions::start_block_at;
use crate::drive_actions::data_block_actions::{chain_of, chain_well_formed};
use crate::drive_actions::directory_actions::{append_result, listed_of};
use crate::drive_actions::drive_utils::free_blocks;
use crate::drive_actions::start_block_actions::{has_name, lookup};
use crate::drive_actions::write_utils::{create_ok, new_empty_effect, start_write_effect};
use crate::filesystem::{access_result, chown_block, new_entry, renamed, times_block};
use crate::drive_actions::directory_actions::{kind_of_file_type, FileKind};
use crate::lookup_laws::law_create_then_lookup;
use crate::results::{FsError, ResultEmpty};

verus! {

/// The permission bits of one class of users: the low three bits of `perms`
/// moved down by `shift` bits (6 for the owner, 3 for the group, 0 for others).
pub open spec fn class_bits(perms: u16, shift: u16) -> u16 {
    (perms >> shift) & 7u16
}

/// Who may access a file. For a file whose start block is at `index`, root is
/// always granted access. Any other user is granted the access that `mask`
/// (read 4, write 2, execute 1) asks exactly when every bit of the mask is set
/// in the permission bits of the user's class: the owner's bits when the user
/// owns the file, else the group's bits when the user is in the file's group,
/// else the bits for others.
pub proof fn law_access_by_class(d: Seq<u8>, uid: u32, gid: u32, index: u32, mask: u32)
    requires
        index != crate::blocks::NULL_INDEX,
        mask <= 7,
    ensures
        ({
            let sb = start_block_at(d, index);
            let m = mask as u16;
            let granted = access_result(d, uid, gid, index, mask) == Ok::<(), FsError>(());
            let refused = access_result(d, uid, gid, index, mask) == Err::<(), FsError>(FsError::Access);
            &&& granted || refused
            &&& uid == 0 ==> granted
            &&& uid != 0 && uid == sb.user_id ==> (granted <==> class_bits(sb.perms, 6) & m == m)
            &&& uid != 0 && uid != sb.user_id && gid == sb.group_id ==> (granted <==> class_bits(sb.perms, 3)
                & m == m)
            &&& uid != 0 && uid != sb.user_id && gid != sb.group_id ==> (granted <==> class_bits(sb.perms, 0)
                & m == m)
        }),
{
    let sb = start_block_at(d, index);
    let p = sb.perms;
    let m = mask as u16;
    assert(m <= 7);
    assert((mask * 64) as u16 == (m as u32 * 64) as u16);
    assert((mask * 8) as u16 == (m as u32 * 8) as u16);
    assert((mask * 1) as u16 == m);
    assert(((m as u32 * 64) as u16 & p == (m as u32 * 64) as u16) <==> ((p >> 6u16) & 7u16) & m == m)
        by (bit_vector)
        requires
            m <= 7,
    ;
    assert(((m as u32 * 8) as u16 & p == (m as u32 * 8) as u16) <==> ((p >> 3u16) & 7u16) & m == m)
        by (bit_vector)
        requires
            m <= 7,
    ;
    assert((m & p == m) <==> ((p >> 0u16) & 7u16) & m == m) by (bit_vector)
        requires
            m <= 7,
    ;
}

/// A start block carries a name exactly: it carries `n` when its 208 name
/// bytes are the bytes of `n` followed by zero bytes, and only then. So a
/// longer stored name, of which `n` is only the beginning, is another name.
pub proof fn law_name_is_exact(sb: StartBlockModel, n: Seq<u8>)
    requires
        sb.name.len() == 208,
    ensures
        has_name(sb, n) <==> {
            &&& n.len() <= 208
            &&& forall|k: int| 0 <= k < n.len() ==> #[trigger] sb.name[k] == n[k]
            &&& forall|k: int| n.len() <= k < 208 ==> #[trigger] sb.name[k] == 0u8
        },
{
    if n.len() <= 208 && (forall|k: int| 0 <= k < n.len() ==> #[trigger] sb.name[k] == n[k]) && (forall|k: int|
        n.len() <= k < 208 ==> #[trigger] sb.name[k] == 0u8) {
        assert(sb.name =~= crate::drive_actions::start_block_actions::padded_name(n));
    }
    if has_name(sb, n) {
        let p = crate::drive_actions::start_block_actions::padded_name(n);
        assert forall|k: int| 0 <= k < n.len() implies #[trigger] sb.name[k] == n[k] by {
            assert(p[k] == n[k]);
        }
        assert forall|k: int| n.len() <= k < 208 implies #[trigger] sb.name[k] == 0u8 by {
            assert(p[k] == 0u8);
        }
    }
}

/// Looking a name up finds only an entry of that exact name. When looking up
/// `n` in directory `dir` finds a start block, its name bytes are those of `n`
/// followed by zero bytes; in particular, two names of which one only begins
/// the other do not find the same start block.
pub proof fn law_lookup_finds_exact_name(d: Seq<u8>, dir: u32, n: Seq<u8>, n2: Seq<u8>)
    requires
        n != n2,
        n.len() == 0 || n.last() != 0u8,
        n2.len() == 0 || n2.last() != 0u8,
    ensures
        lookup(d, dir, n) matches Ok(Some(b)) ==> {
            &&& n.len() <= 208
            &&& forall|k: int| 0 <= k < n.len() ==> #[trigger] b.name[k] == n[k]
            &&& forall|k: int| n.len() <= k < 208 ==> #[trigger] b.name[k] == 0u8
        },
        lookup(d, dir, n) matches Ok(Some(b)) ==> !(lookup(d, dir, n2) == Ok::<
            Option<StartBlockModel>,
            FsError,
        >(Some(b))),
{
    if lookup(d, dir, n) is Ok && lookup(d, dir, n)->Ok_0 is Some {
        let b = lookup(d, dir, n)->Ok_0->Some_0;
        let e = crate::drive_actions::start_block_actions::directory_entries(d, dir)->Ok_0;
        lemma_first_named_has_name(d, e, n);
        assert(has_name(b, n));
        let p = crate::drive_actions::start_block_actions::padded_name(n);
        assert forall|k: int| 0 <= k < n.len() implies #[trigger] b.name[k] == n[k] by {
            assert(p[k] == n[k]);
        }
        assert forall|k: int| n.len() <= k < 208 implies #[trigger] b.name[k] == 0u8 by {
            assert(p[k] == 0u8);
        }
        if lookup(d, dir, n2) == Ok::<Option<StartBlockModel>, FsError>(Some(b)) {
            lemma_first_named_has_name(d, e, n2);
            assert(has_name(b, n2));
            lemma_padded_names_differ(n, n2);
        }
    }
}

/// What `first_named` finds carries the name it looked for.
proof fn lemma_first_named_has_name(d: Seq<u8>, entries: Seq<u32>, n: Seq<u8>)
    ensures
        crate::drive_actions::start_block_actions::first_named(d, entries, n) matches Some(b) ==> has_name(b, n),
    decreases entries.len(),
{
    if entries.len() > 0 {
        lemma_first_named_has_name(d, entries.drop_first(), n);
    }
}

/// Two different names that do not end with a zero byte are stored as
/// different name bytes.
proof fn lemma_padded_names_differ(n: Seq<u8>, n2: Seq<u8>)
    requires
        n != n2,
        n.len() <= 208,
        n2.len() <= 208,
        n.len() == 0 || n.last() != 0u8,
        n2.len() == 0 || n2.last() != 0u8,
    ensures
        crate::drive_actions::start_block_actions::padded_name(n) != crate::drive_actions::start_block_actions::padded_name(
            n2,
        ),
{
    let p = crate::drive_actions::start_block_actions::padded_name(n);
    let p2 = crate::drive_actions::start_block_actions::padded_name(n2);
    if p == p2 {
        if n.len() < n2.len() {
            assert(p2[n2.len() - 1] == n2.last());
            assert(p[n2.len() - 1] == 0u8);
        } else if n2.len() < n.len() {
            assert(p[n.len() - 1] == n.last());
            assert(p2[n.len() - 1] == 0u8);
        } else {
            assert forall|k: int| 0 <= k < n.len() implies n[k] == n2[k] by {
                assert(p[k] == n[k] && p2[k] == n2[k]);
            }
            assert(n =~= n2);
        }
    }
}

/// Setting a file's times. After `utimens` writes back the start block at
/// `index` (one that holds its own index), the start block read there holds
/// each given time, and keeps the old one of each time not given; its owner,
/// permissions, size, name and indexes are unchanged.
pub proof fn law_utimens_sets_each_time(d: Seq<u8>, index: u32, a_time: Option<u64>, m_time: Option<u64>)
    requires
        block_readable(d, index),
        start_block_at(d, index).block_index == index,
        block_addressable(index),
    ensures
        ({
            let sb = start_block_at(d, index);
            let after = start_block_at(start_write_effect(d, times_block(sb, a_time, m_time)), index);
            &&& after.a_time == (match a_time {
                Some(t) => t,
                None => sb.a_time,
            })
            &&& after.m_time == (match m_time {
                Some(t) => t,
                None => sb.m_time,
            })
            &&& after.user_id == sb.user_id && after.group_id == sb.group_id
            &&& after.perms == sb.perms && after.size == sb.size && after.file_type == sb.file_type
            &&& after.name == sb.name && after.block_index == sb.block_index
            &&& after.first_data_block_index == sb.first_data_block_index
        }),
{
    let sb = start_block_at(d, index);
    let t = times_block(sb, a_time, m_time);
    assert(crate::drive::raw_at(d, index as int).len() == 256);
    crate::blocks::lemma_start_block_roundtrip(t);
    lemma_with_block(d, index, crate::blocks::start_block_bytes(t), index);
}

/// The start block of a new entry. What `create` and `mkdir` make (and
/// return) for a name that fits: permissions `mode`, both its access and
/// modification times `now`, owned by `uid` and `gid`, size 0, of the type
/// asked for, and the name's bytes followed by zero bytes.
pub proof fn law_new_entry_metadata(name: Seq<u8>, mode: u32, file_type: u16, now: u64, uid: u32, gid: u32)
    requires
        name.len() <= 208,
        mode <= u16::MAX,
    ensures
        ({
            let e = new_entry(name, mode, file_type, now, uid, gid, 0);
            &&& e.a_time == now && e.m_time == now
            &&& e.user_id == uid && e.group_id == gid
            &&& e.perms as u32 == mode && e.file_type == file_type && e.size == 0
            &&& has_name(e, name)
            &&& e.name.len() == 208
            &&& forall|k: int| 0 <= k < name.len() ==> #[trigger] e.name[k] == name[k]
            &&& forall|k: int| name.len() <= k < 208 ==> #[trigger] e.name[k] == 0u8
        }),
{
    let e = new_entry(name, mode, file_type, now, uid, gid, 0);
    law_name_is_exact(e, name);
}

/// A created entry holds its creation time and owner. After a successful
/// creation of `name` (under what `law_create_then_lookup` asks) by user
/// `uid` of group `gid` at time `now` with mode `mode`, looking `name` up in
/// the parent finds a start block whose access and modification times are both
/// `now`, owned by `uid` and `gid`, with permissions `mode`, size 0 and the
/// name `name`.
pub proof fn law_created_entry_metadata(
    d: Seq<u8>,
    parent: StartBlockModel,
    name: Seq<u8>,
    mode: u32,
    now: u64,
    uid: u32,
    gid: u32,
    is_directory: bool,
    r: ResultEmpty,
    d2: Seq<u8>,
)
    requires
        d.len() <= usize::MAX,
        mode <= u16::MAX,
        block_readable(d, parent.block_index),
        start_block_at(d, parent.block_index) == parent,
        chain_well_formed(d, parent.first_data_block_index),
        !chain_of(d, parent.first_data_block_index).unwrap().contains(parent.block_index),
        name.len() <= 208,
        create_ok(d, parent, new_entry(name, mode, if is_directory { 3 } else { 4 }, now, uid, gid, 0), is_directory),
        append_result(
            new_empty_effect(d, new_entry(name, mode, if is_directory { 3 } else { 4 }, now, uid, gid, 0), is_directory),
            parent,
            free_blocks(d)[0],
            r,
            d2,
        ),
        r is Ok,
        forall|k: int|
            0 <= k < listed_of(d, parent.block_index).len() ==> {
                let x = #[trigger] listed_of(d, parent.block_index)[k];
                &&& block_readable(d, x)
                &&& start_block_at(d, x).block_index == x
                &&& !chain_of(d, parent.first_data_block_index).unwrap().contains(x)
                &&& !has_name(start_block_at(d, x), name)
            },
    ensures
        lookup(d2, parent.block_index, name) matches Ok(Some(b)) && {
            &&& b.a_time == now && b.m_time == now
            &&& b.user_id == uid && b.group_id == gid
            &&& b.perms as u32 == mode && b.size == 0
            &&& b.file_type == (if is_directory { 3u16 } else { 4u16 })
            &&& forall|k: int| 0 <= k < name.len() ==> #[trigger] b.name[k] == name[k]
            &&& forall|k: int| name.len() <= k < 208 ==> #[trigger] b.name[k] == 0u8
        },
{
    let ft: u16 = if is_directory { 3 } else { 4 };
    let child = new_entry(name, mode, ft, now, uid, gid, 0);
    law_new_entry_metadata(name, mode, ft, now, uid, gid);
    law_create_then_lookup(d, parent, child, is_directory, r, d2, name);
}

/// A renamed entry carries exactly its new name. After a rename writes back
/// the entry's start block `f` with the new name `n` (of at most 208 bytes),
/// the start block read at its index holds the bytes of `n` followed by zero
/// bytes, whatever name it held before, carries the name `n`, and keeps
/// everything else.
pub proof fn law_rename_stores_new_name(d: Seq<u8>, f: StartBlockModel, n: Seq<u8>)
    requires
        n.len() <= 208,
        f.name.len() == 208,
        f.block_index != crate::blocks::NULL_INDEX,
        block_addressable(f.block_index),
    ensures
        ({
            let after = start_block_at(start_write_effect(d, renamed(f, n)), f.block_index);
            &&& forall|k: int| 0 <= k < n.len() ==> #[trigger] after.name[k] == n[k]
            &&& forall|k: int| n.len() <= k < 208 ==> #[trigger] after.name[k] == 0u8
            &&& has_name(after, n)
            &&& after.block_index == f.block_index && after.first_data_block_index == f.first_data_block_index
            &&& after.perms == f.perms && after.file_type == f.file_type && after.size == f.size
            &&& after.a_time == f.a_time && after.m_time == f.m_time
            &&& after.user_id == f.user_id && after.group_id == f.group_id
        }),
{
    let g = renamed(f, n);
    let p = crate::drive_actions::start_block_actions::padded_name(n);
    assert(g.name == p);
    assert(g.name.len() == 208);
    crate::blocks::lemma_start_block_roundtrip(g);
    lemma_with_block(d, f.block_index, crate::blocks::start_block_bytes(g), f.block_index);
    let after = start_block_at(start_write_effect(d, g), f.block_index);
    assert(after == g);
    assert forall|k: int| 0 <= k < n.len() implies #[trigger] after.name[k] == n[k] by {
        assert(p[k] == n[k]);
    }
    assert forall|k: int| n.len() <= k < 208 implies #[trigger] after.name[k] == 0u8 by {
        assert(p[k] == 0u8);
    }
}

/// Changing a file's owner. After `chown` writes back the start block at
/// `index` (one that holds its own index), the start block read there has the
/// given user id, or the old one when none is given, and likewise the given
/// group id; its permissions, times, size, name and indexes are unchanged.
pub proof fn law_chown_sets_each_owner(d: Seq<u8>, index: u32, new_uid: Option<u32>, new_gid: Option<u32>)
    requires
        block_readable(d, index),
        start_block_at(d, index).block_index == index,
        block_addressable(index),
    ensures
        ({
            let sb = start_block_at(d, index);
            let after = start_block_at(start_write_effect(d, chown_block(sb, new_uid, new_gid)), index);
            &&& after.user_id == (match new_uid {
                Some(u) => u,
                None => sb.user_id,
            })
            &&& after.group_id == (match new_gid {
                Some(g) => g,
                None => sb.group_id,
            })
            &&& after.a_time == sb.a_time && after.m_time == sb.m_time
            &&& after.perms == sb.perms && after.size == sb.size && after.file_type == sb.file_type
            &&& after.name == sb.name && after.block_index == sb.block_index
            &&& after.first_data_block_index == sb.first_data_block_index
        }),
{
    let sb = start_block_at(d, index);
    let t = chown_block(sb, new_uid, new_gid);
    assert(crate::drive::raw_at(d, index as int).len() == 256);
    crate::blocks::lemma_start_block_roundtrip(t);
    lemma_with_block(d, index, crate::blocks::start_block_bytes(t), index);
}

/// The kind a listing gives for each file type: a directory exactly for type
/// 3 (what `mkdir` makes), a named pipe for 1, a character device for 2, a
/// symbolic link for 5, a socket for 6, and a regular file for type 4 (what
/// `create` makes) and every other type.
pub proof fn law_kind_of_file_type(t: u16)
    ensures
        kind_of_file_type(t) == FileKind::Directory <==> t == 3,
        kind_of_file_type(t) == FileKind::NamedPipe <==> t == 1,
        kind_of_file_type(t) == FileKind::CharDevice <==> t == 2,
        kind_of_file_type(t) == FileKind::Symlink <==> t == 5,
        kind_of_file_type(t) == FileKind::Socket <==> t == 6,
        kind_of_file_type(t) == FileKind::RegularFile <==> (t == 4 || t == 0 || t > 6),
{
}

} // verus!
