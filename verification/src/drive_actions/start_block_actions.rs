//! Finding the start block of a file or directory by its name in a directory,
//! or by its path from the root directory (block 1).
use vstd::prelude::*;
use vstd::string::StringSliceAdditionalSpecFns;
use crate::blocks::{StartBlock, StartBlockModel, lemma_start_block_name_len};
use crate::drive::{Drive, block_readable};
use crate::results::{FsError, ResultStartBlockOption};
use crate::drive_actions::block_actions::{start_block_at, start_block_read};
use crate::drive_actions::data_block_actions::{
    blocks_content, entries_of, get_directory_data_from_start_block_index, listed_entries, read_start_chain,
    start_chain_ok,
};

verus! {

broadcast use lemma_start_block_name_len;

/// The 208 name bytes that store `name`: its bytes followed by zero bytes.
pub open spec fn padded_name(name: Seq<u8>) -> Seq<u8> {
    name + Seq::new((208 - name.len()) as nat, |_k: int| 0u8)
}

/// Start block `sb` carries the name `name`.
pub open spec fn has_name(sb: StartBlockModel, name: Seq<u8>) -> bool {
    name.len() <= 208 && sb.name == padded_name(name)
}

/// The first of the start blocks at `entries` that carries `name`.
pub open spec fn first_named(d: Seq<u8>, entries: Seq<u32>, name: Seq<u8>) -> Option<StartBlockModel>
    decreases entries.len(),
{
    if entries.len() == 0 {
        None
    } else if has_name(start_block_at(d, entries[0]), name) {
        Some(start_block_at(d, entries[0]))
    } else {
        first_named(d, entries.drop_first(), name)
    }
}

/// The entries of the directory whose start block is block `dir`.
pub open spec fn directory_entries(d: Seq<u8>, dir: u32) -> Result<Seq<u32>, FsError> {
    match read_start_chain(d, dir) {
        Ok(s) => Ok(listed_entries(entries_of(blocks_content(s)))),
        Err(e) => Err(e),
    }
}

/// Looking up a name in directory `dir` runs without panic: its chain can be
/// read and so can the start block of each of its entries.
pub open spec fn lookup_ok(d: Seq<u8>, dir: u32) -> bool {
    &&& start_chain_ok(d, dir)
    &&& directory_entries(d, dir) matches Ok(e) ==> forall|k: int|
        0 <= k < e.len() ==> block_readable(d, #[trigger] e[k])
}

/// What looking up `name` in directory `dir` gives: the first entry that
/// carries the name, if any.
pub open spec fn lookup(d: Seq<u8>, dir: u32, name: Seq<u8>) -> Result<Option<StartBlockModel>, FsError> {
    match directory_entries(d, dir) {
        Ok(e) => Ok(first_named(d, e, name)),
        Err(e) => Err(e),
    }
}

/// A found start block (or none, or an error) matches its model.
pub open spec fn matches_found(r: ResultStartBlockOption, m: Result<Option<StartBlockModel>, FsError>) -> bool {
    match (r, m) {
        (Ok(Some(b)), Ok(Some(sb))) => b@ == sb,
        (Ok(None), Ok(None)) => true,
        (Err(e1), Err(e2)) => e1 == e2,
        _ => false,
    }
}

/// Whether start block `start_block` carries the name `name`.
fn name_matches(start_block: &StartBlock, name: &[u8]) -> (r: bool)
    ensures
        r == has_name(start_block@, name@),
{
    if name.len() > 208 {
        return false;
    }
    let stored = start_block.get_raw_name();
    let ghost p = padded_name(name@);
    for i in 0..208
        invariant
            name@.len() <= 208,
            stored@ == start_block@.name,
            p == padded_name(name@),
            forall|k: int| 0 <= k < i ==> stored@[k] == p[k],
    {
        let expected: u8 = if i < name.len() {
            name[i]
        } else {
            0u8
        };
        assert(expected == p[i as int]);
        if stored[i] != expected {
            return false;
        }
    }
    assert(stored@ =~= p);
    true
}

/// Finds the start block that carries `name` among the entries of the
/// directory whose start block is block `directory_start_block_index`.
fn get_start_block_from_name_and_directory_start_block_index(
    drive_file: &Drive,
    directory_start_block_index: u32,
    name: &[u8],
) -> (r: ResultStartBlockOption)
    requires
        lookup_ok(drive_file@, directory_start_block_index),
    ensures
        matches_found(r, lookup(drive_file@, directory_start_block_index, name@)),
{
    let ghost d = drive_file@;
    let directory_data = get_directory_data_from_start_block_index(drive_file, directory_start_block_index)?;
    let ghost e = directory_data@;
    assert(directory_entries(d, directory_start_block_index) == Ok::<Seq<u32>, FsError>(e));
    assert(lookup(d, directory_start_block_index, name@) == Ok::<Option<StartBlockModel>, FsError>(first_named(d, e, name@)));
    assert(e.skip(0) =~= e);
    for i in 0..directory_data.len()
        invariant
            d == drive_file@,
            e == directory_data@,
            forall|k: int| 0 <= k < e.len() ==> block_readable(d, #[trigger] e[k]),
            lookup(d, directory_start_block_index, name@) == Ok::<Option<StartBlockModel>, FsError>(
                first_named(d, e, name@),
            ),
            first_named(d, e, name@) == first_named(d, e.skip(i as int), name@),
    {
        let current_start_block = start_block_read(drive_file, directory_data[i])?;
        assert(e.skip(i as int)[0] == e[i as int]);
        if name_matches(&current_start_block, name) {
            assert(first_named(d, e.skip(i as int), name@) == Some(start_block_at(d, e[i as int])));
            return Ok(Some(current_start_block));
        }
        assert(e.skip(i as int).drop_first() =~= e.skip(i + 1));
    }
    assert(e.skip(e.len() as int).len() == 0);
    Ok(None)
}

/// `p` holds no `/` byte.
pub open spec fn slash_free(p: Seq<u8>) -> bool {
    forall|j: int| 0 <= j < p.len() ==> p[j] != 47u8
}

/// The position of the first `/` byte of `p`.
pub open spec fn first_slash(p: Seq<u8>) -> int {
    choose|i: int| 0 <= i < p.len() && p[i] == 47u8 && slash_free(p.take(i))
}

/// The pieces of path `p` between its `/` bytes, at most `n` of them: the last
/// piece keeps the rest of the path (what `str::splitn` gives).
#[verifier::opaque]
pub open spec fn split_path(p: Seq<u8>, n: nat) -> Seq<Seq<u8>>
    decreases p.len(),
{
    if n <= 1 || slash_free(p) {
        seq![p]
    } else {
        let i = first_slash(p);
        if 0 <= i < p.len() {
            seq![p.take(i)] + split_path(p.skip(i + 1), (n - 1) as nat)
        } else {
            seq![p]
        }
    }
}

/// A path without `/` bytes, or one cut into a last piece, is a single piece.
pub proof fn lemma_split_single(p: Seq<u8>, n: nat)
    requires
        n <= 1 || slash_free(p),
    ensures
        split_path(p, n) == seq![p],
{
    reveal(split_path);
}

/// A path whose first `/` byte is at `i` gives the bytes before it, then the
/// pieces of the bytes after it.
pub proof fn lemma_split_step(p: Seq<u8>, n: nat, i: int)
    requires
        n >= 2,
        0 <= i < p.len(),
        p[i] == 47u8,
        slash_free(p.take(i)),
    ensures
        split_path(p, n) == seq![p.take(i)] + split_path(p.skip(i + 1), (n - 1) as nat),
{
    reveal(split_path);
    assert(!slash_free(p));
    let c = first_slash(p);
    assert(0 <= c < p.len() && p[c] == 47u8 && slash_free(p.take(c)));
    if c < i {
        assert(p.take(i)[c] == p[c]);
    }
    if c > i {
        assert(p.take(c)[i] == p[i]);
    }
}

/// The views of a vector of byte vectors.
pub open spec fn byte_views(v: Seq<Vec<u8>>) -> Seq<Seq<u8>> {
    v.map_values(|b: Vec<u8>| b@)
}

/// Bytes `a .. b` of `p`.
fn copy_range(p: &[u8], a: usize, b: usize) -> (r: Vec<u8>)
    requires
        a <= b <= p@.len(),
    ensures
        r@ == p@.subrange(a as int, b as int),
{
    let mut v: Vec<u8> = Vec::new();
    for k in a..b
        invariant
            a <= b <= p@.len(),
            v@ == p@.subrange(a as int, k as int),
    {
        v.push(p[k]);
        assert(v@ =~= p@.subrange(a as int, k + 1));
    }
    v
}

/// Splits path `p` at its `/` bytes into at most `n` pieces.
fn split_path_bytes(p: &[u8], n: usize) -> (r: Vec<Vec<u8>>)
    requires
        n >= 1,
    ensures
        byte_views(r@) == split_path(p@, n as nat),
{
    let mut pieces: Vec<Vec<u8>> = Vec::new();
    let mut start: usize = 0;
    let len = p.len();
    assert(p@.skip(0) =~= p@);
    assert(byte_views(pieces@) =~= Seq::<Seq<u8>>::empty());
    loop
        invariant
            len == p@.len(),
            start <= len,
            pieces@.len() < n,
            byte_views(pieces@) + split_path(p@.skip(start as int), (n - pieces@.len()) as nat) == split_path(
                p@,
                n as nat,
            ),
        decreases len - start,
    {
        let ghost rest = p@.skip(start as int);
        let mut j = start;
        while j < len && p[j] != 47u8
            invariant
                start <= j <= len,
                len == p@.len(),
                forall|t: int| start <= t < j ==> p@[t] != 47u8,
            decreases len - j,
        {
            j = j + 1;
        }
        let ghost m = (n - pieces@.len()) as nat;
        if pieces.len() + 1 == n || j == len {
            proof {
                if j == len {
                    assert forall|t: int| 0 <= t < rest.len() implies rest[t] != 47u8 by {
                        assert(rest[t] == p@[start + t]);
                    }
                }
                lemma_split_single(rest, m);
            }
            let piece = copy_range(p, start, len);
            let ghost before = pieces@;
            pieces.push(piece);
            proof {
                assert(p@.subrange(start as int, len as int) =~= rest);
                assert(byte_views(pieces@) =~= byte_views(before) + seq![rest]);
            }
            return pieces;
        }
        let ghost i = (j - start) as int;
        proof {
            assert(rest[i] == 47u8);
            assert forall|t: int| 0 <= t < i implies rest.take(i)[t] != 47u8 by {
                assert(rest.take(i)[t] == p@[start + t]);
            }
            lemma_split_step(rest, m, i);
            assert(rest.skip(i + 1) =~= p@.skip(j + 1));
            assert(rest.take(i) =~= p@.subrange(start as int, j as int));
        }
        let piece = copy_range(p, start, j);
        let ghost before = pieces@;
        pieces.push(piece);
        proof {
            assert(byte_views(pieces@) =~= byte_views(before) + seq![rest.take(i)]);
            assert(byte_views(pieces@) + split_path(p@.skip(j + 1), (n - pieces@.len()) as nat) =~= byte_views(
                before,
            ) + (seq![rest.take(i)] + split_path(rest.skip(i + 1), (m - 1) as nat)));
        }
        start = j + 1;
    }
}

/// What walking the components `comps` from position `k` on gives, starting at
/// the start block `cur`. Empty components (from a leading, doubled or trailing
/// `/`) are passed over; every other one is looked up in the directory reached
/// so far. A component that is not found means the path names nothing; when
/// the components run out, the walk gives the start block reached.
pub open spec fn walk(d: Seq<u8>, comps: Seq<Seq<u8>>, k: int, cur: StartBlockModel) -> Result<
    Option<StartBlockModel>,
    FsError,
>
    decreases comps.len() - k,
{
    if k < 0 || k >= comps.len() {
        Ok(Some(cur))
    } else if comps[k].len() == 0 {
        walk(d, comps, k + 1, cur)
    } else {
        match lookup(d, cur.block_index, comps[k]) {
            Err(e) => Err(e),
            Ok(None) => Ok(None),
            Ok(Some(b)) => walk(d, comps, k + 1, b),
        }
    }
}

/// The walk of `walk` runs without panic.
pub open spec fn walk_ok(d: Seq<u8>, comps: Seq<Seq<u8>>, k: int, cur: StartBlockModel) -> bool
    decreases comps.len() - k,
{
    0 <= k < comps.len() ==> if comps[k].len() == 0 {
        walk_ok(d, comps, k + 1, cur)
    } else {
        &&& lookup_ok(d, cur.block_index)
        &&& lookup(d, cur.block_index, comps[k]) matches Ok(Some(b)) ==> walk_ok(d, comps, k + 1, b)
    }
}

/// The components of path `p`: its pieces between `/` bytes, at most 20.
pub open spec fn path_components(p: Seq<u8>) -> Seq<Seq<u8>> {
    split_path(p, 20)
}

/// What resolving path `p` gives: the walk of its components from the root
/// directory's start block (block 1).
pub open spec fn resolve_path(d: Seq<u8>, p: Seq<u8>) -> Result<Option<StartBlockModel>, FsError> {
    walk(d, path_components(p), 0, start_block_at(d, 1))
}

/// Resolving path `p` runs without panic.
pub open spec fn resolve_ok(d: Seq<u8>, p: Seq<u8>) -> bool {
    &&& block_readable(d, 1)
    &&& walk_ok(d, path_components(p), 0, start_block_at(d, 1))
}

/// The start block of the file or directory at `path`, walking from the root
/// directory (block 1) one component at a time. `Ok(None)` when a component
/// is not found.
pub fn get_start_block_from_path(drive_file: &Drive, path: &str) -> (r: ResultStartBlockOption)
    requires
        resolve_ok(drive_file@, path.spec_bytes()),
    ensures
        matches_found(r, resolve_path(drive_file@, path.spec_bytes())),
{
    let ghost d = drive_file@;
    let p = path.as_bytes();
    let name_list = split_path_bytes(p, 20);
    let ghost comps = byte_views(name_list@);
    assert(comps.len() == name_list@.len());
    let mut current = start_block_read(drive_file, 1)?;
    let ghost root = current@;
    for k in 0..name_list.len()
        invariant
            d == drive_file@,
            comps == byte_views(name_list@),
            comps == path_components(p@),
            p@ == path.spec_bytes(),
            root == start_block_at(d, 1),
            walk(d, comps, 0, root) == walk(d, comps, k as int, current@),
            walk_ok(d, comps, k as int, current@),
    {
        assert(name_list[k as int]@ == comps[k as int]);
        if name_list[k].len() != 0 {
            let found = get_start_block_from_name_and_directory_start_block_index(
                drive_file,
                *current.get_block_index(),
                name_list[k].as_slice(),
            );
            match found {
                Err(e) => {
                    return Err(e);
                },
                Ok(None) => {
                    return Ok(None);
                },
                Ok(Some(block)) => {
                    current = block;
                },
            }
        }
    }
    Ok(Some(current))
}

} // verus!
