//! The three kinds of block: start blocks (metadata), data blocks (content and
//! the link to the next block) and raw blocks (the 256 bytes on the drive).
//!
//! Layout of a start block:
//!   0x00..0x04 block index, 0x04..0x08 first data block index,
//!   0x08..0x0A permissions, 0x0A..0x0C file type, 0x0C..0x10 padding (zero),
//!   0x10..0x18 access time, 0x18..0x20 modification time,
//!   0x20..0x24 user id, 0x24..0x28 group id, 0x28..0x30 size,
//!   0x30..0x100 name.
//! Layout of a data block:
//!   0x00..0x04 block index, 0x04..0xFC data, 0xFC..0x100 next block index.
//! All integers are stored in native byte order; the null block index is
//! `u32::MAX`.
use vstd::prelude::*;
use vstd::string::StringSliceAdditionalSpecFns;
use crate::ne_bytes::{
    group_ne_bytes, u16_from_ne, u16_ne_bytes, u16_of_ne, u16_to_ne, u32_from_ne, u32_ne_bytes, u32_of_ne,
    u32_to_ne, u64_from_ne, u64_ne_bytes, u64_of_ne, u64_to_ne,
};

verus! {

broadcast use group_ne_bytes;

/// Number of bytes in every block.
pub const BLOCK_SIZE: usize = 256;

/// Number of content bytes in a data block.
pub const DATA_SIZE: usize = 248;

/// Number of bytes of a name in a start block.
pub const NAME_SIZE: usize = 208;

/// The block index that stands for "no block".
pub const NULL_INDEX: u32 = 0xFFFF_FFFFu32;

/// `s` with the bytes from position `at` on replaced by `new`; positions past the
/// end of `s` are dropped, so the length stays that of `s`.
pub open spec fn overwrite(s: Seq<u8>, at: int, new: Seq<u8>) -> Seq<u8> {
    Seq::new(s.len(), |k: int| if at <= k < at + new.len() { new[k - at] } else { s[k] })
}

/// The metadata that a start block holds.
pub struct StartBlockModel {
    pub block_index: u32,
    pub first_data_block_index: u32,
    pub perms: u16,
    pub file_type: u16,
    pub a_time: u64,
    pub m_time: u64,
    pub user_id: u32,
    pub group_id: u32,
    pub size: u64,
    pub name: Seq<u8>,
}

/// What a data block holds.
pub struct DataBlockModel {
    pub block_index: u32,
    pub data: Seq<u8>,
    pub next_block_index: u32,
}

/// The 256 bytes that store a start block.
pub open spec fn start_block_bytes(m: StartBlockModel) -> Seq<u8> {
    u32_ne_bytes(m.block_index) + u32_ne_bytes(m.first_data_block_index) + u16_ne_bytes(m.perms)
        + u16_ne_bytes(m.file_type) + seq![0u8, 0u8, 0u8, 0u8] + u64_ne_bytes(m.a_time)
        + u64_ne_bytes(m.m_time) + u32_ne_bytes(m.user_id) + u32_ne_bytes(m.group_id)
        + u64_ne_bytes(m.size) + m.name
}

/// The start block that 256 bytes hold (the padding is not read).
pub open spec fn start_block_of_bytes(b: Seq<u8>) -> StartBlockModel {
    StartBlockModel {
        block_index: u32_of_ne(b.subrange(0, 4)),
        first_data_block_index: u32_of_ne(b.subrange(4, 8)),
        perms: u16_of_ne(b.subrange(8, 10)),
        file_type: u16_of_ne(b.subrange(10, 12)),
        a_time: u64_of_ne(b.subrange(16, 24)),
        m_time: u64_of_ne(b.subrange(24, 32)),
        user_id: u32_of_ne(b.subrange(32, 36)),
        group_id: u32_of_ne(b.subrange(36, 40)),
        size: u64_of_ne(b.subrange(40, 48)),
        name: b.subrange(48, 256),
    }
}

/// The 256 bytes that store a data block.
pub open spec fn data_block_bytes(m: DataBlockModel) -> Seq<u8> {
    u32_ne_bytes(m.block_index) + m.data + u32_ne_bytes(m.next_block_index)
}

/// The data block that 256 bytes hold.
pub open spec fn data_block_of_bytes(b: Seq<u8>) -> DataBlockModel {
    DataBlockModel {
        block_index: u32_of_ne(b.subrange(0, 4)),
        data: b.subrange(4, 252),
        next_block_index: u32_of_ne(b.subrange(252, 256)),
    }
}

/// Storing a data block and reading it back gives the same data block.
pub proof fn lemma_data_block_roundtrip(m: DataBlockModel)
    requires
        m.data.len() == 248,
    ensures
        data_block_bytes(m).len() == 256,
        data_block_of_bytes(data_block_bytes(m)) == m,
{
    let b = data_block_bytes(m);
    assert(b.subrange(0, 4) =~= u32_ne_bytes(m.block_index));
    assert(b.subrange(4, 252) =~= m.data);
    assert(b.subrange(252, 256) =~= u32_ne_bytes(m.next_block_index));
}

/// Reading a data block out of 256 bytes and storing it gives the same bytes.
pub proof fn lemma_data_block_bytes_roundtrip(b: Seq<u8>)
    requires
        b.len() == 256,
    ensures
        data_block_of_bytes(b).data.len() == 248,
        data_block_bytes(data_block_of_bytes(b)) == b,
{
    assert(data_block_bytes(data_block_of_bytes(b)) =~= b);
}

/// Storing a start block and reading it back gives the same start block.
pub proof fn lemma_start_block_roundtrip(m: StartBlockModel)
    requires
        m.name.len() == 208,
    ensures
        start_block_bytes(m).len() == 256,
        start_block_of_bytes(start_block_bytes(m)) == m,
{
    let b = start_block_bytes(m);
    assert(b.subrange(0, 4) =~= u32_ne_bytes(m.block_index));
    assert(b.subrange(4, 8) =~= u32_ne_bytes(m.first_data_block_index));
    assert(b.subrange(8, 10) =~= u16_ne_bytes(m.perms));
    assert(b.subrange(10, 12) =~= u16_ne_bytes(m.file_type));
    assert(b.subrange(16, 24) =~= u64_ne_bytes(m.a_time));
    assert(b.subrange(24, 32) =~= u64_ne_bytes(m.m_time));
    assert(b.subrange(32, 36) =~= u32_ne_bytes(m.user_id));
    assert(b.subrange(36, 40) =~= u32_ne_bytes(m.group_id));
    assert(b.subrange(40, 48) =~= u64_ne_bytes(m.size));
    assert(b.subrange(48, 256) =~= m.name);
}

/// Reading a start block out of 256 bytes and storing it gives the same
/// bytes, but for the four padding bytes, which become zero.
pub proof fn lemma_start_block_bytes_roundtrip(b: Seq<u8>)
    requires
        b.len() == 256,
    ensures
        start_block_of_bytes(b).name.len() == 208,
        start_block_bytes(start_block_of_bytes(b)) == overwrite(b, 12, seq![0u8, 0u8, 0u8, 0u8]),
{
    assert(start_block_bytes(start_block_of_bytes(b)) =~= overwrite(b, 12, seq![0u8, 0u8, 0u8, 0u8]));
}

/// Holds all the metadata of a file or directory.
#[derive(Clone, Copy)]
pub struct StartBlock {
    block_index: u32,
    first_data_block_index: u32,
    perms: u16,
    file_type: u16,
    a_time: u64,
    m_time: u64,
    user_id: u32,
    group_id: u32,
    size: u64,
    name: [u8; 208],
}

/// Holds 248 bytes of content and the index of the next block of its chain.
#[derive(Clone, Copy)]
pub struct DataBlock {
    block_index: u32,
    data: [u8; 248],
    next_block_index: u32,
}

/// The 256 bytes of a block as they are stored on the drive.
#[derive(Clone, Copy)]
pub struct RawBlock {
    pub data: [u8; 256],
}

/// A block index with the 252 bytes that follow it in a block.
#[derive(Clone, Copy)]
pub struct RawBlockWithIndex {
    pub block_index: u32,
    pub data: [u8; 252],
}

impl View for StartBlock {
    type V = StartBlockModel;

    closed spec fn view(&self) -> StartBlockModel {
        StartBlockModel {
            block_index: self.block_index,
            first_data_block_index: self.first_data_block_index,
            perms: self.perms,
            file_type: self.file_type,
            a_time: self.a_time,
            m_time: self.m_time,
            user_id: self.user_id,
            group_id: self.group_id,
            size: self.size,
            name: self.name@,
        }
    }
}

impl View for DataBlock {
    type V = DataBlockModel;

    closed spec fn view(&self) -> DataBlockModel {
        DataBlockModel {
            block_index: self.block_index,
            data: self.data@,
            next_block_index: self.next_block_index,
        }
    }
}

/// Calls `String::from_utf8`: `Some` exactly when `bytes` is valid UTF-8, and
/// then the string of the characters that the bytes encode.
#[verifier::external_body]
fn utf8_to_string(bytes: Vec<u8>) -> (r: Option<String>)
    ensures
        r is Some <==> vstd::utf8::valid_utf8(bytes@),
        r matches Some(s) ==> s@ == vstd::utf8::decode_utf8(bytes@),
{
    String::from_utf8(bytes).ok()
}

impl StartBlock {
    /// Two start blocks with the same metadata are the same value.
    pub proof fn lemma_view_injective(a: StartBlock, b: StartBlock)
        requires
            a@ == b@,
        ensures
            a == b,
    {
        assert(a.name =~= b.name);
    }

    pub fn new(
        block_index: u32,
        first_data_block_index: u32,
        perms: u16,
        file_type: u16,
        a_time: u64,
        m_time: u64,
        user_id: u32,
        group_id: u32,
        size: u64,
        name: [u8; 208],
    ) -> (r: Self)
        ensures
            r@ == (StartBlockModel {
                block_index,
                first_data_block_index,
                perms,
                file_type,
                a_time,
                m_time,
                user_id,
                group_id,
                size,
                name: name@,
            }),
    {
        Self {
            block_index,
            first_data_block_index,
            perms,
            file_type,
            a_time,
            m_time,
            user_id,
            group_id,
            size,
            name,
        }
    }

    pub fn get_block_index(&self) -> (r: &u32)
        ensures
            *r == self@.block_index,
    {
        &self.block_index
    }

    pub fn get_first_data_block_index(&self) -> (r: &u32)
        ensures
            *r == self@.first_data_block_index,
    {
        &self.first_data_block_index
    }

    pub fn get_perms(&self) -> (r: &u16)
        ensures
            *r == self@.perms,
    {
        &self.perms
    }

    pub fn get_file_type(&self) -> (r: &u16)
        ensures
            *r == self@.file_type,
    {
        &self.file_type
    }

    pub fn get_a_time(&self) -> (r: &u64)
        ensures
            *r == self@.a_time,
    {
        &self.a_time
    }

    pub fn get_m_time(&self) -> (r: &u64)
        ensures
            *r == self@.m_time,
    {
        &self.m_time
    }

    pub fn get_user_id(&self) -> (r: &u32)
        ensures
            *r == self@.user_id,
    {
        &self.user_id
    }

    pub fn get_group_id(&self) -> (r: &u32)
        ensures
            *r == self@.group_id,
    {
        &self.group_id
    }

    pub fn get_size(&self) -> (r: &u64)
        ensures
            *r == self@.size,
    {
        &self.size
    }

    pub fn get_raw_name(&self) -> (r: [u8; 208])
        ensures
            r@ == self@.name,
    {
        self.name
    }

    /// The name as a string of all its 208 bytes (trailing zero bytes included).
    pub fn get_name(&self) -> (r: String)
        requires
            vstd::utf8::valid_utf8(self@.name),
        ensures
            r@ == vstd::utf8::decode_utf8(self@.name),
    {
        let mut bytes: Vec<u8> = Vec::new();
        for i in 0..208
            invariant
                bytes@ == self.name@.subrange(0, i as int),
        {
            bytes.push(self.name[i]);
            assert(bytes@ =~= self.name@.subrange(0, i + 1));
        }
        assert(bytes@ =~= self.name@);
        match utf8_to_string(bytes) {
            Some(s) => s,
            None => {
                assert(false);
                String::new()
            },
        }
    }

    /// Whether the name is valid UTF-8, that is whether `get_name` may be called.
    pub fn has_utf8_name(&self) -> (r: bool)
        ensures
            r == vstd::utf8::valid_utf8(self@.name),
    {
        let mut bytes: Vec<u8> = Vec::new();
        for i in 0..208
            invariant
                bytes@ == self.name@.subrange(0, i as int),
        {
            bytes.push(self.name[i]);
            assert(bytes@ =~= self.name@.subrange(0, i + 1));
        }
        assert(bytes@ =~= self.name@);
        utf8_to_string(bytes).is_some()
    }

    pub fn set_block_index(&mut self, new_index: u32)
        ensures
            final(self)@ == (StartBlockModel { block_index: new_index, ..old(self)@ }),
    {
        self.block_index = new_index
    }

    pub fn set_first_data_block_index(&mut self, new_index: u32)
        ensures
            final(self)@ == (StartBlockModel { first_data_block_index: new_index, ..old(self)@ }),
    {
        self.first_data_block_index = new_index
    }

    pub fn set_perms(&mut self, new_perms: u16)
        ensures
            final(self)@ == (StartBlockModel { perms: new_perms, ..old(self)@ }),
    {
        self.perms = new_perms
    }

    pub fn set_file_type(&mut self, new_file_type: u16)
        ensures
            final(self)@ == (StartBlockModel { file_type: new_file_type, ..old(self)@ }),
    {
        self.file_type = new_file_type
    }

    pub fn set_a_time(&mut self, new_a_time: u64)
        ensures
            final(self)@ == (StartBlockModel { a_time: new_a_time, ..old(self)@ }),
    {
        self.a_time = new_a_time
    }

    pub fn set_m_time(&mut self, new_m_time: u64)
        ensures
            final(self)@ == (StartBlockModel { m_time: new_m_time, ..old(self)@ }),
    {
        self.m_time = new_m_time
    }

    pub fn set_user_id(&mut self, new_user_id: u32)
        ensures
            final(self)@ == (StartBlockModel { user_id: new_user_id, ..old(self)@ }),
    {
        self.user_id = new_user_id
    }

    pub fn set_group_id(&mut self, new_group_id: u32)
        ensures
            final(self)@ == (StartBlockModel { group_id: new_group_id, ..old(self)@ }),
    {
        self.group_id = new_group_id
    }

    pub fn set_size(&mut self, new_size: u64)
        ensures
            final(self)@ == (StartBlockModel { size: new_size, ..old(self)@ }),
    {
        self.size = new_size
    }

    pub fn set_raw_name(&mut self, new_raw_name: [u8; 208])
        ensures
            final(self)@ == (StartBlockModel { name: new_raw_name@, ..old(self)@ }),
    {
        self.name = new_raw_name
    }

    /// Sets the name from a string whose UTF-8 encoding is exactly 208 bytes long.
    pub fn set_name(&mut self, new_name: &str)
        requires
            new_name.spec_bytes().len() == 208,
        ensures
            final(self)@ == (StartBlockModel { name: new_name.spec_bytes(), ..old(self)@ }),
    {
        let bytes = new_name.as_bytes();
        let mut arr: [u8; 208] = [0u8; 208];
        for i in 0..208
            invariant
                bytes@ == new_name.spec_bytes(),
                bytes@.len() == 208,
                arr@.len() == 208,
                forall|k: int| 0 <= k < i ==> arr@[k] == bytes@[k],
        {
            arr[i] = bytes[i];
        }
        assert(arr@ =~= bytes@);
        self.name = arr;
    }
}

/// The content of every data block is 248 bytes long.
pub broadcast proof fn lemma_data_block_len(b: DataBlock)
    ensures
        #[trigger] b@.data.len() == 248,
{
}

/// The name of every start block is 208 bytes long.
pub broadcast proof fn lemma_start_block_name_len(b: StartBlock)
    ensures
        #[trigger] b@.name.len() == 208,
{
}

impl DataBlock {
    /// Two data blocks with the same model are the same value.
    pub proof fn lemma_view_injective(a: DataBlock, b: DataBlock)
        requires
            a@ == b@,
        ensures
            a == b,
    {
        assert(a.data =~= b.data);
    }

    pub fn new(block_index: u32, data: [u8; 248], next_block_index: u32) -> (r: Self)
        ensures
            r@ == (DataBlockModel { block_index, data: data@, next_block_index }),
    {
        Self { block_index, data, next_block_index }
    }

    /// An empty directory block: every entry slot holds the null index.
    pub fn new_plain_dir(block_index: u32) -> (r: Self)
        ensures
            r@ == (DataBlockModel {
                block_index,
                data: Seq::new(248, |i: int| 255u8),
                next_block_index: NULL_INDEX,
            }),
    {
        let r = Self { block_index, data: [255u8; 248], next_block_index: u32::MAX };
        assert(r.data@ =~= Seq::new(248, |i: int| 255u8));
        r
    }

    /// An empty file block: all content bytes are zero.
    pub fn new_plain_file(block_index: u32) -> (r: Self)
        ensures
            r@ == (DataBlockModel {
                block_index,
                data: Seq::new(248, |i: int| 0u8),
                next_block_index: NULL_INDEX,
            }),
    {
        let r = Self { block_index, data: [0u8; 248], next_block_index: u32::MAX };
        assert(r.data@ =~= Seq::new(248, |i: int| 0u8));
        r
    }

    pub fn new_plain(block_index: u32, is_directory: bool) -> (r: Self)
        ensures
            r@ == plain_block(block_index, is_directory),
    {
        match is_directory {
            true => Self::new_plain_dir(block_index),
            false => Self::new_plain_file(block_index),
        }
    }

    pub fn get_block_index(&self) -> (r: &u32)
        ensures
            *r == self@.block_index,
    {
        &self.block_index
    }

    pub fn get_data(&self) -> (r: &[u8; 248])
        ensures
            r@ == self@.data,
    {
        &self.data
    }

    pub fn get_next_block_index(&self) -> (r: &u32)
        ensures
            *r == self@.next_block_index,
    {
        &self.next_block_index
    }

    pub fn set_block_index(&mut self, new_index: u32)
        ensures
            final(self)@ == (DataBlockModel { block_index: new_index, ..old(self)@ }),
    {
        self.block_index = new_index
    }

    pub fn set_next_block_index(&mut self, new_index: u32)
        ensures
            final(self)@ == (DataBlockModel { next_block_index: new_index, ..old(self)@ }),
    {
        self.next_block_index = new_index
    }

    /// Writes `new_data` into the content from position `offset` on; fails, and
    /// changes nothing, when the bytes would not all fit in the 248 content bytes.
    pub fn set_data(&mut self, new_data: Vec<u8>, offset: usize) -> (r: Result<u32, &'static str>)
        requires
            offset + new_data@.len() <= usize::MAX,
        ensures
            offset + new_data@.len() > 248 ==> {
                &&& r matches Err(e) && e@ == "trying to write outside of block"@
                &&& final(self)@ == old(self)@
            },
            offset + new_data@.len() <= 248 ==> {
                &&& r == Ok::<u32, &'static str>(20)
                &&& final(self)@ == (DataBlockModel {
                    data: overwrite(old(self)@.data, offset as int, new_data@),
                    ..old(self)@
                })
            },
    {
        if offset + new_data.len() > 248 {
            return Err("trying to write outside of block");
        }
        let ghost old_data = self.data@;
        for i in 0..new_data.len()
            invariant
                offset + new_data@.len() <= 248,
                self.block_index == old(self).block_index,
                self.next_block_index == old(self).next_block_index,
                self.data@.len() == 248,
                forall|k: int|
                    0 <= k < 248 ==> self.data@[k] == (if offset <= k < offset + i {
                        new_data@[k - offset]
                    } else {
                        old_data[k]
                    }),
        {
            self.data[i + offset] = new_data[i];
        }
        assert(self.data@ =~= overwrite(old_data, offset as int, new_data@));
        Ok(20)
    }
}


/// The 2 bytes of `src` from position `at` on.
fn bytes_at_2(src: &[u8; 256], at: usize) -> (r: [u8; 2])
    requires
        at + 2 <= 256,
    ensures
        r@ == src@.subrange(at as int, at + 2),
{
    let mut r: [u8; 2] = [0u8; 2];
    for i in 0..2
        invariant
            at + 2 <= 256,
            r@.len() == 2,
            forall|k: int| 0 <= k < i ==> r@[k] == src@[at + k],
    {
        r[i] = src[at + i];
    }
    assert(r@ =~= src@.subrange(at as int, at + 2));
    r
}

/// The 4 bytes of `src` from position `at` on.
fn bytes_at_4(src: &[u8; 256], at: usize) -> (r: [u8; 4])
    requires
        at + 4 <= 256,
    ensures
        r@ == src@.subrange(at as int, at + 4),
{
    let mut r: [u8; 4] = [0u8; 4];
    for i in 0..4
        invariant
            at + 4 <= 256,
            r@.len() == 4,
            forall|k: int| 0 <= k < i ==> r@[k] == src@[at + k],
    {
        r[i] = src[at + i];
    }
    assert(r@ =~= src@.subrange(at as int, at + 4));
    r
}

/// The 8 bytes of `src` from position `at` on.
fn bytes_at_8(src: &[u8; 256], at: usize) -> (r: [u8; 8])
    requires
        at + 8 <= 256,
    ensures
        r@ == src@.subrange(at as int, at + 8),
{
    let mut r: [u8; 8] = [0u8; 8];
    for i in 0..8
        invariant
            at + 8 <= 256,
            r@.len() == 8,
            forall|k: int| 0 <= k < i ==> r@[k] == src@[at + k],
    {
        r[i] = src[at + i];
    }
    assert(r@ =~= src@.subrange(at as int, at + 8));
    r
}

/// The 208 bytes of `src` from position `at` on.
fn bytes_at_208(src: &[u8; 256], at: usize) -> (r: [u8; 208])
    requires
        at + 208 <= 256,
    ensures
        r@ == src@.subrange(at as int, at + 208),
{
    let mut r: [u8; 208] = [0u8; 208];
    for i in 0..208
        invariant
            at + 208 <= 256,
            r@.len() == 208,
            forall|k: int| 0 <= k < i ==> r@[k] == src@[at + k],
    {
        r[i] = src[at + i];
    }
    assert(r@ =~= src@.subrange(at as int, at + 208));
    r
}

/// The 248 bytes of `src` from position `at` on.
fn bytes_at_248(src: &[u8; 256], at: usize) -> (r: [u8; 248])
    requires
        at + 248 <= 256,
    ensures
        r@ == src@.subrange(at as int, at + 248),
{
    let mut r: [u8; 248] = [0u8; 248];
    for i in 0..248
        invariant
            at + 248 <= 256,
            r@.len() == 248,
            forall|k: int| 0 <= k < i ==> r@[k] == src@[at + k],
    {
        r[i] = src[at + i];
    }
    assert(r@ =~= src@.subrange(at as int, at + 248));
    r
}

/// Writes `src` into `arr` from position `at` on.
fn copy_in(arr: &mut [u8; 256], at: usize, src: &[u8])
    requires
        at + src@.len() <= 256,
    ensures
        final(arr)@ == overwrite(old(arr)@, at as int, src@),
{
    let ghost a0 = arr@;
    for i in 0..src.len()
        invariant
            at + src@.len() <= 256,
            arr@.len() == 256,
            forall|k: int|
                0 <= k < 256 ==> arr@[k] == (if at <= k < at + i {
                    src@[k - at]
                } else {
                    a0[k]
                }),
    {
        arr[at + i] = src[i];
    }
    assert(arr@ =~= overwrite(a0, at as int, src@));
}

impl From<RawBlock> for DataBlock {
    /// Reads a data block out of the bytes of a block.
    fn from(raw_block: RawBlock) -> (r: Self)
        ensures
            r@ == data_block_of_bytes(raw_block.data@),
            data_block_bytes(r@) == raw_block.data@,
    {
        let bi = u32_from_ne(bytes_at_4(&raw_block.data, 0));
        let data = bytes_at_248(&raw_block.data, 4);
        let nb = u32_from_ne(bytes_at_4(&raw_block.data, 252));
        let r = Self { block_index: bi, data, next_block_index: nb };
        proof {
            assert(data_block_bytes(r@) =~= raw_block.data@);
            let c = choose|b: DataBlock| #[trigger] b@ == data_block_of_bytes(raw_block.data@);
            assert(r@ == data_block_of_bytes(raw_block.data@));
            DataBlock::lemma_view_injective(c, r);
        }
        r
    }
}

impl vstd::std_specs::convert::FromSpecImpl<RawBlock> for DataBlock {
    open spec fn obeys_from_spec() -> bool {
        true
    }

    open spec fn from_spec(v: RawBlock) -> Self {
        choose|b: DataBlock| #[trigger] b@ == data_block_of_bytes(v.data@)
    }
}

impl From<RawBlock> for StartBlock {
    /// Reads a start block out of the bytes of a block.
    fn from(raw_block: RawBlock) -> (r: Self)
        ensures
            r@ == start_block_of_bytes(raw_block.data@),
            start_block_bytes(r@) == overwrite(raw_block.data@, 12, seq![0u8, 0u8, 0u8, 0u8]),
    {
        let d = &raw_block.data;
        let r = Self {
            block_index: u32_from_ne(bytes_at_4(d, 0)),
            first_data_block_index: u32_from_ne(bytes_at_4(d, 4)),
            perms: u16_from_ne(bytes_at_2(d, 8)),
            file_type: u16_from_ne(bytes_at_2(d, 10)),
            a_time: u64_from_ne(bytes_at_8(d, 16)),
            m_time: u64_from_ne(bytes_at_8(d, 24)),
            user_id: u32_from_ne(bytes_at_4(d, 32)),
            group_id: u32_from_ne(bytes_at_4(d, 36)),
            size: u64_from_ne(bytes_at_8(d, 40)),
            name: bytes_at_208(d, 48),
        };
        proof {
            assert(start_block_bytes(r@) =~= overwrite(raw_block.data@, 12, seq![0u8, 0u8, 0u8, 0u8]));
            let c = choose|b: StartBlock| #[trigger] b@ == start_block_of_bytes(raw_block.data@);
            assert(r@ == start_block_of_bytes(raw_block.data@));
            StartBlock::lemma_view_injective(c, r);
        }
        r
    }
}

impl vstd::std_specs::convert::FromSpecImpl<RawBlock> for StartBlock {
    open spec fn obeys_from_spec() -> bool {
        true
    }

    open spec fn from_spec(v: RawBlock) -> Self {
        choose|b: StartBlock| #[trigger] b@ == start_block_of_bytes(v.data@)
    }
}

impl From<DataBlock> for RawBlock {
    /// The bytes that store a data block.
    fn from(data_block: DataBlock) -> (r: Self)
        ensures
            r.data@ == data_block_bytes(data_block@),
            data_block_of_bytes(r.data@) == data_block@,
    {
        let bi = u32_to_ne(data_block.block_index);
        let nb = u32_to_ne(data_block.next_block_index);
        let mut arr: [u8; 256] = [0u8; 256];
        copy_in(&mut arr, 0, &bi);
        copy_in(&mut arr, 4, &data_block.data);
        copy_in(&mut arr, 252, &nb);
        proof {
            assert(arr@ =~= data_block_bytes(data_block@));
            assert(arr@.subrange(0, 4) =~= bi@);
            assert(arr@.subrange(252, 256) =~= nb@);
            assert(arr@.subrange(4, 252) =~= data_block@.data);
            let c = choose|r: RawBlock| #[trigger] r.data@ == data_block_bytes(data_block@);
            assert((RawBlock { data: arr }).data@ == data_block_bytes(data_block@));
            assert(c.data =~= arr);
        }
        RawBlock { data: arr }
    }
}

impl vstd::std_specs::convert::FromSpecImpl<DataBlock> for RawBlock {
    open spec fn obeys_from_spec() -> bool {
        true
    }

    open spec fn from_spec(v: DataBlock) -> Self {
        choose|r: RawBlock| #[trigger] r.data@ == data_block_bytes(v@)
    }
}

impl From<StartBlock> for RawBlock {
    /// The bytes that store a start block (the padding is zero).
    fn from(start_block: StartBlock) -> (r: Self)
        ensures
            r.data@ == start_block_bytes(start_block@),
            start_block_of_bytes(r.data@) == start_block@,
    {
        let b0 = u32_to_ne(start_block.block_index);
        let b1 = u32_to_ne(start_block.first_data_block_index);
        let b2 = u16_to_ne(start_block.perms);
        let b3 = u16_to_ne(start_block.file_type);
        let b4 = u64_to_ne(start_block.a_time);
        let b5 = u64_to_ne(start_block.m_time);
        let b6 = u32_to_ne(start_block.user_id);
        let b7 = u32_to_ne(start_block.group_id);
        let b8 = u64_to_ne(start_block.size);
        let mut arr: [u8; 256] = [0u8; 256];
        copy_in(&mut arr, 0, &b0);
        copy_in(&mut arr, 4, &b1);
        copy_in(&mut arr, 8, &b2);
        copy_in(&mut arr, 10, &b3);
        copy_in(&mut arr, 16, &b4);
        copy_in(&mut arr, 24, &b5);
        copy_in(&mut arr, 32, &b6);
        copy_in(&mut arr, 36, &b7);
        copy_in(&mut arr, 40, &b8);
        copy_in(&mut arr, 48, &start_block.name);
        proof {
            assert(arr@ =~= start_block_bytes(start_block@));
            assert(arr@.subrange(0, 4) =~= b0@);
            assert(arr@.subrange(4, 8) =~= b1@);
            assert(arr@.subrange(8, 10) =~= b2@);
            assert(arr@.subrange(10, 12) =~= b3@);
            assert(arr@.subrange(16, 24) =~= b4@);
            assert(arr@.subrange(24, 32) =~= b5@);
            assert(arr@.subrange(32, 36) =~= b6@);
            assert(arr@.subrange(36, 40) =~= b7@);
            assert(arr@.subrange(40, 48) =~= b8@);
            assert(arr@.subrange(48, 256) =~= start_block@.name);
            let c = choose|r: RawBlock| #[trigger] r.data@ == start_block_bytes(start_block@);
            assert((RawBlock { data: arr }).data@ == start_block_bytes(start_block@));
            assert(c.data =~= arr);
        }
        RawBlock { data: arr }
    }
}

impl vstd::std_specs::convert::FromSpecImpl<StartBlock> for RawBlock {
    open spec fn obeys_from_spec() -> bool {
        true
    }

    open spec fn from_spec(v: StartBlock) -> Self {
        choose|r: RawBlock| #[trigger] r.data@ == start_block_bytes(v@)
    }
}

/// A fresh block of a chain: 248 bytes of 255 (empty directory slots) for a
/// directory, of 0 for a file, and no next block.
pub open spec fn plain_block(block_index: u32, is_directory: bool) -> DataBlockModel {
    DataBlockModel {
        block_index,
        data: Seq::new(248, |i: int| if is_directory { 255u8 } else { 0u8 }),
        next_block_index: NULL_INDEX,
    }
}

} // verus!
