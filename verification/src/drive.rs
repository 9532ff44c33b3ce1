//! The drive image: the bytes of the file that holds the file system, and
//! reading and writing whole blocks of it.
//!
//! Block `i` occupies bytes `i * 256 .. i * 256 + 256`. A block can be read
//! only where the image holds all of its bytes; writing a block past the end
//! of the image extends the image, zero bytes filling any gap.
use vstd::prelude::*;

verus! {

/// The number of blocks whose byte offset fits in a `u32`.
pub const ADDRESSABLE_BLOCKS: u32 = 0x0100_0000u32;

/// The bytes of block `i` of image `d`.
pub open spec fn raw_at(d: Seq<u8>, i: int) -> Seq<u8> {
    d.subrange(i * 256, i * 256 + 256)
}

/// Block `i` has an addressable offset and can be stored in memory.
pub open spec fn block_addressable(i: u32) -> bool {
    &&& i < ADDRESSABLE_BLOCKS
    &&& (i as int + 1) * 256 <= usize::MAX
}

/// Block `i` can be read from image `d`: its offset is addressable and the
/// image holds all of its bytes.
pub open spec fn block_readable(d: Seq<u8>, i: u32) -> bool {
    &&& i < ADDRESSABLE_BLOCKS
    &&& (i as int + 1) * 256 <= d.len()
}

/// The number of blocks that image `d` holds in full.
pub open spec fn block_count(d: Seq<u8>) -> nat {
    d.len() / 256
}

/// Image `d` after writing the 256 bytes `b` as block `i`.
pub open spec fn with_block(d: Seq<u8>, i: int, b: Seq<u8>) -> Seq<u8> {
    let start = i * 256;
    let len = if d.len() >= start + 256 { d.len() as int } else { start + 256 };
    Seq::new(
        len as nat,
        |k: int|
            if start <= k < start + 256 {
                b[k - start]
            } else if k < d.len() {
                d[k]
            } else {
                0u8
            },
    )
}

/// 256 zero bytes: the content of a deleted block.
pub open spec fn zero_block() -> Seq<u8> {
    Seq::new(256, |k: int| 0u8)
}

/// Writing a block changes that block and no other readable block, and every
/// block readable before stays readable.
pub proof fn lemma_with_block(d: Seq<u8>, i: u32, b: Seq<u8>, j: u32)
    requires
        b.len() == 256,
        i < ADDRESSABLE_BLOCKS,
    ensures
        block_readable(with_block(d, i as int, b), i),
        raw_at(with_block(d, i as int, b), i as int) == b,
        block_readable(d, j) ==> block_readable(with_block(d, i as int, b), j),
        block_readable(d, j) && j != i ==> raw_at(with_block(d, i as int, b), j as int) == raw_at(d, j as int),
        with_block(d, i as int, b).len() >= d.len(),
{
    let e = with_block(d, i as int, b);
    assert(raw_at(e, i as int) =~= b);
    if block_readable(d, j) && j != i {
        assert(raw_at(e, j as int) =~= raw_at(d, j as int));
    }
}

/// A drive image held in memory.
pub struct Drive {
    image: Vec<u8>,
}

impl View for Drive {
    type V = Seq<u8>;

    closed spec fn view(&self) -> Seq<u8> {
        self.image@
    }
}

impl Drive {
    /// A drive whose image is `image`.
    pub fn new(image: Vec<u8>) -> (r: Self)
        ensures
            r@ == image@,
    {
        Drive { image }
    }

    /// The bytes of the image.
    pub fn into_image(self) -> (r: Vec<u8>)
        ensures
            r@ == self@,
    {
        self.image
    }

    /// The bytes of the image.
    pub fn image(&self) -> (r: &Vec<u8>)
        ensures
            r@ == self@,
    {
        &self.image
    }

    /// The number of bytes of the image.
    pub fn len(&self) -> (r: usize)
        ensures
            r == self@.len(),
    {
        self.image.len()
    }

    /// Reads the 256 bytes of block `block_index`.
    pub fn read_block(&self, block_index: u32) -> (r: [u8; 256])
        requires
            block_readable(self@, block_index),
        ensures
            r@ == raw_at(self@, block_index as int),
    {
        let start = block_index as usize * 256;
        let mut r: [u8; 256] = [0u8; 256];
        for k in 0..256
            invariant
                start == block_index * 256,
                start + 256 <= self@.len(),
                r@.len() == 256,
                forall|t: int| 0 <= t < k ==> r@[t] == self@[start + t],
        {
            r[k] = self.image[start + k];
        }
        assert(r@ =~= raw_at(self@, block_index as int));
        r
    }

    /// Writes `bytes` as block `block_index`, extending the image with zero bytes
    /// where it is too short.
    pub fn write_block(&mut self, block_index: u32, bytes: &[u8; 256])
        requires
            block_addressable(block_index),
        ensures
            final(self)@ == with_block(old(self)@, block_index as int, bytes@),
    {
        let start = block_index as usize * 256;
        let ghost d0 = self@;
        while self.image.len() < start + 256
            invariant
                start == block_index * 256,
                start + 256 <= usize::MAX,
                d0.len() <= self.image@.len() <= start + 256 || self.image@.len() == d0.len(),
                self.image@.len() >= d0.len(),
                forall|k: int| 0 <= k < d0.len() ==> self.image@[k] == d0[k],
                forall|k: int| d0.len() <= k < self.image@.len() ==> self.image@[k] == 0u8,
            decreases start + 256 - self.image@.len(),
        {
            self.image.push(0u8);
        }
        let ghost d1 = self.image@;
        for k in 0..256
            invariant
                start == block_index * 256,
                start + 256 <= self.image@.len(),
                self.image@.len() == d1.len(),
                forall|t: int|
                    0 <= t < self.image@.len() ==> self.image@[t] == (if start <= t < start + k {
                        bytes@[t - start]
                    } else {
                        d1[t]
                    }),
        {
            self.image.set(start + k, bytes[k]);
        }
        assert(self.image@ =~= with_block(d0, block_index as int, bytes@));
    }
}

} // verus!
