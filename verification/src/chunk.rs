//! Palette-compressed chunk storage: the packed bit array that holds
//! block and biome indices, and the plain data holders for chunk sections.
//!
//! Entries are fixed-width bit fields packed into 64-bit words; an entry
//! never straddles a word boundary.

use vstd::prelude::*;

verus! {

pub const BITS_PER_BLOCK: u8 = 15;

pub const MINIMUM_BITS_PER_BLOCK: u8 = 4;

pub const CHUNK_HEIGHT: u16 = 384;

pub const CHUNK_WIDTH: u8 = 16;

pub const SECTION_HEIGHT: u8 = 16;

pub const SECTION_WIDTH: u8 = 16;

pub const SECTION_LENGTH: u8 = 16;

pub const BLOCKS_PER_SECTION: u32 = 4096;

/// The entry mask: the low `bits` bits set.
pub open spec fn spec_mask(bits: nat) -> u64 {
    if bits >= 64 {
        0xFFFF_FFFF_FFFF_FFFFu64
    } else {
        ((1u64 << (bits as u64)) - 1) as u64
    }
}

/// A fixed-width packed array of `length` entries of `bits_per_block` bits
/// each, stored without straddling 64-bit word boundaries.
#[derive(Debug, Clone)]
pub struct CompactArray {
    pub bits_per_block: usize,
    pub data: Vec<u64>,
    pub length: usize,
    pub values_per_u64: usize,
    pub mask: u64,
}

impl CompactArray {
    /// The structural invariant: a valid width, the derived fields agreeing
    /// with it, and exactly enough backing words for `length` entries.
    pub open spec fn wf(&self) -> bool {
        &&& 1 <= self.bits_per_block <= 64
        &&& self.values_per_u64 == 64usize / self.bits_per_block
        &&& self.mask == spec_mask(self.bits_per_block as nat)
        &&& self.data.len() == ((self.length + self.values_per_u64 - 1) as int) / (self.values_per_u64 as int)
    }

    /// The entry at index `i`: the masked bit field of its word.
    pub open spec fn spec_get(&self, i: int) -> u64 {
        (self.data@[i / self.values_per_u64 as int] >> (((i % self.values_per_u64 as int)
            * self.bits_per_block) as u64)) & self.mask
    }

    /// An empty array of `length` zero entries.
    pub fn new(bits_per_block: usize, length: usize) -> (r: Self)
        requires
            1 <= bits_per_block <= 64,
            length <= 0x1000_0000,
        ensures
            r.wf(),
            r.bits_per_block == bits_per_block,
            r.length == length,
            forall|i: int| 0 <= i < length ==> r.spec_get(i) == 0,
    {
        let values_per_u64 = 64 / bits_per_block;
        proof {
            vstd::arithmetic::div_mod::lemma_div_non_zero(64, bits_per_block as int);
            vstd::arithmetic::div_mod::lemma_div_nonincreasing(64, bits_per_block as int);
        }
        let words = (length + values_per_u64 - 1) / values_per_u64;
        let mut data: Vec<u64> = Vec::new();
        let mut i: usize = 0;
        while i < words
            invariant
                i <= words,
                data@ == Seq::new(i as nat, |j: int| 0u64),
            decreases words - i,
        {
            data.push(0);
            proof {
                assert(data@ =~= Seq::new((i + 1) as nat, |j: int| 0u64));
            }
            i = i + 1;
        }
        proof {
            let b = bits_per_block as u64;
            assert(b < 64 ==> (1u64 << b) >= 1) by (bit_vector);
        }
        let mask: u64 = if bits_per_block >= 64 {
            0xFFFF_FFFF_FFFF_FFFF
        } else {
            ((1u64 << (bits_per_block as u64)) - 1)
        };
        let r = CompactArray { bits_per_block, data, length, values_per_u64, mask };
        proof {
            assert forall|i2: int| 0 <= i2 < length implies r.spec_get(i2) == 0 by {
                r.lemma_index_in_bounds(i2);
                let sh = ((i2 % r.values_per_u64 as int) * r.bits_per_block) as u64;
                let m = r.mask;
                assert(r.data@[i2 / r.values_per_u64 as int] == 0);
                assert((0u64 >> sh) & m == 0) by (bit_vector);
            }
        }
        r
    }

    /// The entry at `index`, or `None` past the end of the array.
    pub fn get<I: CompactArrayIndex>(&self, index: I) -> (r: Option<u64>)
        requires
            self.wf(),
        ensures
            index.index_spec() >= self.length ==> r is None,
            index.index_spec() < self.length ==> r == Some(self.spec_get(index.index_spec() as int)),
    {
        let index = index.get();
        if index >= self.length {
            return None;
        }
        proof {
            self.lemma_index_in_bounds(index as int);
        }
        let word = index / self.values_per_u64;
        let offset = (index % self.values_per_u64) * self.bits_per_block;
        Some((self.data[word] >> (offset as u64)) & self.mask)
    }

    /// An entry index in range has its word in range and its bit field
    /// inside the word.
    proof fn lemma_index_in_bounds(&self, i: int)
        requires
            self.wf(),
            0 <= i < self.length,
        ensures
            1 <= self.values_per_u64 <= 64,
            0 <= i / (self.values_per_u64 as int) < self.data.len(),
            0 <= (i % self.values_per_u64 as int) * self.bits_per_block,
            (i % self.values_per_u64 as int) * self.bits_per_block + self.bits_per_block <= 64,
            (i % self.values_per_u64 as int) * self.bits_per_block <= 63,
    {
        let vpw = self.values_per_u64 as int;
        let bits = self.bits_per_block as int;
        assert(vpw >= 1 && vpw <= 64) by {
            vstd::arithmetic::div_mod::lemma_div_non_zero(64, bits);
            vstd::arithmetic::div_mod::lemma_div_nonincreasing(64, bits);
        }
        assert(0 <= i / vpw) by {
            vstd::arithmetic::div_mod::lemma_div_pos_is_pos(i, vpw);
        }
        assert(i / vpw < self.data.len()) by {
            vstd::arithmetic::div_mod::lemma_div_plus_one(i, vpw);
            vstd::arithmetic::div_mod::lemma_div_is_ordered(i + vpw, self.length + vpw - 1, vpw);
        }
        assert((i % vpw) * bits + bits <= 64) by {
            assert(0 <= i % vpw < vpw);
            assert((i % vpw) * bits + bits <= (vpw - 1) * bits + bits) by (nonlinear_arith)
                requires 0 <= i % vpw <= vpw - 1, bits >= 1;
            assert((vpw - 1) * bits + bits == vpw * bits) by (nonlinear_arith);
            assert(vpw * bits <= 64) by {
                vstd::arithmetic::div_mod::lemma_fundamental_div_mod(64, bits);
                assert(vpw == 64int / bits);
                assert(64int == bits * (64int / bits) + 64int % bits);
                assert(vpw * bits == bits * (64int / bits)) by (nonlinear_arith)
                    requires vpw == 64int / bits;
            }
        }
        assert((i % vpw) * bits >= 0) by (nonlinear_arith)
            requires i % vpw >= 0, bits >= 1;
    }

    /// Stores `value & mask` at `index`; every other entry is unchanged.
    #[verifier::rlimit(100)]
    #[verifier::spinoff_prover]
    pub fn set<I: CompactArrayIndex>(&mut self, index: I, value: u64)
        requires
            old(self).wf(),
            index.index_spec() < old(self).length,
        ensures
            final(self).wf(),
            final(self).bits_per_block == old(self).bits_per_block,
            final(self).length == old(self).length,
            final(self).values_per_u64 == old(self).values_per_u64,
            final(self).mask == old(self).mask,
            final(self).spec_get(index.index_spec() as int) == value & old(self).mask,
            forall|j: int|
                0 <= j < old(self).length && j != index.index_spec() ==> final(self).spec_get(j)
                    == old(self).spec_get(j),
    {
        let index = index.get();
        proof {
            self.lemma_index_in_bounds(index as int);
        }
        let word = index / self.values_per_u64;
        let offset = (index % self.values_per_u64) * self.bits_per_block;
        let w0 = self.data[word];
        let w1 = (w0 & !(self.mask << (offset as u64))) | ((value & self.mask) << (offset as u64));
        self.data.set(word, w1);
        proof {
            let vpw = self.values_per_u64 as int;
            let bits = self.bits_per_block as int;
            let i = index as int;
            let off = ((i % vpw) * bits) as u64;
            let m = self.mask;
            let b64 = self.bits_per_block as u64;
            assert(m == spec_mask(self.bits_per_block as nat));
            // the written field reads back as the masked value
            assert(((w0 & !(m << off)) | ((value & m) << off)) >> off & m == value & m)
                by (bit_vector)
                requires
                    off + b64 <= 64,
                    1 <= b64 <= 64,
                    m == (if b64 >= 64 {
                        0xFFFF_FFFF_FFFF_FFFFu64
                    } else {
                        ((1u64 << b64) - 1) as u64
                    }),
            ;
            // every other entry, in this word or another, is untouched
            assert forall|j: int|
                0 <= j < self.length && j != i implies #[trigger] self.spec_get(j) == old(
                self,
            ).spec_get(j) by {
                self.lemma_index_in_bounds(j);
                let off2 = ((j % vpw) * bits) as u64;
                if j / vpw == i / vpw {
                    assert(j % vpw != i % vpw) by {
                        vstd::arithmetic::div_mod::lemma_fundamental_div_mod(j, vpw);
                        vstd::arithmetic::div_mod::lemma_fundamental_div_mod(i, vpw);
                    }
                    assert(off != off2) by (nonlinear_arith)
                        requires
                            0 <= j % vpw,
                            0 <= i % vpw,
                            j % vpw != i % vpw,
                            bits >= 1,
                            off == (i % vpw) * bits,
                            off2 == (j % vpw) * bits,
                    ;
                    assert(off % b64 == 0 && off2 % b64 == 0) by (nonlinear_arith)
                        requires
                            b64 == bits,
                            bits >= 1,
                            off == (i % vpw) * bits,
                            off2 == (j % vpw) * bits,
                            0 <= i % vpw,
                            0 <= j % vpw,
                    ;
                    assert(((w0 & !(m << off)) | ((value & m) << off)) >> off2 & m == (w0
                        >> off2) & m) by (bit_vector)
                        requires
                            off + b64 <= 64,
                            off2 + b64 <= 64,
                            off != off2,
                            off % b64 == 0,
                            off2 % b64 == 0,
                            1 <= b64 <= 64,
                            m == (if b64 >= 64 {
                                0xFFFF_FFFF_FFFF_FFFFu64
                            } else {
                                ((1u64 << b64) - 1) as u64
                            }),
                    ;
                } else {
                    assert(self.data@[j / vpw] == old(self).data@[j / vpw]);
                }
            }
        }
    }

    /// A copy at a new (usually wider) entry width, holding the same
    /// entries as far as they fit the new mask.
    pub fn resized(&self, bits_per_block: usize) -> (r: CompactArray)
        requires
            self.wf(),
            1 <= bits_per_block <= 64,
            self.length <= 0x1000_0000,
        ensures
            r.wf(),
            r.bits_per_block == bits_per_block,
            r.length == self.length,
            forall|i: int|
                0 <= i < self.length ==> r.spec_get(i) == self.spec_get(i) & spec_mask(
                    bits_per_block as nat,
                ),
    {
        let mut out = CompactArray::new(bits_per_block, self.length);
        let mut i: usize = 0;
        while i < self.length
            invariant
                self.wf(),
                out.wf(),
                out.bits_per_block == bits_per_block,
                out.length == self.length,
                out.mask == spec_mask(bits_per_block as nat),
                i <= self.length,
                self.length <= 0x1000_0000,
                forall|j: int|
                    0 <= j < i ==> out.spec_get(j) == self.spec_get(j) & spec_mask(
                        bits_per_block as nat,
                    ),
                forall|j: int| i <= j < self.length ==> out.spec_get(j) == 0,
            decreases self.length - i,
        {
            let v = match self.get(i) {
                Some(v) => v,
                None => 0,
            };
            out.set(i, v);
            i = i + 1;
        }
        out
    }
}

/// Anything that names an entry of a `CompactArray`: a plain index, or
/// packed section coordinates.
pub trait CompactArrayIndex: Sized {
    /// The entry index this value stands for.
    spec fn index_spec(self) -> usize;

    fn get(self) -> (r: usize)
        ensures
            r == self.index_spec(),
    ;
}

impl CompactArrayIndex for u64 {
    open spec fn index_spec(self) -> usize {
        self as usize
    }

    fn get(self) -> usize {
        self as usize
    }
}

impl CompactArrayIndex for usize {
    open spec fn index_spec(self) -> usize {
        self
    }

    fn get(self) -> usize {
        self
    }
}

impl CompactArrayIndex for (u32, u32, u32) {
    open spec fn index_spec(self) -> usize {
        (((self.1 << 8) | (self.2 << 4) | self.0) as u32) as usize
    }

    fn get(self) -> usize {
        let (x, y, z) = self;
        ((y << 8) | (z << 4) | x) as usize
    }
}

impl CompactArrayIndex for (u64, u64, u64) {
    open spec fn index_spec(self) -> usize {
        (((self.1 << 8) | (self.2 << 4) | self.0) as u64) as usize
    }

    fn get(self) -> usize {
        let (x, y, z) = self;
        ((y << 8) | (z << 4) | x) as usize
    }
}

/// One palette entry: a block or biome descriptor.
#[derive(Debug, Clone)]
pub struct PaletteItem {
    pub name: String,
    pub properties: Vec<(String, String)>,
}

impl PaletteItem {
    /// A descriptor with a bare name and no properties.
    pub fn from_name(name: String) -> (r: Self)
        ensures
            r.name@ == name@,
            r.properties@.len() == 0,
    {
        PaletteItem { name, properties: Vec::new() }
    }
}

/// The block states of one section: a palette and the packed indices.
#[derive(Debug, Clone)]
pub struct BlockStates {
    pub data: Vec<i64>,
    pub palette: Vec<PaletteItem>,
}

/// The biomes of one section, in the same palette-and-indices shape.
#[derive(Debug, Clone)]
pub struct Biomes {
    pub data: Vec<i64>,
    pub palette: Vec<PaletteItem>,
}

/// One 16-block-tall section of a chunk.
#[derive(Debug, Clone)]
pub struct ChunkSection {
    pub y_pos: i8,
    pub block_states: Option<BlockStates>,
    pub biomes: Option<Biomes>,
}

/// A chunk as it is stored on disk.
#[derive(Debug, Clone)]
pub struct RawChunk {
    pub data_version: i32,
    pub x_pos: i32,
    pub y_pos: i32,
    pub z_pos: i32,
    pub last_update: i64,
    pub sections: Vec<ChunkSection>,
}

/// The packed-entry width a palette of `n` entries needs: at least
/// `MINIMUM_BITS_PER_BLOCK`, and wide enough to index every entry.
pub fn bits_for_palette(n: usize) -> (r: usize)
    requires
        n >= 1,
    ensures
        r >= MINIMUM_BITS_PER_BLOCK,
        r <= 64,
        n >= 1 ==> (n - 1) as u64 <= spec_mask(r as nat),
{
    let mut bits: usize = MINIMUM_BITS_PER_BLOCK as usize;
    while bits < 64 && ((n - 1) as u64) >> (bits as u64) > 0
        invariant
            MINIMUM_BITS_PER_BLOCK <= bits <= 64,
            n >= 1,
        decreases 64 - bits,
    {
        bits = bits + 1;
    }
    proof {
        let b = bits as u64;
        let m = (n - 1) as u64;
        if bits < 64 {
            assert(m >> b == 0 ==> m <= (if b >= 64 {
                0xFFFF_FFFF_FFFF_FFFFu64
            } else {
                ((1u64 << b) - 1) as u64
            })) by (bit_vector);
        }
    }
    bits
}

} // verus!
