//! Transfer-function tables for the u8 pipeline.
//!
//! The tables are held by the caller and built once. The sRGB curve itself is
//! a floating-point function, so the two curve tables arrive here already
//! evaluated: `decode` as a linear level per sRGB byte, and `encode` as an
//! sRGB byte per linear level. Everything this module does with them — the
//! alpha scale, the packing of four encode bytes per word, every lookup — is
//! integer and verified.
use vstd::prelude::*;

verus! {

/// Bits of fractional precision in a linear level.
pub const LINEAR_SHIFT: u32 = 12;

/// A fully lit channel, in fixed-point linear light (`1 << LINEAR_SHIFT`).
pub const LINEAR_SCALE: u32 = 4096;

/// Distinct linear levels, including both endpoints.
pub const LINEAR_LEVELS: usize = 4097;

/// Words needed to hold [`LINEAR_LEVELS`] packed bytes, four per word.
pub const ENCODE_WORDS: usize = 1025;

/// Rounding constant for the fixed-point shift (`LINEAR_SCALE / 2`).
pub const LINEAR_HALF: u32 = 2048;

/// The alpha (and coverage) byte `byte` as a linear level: `byte / 255`
/// scaled to [`LINEAR_SCALE`] and rounded to nearest.
pub open spec fn alpha_level(byte: int) -> int {
    (byte * 4096 + 127) / 255
}

/// A linear level as an alpha byte: clamped to [`LINEAR_SCALE`], scaled by
/// 255 and rounded to nearest.
pub open spec fn alpha_byte(level: int) -> int {
    let clamped = if level > 4096 { 4096 } else { level };
    (clamped * 255 + 2048) / 4096
}

/// A level clamped to the top of the encode table.
pub open spec fn clamp_level(level: int) -> int {
    if level > 4096 { 4096 } else { level }
}

/// Four bytes packed little-end first into one word.
pub open spec fn pack4(b0: u8, b1: u8, b2: u8, b3: u8) -> u32 {
    (b0 as u32) | ((b1 as u32) << 8u32) | ((b2 as u32) << 16u32) | ((b3 as u32) << 24u32)
}

/// Byte `k` of a packed word.
pub open spec fn unpack(word: u32, k: int) -> u8 {
    (word >> ((k * 8) as u32)) as u8
}

/// The `k`th byte of a table of `LINEAR_LEVELS` bytes, zero past its end.
pub open spec fn byte_or_zero(bytes: Seq<u8>, i: int) -> u8 {
    if 0 <= i < bytes.len() { bytes[i] } else { 0 }
}

proof fn lemma_unpack_pack4(b0: u8, b1: u8, b2: u8, b3: u8)
    ensures
        unpack(pack4(b0, b1, b2, b3), 0) == b0,
        unpack(pack4(b0, b1, b2, b3), 1) == b1,
        unpack(pack4(b0, b1, b2, b3), 2) == b2,
        unpack(pack4(b0, b1, b2, b3), 3) == b3,
{
    let w = pack4(b0, b1, b2, b3);
    assert(w == (b0 as u32) | ((b1 as u32) << 8u32) | ((b2 as u32) << 16u32) | ((b3 as u32) << 24u32));
    assert((((b0 as u32) | ((b1 as u32) << 8u32) | ((b2 as u32) << 16u32) | ((b3 as u32) << 24u32)) >> 0u32) as u8 == b0) by (bit_vector);
    assert((((b0 as u32) | ((b1 as u32) << 8u32) | ((b2 as u32) << 16u32) | ((b3 as u32) << 24u32)) >> 8u32) as u8 == b1) by (bit_vector);
    assert((((b0 as u32) | ((b1 as u32) << 8u32) | ((b2 as u32) << 16u32) | ((b3 as u32) << 24u32)) >> 16u32) as u8 == b2) by (bit_vector);
    assert((((b0 as u32) | ((b1 as u32) << 8u32) | ((b2 as u32) << 16u32) | ((b3 as u32) << 24u32)) >> 24u32) as u8 == b3) by (bit_vector);
}

/// `x >> 12` is `x / 4096`.
pub proof fn lemma_shift_is_div(x: u32)
    ensures
        x >> 12u32 == x / 4096,
{
    assert(x >> 12u32 == x / 4096) by (bit_vector);
}

/// sRGB and alpha conversion tables.
///
/// `decode` maps an sRGB byte to a linear level, `alpha` maps an alpha or
/// coverage byte to a linear level, and `encode` maps a linear level back to
/// an sRGB byte, four bytes packed per word so the table the inner loop hits
/// hardest stays small.
#[derive(Debug)]
pub struct FineTables {
    decode: Vec<u32>,
    alpha: Vec<u32>,
    encode: Vec<u32>,
}

impl FineTables {
    #[verifier::type_invariant]
    spec fn well_formed(self) -> bool {
        &&& self.decode@.len() == 256
        &&& self.alpha@.len() == 256
        &&& self.encode@.len() == ENCODE_WORDS
        &&& forall|b: int| 0 <= b < 256 ==> #[trigger] self.decode@[b] <= LINEAR_SCALE
        &&& forall|b: int| 0 <= b < 256 ==> #[trigger] self.alpha@[b] == alpha_level(b)
    }

    /// The linear level an sRGB byte decodes to.
    pub closed spec fn decode_level(self, byte: int) -> u32 {
        self.decode@[byte]
    }

    /// The sRGB byte a linear level (at most [`LINEAR_SCALE`]) encodes to.
    pub closed spec fn encode_byte(self, level: int) -> u8 {
        unpack(self.encode@[level / 4], level % 4)
    }

    /// True when every sRGB byte survives a decode and re-encode unchanged.
    pub open spec fn round_trips(self) -> bool {
        forall|b: int| 0 <= b < 256 ==> #[trigger] self.encode_byte(clamp_level(self.decode_level(b) as int)) == b
    }

    /// Builds the tables from the two evaluated sRGB curves.
    ///
    /// `decode[b]` is the linear level of sRGB byte `b`, and `encode[l]` the
    /// sRGB byte of linear level `l`. The alpha table is computed here: alpha
    /// carries no transfer function, so it is a plain rounded scale.
    pub fn new(decode: [u32; 256], encode: &[u8; LINEAR_LEVELS]) -> (tables: FineTables)
        requires
            forall|b: int| 0 <= b < 256 ==> #[trigger] decode@[b] <= LINEAR_SCALE,
        ensures
            forall|b: int| 0 <= b < 256 ==> #[trigger] tables.decode_level(b) == decode@[b],
            forall|l: int| 0 <= l < LINEAR_LEVELS ==> #[trigger] tables.encode_byte(l) == encode@[l],
    {
        let mut decode_table: Vec<u32> = Vec::new();
        let mut alpha_table: Vec<u32> = Vec::new();
        let mut byte: usize = 0;
        while byte < 256
            invariant
                byte <= 256,
                decode_table@.len() == byte,
                alpha_table@.len() == byte,
                forall|b: int| 0 <= b < byte ==> #[trigger] decode_table@[b] == decode@[b],
                forall|b: int| 0 <= b < byte ==> #[trigger] alpha_table@[b] == alpha_level(b),
            decreases 256 - byte,
        {
            decode_table.push(decode[byte]);
            let level: u32 = ((byte as u32) * LINEAR_SCALE + 127) / 255;
            alpha_table.push(level);
            byte = byte + 1;
        }

        let mut encode_table: Vec<u32> = Vec::new();
        let mut word: usize = 0;
        while word < ENCODE_WORDS
            invariant
                word <= ENCODE_WORDS,
                encode_table@.len() == word,
                forall|j: int| 0 <= j < word ==> #[trigger] encode_table@[j] == pack4(
                    byte_or_zero(encode@, 4 * j),
                    byte_or_zero(encode@, 4 * j + 1),
                    byte_or_zero(encode@, 4 * j + 2),
                    byte_or_zero(encode@, 4 * j + 3),
                ),
            decreases ENCODE_WORDS - word,
        {
            let base = word * 4;
            let b0: u8 = encode[base];
            let b1: u8 = if base + 1 < LINEAR_LEVELS { encode[base + 1] } else { 0 };
            let b2: u8 = if base + 2 < LINEAR_LEVELS { encode[base + 2] } else { 0 };
            let b3: u8 = if base + 3 < LINEAR_LEVELS { encode[base + 3] } else { 0 };
            let packed: u32 = (b0 as u32) | ((b1 as u32) << 8u32) | ((b2 as u32) << 16u32) | ((b3 as u32) << 24u32);
            encode_table.push(packed);
            word = word + 1;
        }

        let tables = FineTables { decode: decode_table, alpha: alpha_table, encode: encode_table };
        assert forall|l: int| 0 <= l < LINEAR_LEVELS implies #[trigger] tables.encode_byte(l) == encode@[l] by {
            let j = l / 4;
            let k = l % 4;
            lemma_unpack_pack4(
                byte_or_zero(encode@, 4 * j),
                byte_or_zero(encode@, 4 * j + 1),
                byte_or_zero(encode@, 4 * j + 2),
                byte_or_zero(encode@, 4 * j + 3),
            );
            assert(l == 4 * j + k);
        }
        tables
    }

    /// sRGB byte to linear level.
    pub fn decode(&self, byte: u8) -> (level: u32)
        ensures
            level == self.decode_level(byte as int),
            level <= LINEAR_SCALE,
    {
        proof { use_type_invariant(self); }
        self.decode[byte as usize]
    }

    /// Alpha byte to linear level.
    pub fn decode_alpha(&self, byte: u8) -> (level: u32)
        ensures
            level == alpha_level(byte as int),
    {
        proof { use_type_invariant(self); }
        self.alpha[byte as usize]
    }

    /// Coverage byte to linear level. Coverage is an area fraction, so it
    /// scales exactly like alpha.
    pub fn coverage(&self, byte: u8) -> (level: u32)
        ensures
            level == alpha_level(byte as int),
    {
        proof { use_type_invariant(self); }
        self.alpha[byte as usize]
    }

    /// Linear level to sRGB byte. Levels past [`LINEAR_SCALE`] clamp to it.
    pub fn encode(&self, level: u32) -> (byte: u8)
        ensures
            byte == self.encode_byte(clamp_level(level as int)),
    {
        proof { use_type_invariant(self); }
        let level: usize = if level as usize > LINEAR_LEVELS - 1 { LINEAR_LEVELS - 1 } else { level as usize };
        let shift: u32 = ((level % 4) * 8) as u32;
        (self.encode[level / 4] >> shift) as u8
    }

    /// Linear level to alpha byte.
    pub fn encode_alpha(&self, level: u32) -> (byte: u8)
        ensures
            byte == alpha_byte(level as int),
    {
        let level = if level > LINEAR_SCALE { LINEAR_SCALE } else { level };
        let scaled: u32 = level * 255 + LINEAR_HALF;
        proof { lemma_shift_is_div(scaled); }
        (scaled >> LINEAR_SHIFT) as u8
    }

    /// The raw tables — decode, alpha and packed encode — for the eight-lane
    /// kernel's gathers.
    pub(crate) fn raw(&self) -> (raw: (&Vec<u32>, &Vec<u32>, &Vec<u32>))
        ensures
            raw.0@.len() == 256,
            raw.1@.len() == 256,
            raw.2@.len() == ENCODE_WORDS,
            forall|b: int| 0 <= b < 256 ==> #[trigger] raw.0@[b] == self.decode_level(b),
            forall|b: int| 0 <= b < 256 ==> #[trigger] raw.0@[b] <= LINEAR_SCALE,
            forall|b: int| 0 <= b < 256 ==> #[trigger] raw.1@[b] == alpha_level(b),
            forall|l: int| 0 <= l < LINEAR_LEVELS ==> #[trigger] unpack(raw.2@[l / 4], l % 4) == self.encode_byte(l),
    {
        proof { use_type_invariant(self); }
        (&self.decode, &self.alpha, &self.encode)
    }

    /// Whether every sRGB byte decodes and re-encodes to itself.
    pub fn check_round_trip(&self) -> (ok: bool)
        ensures
            ok == self.round_trips(),
    {
        proof { use_type_invariant(self); }
        let mut byte: u32 = 0;
        while byte < 256
            invariant
                byte <= 256,
                self.decode@.len() == 256,
                forall|b: int| 0 <= b < 256 ==> #[trigger] self.decode@[b] <= LINEAR_SCALE,
                forall|b: int| 0 <= b < byte ==> #[trigger] self.encode_byte(clamp_level(self.decode_level(b) as int)) == b,
            decreases 256 - byte,
        {
            let level = self.decode(byte as u8);
            if self.encode(level) != byte as u8 {
                return false;
            }
            byte = byte + 1;
        }
        true
    }
}

impl Clone for FineTables {
    fn clone(&self) -> (copy: FineTables)
        ensures
            forall|b: int| 0 <= b < 256 ==> #[trigger] copy.decode_level(b) == self.decode_level(b),
            forall|l: int| 0 <= l < LINEAR_LEVELS ==> #[trigger] copy.encode_byte(l) == self.encode_byte(l),
    {
        proof { use_type_invariant(self); }
        let decode = self.decode.clone();
        let alpha = self.alpha.clone();
        let encode = self.encode.clone();
        assert(decode@ =~= self.decode@);
        assert(alpha@ =~= self.alpha@);
        assert(encode@ =~= self.encode@);
        FineTables { decode, alpha, encode }
    }
}

/// Decoding an alpha byte and encoding it again gives the same byte back, for
/// every byte: the alpha scale loses nothing.
pub proof fn lemma_alpha_round_trip(a: u8)
    ensures
        alpha_byte(alpha_level(a as int)) == a,
        alpha_level(a as int) <= LINEAR_SCALE,
{
    assert((((a as u32) * 4096 + 127) / 255) <= 4096) by (bit_vector);
    assert(((((a as u32) * 4096 + 127) / 255) * 255 + 2048) / 4096 == a as u32) by (bit_vector);
}

} // verus!
