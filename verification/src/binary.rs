//! Binary sketches of vectors.
//!
//! A vector's coordinates are multiplied by fixed random signs and put through
//! a blockwise Walsh-Hadamard transform; the sketch records, one bit per
//! coordinate, which results are not negative.

use vstd::prelude::*;
use vstd::arithmetic::power2::*;
use crate::chance::{coin, coin_flips};
use crate::error::{
    ends, invalid_format, invalid_input, overflow, refused_format, refused_input, refused_size,
    PrismResult, Verdict,
};
use crate::point::{whole_rows, PointStore};
use crate::pure::{flags_of, gives_flags};
use crate::single::{all_in_domain, check_domain, ONE};
use crate::wipe::{wipe_long_words, wipe_words};

verus! {

/// Seed of the signs.
pub const SIGN_SEED: u64 = 0x50_5249_534D;

/// Pattern of the number minus one.
pub const MINUS_ONE: u32 = 0xbf80_0000;

/// Sketches of points, with the transform that makes them.
pub struct BinaryStore {
    /// `code_words` words per point.
    pub codes: Vec<u64>,
    pub code_words: usize,
    /// One or minus one per coordinate, as bit patterns.
    pub signs: Vec<u32>,
    /// Length of the blocks that are transformed separately.
    pub block_size: usize,
}

/// Number of 64-bit words for `bits` bits.
pub open spec fn words_for(bits: int) -> int {
    (bits + 63) / 64
}

/// The number whose binary notation has the given bits, lowest first.
pub open spec fn number_of(bits: Seq<bool>) -> int
    decreases bits.len(),
{
    if bits.len() == 0 {
        0
    } else {
        (if bits[0] {
            1int
        } else {
            0int
        }) + 2 * number_of(bits.skip(1))
    }
}

/// Bits of word `w` of a packed sequence.
pub open spec fn word_bits(bits: Seq<bool>, w: int) -> Seq<bool> {
    bits.subrange(w * 64, if (w + 1) * 64 < bits.len() { (w + 1) * 64 } else { bits.len() as int })
}

/// Bits packed into words, 64 per word, lowest first.
pub open spec fn packed(bits: Seq<bool>) -> Seq<u64> {
    Seq::new(words_for(bits.len() as int) as nat, |w: int| number_of(word_bits(bits, w)) as u64)
}

/// The Walsh-Hadamard transform of a sequence whose length is a power of two:
/// sums of the transformed halves, then their differences.
pub open spec fn hadamard(data: Seq<int>) -> Seq<int>
    decreases data.len(),
{
    if data.len() <= 1 {
        data
    } else {
        let half = data.len() as int / 2;
        let low = hadamard(data.take(half));
        let high = hadamard(data.subrange(half, 2 * half));
        Seq::new(
            (2 * half) as nat,
            |i: int|
                if i < half {
                    low[i] + high[i]
                } else {
                    low[i - half] - high[i - half]
                },
        )
    }
}

/// Coordinate `d` of a byte vector with its sign.
pub open spec fn signed(vector: Seq<u8>, signs: Seq<u32>, d: int) -> int {
    if signs[d] == ONE {
        vector[d] as int
    } else {
        -(vector[d] as int)
    }
}

/// Whether coordinate `d` of the transformed byte vector is not negative.
pub open spec fn byte_flag(vector: Seq<u8>, signs: Seq<u32>, block: int, d: int) -> bool {
    let start = d / block * block;
    hadamard(Seq::new(block as nat, |i: int| signed(vector, signs, start + i)))[d - start] >= 0
}

/// The sketch bits of a byte vector.
pub open spec fn byte_flags(vector: Seq<u8>, signs: Seq<u32>, block: int) -> Seq<bool> {
    Seq::new(vector.len(), |d: int| byte_flag(vector, signs, block, d))
}

/// Every sign is one or minus one.
pub open spec fn signs_valid(signs: Seq<u32>) -> bool {
    forall|d: int| 0 <= d < signs.len() ==> #[trigger] signs[d] == ONE || signs[d] == MINUS_ONE
}

/// A power of two that divides `dim`.
pub open spec fn block_valid(block: int, dim: int) -> bool {
    block > 0 && is_pow2(block) && dim % block == 0
}

/// The bits beyond the last coordinate are zero in every code.
pub open spec fn padding_clear(codes: Seq<u64>, words: int, dim: int) -> bool {
    dim % 64 != 0 ==> forall|p: int|
        0 <= p < codes.len() as int / words ==> (#[trigger] codes[p * words + words - 1]) < pow2(
            (dim % 64) as nat,
        )
}

/// What persisted sketches have to satisfy.
pub open spec fn sketch_parts_valid(
    codes: Seq<u64>,
    code_words: int,
    signs: Seq<u32>,
    block_size: int,
) -> bool {
    &&& signs.len() > 0
    &&& code_words == words_for(signs.len() as int)
    &&& codes.len() as int % code_words == 0
    &&& codes.len() as int / code_words <= u32::MAX
    &&& block_valid(block_size, signs.len() as int)
    &&& signs_valid(signs)
    &&& padding_clear(codes, code_words, signs.len() as int)
}

/// The signs that a store of this dimension uses.
pub open spec fn standard_signs(dim: int) -> Seq<u32> {
    Seq::new(dim as nat, |d: int| if coin(SIGN_SEED, d as nat) { ONE } else { MINUS_ONE })
}

/// The largest power of two that divides `n`.
pub open spec fn largest_block(n: int, block: int) -> bool {
    is_pow2(block) && n % block == 0 && (n / block) % 2 == 1
}

impl BinaryStore {
    /// What holds of every valid value.
    pub open spec fn wf(&self) -> bool {
        sketch_parts_valid(
            self.codes@,
            self.code_words as int,
            self.signs@,
            self.block_size as int,
        )
    }

    /// Number of sketched points.
    pub open spec fn count(&self) -> int {
        self.codes@.len() as int / self.code_words as int
    }

    /// Sketch of point `id`.
    pub open spec fn code_of(&self, id: int) -> Seq<u64> {
        self.codes@.subrange(id * self.code_words, (id + 1) * self.code_words)
    }

    /// Signs and blocks are those that the library makes.
    pub open spec fn is_standard(&self) -> bool {
        &&& self.signs@ == standard_signs(self.signs@.len() as int)
        &&& largest_block(self.signs@.len() as int, self.block_size as int)
    }

    /// Sketches from their persisted parts.
    pub fn from_parts(codes: Vec<u64>, code_words: usize, signs: Vec<u32>, block_size: usize) -> (result:
        PrismResult<BinaryStore>)
        ensures
            result is Ok <==> sketch_parts_valid(
                codes@,
                code_words as int,
                signs@,
                block_size as int,
            ),
            refused_size(result) <==> signs@.len() > 0 && code_words == words_for(
                signs@.len() as int,
            ) && codes@.len() as int % code_words as int == 0 && codes@.len() as int
                / code_words as int > u32::MAX,
            result is Err ==> refused_size(result) || refused_format(result),
            result matches Ok(store) ==> store.wf() && store.codes@ == codes@ && store.code_words
                == code_words && store.signs@ == signs@ && store.block_size == block_size,
    {
        let dim: usize = signs.len();
        if dim == 0 {
            return Err(invalid_format("binary-code dimension must be greater than zero"));
        }
        let expected_words: usize = dim / 64 + (if dim % 64 == 0 { 0 } else { 1 });
        assert(expected_words == words_for(dim as int));
        if code_words != expected_words {
            return Err(invalid_format("binary code_words must be the dimension over 64, rounded up"));
        }
        if codes.len() % code_words != 0 {
            return Err(invalid_format("binary code length must be divisible by code_words"));
        }
        let point_count: usize = codes.len() / code_words;
        if point_count > u32::MAX as usize {
            return Err(overflow("binary-code point count exceeds the u32 identifier space"));
        }
        if block_size == 0 || !power_of_two(block_size) || dim % block_size != 0 {
            return Err(
                invalid_format("binary block size must be a power of two dividing the dimension"),
            );
        }
        let mut d: usize = 0;
        while d < dim
            invariant
                d <= dim,
                dim == signs@.len(),
                code_words > 0,
                codes@.len() as int / code_words as int <= u32::MAX,
                forall|i: int| 0 <= i < d ==> #[trigger] signs@[i] == ONE || signs@[i] == MINUS_ONE,
            decreases dim - d,
        {
            if signs[d] != ONE && signs[d] != MINUS_ONE {
                assert(!(signs@[d as int] == ONE || signs@[d as int] == MINUS_ONE));
                return Err(invalid_format("binary sign must be -1 or 1"));
            }
            d = d + 1;
        }
        let used: usize = dim % 64;
        if used != 0 {
            let bound: u64 = power(used);
            let mut p: usize = 0;
            while p < point_count
                invariant
                    p <= point_count,
                    0 < used < 64,
                    used == dim % 64,
                    dim == signs@.len(),
                    bound == pow2(used as nat),
                    code_words > 0,
                    point_count == codes@.len() as int / code_words as int,
                    point_count <= u32::MAX,
                    codes@.len() as int % code_words as int == 0,
                    forall|q: int|
                        0 <= q < p ==> (#[trigger] codes@[q * code_words + code_words - 1]) < pow2(
                            used as nat,
                        ),
                decreases point_count - p,
            {
                proof {
                    code_bounds(p as int, point_count as int, code_words as int, codes@.len() as int);
                }
                let total: usize = codes.len();
                let last: usize = p * code_words + (code_words - 1);
                if codes[last] >= bound {
                    assert(!(codes@[p * code_words + code_words - 1] < pow2(used as nat)));
                    return Err(invalid_format("binary code sets bits beyond the vector dimension"));
                }
                p = p + 1;
            }
        }
        Ok(BinaryStore { codes, code_words, signs, block_size })
    }

    /// All codes, point after point.
    pub fn codes(&self) -> (codes: &[u64])
        ensures
            codes@ == self.codes@,
    {
        self.codes.as_slice()
    }

    /// The signs, as bit patterns.
    pub fn signs(&self) -> (signs: &[u32])
        ensures
            signs@ == self.signs@,
    {
        self.signs.as_slice()
    }

    /// Length of the transformed blocks.
    pub fn block_size(&self) -> (size: usize)
        ensures
            size == self.block_size,
    {
        self.block_size
    }

    /// Number of coordinates of a sketched vector.
    pub fn dim(&self) -> (dim: usize)
        ensures
            dim == self.signs@.len(),
    {
        self.signs.len()
    }

    /// Number of sketched points.
    pub fn len(&self) -> (count: usize)
        requires
            self.wf(),
        ensures
            count == self.count(),
    {
        self.codes.len() / self.code_words
    }

    /// Whether no point is sketched.
    pub fn is_empty(&self) -> (empty: bool)
        ensures
            empty == (self.codes@.len() == 0),
    {
        self.codes.len() == 0
    }

    /// Words per code.
    pub fn code_words(&self) -> (words: usize)
        ensures
            words == self.code_words,
    {
        self.code_words
    }

    /// Sketches of the points of a store.  `rotate` tells, for a vector, the
    /// signs and the block length, which coordinates of the transform are not
    /// negative.
    pub fn build<F: Fn(&[u32], &[u32], usize) -> Vec<bool>>(store: &PointStore, rotate: &F) -> (result: PrismResult<
        BinaryStore,
    >)
        requires
            store.wf(),
            gives_flags(*rotate, store.dim as int),
        ensures
            ends(
                result,
                if signs_fit(store.dim as int) {
                    Verdict::Accepted
                } else {
                    Verdict::Overflow
                },
            ),
            result matches Ok(sketches) ==> {
                &&& sketches.wf()
                &&& sketches.is_standard()
                &&& sketches.signs@.len() == store.dim
                &&& sketches.count() == store.len
                &&& forall|p: int|
                    0 <= p < store.len ==> #[trigger] sketches.code_of(p) == packed(
                        flags_of(*rotate, store.row(p), sketches.signs@, sketches.block_size),
                    )
            },
    {
        proof {
            whole_count(store.len as int, store.dim as int);
        }
        Self::build_from_f32(&store.vectors, store.dim, rotate)
    }

    /// Sketches of single-precision vectors of `dim` coordinates.  Coordinates
    /// that make no whole vectors, or leave the domain of distances, are refused.
    pub fn build_from_f32<F: Fn(&[u32], &[u32], usize) -> Vec<bool>>(vectors: &Vec<u32>, dim: usize, rotate: &F) -> (result:
        PrismResult<BinaryStore>)
        requires
            gives_flags(*rotate, dim as int),
        ensures
            ends(
                result,
                sketch_verdict(
                    vectors@.len() as int,
                    dim as int,
                    all_in_domain(vectors@, dim as int),
                ),
            ),
            result matches Ok(sketches) ==> {
                &&& sketches.wf()
                &&& sketches.is_standard()
                &&& sketches.signs@.len() == dim
                &&& sketches.count() == vectors@.len() as int / dim as int
                &&& forall|g: int|
                    0 <= g < sketches.count() ==> #[trigger] sketches.code_of(g) == packed(
                        flags_of(
                            *rotate,
                            vectors@.subrange(g * dim, (g + 1) * dim),
                            sketches.signs@,
                            sketches.block_size,
                        ),
                    )
            },
    {
        let count: usize = match count_rows(vectors.len(), dim) {
            Ok(count) => count,
            Err(error) => { return Err(error); },
        };
        if !check_domain(vectors.as_slice(), dim) {
            return Err(invalid_input("binary-code vector leaves the domain of distances"));
        }
        if !signs_can_be_held(dim) {
            return Err(overflow("binary-code signs exceed the allocation limit"));
        }
        Ok(Self::sketch_vectors(vectors, count, dim, rotate))
    }

    /// Sketches of byte vectors of `dim` coordinates.  Bytes that make no whole
    /// vectors are refused.
    pub fn build_from_u8(vectors: &Vec<u8>, dim: usize) -> (result: PrismResult<BinaryStore>)
        ensures
            ends(result, sketch_verdict(vectors@.len() as int, dim as int, true)),
            result matches Ok(sketches) ==> {
                &&& sketches.wf()
                &&& sketches.is_standard()
                &&& sketches.signs@.len() == dim
                &&& sketches.count() == vectors@.len() as int / dim as int
                &&& forall|g: int|
                    0 <= g < sketches.count() ==> #[trigger] sketches.code_of(g) == packed(
                        byte_flags(
                            vectors@.subrange(g * dim, (g + 1) * dim),
                            sketches.signs@,
                            sketches.block_size as int,
                        ),
                    )
            },
    {
        let count: usize = match count_rows(vectors.len(), dim) {
            Ok(count) => count,
            Err(error) => { return Err(error); },
        };
        if !signs_can_be_held(dim) {
            return Err(overflow("binary-code signs exceed the allocation limit"));
        }
        Ok(Self::sketch_bytes(vectors, count, dim))
    }

    /// Sketches of `count` single-precision vectors.
    fn sketch_vectors<F: Fn(&[u32], &[u32], usize) -> Vec<bool>>(
        vectors: &Vec<u32>,
        count: usize,
        dim: usize,
        rotate: &F,
    ) -> (sketches: BinaryStore)
        requires
            dim > 0,
            count <= u32::MAX,
            vectors@.len() == count * dim,
            gives_flags(*rotate, dim as int),
        ensures
            sketches.wf(),
            sketches.is_standard(),
            sketches.signs@.len() == dim,
            sketches.count() == count,
            forall|g: int|
                0 <= g < count ==> #[trigger] sketches.code_of(g) == packed(
                    flags_of(
                        *rotate,
                        vectors@.subrange(g * dim, (g + 1) * dim),
                        sketches.signs@,
                        sketches.block_size,
                    ),
                ),
    {
        let signs = seeded_signs(dim);
        let block_size: usize = largest_pow2_factor(dim);
        let mut codes: Vec<u64> = Vec::new();
        let ghost mut rows: Seq<Seq<bool>> = Seq::empty();
        let mut g: usize = 0;
        while g < count
            invariant
                g <= count <= u32::MAX,
                dim > 0,
                vectors@.len() == count * dim,
                gives_flags(*rotate, dim as int),
                signs@.len() == dim,
                signs_valid(signs@),
                signs@ == standard_signs(dim as int),
                block_size > 0,
                largest_block(dim as int, block_size as int),
                rows.len() == g,
                coded(codes@, rows, dim as int),
                forall|i: int|
                    0 <= i < g ==> #[trigger] rows[i] == flags_of(
                        *rotate,
                        vectors@.subrange(i * dim, (i + 1) * dim),
                        signs@,
                        block_size,
                    ),
            decreases count - g,
        {
            proof {
                crate::point::row_bounds(g as int, count as int, dim as int);
            }
            let total: usize = vectors.len();
            let start: usize = g * dim;
            let vector = vstd::slice::slice_subrange(vectors.as_slice(), start, start + dim);
            let flags = rotate(vector, signs.as_slice(), block_size);
            push_code(&mut codes, flags.as_slice(), Ghost(rows));
            proof {
                rows = rows.push(flags@);
            }
            g = g + 1;
        }
        Self::with_codes(codes, signs, block_size, Ghost(rows))
    }

    /// Sketches of `count` byte vectors.
    fn sketch_bytes(vectors: &Vec<u8>, count: usize, dim: usize) -> (sketches: BinaryStore)
        requires
            dim > 0,
            count <= u32::MAX,
            vectors@.len() == count * dim,
        ensures
            sketches.wf(),
            sketches.is_standard(),
            sketches.signs@.len() == dim,
            sketches.count() == count,
            forall|g: int|
                0 <= g < count ==> #[trigger] sketches.code_of(g) == packed(
                    byte_flags(
                        vectors@.subrange(g * dim, (g + 1) * dim),
                        sketches.signs@,
                        sketches.block_size as int,
                    ),
                ),
    {
        let signs = seeded_signs(dim);
        let block_size: usize = largest_pow2_factor(dim);
        let mut codes: Vec<u64> = Vec::new();
        let ghost mut rows: Seq<Seq<bool>> = Seq::empty();
        let mut g: usize = 0;
        while g < count
            invariant
                g <= count <= u32::MAX,
                dim > 0,
                vectors@.len() == count * dim,
                signs@.len() == dim,
                signs_valid(signs@),
                signs@ == standard_signs(dim as int),
                block_size > 0,
                largest_block(dim as int, block_size as int),
                rows.len() == g,
                coded(codes@, rows, dim as int),
                forall|i: int|
                    0 <= i < g ==> #[trigger] rows[i] == byte_flags(
                        vectors@.subrange(i * dim, (i + 1) * dim),
                        signs@,
                        block_size as int,
                    ),
            decreases count - g,
        {
            proof {
                crate::point::row_bounds(g as int, count as int, dim as int);
            }
            let total: usize = vectors.len();
            let start: usize = g * dim;
            let vector = vstd::slice::slice_subrange(vectors.as_slice(), start, start + dim);
            let flags = rotate_bytes(vector, signs.as_slice(), block_size);
            push_code(&mut codes, flags.as_slice(), Ghost(rows));
            proof {
                rows = rows.push(flags@);
            }
            g = g + 1;
        }
        Self::with_codes(codes, signs, block_size, Ghost(rows))
    }

    /// Sketches that make up `codes`, whose bits are `rows`.
    fn with_codes(
        codes: Vec<u64>,
        signs: Vec<u32>,
        block_size: usize,
        Ghost(rows): Ghost<Seq<Seq<bool>>>,
    ) -> (sketches: BinaryStore)
        requires
            signs@.len() > 0,
            signs@ == standard_signs(signs@.len() as int),
            signs_valid(signs@),
            block_size > 0,
            largest_block(signs@.len() as int, block_size as int),
            rows.len() <= u32::MAX,
            coded(codes@, rows, signs@.len() as int),
        ensures
            sketches.wf(),
            sketches.is_standard(),
            sketches.signs == signs,
            sketches.block_size == block_size,
            sketches.count() == rows.len(),
            forall|p: int|
                0 <= p < rows.len() ==> #[trigger] sketches.code_of(p) == packed(rows[p]),
    {
        let dim: usize = signs.len();
        let words: usize = dim / 64 + (if dim % 64 == 0 { 0 } else { 1 });
        assert(words == words_for(dim as int));
        let sketches = BinaryStore { codes, code_words: words, signs, block_size };
        proof {
            let count = rows.len() as int;
            whole_codes(count, words as int);
            assert forall|p: int| 0 <= p < count implies #[trigger] sketches.code_of(p) == packed(rows[p]) by {
                assert(row_coded(codes@, rows, dim as int, p));
            }
            assert(padding_clear(sketches.codes@, words as int, dim as int)) by {
                if dim % 64 != 0 {
                    assert forall|p: int| 0 <= p < count implies (
                    #[trigger] sketches.codes@[p * words + words - 1]) < pow2((dim % 64) as nat) by {
                        assert(row_coded(codes@, rows, dim as int, p));
                        code_bounds(p, count, words as int, sketches.codes@.len() as int);
                        let code = sketches.code_of(p);
                        assert(code[words - 1] == sketches.codes@[p * words + words - 1]);
                        last_word_is_small(rows[p]);
                    }
                }
            }
        }
        sketches
    }

    /// The transform for vectors of `dim` coordinates, with no sketch.
    pub fn empty(dim: usize) -> (result: PrismResult<BinaryStore>)
        ensures
            ends(
                result,
                if dim == 0 {
                    Verdict::InvalidInput
                } else if !signs_fit(dim as int) {
                    Verdict::Overflow
                } else {
                    Verdict::Accepted
                },
            ),
            result matches Ok(sketches) ==> sketches.wf() && sketches.is_standard()
                && sketches.signs@.len() == dim && sketches.codes@.len() == 0,
    {
        if dim == 0 {
            return Err(invalid_input("binary-code dimension must be greater than zero"));
        }
        if !signs_can_be_held(dim) {
            return Err(overflow("binary-code signs exceed the allocation limit"));
        }
        let words: usize = dim / 64 + (if dim % 64 == 0 { 0 } else { 1 });
        let signs = seeded_signs(dim);
        let block_size: usize = largest_pow2_factor(dim);
        let codes: Vec<u64> = Vec::new();
        proof {
            assert(words == words_for(dim as int));
            assert(0int / words as int == 0 && 0int % words as int == 0) by (nonlinear_arith)
                requires
                    words > 0,
            ;
            assert(codes@.len() == 0);
            assert(padding_clear(codes@, words as int, dim as int));
            assert(block_valid(block_size as int, dim as int));
        }
        Ok(BinaryStore { codes, code_words: words, signs, block_size })
    }

    /// Sketch of point `id`.
    pub fn code(&self, id: u32) -> (code: Option<&[u64]>)
        requires
            self.wf(),
        ensures
            code is Some <==> id < self.count(),
            code matches Some(words) ==> words@ == self.code_of(id as int),
    {
        if (id as usize) < self.len() {
            Some(self.code_unchecked(id))
        } else {
            None
        }
    }

    /// Sketch of a point that is known to be sketched.
    pub fn code_unchecked(&self, id: u32) -> (code: &[u64])
        requires
            self.wf(),
            id < self.count(),
        ensures
            code@ == self.code_of(id as int),
            code@.len() == self.code_words,
    {
        let words = self.codes.as_slice();
        assert(words@.len() == words.len());
        proof {
            code_bounds(
                id as int,
                self.count(),
                self.code_words as int,
                self.codes@.len() as int,
            );
        }
        let start: usize = id as usize * self.code_words;
        vstd::slice::slice_subrange(words, start, start + self.code_words)
    }

    /// Sketch of a query.  `rotate` tells, for the query and the signs and the
    /// block length of these sketches, which coordinates of the transform are
    /// not negative.
    pub fn encode_query<F: Fn(&[u32], &[u32], usize) -> Vec<bool>>(&self, query: &[u32], rotate: &F) -> (result:
        PrismResult<Vec<u64>>)
        requires
            self.wf(),
            gives_flags(*rotate, self.signs@.len() as int),
        ensures
            result is Ok <==> query@.len() == self.signs@.len() && query@.len() > 0 && all_in_domain(
                query@,
                query@.len() as int,
            ),
            result is Err ==> refused_input(result),
            result matches Ok(code) ==> code@ == packed(
                flags_of(*rotate, query@, self.signs@, self.block_size),
            ) && code@.len() == words_for(self.signs@.len() as int),
    {
        if query.len() != self.signs.len() {
            return Err(invalid_input("query length must equal the binary-code dimension"));
        }
        if !check_domain(query, query.len()) {
            return Err(invalid_input("query value must be finite, its absolute magnitude within the distance domain"));
        }
        let flags = rotate(query, self.signs.as_slice(), self.block_size);
        Ok(pack(flags.as_slice()))
    }

    /// Sketch of a byte query.
    pub fn encode_query_u8(&self, query: &[u8]) -> (result: PrismResult<Vec<u64>>)
        requires
            self.wf(),
        ensures
            result is Ok <==> query@.len() == self.signs@.len(),
            result is Err ==> refused_input(result),
            result matches Ok(code) ==> code@ == packed(
                byte_flags(query@, self.signs@, self.block_size as int),
            ) && code@.len() == self.code_words,
    {
        if query.len() != self.signs.len() {
            return Err(invalid_input("query length must equal the binary-code dimension"));
        }
        let flags = rotate_bytes(query, self.signs.as_slice(), self.block_size);
        Ok(pack(flags.as_slice()))
    }
}

impl Drop for BinaryStore {
    /// Clears the codes and the signs before their memory is released.
    fn drop(&mut self)
        opens_invariants none
        no_unwind
    {
        wipe_long_words(&mut self.codes);
        wipe_words(&mut self.signs);
    }
}

/// The signs of `dim` coordinates fit in one allocation.
pub open spec fn signs_fit(dim: int) -> bool {
    4 * dim <= isize::MAX
}

/// Whether vectors can be sketched, given that they are in the domain of
/// distances or not.
pub open spec fn sketch_verdict(len: int, dim: int, in_domain: bool) -> Verdict {
    if !whole_rows(len, dim) {
        Verdict::InvalidInput
    } else if len / dim > u32::MAX {
        Verdict::Overflow
    } else if !in_domain {
        Verdict::InvalidInput
    } else if !signs_fit(dim) {
        Verdict::Overflow
    } else {
        Verdict::Accepted
    }
}

/// Whether the signs of `dim` coordinates fit in one allocation.
fn signs_can_be_held(dim: usize) -> (answer: bool)
    ensures
        answer == signs_fit(dim as int),
{
    let limit: usize = isize::MAX as usize;
    dim <= limit / 4
}

/// Number of vectors that `len` coordinates make up.
fn count_rows(len: usize, dim: usize) -> (result: PrismResult<usize>)
    ensures
        result is Ok <==> whole_rows(len as int, dim as int) && len as int / dim as int <= u32::MAX,
        refused_size(result) <==> whole_rows(len as int, dim as int) && len as int / dim as int
            > u32::MAX,
        result is Err ==> refused_input(result) || refused_size(result),
        result matches Ok(count) ==> count == len as int / dim as int && len == count * dim,
{
    if dim == 0 {
        return Err(invalid_input("binary-code vector dimension must be greater than zero"));
    }
    if len % dim != 0 {
        return Err(invalid_input("binary-code vector length must be divisible by dimension"));
    }
    let count: usize = len / dim;
    if count as u64 > u32::MAX as u64 {
        return Err(overflow("binary-code vector point count exceeds the u32 identifier space"));
    }
    proof {
        vstd::arithmetic::div_mod::lemma_fundamental_div_mod(len as int, dim as int);
        assert(dim * count == count * dim) by (nonlinear_arith);
    }
    Ok(count)
}

/// `count` rows of `dim` coordinates are whole rows, and that many.
pub proof fn whole_count(count: int, dim: int)
    requires
        0 <= count,
        0 < dim,
    ensures
        whole_rows(count * dim, dim),
        (count * dim) / dim == count,
{
    vstd::arithmetic::div_mod::lemma_mod_multiples_basic(count, dim);
    vstd::arithmetic::div_mod::lemma_div_multiples_vanish(count, dim);
    assert(dim * count == count * dim) by (nonlinear_arith);
}

/// Code `p` has the bits of row `p`.
spec fn row_coded(codes: Seq<u64>, rows: Seq<Seq<bool>>, dim: int, p: int) -> bool {
    rows[p].len() == dim && codes.subrange(p * words_for(dim), (p + 1) * words_for(dim)) == packed(
        rows[p],
    )
}

/// `codes` are the packed bits of `rows`.
spec fn coded(codes: Seq<u64>, rows: Seq<Seq<bool>>, dim: int) -> bool {
    &&& codes.len() == rows.len() * words_for(dim)
    &&& forall|p: int| 0 <= p < rows.len() ==> #[trigger] row_coded(codes, rows, dim, p)
}

/// Appends the code of one more row.
fn push_code(codes: &mut Vec<u64>, flags: &[bool], Ghost(rows): Ghost<Seq<Seq<bool>>>)
    requires
        flags@.len() > 0,
        coded(old(codes)@, rows, flags@.len() as int),
    ensures
        coded(final(codes)@, rows.push(flags@), flags@.len() as int),
{
    let code = pack(flags);
    let ghost before = codes@;
    codes.extend_from_slice(code.as_slice());
    proof {
        let dim = flags@.len() as int;
        let words = words_for(dim);
        assert(codes@ =~= before + code@);
        code_appended(before, code@, rows.len() as int, words);
        assert forall|p: int| 0 <= p < rows.len() + 1 implies #[trigger] row_coded(
            codes@,
            rows.push(flags@),
            dim,
            p,
        ) by {
            if p < rows.len() {
                assert(row_coded(before, rows, dim, p));
                code_kept(before, code@, p, rows.len() as int, words);
            }
        }
    }
}

/// The signs for `dim` coordinates.
pub fn seeded_signs(dim: usize) -> (signs: Vec<u32>)
    ensures
        signs@ == standard_signs(dim as int),
        signs_valid(signs@),
        signs@.len() == dim,
{
    let flips = coin_flips(SIGN_SEED, dim);
    let mut signs: Vec<u32> = Vec::new();
    while signs.len() < dim
        invariant
            signs@.len() <= dim,
            flips@.len() == dim,
            forall|i: int| 0 <= i < dim ==> flips@[i] == coin(SIGN_SEED, i as nat),
            forall|i: int| 0 <= i < signs@.len() ==> signs@[i] == standard_signs(dim as int)[i],
        decreases dim - signs@.len(),
    {
        let d: usize = signs.len();
        signs.push(if flips[d] { ONE } else { MINUS_ONE });
    }
    assert(signs@ =~= standard_signs(dim as int));
    signs
}

/// Packs bits into words, 64 per word, lowest first.
pub fn pack(bits: &[bool]) -> (words: Vec<u64>)
    ensures
        words@ == packed(bits@),
        words@.len() == words_for(bits@.len() as int),
{
    let mut words: Vec<u64> = Vec::new();
    let mut start: usize = 0;
    while start < bits.len()
        invariant
            start <= bits@.len(),
            start < bits@.len() ==> start == words@.len() * 64,
            start == bits@.len() ==> words@.len() == words_for(bits@.len() as int),
            forall|w: int| 0 <= w < words@.len() ==> words@[w] == number_of(word_bits(bits@, w)),
            words@.len() <= words_for(bits@.len() as int),
        decreases bits@.len() - start,
    {
        let end: usize = if bits.len() - start > 64 { start + 64 } else { bits.len() };
        let mut word: u64 = 0;
        let mut at: usize = end;
        let ghost w = words@.len() as int;
        assert(word_bits(bits@, w) =~= bits@.subrange(start as int, end as int));
        assert(bits@.subrange(end as int, end as int) =~= Seq::<bool>::empty());
        proof {
            lemma2_to64();
        }
        while at > start
            invariant
                start <= at <= end <= bits@.len(),
                end - start <= 64,
                word == number_of(bits@.subrange(at as int, end as int)),
                word < pow2((end - at) as nat),
            decreases at - start,
        {
            at = at - 1;
            proof {
                let tail = bits@.subrange(at as int, end as int);
                assert(tail.skip(1) =~= bits@.subrange(at + 1, end as int));
                assert(tail[0] == bits@[at as int]);
                lemma_pow2_unfold((end - at) as nat);
                if end - at < 64 {
                    lemma_pow2_strictly_increases((end - at) as nat, 64);
                }
                lemma2_to64_rest();
            }
            word = word * 2 + (if bits[at] { 1 } else { 0 });
        }
        words.push(word);
        start = end;
    }
    assert(words@ =~= packed(bits@));
    words
}

/// A word of packed bits is below the power of two of its bit count.
proof fn number_is_bounded(bits: Seq<bool>)
    ensures
        0 <= number_of(bits) < pow2(bits.len()),
    decreases bits.len(),
{
    lemma2_to64();
    if bits.len() > 0 {
        number_is_bounded(bits.skip(1));
        lemma_pow2_unfold(bits.len());
    }
}

proof fn last_word_is_small(bits: Seq<bool>)
    requires
        bits.len() as int % 64 != 0,
    ensures
        packed(bits)[words_for(bits.len() as int) - 1] < pow2((bits.len() as int % 64) as nat),
{
    let w = words_for(bits.len() as int) - 1;
    let last = word_bits(bits, w);
    assert(last.len() == bits.len() as int % 64);
    number_is_bounded(last);
    lemma2_to64_rest();
    lemma_pow2_strictly_increases(last.len(), 64);
}

/// The Walsh-Hadamard transform of a sequence whose length is a power of two.
pub fn walsh_hadamard(data: &[i128]) -> (out: Vec<i128>)
    requires
        is_pow2(data@.len() as int),
        data@.len() <= u64::MAX,
        forall|i: int| 0 <= i < data@.len() ==> -255 <= #[trigger] data@[i] <= 255,
    ensures
        out@.len() == data@.len(),
        forall|i: int|
            0 <= i < out@.len() ==> out@[i] == hadamard(data@.map_values(|x: i128| x as int))[i],
{
    transform(data, 255)
}

fn transform(data: &[i128], bound: i128) -> (out: Vec<i128>)
    requires
        is_pow2(data@.len() as int),
        0 <= bound,
        data@.len() * bound <= 255 * u64::MAX,
        forall|i: int| 0 <= i < data@.len() ==> -bound <= #[trigger] data@[i] <= bound,
    ensures
        out@.len() == data@.len(),
        forall|i: int|
            0 <= i < out@.len() ==> out@[i] == hadamard(data@.map_values(|x: i128| x as int))[i],
        forall|i: int|
            0 <= i < out@.len() ==> -(data@.len() * bound) <= #[trigger] out@[i] <= data@.len()
                * bound,
    decreases data@.len(),
{
    let n: usize = data.len();
    let ghost numbers = data@.map_values(|x: i128| x as int);
    proof {
        reveal(is_pow2);
    }
    if n <= 1 {
        let out = vstd::slice::slice_to_vec(data);
        assert(n * bound == bound) by (nonlinear_arith)
            requires
                n == 1,
        ;
        return out;
    }
    let half: usize = n / 2;
    proof {
        half_of_power(n as int);
        assert(half * bound <= 255 * u64::MAX) by (nonlinear_arith)
            requires
                n == 2 * half,
                n * bound <= 255 * u64::MAX,
                0 <= bound,
                0 <= half,
        ;
    }
    let (left, right) = data.split_at(half);
    let low = transform(left, bound);
    let high = transform(right, bound);
    proof {
        assert(left@.map_values(|x: i128| x as int) =~= numbers.take(half as int));
        assert(right@.map_values(|x: i128| x as int) =~= numbers.subrange(half as int, 2 * half));
        assert(n * bound == half * bound + half * bound) by (nonlinear_arith)
            requires
                n == 2 * half,
        ;
    }
    let mut out: Vec<i128> = Vec::new();
    let ghost limit = half * bound;
    while out.len() < n
        invariant
            out@.len() <= n,
            n == 2 * half,
            low@.len() == half,
            high@.len() == half,
            numbers.len() == n,
            limit == half * bound,
            n * bound == limit + limit,
            limit <= 255 * u64::MAX,
            forall|i: int| 0 <= i < half ==> -limit <= #[trigger] low@[i] <= limit,
            forall|i: int| 0 <= i < half ==> -limit <= #[trigger] high@[i] <= limit,
            forall|i: int| 0 <= i < half ==> low@[i] == hadamard(numbers.take(half as int))[i],
            forall|i: int|
                0 <= i < half ==> high@[i] == hadamard(numbers.subrange(half as int, 2 * half))[i],
            forall|i: int| 0 <= i < out@.len() ==> out@[i] == hadamard(numbers)[i],
            forall|i: int| 0 <= i < out@.len() ==> -(limit + limit) <= #[trigger] out@[i] <= limit + limit,
        decreases n - out@.len(),
    {
        let i: usize = out.len();
        if i < half {
            out.push(low[i] + high[i]);
        } else {
            out.push(low[i - half] - high[i - half]);
        }
    }
    out
}

proof fn half_of_power(n: int)
    requires
        is_pow2(n),
        n >= 2,
    ensures
        n == 2 * (n / 2),
        is_pow2(n / 2),
{
    reveal(is_pow2);
}

proof fn double_of_power(n: int)
    requires
        is_pow2(n),
    ensures
        is_pow2(2 * n),
        n > 0,
{
    reveal(is_pow2);
}

/// The sketch bits of a byte vector.
fn rotate_bytes(vector: &[u8], signs: &[u32], block_size: usize) -> (flags: Vec<bool>)
    requires
        vector@.len() == signs@.len(),
        signs@.len() > 0,
        signs_valid(signs@),
        block_valid(block_size as int, signs@.len() as int),
    ensures
        flags@ == byte_flags(vector@, signs@, block_size as int),
{
    let dim: usize = vector.len();
    let mut flags: Vec<bool> = Vec::new();
    let mut start: usize = 0;
    let ghost mut blocks: int = 0;
    while start < dim
        invariant
            dim == vector@.len(),
            dim == signs@.len(),
            signs_valid(signs@),
            block_valid(block_size as int, dim as int),
            start <= dim,
            start == blocks * block_size,
            0 <= blocks,
            flags@.len() == start,
            forall|d: int|
                0 <= d < start ==> flags@[d] == byte_flag(vector@, signs@, block_size as int, d),
        decreases dim - start,
    {
        proof {
            next_block_fits(start as int, blocks, block_size as int, dim as int);
        }
        let mut data: Vec<i128> = Vec::new();
        while data.len() < block_size
            invariant
                data@.len() <= block_size,
                start + block_size <= dim,
                dim == vector@.len(),
                dim == signs@.len(),
                signs_valid(signs@),
                forall|i: int|
                    0 <= i < data@.len() ==> data@[i] == signed(vector@, signs@, start + i) && -255
                        <= #[trigger] data@[i] <= 255,
            decreases block_size - data@.len(),
        {
            let d: usize = start + data.len();
            let value: i128 = vector[d] as i128;
            data.push(if signs[d] == ONE { value } else { -value });
        }
        let out = walsh_hadamard(data.as_slice());
        let ghost block = Seq::new(block_size as nat, |i: int| signed(vector@, signs@, start + i));
        proof {
            assert(data@.map_values(|x: i128| x as int) =~= block);
        }
        let mut i: usize = 0;
        while i < block_size
            invariant
                i <= block_size,
                start + block_size <= dim,
                start == blocks * block_size,
                0 <= blocks,
                block_size > 0,
                out@.len() == block_size,
                block == Seq::new(block_size as nat, |i: int| signed(vector@, signs@, start + i)),
                forall|j: int| 0 <= j < block_size ==> out@[j] == hadamard(block)[j],
                flags@.len() == start + i,
                forall|d: int|
                    0 <= d < start + i ==> flags@[d] == byte_flag(
                        vector@,
                        signs@,
                        block_size as int,
                        d,
                    ),
            decreases block_size - i,
        {
            proof {
                let d = start + i;
                block_start(d as int, blocks, block_size as int, i as int);
                assert(byte_flag(vector@, signs@, block_size as int, d as int) == (hadamard(block)[i as int] >= 0));
            }
            flags.push(out[i] >= 0);
            i = i + 1;
        }
        proof {
            assert((blocks + 1) * block_size == blocks * block_size + block_size) by (nonlinear_arith);
            blocks = blocks + 1;
        }
        start = start + block_size;
    }
    assert(flags@ =~= byte_flags(vector@, signs@, block_size as int));
    flags
}

proof fn next_block_fits(start: int, blocks: int, block: int, dim: int)
    requires
        0 <= start < dim,
        start == blocks * block,
        block > 0,
        dim % block == 0,
    ensures
        start + block <= dim,
{
    vstd::arithmetic::div_mod::lemma_fundamental_div_mod(dim, block);
    let q = dim / block;
    assert(blocks < q) by (nonlinear_arith)
        requires
            blocks * block < block * q,
            block > 0,
    ;
    assert(blocks * block + block <= block * q) by (nonlinear_arith)
        requires
            blocks + 1 <= q,
            block > 0,
    ;
}

proof fn block_start(d: int, blocks: int, block: int, i: int)
    requires
        d == blocks * block + i,
        0 <= i < block,
        0 <= blocks,
    ensures
        d / block * block == blocks * block,
{
    vstd::arithmetic::div_mod::lemma_fundamental_div_mod_converse(d, block, blocks, i);
}

/// The largest power of two that divides `n`.
pub fn largest_pow2_factor(n: usize) -> (factor: usize)
    ensures
        n > 0 ==> largest_block(n as int, factor as int),
        n == 0 ==> factor == 1,
        n > 0 ==> 0 < factor <= n,
{
    if n == 0 {
        return 1;
    }
    let mut factor: usize = 1;
    let mut rest: usize = n;
    proof {
        reveal(is_pow2);
    }
    while rest % 2 == 0
        invariant
            rest > 0,
            is_pow2(factor as int),
            factor * rest == n,
        decreases rest,
    {
        let next: usize = rest / 2;
        proof {
            double_of_power(factor as int);
            assert((factor * 2) * next == n) by (nonlinear_arith)
                requires
                    factor * rest == n,
                    rest == 2 * next,
            ;
            assert(factor * 2 <= n) by (nonlinear_arith)
                requires
                    (factor * 2) * next == n,
                    next >= 1,
                    factor > 0,
            ;
        }
        factor = factor * 2;
        rest = next;
    }
    proof {
        double_of_power(factor as int);
        assert(n == rest * factor + 0) by (nonlinear_arith)
            requires
                factor * rest == n,
        ;
        vstd::arithmetic::div_mod::lemma_fundamental_div_mod_converse(
            n as int,
            factor as int,
            rest as int,
            0,
        );
        assert(factor <= n) by (nonlinear_arith)
            requires
                factor * rest == n,
                rest >= 1,
                factor > 0,
        ;
    }
    factor
}

/// Whether `n` is a power of two.
fn power_of_two(n: usize) -> (answer: bool)
    requires
        n > 0,
    ensures
        answer == is_pow2(n as int),
{
    let factor: usize = largest_pow2_factor(n);
    proof {
        if is_pow2(n as int) {
            power_is_its_own_factor(n as int, factor as int);
        }
    }
    factor == n
}

proof fn power_is_its_own_factor(n: int, factor: int)
    requires
        n > 0,
        is_pow2(n),
        largest_block(n, factor),
        0 < factor <= n,
    ensures
        factor == n,
    decreases n,
{
    reveal(is_pow2);
    let odd = n / factor;
    vstd::arithmetic::div_mod::lemma_fundamental_div_mod(n, factor);
    if factor == 1 {
        assert(odd == n);
    } else if n > 1 {
        half_of_power(n);
        half_of_power(factor);
        let f = factor / 2;
        assert(n / 2 == odd * f) by (nonlinear_arith)
            requires
                n == factor * odd,
                factor == 2 * f,
                n == 2 * (n / 2),
        ;
        vstd::arithmetic::div_mod::lemma_fundamental_div_mod_converse(n / 2, f, odd, 0);
        power_is_its_own_factor(n / 2, f);
    }
}

/// There is one largest power of two that divides a number.
proof fn largest_block_is_unique(n: int, one: int, two: int)
    requires
        n > 0,
        0 < one <= two,
        largest_block(n, one),
        largest_block(n, two),
    ensures
        one == two,
    decreases n,
{
    reveal(is_pow2);
    let odd = n / one;
    let other = n / two;
    vstd::arithmetic::div_mod::lemma_fundamental_div_mod(n, one);
    vstd::arithmetic::div_mod::lemma_fundamental_div_mod(n, two);
    if two > 1 {
        half_of_power(two);
        let b = two / 2;
        assert(n == 2 * (other * b)) by (nonlinear_arith)
            requires
                n == two * other,
                two == 2 * b,
        ;
        if one > 1 {
            half_of_power(one);
            let a = one / 2;
            assert(n / 2 == odd * a) by (nonlinear_arith)
                requires
                    n == one * odd,
                    one == 2 * a,
                    n == 2 * (n / 2),
            ;
            vstd::arithmetic::div_mod::lemma_fundamental_div_mod_converse(n / 2, a, odd, 0);
            vstd::arithmetic::div_mod::lemma_fundamental_div_mod_converse(n / 2, b, other, 0);
            largest_block_is_unique(n / 2, a, b);
        }
    }
}

/// The sketches are the same, and so are the signs and blocks they are made with.
pub open spec fn sketches_alike(one: &BinaryStore, two: &BinaryStore) -> bool {
    &&& one.codes@ == two.codes@
    &&& one.code_words == two.code_words
    &&& one.signs@ == two.signs@
    &&& one.block_size == two.block_size
}

/// Sketches that the library makes differ in the codes at most.
pub proof fn standard_sketches_agree(one: &BinaryStore, two: &BinaryStore)
    requires
        one.wf(),
        two.wf(),
        one.is_standard(),
        two.is_standard(),
        one.signs@.len() == two.signs@.len(),
    ensures
        one.code_words == two.code_words,
        one.signs@ == two.signs@,
        one.block_size == two.block_size,
{
    let n = one.signs@.len() as int;
    if one.block_size <= two.block_size {
        largest_block_is_unique(n, one.block_size as int, two.block_size as int);
    } else {
        largest_block_is_unique(n, two.block_size as int, one.block_size as int);
    }
}

/// Sketches whose codes agree point by point are the same.
pub proof fn equal_codes_make_equal_sketches(one: &BinaryStore, two: &BinaryStore)
    requires
        one.wf(),
        two.wf(),
        one.is_standard(),
        two.is_standard(),
        one.signs@.len() == two.signs@.len(),
        one.count() == two.count(),
        forall|p: int| 0 <= p < one.count() ==> #[trigger] one.code_of(p) == two.code_of(p),
    ensures
        sketches_alike(one, two),
{
    standard_sketches_agree(one, two);
    let words = one.code_words as int;
    let count = one.count();
    vstd::arithmetic::div_mod::lemma_fundamental_div_mod(one.codes@.len() as int, words);
    vstd::arithmetic::div_mod::lemma_fundamental_div_mod(two.codes@.len() as int, words);
    assert(one.codes@.len() == two.codes@.len());
    assert forall|i: int| 0 <= i < one.codes@.len() implies one.codes@[i] == two.codes@[i] by {
        let p = i / words;
        let w = i % words;
        vstd::arithmetic::div_mod::lemma_fundamental_div_mod(i, words);
        assert(0 <= p < count) by (nonlinear_arith)
            requires
                i == words * p + w,
                0 <= w < words,
                0 <= i < words * count,
        ;
        code_bounds(p, count, words, one.codes@.len() as int);
        assert(words * p == p * words) by (nonlinear_arith);
        assert((p + 1) * words == p * words + words) by (nonlinear_arith);
        assert(one.code_of(p) == two.code_of(p));
        assert(one.code_of(p)[w] == one.codes@[p * words + w]);
        assert(two.code_of(p)[w] == two.codes@[p * words + w]);
    }
    assert(one.codes@ =~= two.codes@);
}

/// Two to the power of `exponent`.
fn power(exponent: usize) -> (result: u64)
    requires
        exponent < 64,
    ensures
        result == pow2(exponent as nat),
{
    let mut result: u64 = 1;
    let mut i: usize = 0;
    proof {
        lemma2_to64();
    }
    while i < exponent
        invariant
            i <= exponent < 64,
            result == pow2(i as nat),
        decreases exponent - i,
    {
        proof {
            lemma_pow2_unfold((i + 1) as nat);
            lemma2_to64_rest();
            lemma_pow2_strictly_increases((i + 1) as nat, 64);
        }
        result = result * 2;
        i = i + 1;
    }
    result
}

proof fn code_bounds(id: int, count: int, words: int, total: int)
    requires
        0 <= id < count,
        words > 0,
        count == total / words,
        total % words == 0,
    ensures
        0 <= id * words,
        id * words + words == (id + 1) * words,
        (id + 1) * words <= total,
        total == count * words,
{
    vstd::arithmetic::div_mod::lemma_fundamental_div_mod(total, words);
    crate::point::row_bounds(id, count, words);
    assert(total == count * words) by (nonlinear_arith)
        requires
            total == words * count,
    ;
}

proof fn whole_codes(count: int, words: int)
    requires
        0 <= count,
        words > 0,
    ensures
        (count * words) / words == count,
        (count * words) % words == 0,
{
    vstd::arithmetic::div_mod::lemma_fundamental_div_mod_converse(count * words, words, count, 0);
}

proof fn code_appended(before: Seq<u64>, code: Seq<u64>, p: int, words: int)
    requires
        0 <= p,
        words > 0,
        before.len() == p * words,
        code.len() == words,
    ensures
        (before + code).len() == (p + 1) * words,
        (before + code).subrange(p * words, (p + 1) * words) == code,
{
    assert((p + 1) * words == p * words + words) by (nonlinear_arith);
    assert((before + code).subrange(p * words, (p + 1) * words) =~= code);
}

proof fn code_kept(before: Seq<u64>, code: Seq<u64>, q: int, p: int, words: int)
    requires
        0 <= q < p,
        words > 0,
        before.len() == p * words,
    ensures
        (before + code).subrange(q * words, (q + 1) * words) == before.subrange(
            q * words,
            (q + 1) * words,
        ),
{
    crate::point::row_bounds(q, p, words);
    assert((before + code).subrange(q * words, (q + 1) * words) =~= before.subrange(
        q * words,
        (q + 1) * words,
    ));
}

} // verus!
