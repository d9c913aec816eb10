//! Vectors quantized to one byte per coordinate.

use vstd::prelude::*;
use crate::distance::{from_ord_key, ord_key, pattern_of};
use crate::error::{
    ends, invalid_format, invalid_input, overflow, refused_input, PrismResult, Verdict,
};
use crate::order::{arranged, arranged_is_sorted, sorted_copy};
use crate::point::{row_bounds, PointStore};
use crate::pure::{of2, of3, of4, total2, total3, total4};
use crate::single::{
    all_in_domain, byte_to_pattern, check_domain, finite, is_finite, less, less_than, order_of,
    pattern_of_byte, round_to_byte, rounded, ONE, SIGN,
};
use crate::wipe::{wipe_bytes, wipe_words};

verus! {

/// Pattern of the largest finite number.
pub const LARGEST: u32 = 0x7f7f_ffff;

/// Pattern of the smallest finite number.
pub const SMALLEST: u32 = 0xff7f_ffff;

/// How many points are looked at for the range of a coordinate at most.
pub const SAMPLE_LIMIT: usize = 10_000;

/// From how many points on the extremes of a coordinate are cut off.
pub const SAMPLE_FLOOR: usize = 200;

/// Name of the implementation of candidate distances: the scalar reference if
/// it is forced, else the vector instructions if the processor has them.
pub fn sq8_candidate_backend_name(forced_scalar: bool, vector_instructions: bool) -> (name: &'static str)
    ensures
        name@ == if forced_scalar {
            "scalar reference (forced feature)"@
        } else if vector_instructions {
            "AVX2/FMA (runtime detected)"@
        } else {
            "scalar runtime fallback"@
        },
{
    if forced_scalar {
        "scalar reference (forced feature)"
    } else if vector_instructions {
        "AVX2/FMA (runtime detected)"
    } else {
        "scalar runtime fallback"
    }
}

/// One byte per coordinate, with the range of each coordinate.
pub struct SQ8Store {
    /// `dim` bytes per point.
    pub codes: Vec<u8>,
    /// What the byte zero stands for, per coordinate, as a bit pattern.
    pub mins: Vec<u32>,
    /// What one step of the byte stands for, per coordinate, as a bit pattern.
    pub scales: Vec<u32>,
    pub dim: usize,
}

/// A coordinate that is a whole number between 0 and 255.
pub open spec fn is_byte(bits: u32) -> bool {
    bits == SIGN || bits == pattern_of_byte(rounded(bits))
}

/// Coordinate `d` of the point that is looked at as number `s` of `count`.
pub open spec fn sampled(store: &PointStore, d: int, count: int, s: int) -> u32 {
    store.row(s * store.len as int / count)[d]
}

/// Keys of the coordinates that are looked at.
pub open spec fn sample_keys(store: &PointStore, d: int, count: int) -> Seq<u32> {
    Seq::new(count as nat, |s: int| order_of(sampled(store, d, count, s)))
}

/// The least of the first `upto` coordinates `d`.
pub open spec fn least(store: &PointStore, d: int, upto: int) -> u32
    decreases upto,
{
    if upto <= 0 {
        LARGEST
    } else if less(store.row(upto - 1)[d], least(store, d, upto - 1)) {
        store.row(upto - 1)[d]
    } else {
        least(store, d, upto - 1)
    }
}

/// The greatest of the first `upto` coordinates `d`.
pub open spec fn greatest(store: &PointStore, d: int, upto: int) -> u32
    decreases upto,
{
    if upto <= 0 {
        SMALLEST
    } else if less(greatest(store, d, upto - 1), store.row(upto - 1)[d]) {
        store.row(upto - 1)[d]
    } else {
        greatest(store, d, upto - 1)
    }
}

/// Lower and upper end of the range of coordinate `d`: the extremes of a small
/// store; of a larger one what a spread-out sample of at most ten thousand
/// points leaves without its lowest and highest two-hundredth.
pub open spec fn coordinate_range(store: &PointStore, d: int) -> (u32, u32) {
    let count = if store.len < SAMPLE_LIMIT {
        store.len as int
    } else {
        SAMPLE_LIMIT as int
    };
    if count >= SAMPLE_FLOOR {
        let keys = arranged(sample_keys(store, d, count));
        (pattern_of(keys[count / 200]), pattern_of(keys[count - 1 - count / 200]))
    } else {
        (least(store, d, store.len as int), greatest(store, d, store.len as int))
    }
}

/// What one step of the byte stands for.
pub open spec fn step_of<S: Fn(u32, u32) -> u32>(step: S, range: (u32, u32)) -> u32 {
    if less(range.0, range.1) {
        of2(step, range.0, range.1)
    } else {
        ONE
    }
}

/// Whether parts can make up a store.
pub open spec fn parts_verdict<F: Fn(u8, u32, u32, usize) -> bool>(
    codes: Seq<u8>,
    mins: Seq<u32>,
    scales: Seq<u32>,
    dim: int,
    sound: F,
) -> Verdict {
    if dim == 0 || mins.len() != dim || scales.len() != dim || codes.len() as int % dim != 0 {
        Verdict::InvalidFormat
    } else if codes.len() as int / dim > u32::MAX {
        Verdict::Overflow
    } else if ranges_valid(mins, scales) && codes_sound(codes, mins, scales, dim, sound) {
        Verdict::Accepted
    } else {
        Verdict::InvalidFormat
    }
}

/// Every minimum is finite, every scale finite and positive.
pub open spec fn ranges_valid(mins: Seq<u32>, scales: Seq<u32>) -> bool {
    &&& forall|d: int| 0 <= d < mins.len() ==> is_finite(#[trigger] mins[d])
    &&& forall|d: int| 0 <= d < scales.len() ==> is_finite(#[trigger] scales[d]) && less(0, scales[d])
}

/// Every code stands for a coordinate in the domain of distances.
pub open spec fn codes_sound<F: Fn(u8, u32, u32, usize) -> bool>(
    codes: Seq<u8>,
    mins: Seq<u32>,
    scales: Seq<u32>,
    dim: int,
    sound: F,
) -> bool {
    forall|i: int|
        0 <= i < codes.len() ==> of4(
            sound,
            #[trigger] codes[i],
            mins[i % dim],
            scales[i % dim],
            dim as usize,
        )
}

impl SQ8Store {
    /// What holds of every valid value.
    pub open spec fn wf(&self) -> bool {
        &&& self.dim > 0
        &&& self.mins@.len() == self.dim
        &&& self.scales@.len() == self.dim
        &&& self.codes@.len() as int % self.dim as int == 0
        &&& self.codes@.len() as int / self.dim as int <= u32::MAX
    }

    /// Number of quantized points.
    pub open spec fn count(&self) -> int {
        self.codes@.len() as int / self.dim as int
    }

    /// Bytes of point `id`.
    pub open spec fn code_of(&self, id: int) -> Seq<u8> {
        self.codes@.subrange(id * self.dim, (id + 1) * self.dim)
    }

    /// A store with the codes of `store`: its bytes where every coordinate is
    /// one, else codes relative to the range of each coordinate.
    pub open spec fn quantizes<S: Fn(u32, u32) -> u32, E: Fn(u32, u32, u32) -> u8>(
        &self,
        store: &PointStore,
        step: S,
        encode: E,
    ) -> bool {
        let exact = forall|i: int| 0 <= i < store.vectors@.len() ==> is_byte(#[trigger] store.vectors@[i]);
        &&& self.dim == store.dim
        &&& self.codes@.len() == store.vectors@.len()
        &&& self.mins@.len() == store.dim
        &&& self.scales@.len() == store.dim
        &&& exact ==> {
            &&& forall|d: int| 0 <= d < store.dim ==> #[trigger] self.mins@[d] == 0
            &&& forall|d: int| 0 <= d < store.dim ==> #[trigger] self.scales@[d] == ONE
            &&& forall|i: int|
                0 <= i < store.vectors@.len() ==> #[trigger] self.codes@[i] == rounded(store.vectors@[i])
        }
        &&& !exact ==> {
            &&& forall|d: int|
                0 <= d < store.dim ==> #[trigger] self.mins@[d] == coordinate_range(store, d).0
            &&& forall|d: int|
                0 <= d < store.dim ==> #[trigger] self.scales@[d] == step_of(
                    step,
                    coordinate_range(store, d),
                )
            &&& forall|i: int|
                0 <= i < store.vectors@.len() ==> #[trigger] self.codes@[i] == of3(
                    encode,
                    store.vectors@[i],
                    self.mins@[i % store.dim as int],
                    self.scales@[i % store.dim as int],
                )
        }
    }

    /// Puts persisted parts together.  `sound` tells whether a byte stands for
    /// a coordinate in the domain of distances, given minimum, scale and number
    /// of dimensions.
    pub fn from_parts<F: Fn(u8, u32, u32, usize) -> bool>(
        codes: Vec<u8>,
        mins: Vec<u32>,
        scales: Vec<u32>,
        dim: usize,
        sound: &F,
    ) -> (result: PrismResult<SQ8Store>)
        requires
            total4(*sound),
        ensures
            ends(result, parts_verdict(codes@, mins@, scales@, dim as int, *sound)),
            result matches Ok(store) ==> {
                &&& store.wf()
                &&& store.codes == codes
                &&& store.mins == mins
                &&& store.scales == scales
                &&& store.dim == dim
            },
    {
        if dim == 0 {
            return Err(invalid_format("SQ8 dimension must be greater than zero"));
        }
        if mins.len() != dim || scales.len() != dim {
            return Err(invalid_format("SQ8 mins/scales lengths must equal dimension"));
        }
        if codes.len() % dim != 0 {
            return Err(invalid_format("SQ8 code length must be divisible by dimension"));
        }
        if (codes.len() / dim) as u64 > u32::MAX as u64 {
            return Err(overflow("SQ8 point count exceeds the u32 identifier space"));
        }
        let mut d: usize = 0;
        while d < dim
            invariant
                d <= dim,
                mins@.len() == dim,
                scales@.len() == dim,
                codes@.len() as int % dim as int == 0,
                codes@.len() as int / dim as int <= u32::MAX,
                dim > 0,
                forall|e: int| 0 <= e < d ==> is_finite(#[trigger] mins@[e]),
                forall|e: int| 0 <= e < d ==> is_finite(#[trigger] scales@[e]) && less(0, scales@[e]),
            decreases dim - d,
        {
            if !finite(mins[d]) {
                return Err(invalid_format("SQ8 minimum is not finite"));
            }
            if !finite(scales[d]) || !less_than(0, scales[d]) {
                return Err(invalid_format("SQ8 scale must be finite and positive"));
            }
            d = d + 1;
        }
        let mut i: usize = 0;
        while i < codes.len()
            invariant
                i <= codes@.len(),
                mins@.len() == dim,
                scales@.len() == dim,
                codes@.len() as int % dim as int == 0,
                codes@.len() as int / dim as int <= u32::MAX,
                dim > 0,
                total4(*sound),
                ranges_valid(mins@, scales@),
                forall|j: int|
                    0 <= j < i ==> of4(
                        *sound,
                        #[trigger] codes@[j],
                        mins@[j % dim as int],
                        scales@[j % dim as int],
                        dim,
                    ),
            decreases codes@.len() - i,
        {
            let d: usize = i % dim;
            if !sound(codes[i], mins[d], scales[d], dim) {
                return Err(
                    invalid_format(
                        "SQ8 reconstructed value must remain finite and within the distance domain",
                    ),
                );
            }
            i = i + 1;
        }
        Ok(SQ8Store { codes, mins, scales, dim })
    }

    /// All codes.
    pub fn codes(&self) -> (codes: &[u8])
        ensures
            codes@ == self.codes@,
    {
        self.codes.as_slice()
    }

    /// What the byte zero stands for, per coordinate.
    pub fn mins(&self) -> (mins: &[u32])
        ensures
            mins@ == self.mins@,
    {
        self.mins.as_slice()
    }

    /// What one step of the byte stands for, per coordinate.
    pub fn scales(&self) -> (scales: &[u32])
        ensures
            scales@ == self.scales@,
    {
        self.scales.as_slice()
    }

    /// Coordinates per point.
    pub fn dim(&self) -> (dim: usize)
        ensures
            dim == self.dim,
    {
        self.dim
    }

    /// Number of quantized points.
    pub fn len(&self) -> (count: usize)
        requires
            self.wf(),
        ensures
            count == self.count(),
    {
        self.codes.len() / self.dim
    }

    /// Whether no point is quantized.
    pub fn is_empty(&self) -> (empty: bool)
        ensures
            empty == (self.codes@.len() == 0),
    {
        self.codes.len() == 0
    }

    /// The ranges of `dim` coordinates, with no code.
    pub fn empty(dim: usize) -> (store: SQ8Store)
        requires
            dim > 0,
        ensures
            store.wf(),
            store.dim == dim,
            store.codes@.len() == 0,
            forall|d: int| 0 <= d < dim ==> #[trigger] store.mins@[d] == 0,
            forall|d: int| 0 <= d < dim ==> #[trigger] store.scales@[d] == ONE,
    {
        proof {
            whole_rows(0, dim as int);
        }
        let mins = repeated(0, dim);
        let scales = repeated(ONE, dim);
        SQ8Store { codes: Vec::new(), mins, scales, dim }
    }

    /// Quantizes the points of a store.  `step` gives the length of one of 255
    /// steps between two numbers, `encode` the byte of a coordinate, given
    /// minimum and scale.
    pub fn build<S: Fn(u32, u32) -> u32, E: Fn(u32, u32, u32) -> u8>(
        store: &PointStore,
        step: &S,
        encode: &E,
    ) -> (quantized: SQ8Store)
        requires
            store.wf(),
            total2(*step),
            total3(*encode),
        ensures
            quantized.wf(),
            quantized.count() == store.len,
            quantized.quantizes(store, *step, *encode),
    {
        let dim: usize = store.dim;
        proof {
            whole_rows(store.len as int, dim as int);
        }
        if all_bytes(store.vectors()) {
            let mut codes: Vec<u8> = Vec::new();
            while codes.len() < store.vectors.len()
                invariant
                    codes@.len() <= store.vectors@.len(),
                    forall|i: int|
                        0 <= i < codes@.len() ==> #[trigger] codes@[i] == rounded(store.vectors@[i]),
                decreases store.vectors@.len() - codes@.len(),
            {
                codes.push(round_to_byte(store.vectors[codes.len()]));
            }
            let mins = repeated(0, dim);
            let scales = repeated(ONE, dim);
            return SQ8Store { codes, mins, scales, dim };
        }
        let mut mins: Vec<u32> = Vec::new();
        let mut scales: Vec<u32> = Vec::new();
        while mins.len() < dim
            invariant
                mins@.len() <= dim,
                scales@.len() == mins@.len(),
                dim == store.dim,
                store.wf(),
                total2(*step),
                forall|d: int|
                    0 <= d < mins@.len() ==> #[trigger] mins@[d] == coordinate_range(store, d).0,
                forall|d: int|
                    0 <= d < scales@.len() ==> #[trigger] scales@[d] == step_of(
                        *step,
                        coordinate_range(store, d),
                    ),
            decreases dim - mins@.len(),
        {
            let (low, high): (u32, u32) = find_range(store, mins.len());
            let scale: u32 = if less_than(low, high) { step(low, high) } else { ONE };
            mins.push(low);
            scales.push(scale);
        }
        let mut codes: Vec<u8> = Vec::new();
        while codes.len() < store.vectors.len()
            invariant
                codes@.len() <= store.vectors@.len(),
                mins@.len() == dim,
                scales@.len() == dim,
                dim == store.dim,
                dim > 0,
                total3(*encode),
                forall|i: int|
                    0 <= i < codes@.len() ==> #[trigger] codes@[i] == of3(
                        *encode,
                        store.vectors@[i],
                        mins@[i % dim as int],
                        scales@[i % dim as int],
                    ),
            decreases store.vectors@.len() - codes@.len(),
        {
            let i: usize = codes.len();
            let d: usize = i % dim;
            codes.push(encode(store.vectors[i], mins[d], scales[d]));
        }
        SQ8Store { codes, mins, scales, dim }
    }

    /// Bytes of point `id`.
    pub fn code(&self, id: u32) -> (code: Option<&[u8]>)
        requires
            self.wf(),
        ensures
            code is Some <==> id < self.count(),
            code matches Some(bytes) ==> bytes@ == self.code_of(id as int),
    {
        if (id as usize) < self.len() {
            Some(self.code_unchecked(id))
        } else {
            None
        }
    }

    /// Bytes of a point that is known to be quantized.
    pub fn code_unchecked(&self, id: u32) -> (code: &[u8])
        requires
            self.wf(),
            id < self.count(),
        ensures
            code@ == self.code_of(id as int),
            code@.len() == self.dim,
    {
        let bytes = self.codes.as_slice();
        assert(bytes@.len() == bytes.len());
        proof {
            row_bounds(id as int, self.count(), self.dim as int);
            vstd::arithmetic::div_mod::lemma_fundamental_div_mod(
                self.codes@.len() as int,
                self.dim as int,
            );
            assert(self.count() * self.dim == self.dim * self.count()) by (nonlinear_arith);
        }
        let start: usize = id as usize * self.dim;
        vstd::slice::slice_subrange(bytes, start, start + self.dim)
    }

    /// Bytes of a query.
    pub fn quantize_query<E: Fn(u32, u32, u32) -> u8>(&self, query: &[u32], encode: &E) -> (result:
        PrismResult<Vec<u8>>)
        requires
            self.wf(),
            total3(*encode),
        ensures
            result is Ok <==> query@.len() == self.dim && all_in_domain(query@, self.dim as int),
            result is Err ==> refused_input(result),
            result matches Ok(bytes) ==> bytes@ == Seq::new(
                self.dim as nat,
                |d: int| of3(*encode, query@[d], self.mins@[d], self.scales@[d]),
            ),
    {
        if query.len() != self.dim {
            return Err(invalid_input("query length must equal the SQ8 dimension"));
        }
        if !check_domain(query, self.dim) {
            return Err(invalid_input("query value must be finite, its absolute magnitude within the distance domain"));
        }
        let mut bytes: Vec<u8> = Vec::new();
        while bytes.len() < self.dim
            invariant
                bytes@.len() <= self.dim,
                query@.len() == self.dim,
                self.wf(),
                total3(*encode),
                forall|d: int|
                    0 <= d < bytes@.len() ==> #[trigger] bytes@[d] == of3(
                        *encode,
                        query@[d],
                        self.mins@[d],
                        self.scales@[d],
                    ),
            decreases self.dim - bytes@.len(),
        {
            let d: usize = bytes.len();
            bytes.push(encode(query[d], self.mins[d], self.scales[d]));
        }
        assert(bytes@ =~= Seq::new(
            self.dim as nat,
            |d: int| of3(*encode, query@[d], self.mins@[d], self.scales@[d]),
        ));
        Ok(bytes)
    }
}

impl Drop for SQ8Store {
    /// Clears codes and ranges before their memory is released.
    fn drop(&mut self)
        opens_invariants none
        no_unwind
    {
        wipe_bytes(&mut self.codes);
        wipe_words(&mut self.mins);
        wipe_words(&mut self.scales);
    }
}

proof fn whole_rows(count: int, dim: int)
    requires
        0 <= count,
        dim > 0,
    ensures
        (count * dim) / dim == count,
        (count * dim) % dim == 0,
{
    vstd::arithmetic::div_mod::lemma_fundamental_div_mod_converse(count * dim, dim, count, 0);
}

/// `count` copies of a pattern.
fn repeated(bits: u32, count: usize) -> (out: Vec<u32>)
    ensures
        out@.len() == count,
        forall|i: int| 0 <= i < count ==> #[trigger] out@[i] == bits,
{
    let mut out: Vec<u32> = Vec::new();
    while out.len() < count
        invariant
            out@.len() <= count,
            forall|i: int| 0 <= i < out@.len() ==> #[trigger] out@[i] == bits,
        decreases count - out@.len(),
    {
        out.push(bits);
    }
    out
}

/// Whether every coordinate is a whole number between 0 and 255.
fn all_bytes(values: &[u32]) -> (answer: bool)
    ensures
        answer == forall|i: int| 0 <= i < values@.len() ==> is_byte(#[trigger] values@[i]),
{
    let mut i: usize = 0;
    while i < values.len()
        invariant
            i <= values@.len(),
            forall|j: int| 0 <= j < i ==> is_byte(#[trigger] values@[j]),
        decreases values@.len() - i,
    {
        let bits: u32 = values[i];
        if bits != SIGN && bits != byte_to_pattern(round_to_byte(bits)) {
            assert(!is_byte(values@[i as int]));
            return false;
        }
        i = i + 1;
    }
    true
}

/// Coordinate `d` of a point.
fn coordinate(store: &PointStore, id: usize, d: usize) -> (bits: u32)
    requires
        store.wf(),
        id < store.len,
        d < store.dim,
    ensures
        bits == store.row(id as int)[d as int],
{
    let row = store.vector_unchecked(id as u32);
    row[d]
}

/// The range of a coordinate.
fn find_range(store: &PointStore, d: usize) -> (range: (u32, u32))
    requires
        store.wf(),
        d < store.dim,
    ensures
        range == coordinate_range(store, d as int),
{
    let n: usize = store.len;
    let count: usize = if n < SAMPLE_LIMIT { n } else { SAMPLE_LIMIT };
    if count >= SAMPLE_FLOOR {
        let mut keys: Vec<u32> = Vec::new();
        while keys.len() < count
            invariant
                keys@.len() <= count,
                SAMPLE_FLOOR <= count <= SAMPLE_LIMIT,
                count <= n,
                n == store.len,
                store.wf(),
                d < store.dim,
                forall|s: int|
                    0 <= s < keys@.len() ==> #[trigger] keys@[s] == order_of(
                        sampled(store, d as int, count as int, s),
                    ),
            decreases count - keys@.len(),
        {
            let s: usize = keys.len();
            proof {
                sample_is_within(s as int, n as int, count as int);
            }
            let at: usize = ((s as u64) * (n as u64) / (count as u64)) as usize;
            keys.push(ord_key(coordinate(store, at, d)));
        }
        assert(keys@ =~= sample_keys(store, d as int, count as int));
        let keys = sorted_copy(keys.as_slice());
        proof {
            arranged_is_sorted(sample_keys(store, d as int, count as int));
        }
        let cut: usize = count / 200;
        (from_ord_key(keys[cut]), from_ord_key(keys[count - 1 - cut]))
    } else {
        let mut low: u32 = LARGEST;
        let mut high: u32 = SMALLEST;
        let mut i: usize = 0;
        while i < n
            invariant
                i <= n,
                n == store.len,
                store.wf(),
                d < store.dim,
                low == least(store, d as int, i as int),
                high == greatest(store, d as int, i as int),
            decreases n - i,
        {
            let bits: u32 = coordinate(store, i, d);
            if less_than(bits, low) {
                low = bits;
            }
            if less_than(high, bits) {
                high = bits;
            }
            i = i + 1;
        }
        (low, high)
    }
}

proof fn sample_is_within(s: int, n: int, count: int)
    requires
        0 <= s < count <= n <= u32::MAX,
        count <= SAMPLE_LIMIT,
    ensures
        0 <= s * n / count < n,
        0 <= s * n <= u64::MAX,
{
    assert(s * n <= (count - 1) * n) by (nonlinear_arith)
        requires
            s <= count - 1,
            0 <= n,
    ;
    assert(0 <= s * n && (count - 1) * n < count * n && (count - 1) * n <= 10_000 * 0xffff_ffff)
        by (nonlinear_arith)
        requires
            0 <= s,
            0 < count <= 10_000,
            0 < n <= 0xffff_ffff,
    ;
    vstd::arithmetic::div_mod::lemma_div_pos_is_pos(s * n, count);
    vstd::arithmetic::div_mod::lemma_multiply_divide_lt(s * n, count, n);
}

} // verus!
