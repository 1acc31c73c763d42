//! Lloyd-Max codebooks: `2^b` centroids and the decision boundaries between them.
//!
//! A coordinate is quantized to the bin that it falls into and restored as the bin's
//! centroid. The optimal centroids solve a one-dimensional k-means problem on the
//! coordinates' distribution, which depends on the dimension alone: start from
//! quantiles, then let each centroid be the mean of its cell and each boundary the
//! midpoint of two centroids, until the centroids settle. Codebooks are kept once they
//! are computed.
//!
//! The numbers that Lloyd's iteration works with are of a type of the caller's, and the
//! arithmetic on them comes in as functions; what is stated of the iteration holds of
//! whatever they return.
use std::collections::HashMap;

use vstd::arithmetic::power2::{
    lemma2_to64, lemma2_to64_rest, lemma_pow2_adds, lemma_pow2_strictly_increases, pow2,
};
use vstd::bits::lemma_u64_shl_is_mul;
use vstd::prelude::*;
use vstd::slice::slice_to_vec;

use crate::error::TurboError;
use crate::float::{law_named_numbers, lemma_within_one, Float32, MINUS_ONE_BITS, ONE_BITS};
use crate::linear::lemma_product_rules;

verus! {

broadcast use vstd::std_specs::hash::group_hash_axioms;

/// The largest number of Lloyd iterations.
pub const MAX_ITER: usize = 200;

/// The number of intervals that an integral is divided into.
pub const QUAD_POINTS: usize = 256;

/// The largest number of bisection steps.
pub const MAX_BISECTIONS: usize = 100;

// --- Bins ---

/// The values of the interior boundaries, which leave out the first and the last.
pub open spec fn interior(boundaries: Seq<Float32>) -> Seq<int> {
    Seq::new((boundaries.len() - 2) as nat, |i: int| boundaries[i + 1].units())
}

/// How many of the given values are below `value`.
pub open spec fn count_below(values: Seq<int>, value: int) -> nat
    decreases values.len(),
{
    if values.len() == 0 {
        0
    } else {
        count_below(values.drop_last(), value) + if values.last() < value {
            1nat
        } else {
            0nat
        }
    }
}

/// The bin of a value: the number of interior boundaries below it.
pub open spec fn bin_of(value: Float32, boundaries: Seq<Float32>) -> nat {
    count_below(interior(boundaries), value.units())
}

/// Whether the interior boundaries are numbers in ascending order.
pub open spec fn ascending(boundaries: Seq<Float32>) -> bool {
    &&& boundaries.len() >= 2
    &&& forall|i: int| 1 <= i < boundaries.len() - 1 ==> !(#[trigger] boundaries[i]).nan()
    &&& forall|i: int, j: int|
        1 <= i <= j < boundaries.len() - 1 ==> (#[trigger] boundaries[i]).units() <= (
        #[trigger] boundaries[j]).units()
}

/// Where the first `n` values are below `value` and no other is, there are `n` below it.
proof fn lemma_count_below(values: Seq<int>, value: int, n: int)
    requires
        0 <= n <= values.len(),
        forall|i: int| 0 <= i < n ==> #[trigger] values[i] < value,
        forall|i: int| n <= i < values.len() ==> value <= #[trigger] values[i],
    ensures
        count_below(values, value) == n,
    decreases values.len(),
{
    if values.len() > 0 {
        if n == values.len() {
            lemma_count_below(values.drop_last(), value, n - 1);
        } else {
            lemma_count_below(values.drop_last(), value, n);
        }
    }
}

proof fn lemma_count_below_bound(values: Seq<int>, value: int)
    ensures
        count_below(values, value) <= values.len(),
    decreases values.len(),
{
    if values.len() > 0 {
        lemma_count_below_bound(values.drop_last(), value);
    }
}

/// Of ascending values those below `value` come first.
proof fn lemma_below_come_first(values: Seq<int>, value: int)
    requires
        forall|i: int, j: int| 0 <= i <= j < values.len() ==> values[i] <= values[j],
    ensures
        count_below(values, value) <= values.len(),
        forall|i: int| 0 <= i < count_below(values, value) ==> #[trigger] values[i] < value,
        forall|i: int|
            count_below(values, value) <= i < values.len() ==> value <= #[trigger] values[i],
    decreases values.len(),
{
    if values.len() > 0 {
        let init = values.drop_last();
        assert forall|i: int, j: int| 0 <= i <= j < init.len() implies init[i] <= init[j] by {
            assert(values[i] <= values[j]);
        }
        lemma_below_come_first(init, value);
        let n = count_below(init, value);
        assert forall|i: int| 0 <= i < count_below(values, value) implies #[trigger] values[i]
            < value by {
            if i < n {
                assert(init[i] < value);
            } else {
                assert(values[i] <= values.last());
            }
        }
        assert forall|i: int| count_below(values, value) <= i < values.len() implies value
            <= #[trigger] values[i] by {
            if i < init.len() {
                if n < count_below(values, value) {
                    assert(values.last() < value);
                    if n < init.len() {
                        assert(value <= init[n as int]);
                        assert(values[n as int] <= values.last());
                    }
                } else {
                    assert(value <= init[i]);
                }
            }
        }
    }
}

/// Quantize a single value to the index of its bin.
///
/// The bin is the number of interior boundaries below the value, so a value on a boundary
/// belongs to the bin that ends there.
pub fn quantize_scalar(value: Float32, boundaries: &[Float32]) -> (r: u8)
    requires
        ascending(boundaries@),
        boundaries@.len() > 2 ==> !value.nan(),
    ensures
        r == bin_of(value, boundaries@) % 256,
        boundaries@.len() <= 257 ==> r == bin_of(value, boundaries@) && r < boundaries@.len() - 1,
{
    let count: usize = boundaries.len() - 2;
    let mut low: usize = 0;
    let mut high: usize = count;
    while low < high
        invariant
            count == boundaries@.len() - 2,
            low <= high <= count,
            ascending(boundaries@),
            count > 0 ==> !value.nan(),
            forall|i: int|
                1 <= i < 1 + low ==> (#[trigger] boundaries@[i]).units() < value.units(),
            forall|i: int|
                1 + high <= i < 1 + count ==> value.units() <= (#[trigger] boundaries@[i]).units(),
        decreases high - low,
    {
        let mid: usize = low + (high - low) / 2;
        if boundaries[mid + 1].less_than(value) {
            low = mid + 1;
        } else {
            high = mid;
        }
    }
    proof {
        let inner = interior(boundaries@);
        assert forall|i: int| 0 <= i < low implies #[trigger] inner[i] < value.units() by {
            assert(boundaries@[i + 1].units() < value.units());
        }
        assert forall|i: int| low <= i < inner.len() implies value.units() <= #[trigger] inner[i] by {
            assert(value.units() <= boundaries@[i + 1].units());
        }
        lemma_count_below(inner, value.units(), low as int);
        assert(low as u8 == low % 256) by (bit_vector);
    }
    low as u8
}

/// Dequantize a bin index back to its centroid value.
pub fn dequantize_scalar(index: u8, centroids: &[Float32]) -> (r: Float32)
    requires
        index < centroids@.len(),
    ensures
        r == centroids@[index as int],
{
    centroids[index as usize]
}

// --- Codebooks ---

/// Centroids and boundaries.
pub type CodebookView = (Seq<Float32>, Seq<Float32>);

/// What a pair of vectors holds.
pub open spec fn codebook_view(codebook: (Vec<Float32>, Vec<Float32>)) -> CodebookView {
    (codebook.0@, codebook.1@)
}

/// Whether the centroids are numbers between -1 and 1 in ascending order.
pub open spec fn ascending_centroids(centroids: Seq<Float32>) -> bool {
    &&& forall|i: int| 0 <= i < centroids.len() ==> !(#[trigger] centroids[i]).nan()
    &&& forall|i: int, j: int|
        0 <= i <= j < centroids.len() ==> (Float32 { bits: MINUS_ONE_BITS }).units() <= (
        #[trigger] centroids[i]).units() <= (#[trigger] centroids[j]).units() <= (Float32 {
            bits: ONE_BITS,
        }).units()
}

/// Whether each centroid lies in its own cell, between the boundaries at its sides.
pub open spec fn in_cells(centroids: Seq<Float32>, boundaries: Seq<Float32>) -> bool {
    forall|i: int|
        0 <= i < centroids.len() ==> boundaries[i].units() <= (#[trigger] centroids[i]).units()
            <= boundaries[i + 1].units()
}

/// Whether there is a centroid for every code of `num_bits` bits, and a boundary at either side of
/// each.
pub open spec fn sized_codebook(codebook: CodebookView, num_bits: u32) -> bool {
    &&& codebook.0.len() == pow2(num_bits as nat)
    &&& codebook.1.len() == pow2(num_bits as nat) + 1
}

/// Whether values can be searched for among the boundaries of a codebook of `num_bits` bits.
pub open spec fn searchable_codebook(codebook: CodebookView, num_bits: u32) -> bool {
    &&& sized_codebook(codebook, num_bits)
    &&& ascending(codebook.1)
}

/// How far twice a boundary may be off the sum of the centroids at its sides, in units of 2^-149:
/// by 2^-20, which is less than a millionth.
pub open spec fn halfway_slack() -> int {
    pow2(129) as int
}

/// Whether the numbers make up a codebook of `num_bits` bits: a centroid for every code, between
/// -1 and 1 and ascending, and ascending boundaries around them, from -1 to 1, halfway between the
/// centroids, so that each centroid lies in its own cell.
pub open spec fn valid_codebook(codebook: CodebookView, num_bits: u32) -> bool {
    let (centroids, boundaries) = codebook;
    &&& searchable_codebook(codebook, num_bits)
    &&& boundaries.first() == (Float32 { bits: MINUS_ONE_BITS })
    &&& boundaries.last() == (Float32 { bits: ONE_BITS })
    &&& ascending_centroids(centroids)
    &&& in_cells(centroids, boundaries)
    &&& near_midpoints(centroids, boundaries, halfway_slack())
}

/// Whether a codebook exists for the dimension and the width.
pub open spec fn valid_parameters(dim: usize, num_bits: u32) -> bool {
    dim >= 3 && 1 <= num_bits <= 8
}

/// The error for parameters without a codebook.
pub open spec fn parameter_error(dim: usize, num_bits: u32) -> TurboError {
    if dim < 3 {
        TurboError::Dimension { dim }
    } else {
        TurboError::NumBits { num_bits }
    }
}

/// Refuses parameters for which there is no codebook: dimensions below three, and widths
/// outside of one to eight bits.
pub fn check_parameters(dim: usize, num_bits: u32) -> (r: Result<(), TurboError>)
    ensures
        valid_parameters(dim, num_bits) ==> r is Ok,
        !valid_parameters(dim, num_bits) ==> r == Err::<(), TurboError>(
            parameter_error(dim, num_bits),
        ),
{
    if dim < 3 {
        return Err(TurboError::Dimension { dim });
    }
    if num_bits == 0 || num_bits > 8 {
        return Err(TurboError::NumBits { num_bits });
    }
    Ok(())
}

/// The key under which a codebook is kept.
pub open spec fn cache_key(dim: usize, num_bits: u32) -> u128 {
    (dim * 16 + num_bits) as u128
}

/// The codebooks that have been computed, by dimension and width.
pub struct CodebookCache {
    entries: HashMap<u128, (Vec<Float32>, Vec<Float32>)>,
}

impl CodebookCache {
    /// The codebooks in the cache.
    pub closed spec fn view(&self) -> Map<(usize, u32), CodebookView> {
        Map::new(
            |k: (usize, u32)| k.1 < 16 && self.entries@.contains_key(cache_key(k.0, k.1)),
            |k: (usize, u32)| codebook_view(self.entries@[cache_key(k.0, k.1)]),
        )
    }

    /// Whether every entry is a codebook for the parameters that it is kept under.
    pub open spec fn wf(&self) -> bool {
        forall|k: (usize, u32)| #[trigger]
            self@.contains_key(k) ==> valid_parameters(k.0, k.1) && valid_codebook(self@[k], k.1)
    }

    /// Whether every entry has the numbers of centroids and boundaries for the parameters that it
    /// is kept under.
    pub open spec fn sized(&self) -> bool {
        forall|k: (usize, u32)| #[trigger]
            self@.contains_key(k) ==> valid_parameters(k.0, k.1) && sized_codebook(self@[k], k.1)
    }

    /// Whether values can be searched for among the boundaries of every entry.
    pub open spec fn searchable(&self) -> bool {
        forall|k: (usize, u32)| #[trigger]
            self@.contains_key(k) ==> valid_parameters(k.0, k.1) && searchable_codebook(
                self@[k],
                k.1,
            )
    }

    /// A cache without entries.
    pub fn new() -> (r: CodebookCache)
        ensures
            r.wf(),
            r.sized(),
            r.searchable(),
            r@ == Map::<(usize, u32), CodebookView>::empty(),
    {
        let r = CodebookCache { entries: HashMap::new() };
        assert(r@ =~= Map::<(usize, u32), CodebookView>::empty());
        r
    }

    /// A copy of the entry for the parameters.
    pub fn get(&self, dim: usize, num_bits: u32) -> (r: Option<(Vec<Float32>, Vec<Float32>)>)
        ensures
            r is Some <==> self@.contains_key((dim, num_bits)),
            r matches Some(codebook) ==> codebook_view(codebook) == self@[(dim, num_bits)],
    {
        if num_bits >= 16 {
            return None;
        }
        let key: u128 = dim as u128 * 16 + num_bits as u128;
        match self.entries.get(&key) {
            Some(entry) => Some(
                (slice_to_vec(entry.0.as_slice()), slice_to_vec(entry.1.as_slice())),
            ),
            None => None,
        }
    }

    /// Adds the entry for the parameters.
    fn insert(&mut self, dim: usize, num_bits: u32, codebook: (Vec<Float32>, Vec<Float32>))
        requires
            num_bits < 16,
        ensures
            final(self)@ == old(self)@.insert((dim, num_bits), codebook_view(codebook)),
    {
        let key: u128 = dim as u128 * 16 + num_bits as u128;
        self.entries.insert(key, codebook);
        assert(self@ =~= old(self)@.insert((dim, num_bits), codebook_view(codebook)));
    }
}

/// What a request for a codebook gives back and leaves in the cache.
///
/// Bad parameters give an error and leave the cache alone. A cached codebook is given back
/// as it is. Otherwise what `compute` returned is given back and cached.
pub open spec fn codebook_request<F: Fn(usize, u32) -> (Vec<Float32>, Vec<Float32>)>(
    compute: F,
    dim: usize,
    num_bits: u32,
    before: Map<(usize, u32), CodebookView>,
    after: Map<(usize, u32), CodebookView>,
    r: Result<CodebookView, TurboError>,
) -> bool {
    if !valid_parameters(dim, num_bits) {
        r == Err::<CodebookView, TurboError>(parameter_error(dim, num_bits)) && after == before
    } else if before.contains_key((dim, num_bits)) {
        r == Ok::<CodebookView, TurboError>(before[(dim, num_bits)]) && after == before
    } else {
        exists|codebook: (Vec<Float32>, Vec<Float32>)|
            {
                &&& #[trigger] call_ensures(compute, (dim, num_bits), codebook)
                &&& r == Ok::<CodebookView, TurboError>(codebook_view(codebook))
                &&& after == before.insert((dim, num_bits), codebook_view(codebook))
            }
    }
}

/// The result of a request, by what its vectors hold.
pub open spec fn request_view(
    r: Result<(Vec<Float32>, Vec<Float32>), TurboError>,
) -> Result<CodebookView, TurboError> {
    match r {
        Ok(codebook) => Ok(codebook_view(codebook)),
        Err(e) => Err(e),
    }
}

/// Whether `compute` can be called for the parameters and gives codebooks for them.
pub open spec fn computes_codebooks<F: Fn(usize, u32) -> (Vec<Float32>, Vec<Float32>)>(
    compute: F,
    dim: usize,
    num_bits: u32,
) -> bool {
    valid_parameters(dim, num_bits) ==> {
        &&& call_requires(compute, (dim, num_bits))
        &&& forall|codebook: (Vec<Float32>, Vec<Float32>)| #[trigger]
            call_ensures(compute, (dim, num_bits), codebook) ==> valid_codebook(
                codebook_view(codebook),
                num_bits,
            )
    }
}

/// Whether `compute` can be called for the parameters and gives as many centroids and boundaries as
/// they ask for.
pub open spec fn computes_sized<F: Fn(usize, u32) -> (Vec<Float32>, Vec<Float32>)>(
    compute: F,
    dim: usize,
    num_bits: u32,
) -> bool {
    valid_parameters(dim, num_bits) ==> {
        &&& call_requires(compute, (dim, num_bits))
        &&& forall|codebook: (Vec<Float32>, Vec<Float32>)| #[trigger]
            call_ensures(compute, (dim, num_bits), codebook) ==> sized_codebook(
                codebook_view(codebook),
                num_bits,
            )
    }
}

/// Whether `compute` can be called for the parameters and gives boundaries among which values can be
/// searched for.
pub open spec fn computes_searchable<F: Fn(usize, u32) -> (Vec<Float32>, Vec<Float32>)>(
    compute: F,
    dim: usize,
    num_bits: u32,
) -> bool {
    valid_parameters(dim, num_bits) ==> {
        &&& call_requires(compute, (dim, num_bits))
        &&& forall|codebook: (Vec<Float32>, Vec<Float32>)| #[trigger]
            call_ensures(compute, (dim, num_bits), codebook) ==> searchable_codebook(
                codebook_view(codebook),
                num_bits,
            )
    }
}

/// Get the codebook for the given dimension and bit-width.
///
/// The dimension has to be at least three and the width one to eight bits. A codebook is computed
/// once for the same parameters.
///
/// Where those that are computed are in order, the `2^num_bits` centroids are between -1 and 1 and
/// ascend, the first of the `2^num_bits + 1` boundaries around them is -1 and the last is 1, the
/// others lie halfway between the centroids, and each centroid lies in its own cell.
pub fn get_codebook<F: Fn(usize, u32) -> (Vec<Float32>, Vec<Float32>)>(
    cache: &mut CodebookCache,
    dim: usize,
    num_bits: u32,
    compute: &F,
) -> (r: Result<(Vec<Float32>, Vec<Float32>), TurboError>)
    requires
        valid_parameters(dim, num_bits) ==> call_requires(*compute, (dim, num_bits)),
    ensures
        r is Ok <==> valid_parameters(dim, num_bits),
        old(cache).wf() && computes_codebooks(*compute, dim, num_bits) ==> final(cache).wf() && (
        r matches Ok(codebook) ==> valid_codebook(codebook_view(codebook), num_bits)),
        old(cache).sized() && computes_sized(*compute, dim, num_bits) ==> final(cache).sized() && (
        r matches Ok(codebook) ==> sized_codebook(codebook_view(codebook), num_bits)),
        old(cache).searchable() && computes_searchable(*compute, dim, num_bits)
            ==> final(cache).searchable() && (r matches Ok(codebook) ==> searchable_codebook(
            codebook_view(codebook),
            num_bits,
        )),
        codebook_request(
            *compute,
            dim,
            num_bits,
            old(cache)@,
            final(cache)@,
            request_view(r),
        ),
{
    match check_parameters(dim, num_bits) {
        Err(e) => {
            return Err(e);
        },
        Ok(_) => {},
    }
    match cache.get(dim, num_bits) {
        Some(entry) => {
            return Ok(entry);
        },
        None => {},
    }
    let computed: (Vec<Float32>, Vec<Float32>) = compute(dim, num_bits);
    let kept: (Vec<Float32>, Vec<Float32>) = (
        slice_to_vec(computed.0.as_slice()),
        slice_to_vec(computed.1.as_slice()),
    );
    cache.insert(dim, num_bits, kept);
    Ok(computed)
}

/// Whether the numbers are the centroids and the boundaries of a codebook of `num_bits` bits.
pub fn is_codebook(centroids: &[Float32], boundaries: &[Float32], num_bits: u32) -> (r: bool)
    requires
        num_bits < 32,
    ensures
        r == valid_codebook((centroids@, boundaries@), num_bits),
{
    proof {
        lemma_two_to_the(num_bits);
    }
    let k: usize = (1u64 << (num_bits as u64)) as usize;
    let low: Float32 = Float32::from_bits(MINUS_ONE_BITS);
    let high: Float32 = Float32::from_bits(ONE_BITS);
    if !is_searchable(centroids, boundaries, num_bits) {
        return false;
    }
    if boundaries[0] != low || boundaries[k] != high || !are_ascending(centroids, 0, k) {
        return false;
    }
    assert(!low.nan() && !high.nan());
    if centroids[0].less_than(low) || high.less_than(centroids[k - 1]) {
        proof {
            if ascending_centroids(centroids@) {
                assert(low.units() <= centroids@[0].units());
                assert(centroids@[k - 1].units() <= high.units());
            }
        }
        return false;
    }
    proof {
        assert forall|i: int, j: int| 0 <= i <= j < centroids@.len() implies low.units() <= (
        #[trigger] centroids@[i]).units() <= (#[trigger] centroids@[j]).units() <= high.units() by {
            assert(centroids@[0].units() <= centroids@[i].units());
            assert(centroids@[j].units() <= centroids@[k - 1].units());
        }
    }
    are_in_cells(centroids, boundaries) && are_halfway(centroids, boundaries)
}

/// Whether there are as many centroids and boundaries as codes of `num_bits` bits ask for, with
/// boundaries among which values can be searched for.
pub fn is_searchable(centroids: &[Float32], boundaries: &[Float32], num_bits: u32) -> (r: bool)
    requires
        num_bits < 32,
    ensures
        r == searchable_codebook((centroids@, boundaries@), num_bits),
{
    proof {
        lemma_two_to_the(num_bits);
    }
    let k: usize = (1u64 << (num_bits as u64)) as usize;
    centroids.len() == k && boundaries.len() == k + 1 && are_ascending(boundaries, 1, k)
}

/// Whether the boundaries lie halfway between the centroids, where these are between -1 and 1 and
/// in their own cells.
fn are_halfway(centroids: &[Float32], boundaries: &[Float32]) -> (r: bool)
    requires
        boundaries@.len() == centroids@.len() + 1,
        ascending_centroids(centroids@),
        in_cells(centroids@, boundaries@),
    ensures
        r == near_midpoints(centroids@, boundaries@, halfway_slack()),
{
    let mut i: usize = 1;
    while i < centroids.len()
        invariant
            1 <= i,
            boundaries@.len() == centroids@.len() + 1,
            ascending_centroids(centroids@),
            in_cells(centroids@, boundaries@),
            forall|j: int|
                1 <= j < i && j < centroids@.len() ==> is_midpoint(
                    centroids@[j - 1],
                    #[trigger] boundaries@[j],
                    centroids@[j],
                    halfway_slack(),
                ),
        decreases centroids@.len() - i,
    {
        proof {
            assert(centroids@[i - 1].units() <= centroids@[i as int].units());
            lemma_within_one(centroids@[i - 1]);
            lemma_within_one(centroids@[i as int]);
            lemma_within_one(boundaries@[i as int]);
        }
        if !is_halfway(centroids[i - 1], boundaries[i], centroids[i]) {
            assert(!is_midpoint(
                centroids@[i - 1],
                boundaries@[i as int],
                centroids@[i as int],
                halfway_slack(),
            ));
            return false;
        }
        i = i + 1;
    }
    true
}

/// Whether a boundary lies halfway between two centroids, all between -1 and 1.
fn is_halfway(left: Float32, boundary: Float32, right: Float32) -> (r: bool)
    requires
        left.magnitude() <= ONE_BITS,
        boundary.magnitude() <= ONE_BITS,
        right.magnitude() <= ONE_BITS,
    ensures
        r == is_midpoint(left, boundary, right, halfway_slack()),
{
    let b: (i128, i128) = boundary.unit_parts();
    let c: (i128, i128) = left.unit_parts();
    let d: (i128, i128) = right.unit_parts();
    let hi: i128 = 2 * b.0 - c.0 - d.0;
    let lo: i128 = 2 * b.1 - c.1 - d.1;
    proof {
        lemma_pow2_adds(65, 64);
        lemma_pow2_adds(64, 1);
        lemma2_to64();
        lemma2_to64_rest();
        assert(halfway_slack() == 0x2_0000_0000_0000_0000 * 0x1_0000_0000_0000_0000);
        assert(2 * boundary.units() - left.units() - right.units() == hi
            * 0x1_0000_0000_0000_0000 + lo);
    }
    at_most(hi - 0x2_0000_0000_0000_0000, lo) && at_most(-hi - 0x2_0000_0000_0000_0000, -lo)
}

/// Whether a multiple of 2^64 and a rest come to zero or less.
fn at_most(hi: i128, lo: i128) -> (r: bool)
    requires
        -0x4_0000_0000_0000_0000 < lo < 0x4_0000_0000_0000_0000,
    ensures
        r == (hi * 0x1_0000_0000_0000_0000 + lo <= 0),
{
    if hi <= -4 {
        true
    } else if hi >= 4 {
        false
    } else {
        hi * 0x1_0000_0000_0000_0000 <= -lo
    }
}

/// Whether the numbers from `start` on and before `end` are numbers and ascend.
fn are_ascending(values: &[Float32], start: usize, end: usize) -> (r: bool)
    requires
        end <= values@.len(),
    ensures
        r == ((forall|i: int| start <= i < end ==> !(#[trigger] values@[i]).nan()) && forall|
            i: int,
            j: int,
        |
            start <= i <= j < end ==> (#[trigger] values@[i]).units() <= (
            #[trigger] values@[j]).units()),
{
    let mut i: usize = start;
    while i < end
        invariant
            end <= values@.len(),
            start <= i,
            forall|j: int| start <= j < i ==> !(#[trigger] values@[j]).nan(),
            forall|j: int, k: int|
                start <= j <= k < i ==> (#[trigger] values@[j]).units() <= (
                #[trigger] values@[k]).units(),
        decreases end - i,
    {
        if values[i].is_nan() || (i > start && values[i].less_than(values[i - 1])) {
            return false;
        }
        i = i + 1;
    }
    true
}

/// Whether each centroid lies in its own cell, where all are numbers.
fn are_in_cells(centroids: &[Float32], boundaries: &[Float32]) -> (r: bool)
    requires
        boundaries@.len() == centroids@.len() + 1,
        forall|i: int| 0 <= i < centroids@.len() ==> !(#[trigger] centroids@[i]).nan(),
        forall|i: int| 0 <= i < boundaries@.len() ==> !(#[trigger] boundaries@[i]).nan(),
    ensures
        r == in_cells(centroids@, boundaries@),
{
    let mut i: usize = 0;
    while i < centroids.len()
        invariant
            i <= centroids@.len(),
            boundaries@.len() == centroids@.len() + 1,
            forall|j: int| 0 <= j < centroids@.len() ==> !(#[trigger] centroids@[j]).nan(),
            forall|j: int| 0 <= j < boundaries@.len() ==> !(#[trigger] boundaries@[j]).nan(),
            forall|j: int|
                0 <= j < i ==> boundaries@[j].units() <= (#[trigger] centroids@[j]).units()
                    <= boundaries@[j + 1].units(),
        decreases centroids@.len() - i,
    {
        let c: Float32 = centroids[i];
        if c.less_than(boundaries[i]) || boundaries[i + 1].less_than(c) {
            assert(!(boundaries@[i as int].units() <= centroids@[i as int].units()
                <= boundaries@[i + 1].units()));
            return false;
        }
        i = i + 1;
    }
    true
}

// --- Requests ---

/// Whether every codebook in the cache is one that `compute` gives.
pub open spec fn filled_by<F: Fn(usize, u32) -> (Vec<Float32>, Vec<Float32>)>(
    compute: F,
    cache: Map<(usize, u32), CodebookView>,
) -> bool {
    forall|k: (usize, u32)| #[trigger]
        cache.contains_key(k) ==> valid_parameters(k.0, k.1) && computed_by(
            compute,
            k.0,
            k.1,
            cache[k],
        )
}

/// Whether `compute` gives the codebook for the parameters.
pub open spec fn computed_by<F: Fn(usize, u32) -> (Vec<Float32>, Vec<Float32>)>(
    compute: F,
    dim: usize,
    num_bits: u32,
    codebook: CodebookView,
) -> bool {
    exists|c: (Vec<Float32>, Vec<Float32>)| #[trigger]
        call_ensures(compute, (dim, num_bits), c) && codebook == codebook_view(c)
}

/// A request for a codebook gives back one that `compute` gives, and keeps every codebook in the
/// cache one of those.
pub proof fn law_requested_codebook_is_computed<
    F: Fn(usize, u32) -> (Vec<Float32>, Vec<Float32>),
>(
    compute: F,
    dim: usize,
    num_bits: u32,
    before: Map<(usize, u32), CodebookView>,
    after: Map<(usize, u32), CodebookView>,
    r: Result<CodebookView, TurboError>,
)
    requires
        filled_by(compute, before),
        codebook_request(compute, dim, num_bits, before, after, r),
    ensures
        filled_by(compute, after),
        before.submap_of(after),
        r is Ok <==> valid_parameters(dim, num_bits),
        r matches Ok(codebook) ==> computed_by(compute, dim, num_bits, codebook)
            && after.contains_key((dim, num_bits)) && after[(dim, num_bits)] == codebook,
{
    if valid_parameters(dim, num_bits) && !before.contains_key((dim, num_bits)) {
        let c = choose|c: (Vec<Float32>, Vec<Float32>)|
            {
                &&& #[trigger] call_ensures(compute, (dim, num_bits), c)
                &&& r == Ok::<CodebookView, TurboError>(codebook_view(c))
                &&& after == before.insert((dim, num_bits), codebook_view(c))
            };
        assert(computed_by(compute, dim, num_bits, codebook_view(c)));
        assert forall|k: (usize, u32)| #[trigger]
            after.contains_key(k) implies valid_parameters(k.0, k.1) && computed_by(
            compute,
            k.0,
            k.1,
            after[k],
        ) by {
            if k != (dim, num_bits) {
                assert(before.contains_key(k));
            }
        }
    }
}

/// Whether the requests, made one after the other on a cache that starts out empty, are answered
/// with the results; `caches` lists what the cache holds before the first request and after each.
pub open spec fn requests_run<F: Fn(usize, u32) -> (Vec<Float32>, Vec<Float32>)>(
    compute: F,
    requests: Seq<(usize, u32)>,
    caches: Seq<Map<(usize, u32), CodebookView>>,
    results: Seq<Result<CodebookView, TurboError>>,
) -> bool {
    &&& caches.len() == requests.len() + 1
    &&& results.len() == requests.len()
    &&& caches[0] == Map::<(usize, u32), CodebookView>::empty()
    &&& forall|t: int|
        0 <= t < requests.len() ==> #[trigger] request_answered(
            compute,
            requests,
            caches,
            results,
            t,
        )
}

/// Whether the `t`-th of the requests is answered with the `t`-th of the results.
pub open spec fn request_answered<F: Fn(usize, u32) -> (Vec<Float32>, Vec<Float32>)>(
    compute: F,
    requests: Seq<(usize, u32)>,
    caches: Seq<Map<(usize, u32), CodebookView>>,
    results: Seq<Result<CodebookView, TurboError>>,
    t: int,
) -> bool {
    codebook_request(
        compute,
        requests[t].0,
        requests[t].1,
        caches[t],
        caches[t + 1],
        results[t],
    )
}

/// What the cache holds after the first `t` requests was computed.
proof fn lemma_caches_are_filled<F: Fn(usize, u32) -> (Vec<Float32>, Vec<Float32>)>(
    compute: F,
    requests: Seq<(usize, u32)>,
    caches: Seq<Map<(usize, u32), CodebookView>>,
    results: Seq<Result<CodebookView, TurboError>>,
    s: int,
    t: int,
)
    requires
        requests_run(compute, requests, caches, results),
        0 <= s <= t <= requests.len(),
    ensures
        filled_by(compute, caches[t]),
        caches[s].submap_of(caches[t]),
    decreases t,
{
    if t > 0 {
        lemma_caches_are_filled(
            compute,
            requests,
            caches,
            results,
            if s < t {
                s
            } else {
                t - 1
            },
            t - 1,
        );
        assert(request_answered(compute, requests, caches, results, t - 1));
        law_requested_codebook_is_computed(
            compute,
            requests[t - 1].0,
            requests[t - 1].1,
            caches[t - 1],
            caches[t],
            results[t - 1],
        );
    }
}

/// Whatever was requested before, a request is answered with a codebook that `compute` gives for
/// its parameters, or with their error.
pub proof fn law_earlier_requests_do_not_matter<
    F: Fn(usize, u32) -> (Vec<Float32>, Vec<Float32>),
>(
    compute: F,
    requests: Seq<(usize, u32)>,
    caches: Seq<Map<(usize, u32), CodebookView>>,
    results: Seq<Result<CodebookView, TurboError>>,
    t: int,
)
    requires
        requests_run(compute, requests, caches, results),
        0 <= t < requests.len(),
    ensures
        match results[t] {
            Ok(codebook) => valid_parameters(requests[t].0, requests[t].1) && computed_by(
                compute,
                requests[t].0,
                requests[t].1,
                codebook,
            ),
            Err(e) => !valid_parameters(requests[t].0, requests[t].1) && e == parameter_error(
                requests[t].0,
                requests[t].1,
            ),
        },
{
    lemma_caches_are_filled(compute, requests, caches, results, t, t);
    assert(request_answered(compute, requests, caches, results, t));
    law_requested_codebook_is_computed(
        compute,
        requests[t].0,
        requests[t].1,
        caches[t],
        caches[t + 1],
        results[t],
    );
}

/// Requests for the same parameters are answered alike, whatever comes between them.
pub proof fn law_equal_requests_agree<F: Fn(usize, u32) -> (Vec<Float32>, Vec<Float32>)>(
    compute: F,
    requests: Seq<(usize, u32)>,
    caches: Seq<Map<(usize, u32), CodebookView>>,
    results: Seq<Result<CodebookView, TurboError>>,
    s: int,
    t: int,
)
    requires
        requests_run(compute, requests, caches, results),
        0 <= s <= t < requests.len(),
        requests[s] == requests[t],
    ensures
        results[s] == results[t],
{
    if s < t {
        lemma_caches_are_filled(compute, requests, caches, results, s, s);
        assert(request_answered(compute, requests, caches, results, s));
        assert(request_answered(compute, requests, caches, results, t));
        law_requested_codebook_is_computed(
            compute,
            requests[s].0,
            requests[s].1,
            caches[s],
            caches[s + 1],
            results[s],
        );
        lemma_caches_are_filled(compute, requests, caches, results, s + 1, t);
        if valid_parameters(requests[s].0, requests[s].1) {
            assert(caches[s + 1].contains_key((requests[s].0, requests[s].1)));
            assert(caches[t].contains_key((requests[s].0, requests[s].1)));
        }
    }
}

// --- Relations ---

/// Which results a function gives for which arguments.
pub open spec fn given_by<A, B, C, R, F: Fn(A, B, C) -> R>(f: F) -> spec_fn(A, B, C, R) -> bool {
    |a: A, b: B, c: C, r: R| call_ensures(f, (a, b, c), r)
}

/// Which values a function of one number has.
pub open spec fn values_given<W, F: Fn(W) -> W>(f: F) -> spec_fn(W, W) -> bool {
    |x: W, y: W| call_ensures(f, (x,), y)
}

/// Which answers a function gives for which pairs of sequences.
pub open spec fn answers_given<W, S: Fn(&Vec<W>, &Vec<W>) -> bool>(f: S) -> spec_fn(
    Seq<W>,
    Seq<W>,
    bool,
) -> bool {
    |a: Seq<W>, b: Seq<W>, r: bool|
        exists|x: Vec<W>, y: Vec<W>|
            x@ == a && y@ == b && #[trigger] call_ensures(f, (&x, &y), r)
}

// --- Lloyd's iteration ---

/// Whether `boundaries` run from `ends.0` to `ends.1` with the midpoints of neighbouring
/// centroids in between.
pub open spec fn voronoi<W, M: Fn(W, W) -> W>(
    midpoint: M,
    ends: (W, W),
    centroids: Seq<W>,
    boundaries: Seq<W>,
) -> bool {
    &&& boundaries.len() == centroids.len() + 1
    &&& boundaries.first() == ends.0
    &&& boundaries.last() == ends.1
    &&& forall|i: int|
        1 <= i < centroids.len() ==> call_ensures(
            midpoint,
            (centroids[i - 1], centroids[i]),
            #[trigger] boundaries[i],
        )
}

/// Whether each centroid of `after` is the mean of the cell of its counterpart in `before`.
pub open spec fn lloyd_step<W, M: Fn(W, W) -> W>(
    midpoint: M,
    mean: spec_fn(W, W, usize, W) -> bool,
    dim: usize,
    ends: (W, W),
    before: Seq<W>,
    after: Seq<W>,
) -> bool {
    exists|boundaries: Seq<W>|
        {
            &&& #[trigger] voronoi(midpoint, ends, before, boundaries)
            &&& after.len() == before.len()
            &&& forall|i: int|
                0 <= i < after.len() ==> mean(
                    boundaries[i],
                    boundaries[i + 1],
                    dim,
                    #[trigger] after[i],
                )
        }
}

/// Whether the centroids start at the quantiles of the `k` equally likely cells.
pub open spec fn starts_at_quantiles<W>(
    quantile: spec_fn(usize, usize, usize, W) -> bool,
    k: usize,
    dim: usize,
    centroids: Seq<W>,
) -> bool {
    &&& centroids.len() == k
    &&& forall|i: int|
        0 <= i < k ==> quantile(i as usize, k, dim, #[trigger] centroids[i])
}

/// Whether the `t`-th centroids of a run come from those before by one step.
pub open spec fn lloyd_step_to<W, M: Fn(W, W) -> W>(
    midpoint: M,
    mean: spec_fn(W, W, usize, W) -> bool,
    dim: usize,
    ends: (W, W),
    history: Seq<Seq<W>>,
    t: int,
) -> bool {
    lloyd_step(midpoint, mean, dim, ends, history[t - 1], history[t])
}

/// Whether the step to the `t`-th centroids of a run was found to have settled, or not.
pub open spec fn settled_at<W>(
    settled: spec_fn(Seq<W>, Seq<W>, bool) -> bool,
    history: Seq<Seq<W>>,
    t: int,
    found: bool,
) -> bool {
    settled(history[t - 1], history[t], found)
}

/// Whether `history` lists the centroids of a run of Lloyd's iteration so far: one step from
/// each to the next, none of which but perhaps the last was found to have settled.
pub open spec fn lloyd_steps<
    W,
    M: Fn(W, W) -> W,
>(
    midpoint: M,
    mean: spec_fn(W, W, usize, W) -> bool,
    settled: spec_fn(Seq<W>, Seq<W>, bool) -> bool,
    dim: usize,
    ends: (W, W),
    history: Seq<Seq<W>>,
) -> bool {
    &&& 1 <= history.len() <= MAX_ITER + 1
    &&& forall|t: int|
        0 < t < history.len() ==> #[trigger] lloyd_step_to(midpoint, mean, dim, ends, history, t)
    &&& forall|t: int|
        0 < t < history.len() - 1 ==> #[trigger] settled_at(settled, history, t, false)
}

/// Whether a run of Lloyd's iteration ends with `history`: its last step settled, or it was
/// the last one allowed.
pub open spec fn lloyd_run<
    W,
    M: Fn(W, W) -> W,
>(
    midpoint: M,
    mean: spec_fn(W, W, usize, W) -> bool,
    settled: spec_fn(Seq<W>, Seq<W>, bool) -> bool,
    dim: usize,
    ends: (W, W),
    history: Seq<Seq<W>>,
) -> bool {
    &&& lloyd_steps(midpoint, mean, settled, dim, ends, history)
    &&& history.len() >= 2
    &&& settled_at(settled, history, history.len() - 1, true) || (history.len() == MAX_ITER + 1
        && settled_at(settled, history, history.len() - 1, false))
}

/// Whether `out` holds the numbers in single precision.
pub open spec fn narrowed<W, N: Fn(W) -> Float32>(
    narrow: N,
    wide: Seq<W>,
    out: Seq<Float32>,
) -> bool {
    &&& out.len() == wide.len()
    &&& forall|i: int| 0 <= i < out.len() ==> call_ensures(narrow, (wide[i],), #[trigger] out[i])
}

/// Whether `codebook` is what a run of Lloyd's iteration comes to.
pub open spec fn lloyd_codebook<
    W,
    M: Fn(W, W) -> W,
    N: Fn(W) -> Float32,
>(
    quantile: spec_fn(usize, usize, usize, W) -> bool,
    midpoint: M,
    mean: spec_fn(W, W, usize, W) -> bool,
    settled: spec_fn(Seq<W>, Seq<W>, bool) -> bool,
    narrow: N,
    k: usize,
    dim: usize,
    ends: (W, W),
    codebook: CodebookView,
) -> bool {
    exists|history: Seq<Seq<W>>, boundaries: Seq<W>|
        {
            &&& #[trigger] lloyd_run(midpoint, mean, settled, dim, ends, history)
            &&& starts_at_quantiles(quantile, k, dim, history[0])
            &&& #[trigger] voronoi(midpoint, ends, history.last(), boundaries)
            &&& narrowed(narrow, history.last(), codebook.0)
            &&& narrowed(narrow, boundaries, codebook.1)
        }
}

/// The centroids of a run, and the boundaries of the last ones, that a codebook came from.
pub proof fn lemma_lloyd_parts<W, M: Fn(W, W) -> W, N: Fn(W) -> Float32>(
    quantile: spec_fn(usize, usize, usize, W) -> bool,
    midpoint: M,
    mean: spec_fn(W, W, usize, W) -> bool,
    settled: spec_fn(Seq<W>, Seq<W>, bool) -> bool,
    narrow: N,
    k: usize,
    dim: usize,
    ends: (W, W),
    codebook: CodebookView,
) -> (r: (Seq<Seq<W>>, Seq<W>))
    requires
        lloyd_codebook(quantile, midpoint, mean, settled, narrow, k, dim, ends, codebook),
    ensures
        lloyd_run(midpoint, mean, settled, dim, ends, r.0),
        starts_at_quantiles(quantile, k, dim, r.0[0]),
        voronoi(midpoint, ends, r.0.last(), r.1),
        narrowed(narrow, r.0.last(), codebook.0),
        narrowed(narrow, r.1, codebook.1),
{
    choose|history: Seq<Seq<W>>, boundaries: Seq<W>|
        {
            &&& #[trigger] lloyd_run(midpoint, mean, settled, dim, ends, history)
            &&& starts_at_quantiles(quantile, k, dim, history[0])
            &&& #[trigger] voronoi(midpoint, ends, history.last(), boundaries)
            &&& narrowed(narrow, history.last(), codebook.0)
            &&& narrowed(narrow, boundaries, codebook.1)
        }
}

/// The boundaries of the cells whose means a step leads to.
pub proof fn lemma_step_cells<W, M: Fn(W, W) -> W>(
    midpoint: M,
    mean: spec_fn(W, W, usize, W) -> bool,
    dim: usize,
    ends: (W, W),
    before: Seq<W>,
    after: Seq<W>,
) -> (boundaries: Seq<W>)
    requires
        lloyd_step(midpoint, mean, dim, ends, before, after),
    ensures
        voronoi(midpoint, ends, before, boundaries),
        after.len() == before.len(),
        forall|i: int|
            0 <= i < after.len() ==> mean(
                boundaries[i],
                boundaries[i + 1],
                dim,
                #[trigger] after[i],
            ),
{
    choose|boundaries: Seq<W>|
        {
            &&& #[trigger] voronoi(midpoint, ends, before, boundaries)
            &&& after.len() == before.len()
            &&& forall|i: int|
                0 <= i < after.len() ==> mean(
                    boundaries[i],
                    boundaries[i + 1],
                    dim,
                    #[trigger] after[i],
                )
        }
}

proof fn lemma_two_to_the(b: u32)
    requires
        b < 32,
    ensures
        1u64 << (b as u64) == pow2(b as nat),
        1 <= pow2(b as nat) <= 0x8000_0000,
{
    lemma2_to64();
    if 0 < b {
        lemma_pow2_strictly_increases(0, b as nat);
    }
    if b < 31 {
        lemma_pow2_strictly_increases(b as nat, 31);
    }
    lemma_u64_shl_is_mul(1, b as u64);
}

/// The boundaries of the centroids' cells.
fn cell_boundaries<W: Copy, M: Fn(W, W) -> W>(
    midpoint: &M,
    ends: (W, W),
    centroids: &Vec<W>,
) -> (r: Vec<W>)
    requires
        centroids@.len() >= 1,
        forall|a: W, b: W| #[trigger] call_requires(*midpoint, (a, b)),
    ensures
        voronoi(*midpoint, ends, centroids@, r@),
{
    let mut r: Vec<W> = Vec::new();
    r.push(ends.0);
    for i in 1..centroids.len()
        invariant
            centroids@.len() >= 1,
            r@.len() == i,
            r@.first() == ends.0,
            forall|a: W, b: W| #[trigger] call_requires(*midpoint, (a, b)),
            forall|j: int|
                1 <= j < i ==> call_ensures(
                    *midpoint,
                    (centroids@[j - 1], centroids@[j]),
                    #[trigger] r@[j],
                ),
    {
        let m: W = midpoint(centroids[i - 1], centroids[i]);
        r.push(m);
    }
    r.push(ends.1);
    r
}

/// The numbers in single precision.
fn narrow_all<W: Copy, N: Fn(W) -> Float32>(narrow: &N, wide: &Vec<W>) -> (r: Vec<Float32>)
    requires
        forall|a: W| #[trigger] call_requires(*narrow, (a,)),
    ensures
        narrowed(*narrow, wide@, r@),
{
    let mut r: Vec<Float32> = Vec::new();
    for i in 0..wide.len()
        invariant
            r@.len() == i,
            forall|a: W| #[trigger] call_requires(*narrow, (a,)),
            forall|j: int| 0 <= j < i ==> call_ensures(*narrow, (wide@[j],), #[trigger] r@[j]),
    {
        let v: Float32 = narrow(wide[i]);
        r.push(v);
    }
    r
}

/// Whether `folded` holds the largest shift of the first centroids, after each of them.
pub open spec fn shift_folded<W, G: Fn(W, W) -> W, X: Fn(W, W) -> W>(
    distance: G,
    larger: X,
    before: Seq<W>,
    after: Seq<W>,
    folded: Seq<W>,
    i: int,
) -> bool {
    exists|shift: W| #[trigger]
        call_ensures(distance, (before[i], after[i]), shift) && call_ensures(
            larger,
            (folded[i], shift),
            folded[i + 1],
        )
}

/// Whether `r` is the largest shift of a centroid, starting from `zero`.
pub open spec fn shift_of<W, G: Fn(W, W) -> W, X: Fn(W, W) -> W>(
    distance: G,
    larger: X,
    zero: W,
    before: Seq<W>,
    after: Seq<W>,
    r: W,
) -> bool {
    exists|folded: Seq<W>|
        {
            &&& #[trigger] folded.len() == before.len() + 1
            &&& folded[0] == zero
            &&& folded.last() == r
            &&& forall|i: int|
                0 <= i < before.len() ==> #[trigger] shift_folded(
                    distance,
                    larger,
                    before,
                    after,
                    folded,
                    i,
                )
        }
}

/// The largest shift of a centroid in one iteration.
///
/// `distance` gives the shift of one centroid, and `larger` the larger one of two shifts.
pub fn largest_shift<W: Copy, G: Fn(W, W) -> W, X: Fn(W, W) -> W>(
    before: &Vec<W>,
    after: &Vec<W>,
    zero: W,
    distance: &G,
    larger: &X,
) -> (r: W)
    requires
        before@.len() == after@.len(),
        forall|a: W, b: W| #[trigger] call_requires(*distance, (a, b)),
        forall|a: W, b: W| #[trigger] call_requires(*larger, (a, b)),
    ensures
        shift_of(*distance, *larger, zero, before@, after@, r),
{
    let mut r: W = zero;
    let ghost mut folded: Seq<W> = seq![zero];
    for i in 0..before.len()
        invariant
            before@.len() == after@.len(),
            forall|a: W, b: W| #[trigger] call_requires(*distance, (a, b)),
            forall|a: W, b: W| #[trigger] call_requires(*larger, (a, b)),
            folded.len() == i + 1,
            folded[0] == zero,
            folded.last() == r,
            forall|j: int|
                0 <= j < i ==> #[trigger] shift_folded(
                    *distance,
                    *larger,
                    before@,
                    after@,
                    folded,
                    j,
                ),
    {
        let shift: W = distance(before[i], after[i]);
        let next: W = larger(r, shift);
        proof {
            let longer = folded.push(next);
            assert forall|j: int| 0 <= j < i + 1 implies #[trigger] shift_folded(
                *distance,
                *larger,
                before@,
                after@,
                longer,
                j,
            ) by {
                if j < i {
                    assert(shift_folded(*distance, *larger, before@, after@, folded, j));
                } else {
                    assert(call_ensures(*distance, (before@[j], after@[j]), shift));
                }
            }
            folded = longer;
        }
        r = next;
    }
    assert(folded.len() == before@.len() + 1);
    r
}

/// Compute the Lloyd-Max codebook.
///
/// `quantile(i, k, dim)` is the middle of the `i`-th of `k` equally likely cells,
/// `midpoint(a, b)` lies halfway between two numbers, `mean(a, b, dim)` is the mean of the
/// coordinates between two boundaries, `settled(before, after)` tells whether no centroid
/// moved by more than the tolerance, and `narrow` rounds to single precision. `ends` are the
/// numbers -1 and 1.
pub fn compute_codebook<
    W: Copy,
    Q: Fn(usize, usize, usize) -> W,
    M: Fn(W, W) -> W,
    C: Fn(W, W, usize) -> W,
    S: Fn(&Vec<W>, &Vec<W>) -> bool,
    N: Fn(W) -> Float32,
>(
    dim: usize,
    num_bits: u32,
    ends: (W, W),
    quantile: &Q,
    midpoint: &M,
    mean: &C,
    settled: &S,
    narrow: &N,
) -> (r: (Vec<Float32>, Vec<Float32>))
    requires
        num_bits < 32,
        forall|i: usize, k: usize| i < k ==> #[trigger] call_requires(*quantile, (i, k, dim)),
        forall|a: W, b: W| #[trigger] call_requires(*midpoint, (a, b)),
        forall|a: W, b: W| #[trigger] call_requires(*mean, (a, b, dim)),
        forall|a: &Vec<W>, b: &Vec<W>|
            a@.len() == b@.len() ==> #[trigger] call_requires(*settled, (a, b)),
        forall|a: W| #[trigger] call_requires(*narrow, (a,)),
    ensures
        r.0@.len() == pow2(num_bits as nat),
        r.1@.len() == pow2(num_bits as nat) + 1,
        call_ensures(*narrow, (ends.0,), r.1@.first()),
        call_ensures(*narrow, (ends.1,), r.1@.last()),
        lloyd_codebook(
            given_by(*quantile),
            *midpoint,
            given_by(*mean),
            answers_given(*settled),
            *narrow,
            pow2(num_bits as nat) as usize,
            dim,
            ends,
            codebook_view(r),
        ),
{
    proof {
        lemma_two_to_the(num_bits);
    }
    let k: usize = (1u64 << (num_bits as u64)) as usize;

    // Start at the quantiles.
    let mut centroids: Vec<W> = Vec::new();
    for i in 0..k
        invariant
            centroids@.len() == i,
            forall|i: usize, k: usize| i < k ==> #[trigger] call_requires(*quantile, (i, k, dim)),
            forall|j: int|
                0 <= j < i ==> call_ensures(
                    *quantile,
                    (j as usize, k, dim),
                    #[trigger] centroids@[j],
                ),
    {
        let c: W = quantile(i, k, dim);
        centroids.push(c);
    }

    let ghost mut history: Seq<Seq<W>> = seq![centroids@];
    let mut done: bool = false;
    let mut iter: usize = 0;
    while iter < MAX_ITER && !done
        invariant
            k >= 1,
            iter <= MAX_ITER,
            history.len() == iter + 1,
            history.last() == centroids@,
            centroids@.len() == k,
            done ==> iter >= 1,
            starts_at_quantiles(given_by(*quantile), k, dim, history[0]),
            lloyd_steps(*midpoint, given_by(*mean), answers_given(*settled), dim, ends, history),
            iter >= 1 ==> settled_at(answers_given(*settled), history, history.len() - 1, done),
            forall|a: W, b: W| #[trigger] call_requires(*midpoint, (a, b)),
            forall|a: W, b: W| #[trigger] call_requires(*mean, (a, b, dim)),
            forall|a: &Vec<W>, b: &Vec<W>|
                a@.len() == b@.len() ==> #[trigger] call_requires(*settled, (a, b)),
        decreases MAX_ITER - iter,
    {
        let boundaries: Vec<W> = cell_boundaries(midpoint, ends, &centroids);
        let mut new_centroids: Vec<W> = Vec::new();
        for i in 0..k
            invariant
                boundaries@.len() == k + 1,
                new_centroids@.len() == i,
                forall|a: W, b: W| #[trigger] call_requires(*mean, (a, b, dim)),
                forall|j: int|
                    0 <= j < i ==> call_ensures(
                        *mean,
                        (boundaries@[j], boundaries@[j + 1], dim),
                        #[trigger] new_centroids@[j],
                    ),
        {
            let c: W = mean(boundaries[i], boundaries[i + 1], dim);
            new_centroids.push(c);
        }
        proof {
            assert(voronoi(*midpoint, ends, centroids@, boundaries@));
            assert(lloyd_step(*midpoint, given_by(*mean), dim, ends, centroids@, new_centroids@));
        }
        done = settled(&centroids, &new_centroids);
        assert(answers_given(*settled)(centroids@, new_centroids@, done));
        let ghost before = history;
        centroids = new_centroids;
        proof {
            history = before.push(centroids@);
            assert forall|t: int| 0 < t < history.len() implies #[trigger] lloyd_step_to(
                *midpoint,
                given_by(*mean),
                dim,
                ends,
                history,
                t,
            ) by {
                if t < before.len() {
                    assert(lloyd_step_to(*midpoint, given_by(*mean), dim, ends, before, t));
                }
            }
            assert forall|t: int| 0 < t < history.len() - 1 implies #[trigger] settled_at(
                answers_given(*settled),
                history,
                t,
                false,
            ) by {
                assert(settled_at(answers_given(*settled), before, t, false));
            }
        }
        iter += 1;
    }

    let boundaries: Vec<W> = cell_boundaries(midpoint, ends, &centroids);
    let centroids_out: Vec<Float32> = narrow_all(narrow, &centroids);
    let boundaries_out: Vec<Float32> = narrow_all(narrow, &boundaries);
    proof {
        assert(lloyd_run(*midpoint, given_by(*mean), answers_given(*settled), dim, ends, history));
        assert(voronoi(*midpoint, ends, history.last(), boundaries@));
        assert(boundaries_out@[0] == boundaries_out@.first());
        assert(boundaries_out@[k as int] == boundaries_out@.last());
    }
    (centroids_out, boundaries_out)
}

// --- The density ---

/// Whether `r` is the density at `x`: zero where the place in the unit interval is outside of
/// its interior, else what `density` gives for that place.
pub open spec fn density_at<
    W,
    U: Fn(W) -> W,
    O: Fn(W) -> bool,
    P: Fn(W, usize) -> W,
>(to_unit: U, outside: O, density: P, zero: W, x: W, dim: usize, r: W) -> bool {
    exists|t: W, out: bool|
        {
            &&& #[trigger] call_ensures(to_unit, (x,), t)
            &&& #[trigger] call_ensures(outside, (t,), out)
            &&& if out {
                r == zero
            } else {
                call_ensures(density, (t, dim), r)
            }
        }
}

/// The density of a coordinate of random unit vectors with `dim` coordinates, at `x`.
///
/// `to_unit` takes the interval from -1 to 1 to that from 0 to 1, `outside` tells whether a place
/// is not within the latter, and `density(t, dim)` is the density at a place within.
pub fn beta_pdf<W: Copy, U: Fn(W) -> W, O: Fn(W) -> bool, P: Fn(W, usize) -> W>(
    x: W,
    dim: usize,
    zero: W,
    to_unit: &U,
    outside: &O,
    density: &P,
) -> (r: W)
    requires
        dim >= 3,
        call_requires(*to_unit, (x,)),
        forall|t: W| #[trigger] call_requires(*outside, (t,)),
        forall|t: W| #[trigger] call_requires(*density, (t, dim)),
    ensures
        density_at(*to_unit, *outside, *density, zero, x, dim, r),
{
    let t: W = to_unit(x);
    let out: bool = outside(t);
    let r: W = if out {
        zero
    } else {
        density(t, dim)
    };
    assert(call_ensures(*to_unit, (x,), t));
    assert(call_ensures(*outside, (t,), out));
    r
}

// --- Integrals ---

/// The weight of an inner node in Simpson's rule.
pub open spec fn simpson_weight(i: int) -> u32 {
    if i % 2 == 0 {
        2
    } else {
        4
    }
}

/// Whether the `i`-th sum is the one before with the weighted value at node `i` added to it.
pub open spec fn node_added<
    W,
    P: Fn(W, W, usize) -> W,
    A: Fn(W, u32, W) -> W,
>(f: spec_fn(W, W) -> bool, node: P, accumulate: A, a: W, b: W, sums: Seq<W>, i: int) -> bool {
    exists|x: W, y: W|
        {
            &&& #[trigger] call_ensures(node, (a, b, i as usize), x)
            &&& #[trigger] f(x, y)
            &&& call_ensures(accumulate, (sums[i - 1], simpson_weight(i), y), sums[i])
        }
}

/// Whether `sums` starts with the values of `f` at the two ends and goes on through the inner
/// nodes.
pub open spec fn simpson_sums<
    W,
    P: Fn(W, W, usize) -> W,
    T: Fn(W, W) -> W,
    A: Fn(W, u32, W) -> W,
>(f: spec_fn(W, W) -> bool, node: P, start: T, accumulate: A, a: W, b: W, sums: Seq<W>) -> bool {
    &&& sums.len() == QUAD_POINTS
    &&& exists|ya: W, yb: W|
        {
            &&& #[trigger] f(a, ya)
            &&& #[trigger] f(b, yb)
            &&& call_ensures(start, (ya, yb), sums[0])
        }
    &&& forall|i: int|
        0 < i < sums.len() ==> #[trigger] node_added(f, node, accumulate, a, b, sums, i)
}

/// Whether `r` is the integral of `f` from `a` to `b` by Simpson's rule, or `zero` where the
/// interval is too short.
pub open spec fn integral<
    W,
    D: Fn(W, W) -> bool,
    P: Fn(W, W, usize) -> W,
    T: Fn(W, W) -> W,
    A: Fn(W, u32, W) -> W,
    Z: Fn(W, W, W) -> W,
>(
    f: spec_fn(W, W) -> bool,
    zero: W,
    degenerate: D,
    node: P,
    start: T,
    accumulate: A,
    finish: Z,
    a: W,
    b: W,
    r: W,
) -> bool {
    ||| r == zero && call_ensures(degenerate, (a, b), true)
    ||| call_ensures(degenerate, (a, b), false) && exists|sums: Seq<W>| #[trigger]
        simpson_sums(f, node, start, accumulate, a, b, sums) && call_ensures(
            finish,
            (sums.last(), a, b),
            r,
        )
}

/// Numerical integration by the composite Simpson's rule.
///
/// An interval that `degenerate` finds too short has the integral `zero`. Otherwise
/// `node(a, b, i)` is the `i`-th of the nodes that divide the interval evenly, `start` adds
/// the values at the two ends, `accumulate(sum, weight, value)` adds an inner value with its
/// weight, which is four at odd nodes and two at even ones, and `finish(sum, a, b)` scales the
/// sum to the interval.
pub fn integrate<
    W: Copy,
    F: Fn(W) -> W,
    D: Fn(W, W) -> bool,
    P: Fn(W, W, usize) -> W,
    T: Fn(W, W) -> W,
    A: Fn(W, u32, W) -> W,
    Z: Fn(W, W, W) -> W,
>(
    f: &F,
    a: W,
    b: W,
    zero: W,
    degenerate: &D,
    node: &P,
    start: &T,
    accumulate: &A,
    finish: &Z,
) -> (r: W)
    requires
        forall|x: W| #[trigger] call_requires(*f, (x,)),
        call_requires(*degenerate, (a, b)),
        forall|i: usize| 0 < i < QUAD_POINTS ==> #[trigger] call_requires(*node, (a, b, i)),
        forall|x: W, y: W| #[trigger] call_requires(*start, (x, y)),
        forall|x: W, w: u32, y: W| #[trigger] call_requires(*accumulate, (x, w, y)),
        forall|x: W| #[trigger] call_requires(*finish, (x, a, b)),
    ensures
        integral(
            values_given(*f),
            zero,
            *degenerate,
            *node,
            *start,
            *accumulate,
            *finish,
            a,
            b,
            r,
        ),
{
    if degenerate(a, b) {
        return zero;
    }
    let ya: W = f(a);
    let yb: W = f(b);
    let mut sum: W = start(ya, yb);
    let ghost mut sums: Seq<W> = seq![sum];
    for i in 1..QUAD_POINTS
        invariant
            sums.len() == i,
            sums.last() == sum,
            call_ensures(*f, (a,), ya),
            call_ensures(*f, (b,), yb),
            call_ensures(*start, (ya, yb), sums[0]),
            forall|x: W| #[trigger] call_requires(*f, (x,)),
            forall|i: usize| 0 < i < QUAD_POINTS ==> #[trigger] call_requires(*node, (a, b, i)),
            forall|x: W, w: u32, y: W| #[trigger] call_requires(*accumulate, (x, w, y)),
            forall|j: int|
                0 < j < sums.len() ==> #[trigger] node_added(
                    values_given(*f),
                    *node,
                    *accumulate,
                    a,
                    b,
                    sums,
                    j,
                ),
    {
        let x: W = node(a, b, i);
        let y: W = f(x);
        let weight: u32 = if i % 2 == 0 {
            2
        } else {
            4
        };
        sum = accumulate(sum, weight, y);
        proof {
            let before = sums;
            sums = before.push(sum);
            assert forall|j: int| 0 < j < sums.len() implies #[trigger] node_added(
                values_given(*f),
                *node,
                *accumulate,
                a,
                b,
                sums,
                j,
            ) by {
                if j < before.len() {
                    assert(node_added(values_given(*f), *node, *accumulate, a, b, before, j));
                } else {
                    assert(call_ensures(*node, (a, b, j as usize), x));
                    assert(values_given(*f)(x, y));
                }
            }
        }
    }
    proof {
        assert(values_given(*f)(a, ya));
        assert(values_given(*f)(b, yb));
        assert(simpson_sums(values_given(*f), *node, *start, *accumulate, a, b, sums));
    }
    finish(sum, a, b)
}

/// Whether `r` is the mean of the coordinates between `a` and `b`: the quotient of the first
/// moment and the mass, or the midpoint where the mass is negligible.
pub open spec fn cell_mean<
    W,
    L: Fn(W) -> bool,
    M: Fn(W, W) -> W,
    V: Fn(W, W) -> W,
>(
    moment: spec_fn(W, W, usize, W) -> bool,
    mass: spec_fn(W, W, usize, W) -> bool,
    negligible: L,
    midpoint: M,
    divide: V,
    a: W,
    b: W,
    dim: usize,
    r: W,
) -> bool {
    exists|numerator: W, denominator: W|
        {
            &&& #[trigger] moment(a, b, dim, numerator)
            &&& #[trigger] mass(a, b, dim, denominator)
            &&& {
                ||| call_ensures(negligible, (denominator,), true) && call_ensures(
                    midpoint,
                    (a, b),
                    r,
                )
                ||| call_ensures(negligible, (denominator,), false) && call_ensures(
                    divide,
                    (numerator, denominator),
                    r,
                )
            }
        }
}

/// The first moment and the mass that a mean came from.
pub proof fn lemma_mean_parts<W, L: Fn(W) -> bool, M: Fn(W, W) -> W, V: Fn(W, W) -> W>(
    moment: spec_fn(W, W, usize, W) -> bool,
    mass: spec_fn(W, W, usize, W) -> bool,
    negligible: L,
    midpoint: M,
    divide: V,
    a: W,
    b: W,
    dim: usize,
    r: W,
) -> (parts: (W, W))
    requires
        cell_mean(moment, mass, negligible, midpoint, divide, a, b, dim, r),
    ensures
        moment(a, b, dim, parts.0),
        mass(a, b, dim, parts.1),
        call_ensures(negligible, (parts.1,), true) && call_ensures(midpoint, (a, b), r)
            || call_ensures(negligible, (parts.1,), false) && call_ensures(
            divide,
            (parts.0, parts.1),
            r,
        ),
{
    choose|numerator: W, denominator: W|
        {
            &&& #[trigger] moment(a, b, dim, numerator)
            &&& #[trigger] mass(a, b, dim, denominator)
            &&& {
                ||| call_ensures(negligible, (denominator,), true) && call_ensures(
                    midpoint,
                    (a, b),
                    r,
                )
                ||| call_ensures(negligible, (denominator,), false) && call_ensures(
                    divide,
                    (numerator, denominator),
                    r,
                )
            }
        }
}

/// Compute the mean of the coordinates between `a` and `b`.
///
/// `moment` and `mass` integrate the density, with and without the coordinate as a factor.
/// Where `negligible` finds the mass too small to divide by, the mean is the midpoint.
pub fn conditional_mean<
    W: Copy,
    I: Fn(W, W, usize) -> W,
    J: Fn(W, W, usize) -> W,
    L: Fn(W) -> bool,
    M: Fn(W, W) -> W,
    V: Fn(W, W) -> W,
>(
    a: W,
    b: W,
    dim: usize,
    moment: &I,
    mass: &J,
    negligible: &L,
    midpoint: &M,
    divide: &V,
) -> (r: W)
    requires
        call_requires(*moment, (a, b, dim)),
        call_requires(*mass, (a, b, dim)),
        forall|x: W| #[trigger] call_requires(*negligible, (x,)),
        call_requires(*midpoint, (a, b)),
        forall|x: W, y: W| #[trigger] call_requires(*divide, (x, y)),
    ensures
        cell_mean(
            given_by(*moment),
            given_by(*mass),
            *negligible,
            *midpoint,
            *divide,
            a,
            b,
            dim,
            r,
        ),
{
    let numerator: W = moment(a, b, dim);
    let denominator: W = mass(a, b, dim);
    let r: W = if negligible(denominator) {
        midpoint(a, b)
    } else {
        divide(numerator, denominator)
    };
    proof {
        assert(given_by(*moment)(a, b, dim, numerator));
        assert(given_by(*mass)(a, b, dim, denominator));
    }
    r
}

// --- Quantiles ---

/// Whether one bisection step for the quantile of `p` leads from an interval to the next:
/// the midpoint becomes the lower end where less than `p` lies below it, and else the upper.
pub open spec fn bisection_step<W, M: Fn(W, W) -> W>(
    midpoint: M,
    below: spec_fn(W, W, usize, bool) -> bool,
    p: W,
    dim: usize,
    before: (W, W),
    after: (W, W),
) -> bool {
    exists|mid: W|
        {
            &&& #[trigger] call_ensures(midpoint, before, mid)
            &&& {
                ||| below(mid, p, dim, true) && after == (mid, before.1)
                ||| below(mid, p, dim, false) && after == (before.0, mid)
            }
        }
}

/// The midpoint that a bisection step asked about.
pub proof fn lemma_bisection_middle<W, M: Fn(W, W) -> W>(
    midpoint: M,
    below: spec_fn(W, W, usize, bool) -> bool,
    p: W,
    dim: usize,
    before: (W, W),
    after: (W, W),
) -> (mid: W)
    requires
        bisection_step(midpoint, below, p, dim, before, after),
    ensures
        call_ensures(midpoint, (before.0, before.1), mid),
        below(mid, p, dim, true) && after == (mid, before.1) || below(mid, p, dim, false) && after
            == (before.0, mid),
{
    let mid = choose|mid: W|
        {
            &&& #[trigger] call_ensures(midpoint, before, mid)
            &&& {
                ||| below(mid, p, dim, true) && after == (mid, before.1)
                ||| below(mid, p, dim, false) && after == (before.0, mid)
            }
        };
    assert(call_ensures(midpoint, (before.0, before.1), mid));
    mid
}

/// Whether the `t`-th interval of a bisection comes from the one before by one step.
pub open spec fn bisection_step_to<W, M: Fn(W, W) -> W>(
    midpoint: M,
    below: spec_fn(W, W, usize, bool) -> bool,
    p: W,
    dim: usize,
    history: Seq<(W, W)>,
    t: int,
) -> bool {
    bisection_step(midpoint, below, p, dim, history[t - 1], history[t])
}

/// Whether `history` lists the intervals of a bisection so far, none of which but perhaps the
/// last was found to be short enough.
pub open spec fn bisection_steps<
    W,
    M: Fn(W, W) -> W,
    E: Fn(W, W) -> bool,
>(
    midpoint: M,
    below: spec_fn(W, W, usize, bool) -> bool,
    close: E,
    p: W,
    dim: usize,
    ends: (W, W),
    history: Seq<(W, W)>,
) -> bool {
    &&& 1 <= history.len() <= MAX_BISECTIONS + 1
    &&& history[0] == ends
    &&& forall|t: int|
        0 < t < history.len() ==> #[trigger] bisection_step_to(midpoint, below, p, dim, history, t)
    &&& forall|t: int|
        0 < t < history.len() - 1 ==> call_ensures(close, #[trigger] history[t], false)
}

/// Whether a bisection ends with `history`: its last interval is short enough, or the step to
/// it was the last one allowed.
pub open spec fn bisection_run<
    W,
    M: Fn(W, W) -> W,
    E: Fn(W, W) -> bool,
>(
    midpoint: M,
    below: spec_fn(W, W, usize, bool) -> bool,
    close: E,
    p: W,
    dim: usize,
    ends: (W, W),
    history: Seq<(W, W)>,
) -> bool {
    &&& bisection_steps(midpoint, below, close, p, dim, ends, history)
    &&& history.len() >= 2
    &&& call_ensures(close, history.last(), true) || (history.len() == MAX_BISECTIONS + 1
        && call_ensures(close, history.last(), false))
}

/// Compute a quantile of the coordinates' distribution by bisection.
///
/// `below(x, p, dim)` tells whether less than `p` of the distribution lies below `x`,
/// `close(lo, hi)` whether the interval is short enough to stop; the result is the midpoint of
/// the last interval. `ends` are the numbers -1 and 1.
pub fn beta_ppf<W: Copy, M: Fn(W, W) -> W, B: Fn(W, W, usize) -> bool, E: Fn(W, W) -> bool>(
    p: W,
    dim: usize,
    ends: (W, W),
    midpoint: &M,
    below: &B,
    close: &E,
) -> (r: W)
    requires
        forall|a: W, b: W| #[trigger] call_requires(*midpoint, (a, b)),
        forall|a: W| #[trigger] call_requires(*below, (a, p, dim)),
        forall|a: W, b: W| #[trigger] call_requires(*close, (a, b)),
    ensures
        exists|history: Seq<(W, W)>| #[trigger]
            bisection_run(*midpoint, given_by(*below), *close, p, dim, ends, history) && call_ensures(
                *midpoint,
                history.last(),
                r,
            ),
{
    let mut lo: W = ends.0;
    let mut hi: W = ends.1;
    let ghost mut history: Seq<(W, W)> = seq![ends];
    let mut done: bool = false;
    let mut iter: usize = 0;
    while iter < MAX_BISECTIONS && !done
        invariant
            iter <= MAX_BISECTIONS,
            history.len() == iter + 1,
            history.last() == (lo, hi),
            done ==> iter >= 1,
            iter >= 1 ==> call_ensures(*close, (lo, hi), done),
            bisection_steps(*midpoint, given_by(*below), *close, p, dim, ends, history),
            forall|a: W, b: W| #[trigger] call_requires(*midpoint, (a, b)),
            forall|a: W| #[trigger] call_requires(*below, (a, p, dim)),
            forall|a: W, b: W| #[trigger] call_requires(*close, (a, b)),
        decreases MAX_BISECTIONS - iter,
    {
        let ghost start = (lo, hi);
        let mid: W = midpoint(lo, hi);
        if below(mid, p, dim) {
            lo = mid;
        } else {
            hi = mid;
        }
        done = close(lo, hi);
        proof {
            let before = history;
            assert(bisection_step(*midpoint, given_by(*below), p, dim, start, (lo, hi)));
            history = before.push((lo, hi));
            assert forall|t: int| 0 < t < history.len() implies #[trigger] bisection_step_to(
                *midpoint,
                given_by(*below),
                p,
                dim,
                history,
                t,
            ) by {
                if t < before.len() {
                    assert(bisection_step_to(*midpoint, given_by(*below), p, dim, before, t));
                }
            }
            assert forall|t: int| 0 < t < history.len() - 1 implies call_ensures(
                *close,
                #[trigger] history[t],
                false,
            ) by {
                assert(history[t] == before[t]);
            }
        }
        iter += 1;
    }
    proof {
        assert(bisection_run(*midpoint, given_by(*below), *close, p, dim, ends, history));
    }
    midpoint(lo, hi)
}

// --- Distortion ---

/// Whether the `i`-th total is the one before with the distortion of a cell added to it.
pub open spec fn distortion_added<W, A: Fn(W, Float32, Float32, Float32, usize) -> W>(
    accumulate: A,
    dim: usize,
    codebook: CodebookView,
    totals: Seq<W>,
    i: int,
) -> bool {
    call_ensures(
        accumulate,
        (totals[i - 1], codebook.0[i - 1], codebook.1[i - 1], codebook.1[i], dim),
        totals[i],
    )
}

/// Whether `totals` are the running sums of the cells' distortions, from `zero` on.
pub open spec fn distortion_sums<W, A: Fn(W, Float32, Float32, Float32, usize) -> W>(
    accumulate: A,
    zero: W,
    dim: usize,
    codebook: CodebookView,
    totals: Seq<W>,
) -> bool {
    &&& totals.len() == codebook.0.len() + 1
    &&& totals[0] == zero
    &&& forall|i: int|
        0 < i < totals.len() ==> #[trigger] distortion_added(accumulate, dim, codebook, totals, i)
}

/// Compute the per-coordinate distortion of a codebook: the sum over its cells.
///
/// `accumulate(total, centroid, lo, hi, dim)` adds the distortion of one cell to a total.
pub fn per_coordinate_distortion<
    F: Fn(usize, u32) -> (Vec<Float32>, Vec<Float32>),
    W: Copy,
    A: Fn(W, Float32, Float32, Float32, usize) -> W,
>(
    cache: &mut CodebookCache,
    dim: usize,
    num_bits: u32,
    compute: &F,
    zero: W,
    accumulate: &A,
) -> (r: Result<W, TurboError>)
    requires
        old(cache).sized(),
        computes_sized(*compute, dim, num_bits),
        valid_parameters(dim, num_bits) ==> forall|t: W, c: Float32, lo: Float32, hi: Float32|
            #[trigger] call_requires(*accumulate, (t, c, lo, hi, dim)),
    ensures
        final(cache).sized(),
        old(cache).wf() && computes_codebooks(*compute, dim, num_bits) ==> final(cache).wf(),
        !valid_parameters(dim, num_bits) ==> r == Err::<W, TurboError>(
            parameter_error(dim, num_bits),
        ) && final(cache)@ == old(cache)@,
        valid_parameters(dim, num_bits) ==> r is Ok && exists|codebook: CodebookView, totals: Seq<W>|
            {
                &&& #[trigger] codebook_request(
                    *compute,
                    dim,
                    num_bits,
                    old(cache)@,
                    final(cache)@,
                    Ok(codebook),
                )
                &&& sized_codebook(codebook, num_bits)
                &&& #[trigger] distortion_sums(*accumulate, zero, dim, codebook, totals)
                &&& r->Ok_0 == totals.last()
            },
{
    let (centroids, boundaries) = match get_codebook(cache, dim, num_bits, compute) {
        Ok(codebook) => codebook,
        Err(e) => {
            return Err(e);
        },
    };
    let k: usize = centroids.len();
    let mut total: W = zero;
    let ghost mut totals: Seq<W> = seq![zero];
    for i in 0..k
        invariant
            k == centroids@.len(),
            boundaries@.len() == k + 1,
            totals.len() == i + 1,
            totals[0] == zero,
            totals.last() == total,
            forall|t: W, c: Float32, lo: Float32, hi: Float32| #[trigger]
                call_requires(*accumulate, (t, c, lo, hi, dim)),
            forall|j: int|
                0 < j < totals.len() ==> #[trigger] distortion_added(
                    *accumulate,
                    dim,
                    (centroids@, boundaries@),
                    totals,
                    j,
                ),
    {
        let c: Float32 = centroids[i];
        let lo: Float32 = boundaries[i];
        let hi: Float32 = boundaries[i + 1];
        total = accumulate(total, c, lo, hi, dim);
        proof {
            let before = totals;
            totals = before.push(total);
            let codebook = (centroids@, boundaries@);
            assert forall|j: int| 0 < j < totals.len() implies #[trigger] distortion_added(
                *accumulate,
                dim,
                codebook,
                totals,
                j,
            ) by {
                if j < before.len() {
                    assert(distortion_added(*accumulate, dim, codebook, before, j));
                }
            }
        }
    }
    proof {
        let codebook = (centroids@, boundaries@);
        assert(distortion_sums(*accumulate, zero, dim, codebook, totals));
        assert(codebook_request(*compute, dim, num_bits, old(cache)@, cache@, Ok(codebook)));
    }
    Ok(total)
}

// --- Laws ---

/// A bin index is one of the `k` codes of a codebook with `k` cells.
pub proof fn law_bin_in_range(value: Float32, boundaries: Seq<Float32>)
    requires
        boundaries.len() >= 2,
    ensures
        bin_of(value, boundaries) < boundaries.len() - 1,
{
    lemma_count_below_bound(interior(boundaries), value.units());
}

/// A value lies above the lower boundary of its bin and not above the upper one.
pub proof fn law_bin_brackets_value(value: Float32, boundaries: Seq<Float32>)
    requires
        ascending(boundaries),
    ensures
        bin_of(value, boundaries) < boundaries.len() - 1,
        forall|i: int|
            1 <= i <= bin_of(value, boundaries) ==> (#[trigger] boundaries[i]).units()
                < value.units(),
        forall|i: int|
            bin_of(value, boundaries) < i < boundaries.len() - 1 ==> value.units() <= (
            #[trigger] boundaries[i]).units(),
{
    let inner = interior(boundaries);
    assert forall|i: int, j: int| 0 <= i <= j < inner.len() implies inner[i] <= inner[j] by {
        assert(boundaries[i + 1].units() <= boundaries[j + 1].units());
    }
    lemma_below_come_first(inner, value.units());
    assert forall|i: int| 1 <= i <= bin_of(value, boundaries) implies (
    #[trigger] boundaries[i]).units() < value.units() by {
        assert(inner[i - 1] < value.units());
    }
    assert forall|i: int|
        bin_of(value, boundaries) < i < boundaries.len() - 1 implies value.units() <= (
    #[trigger] boundaries[i]).units() by {
        assert(value.units() <= inner[i - 1]);
    }
}

/// A larger value never falls into a lower bin.
pub proof fn law_bins_are_monotone(x: Float32, y: Float32, boundaries: Seq<Float32>)
    requires
        ascending(boundaries),
        x.units() <= y.units(),
    ensures
        bin_of(x, boundaries) <= bin_of(y, boundaries),
{
    law_bin_brackets_value(x, boundaries);
    law_bin_brackets_value(y, boundaries);
    if bin_of(y, boundaries) < bin_of(x, boundaries) {
        let i = bin_of(x, boundaries) as int;
        assert(boundaries[i].units() < x.units());
        assert(y.units() <= boundaries[i].units());
    }
}

/// Whether every interior boundary is the midpoint of the centroids on its two sides, up to
/// `slack` in twice its value.
pub open spec fn near_midpoints(
    centroids: Seq<Float32>,
    boundaries: Seq<Float32>,
    slack: int,
) -> bool {
    &&& boundaries.len() == centroids.len() + 1
    &&& forall|i: int|
        1 <= i < centroids.len() ==> is_midpoint(
            centroids[i - 1],
            #[trigger] boundaries[i],
            centroids[i],
            slack,
        )
}

/// Whether twice a number is off the sum of two others by no more than the slack.
pub open spec fn is_midpoint(left: Float32, middle: Float32, right: Float32, slack: int) -> bool {
    &&& 2 * middle.units() <= left.units() + right.units() + slack
    &&& left.units() + right.units() <= 2 * middle.units() + slack
}

/// The distance of two values, in the units of their values.
pub open spec fn gap(x: Float32, y: Float32) -> int {
    if x.units() <= y.units() {
        y.units() - x.units()
    } else {
        x.units() - y.units()
    }
}

/// The bin of a value is that of the nearest centroid: no other centroid is closer by more
/// than the slack with which the boundaries lie between the centroids.
pub proof fn law_bin_is_nearest_centroid(
    value: Float32,
    centroids: Seq<Float32>,
    boundaries: Seq<Float32>,
    slack: int,
    other: int,
)
    requires
        ascending(boundaries),
        near_midpoints(centroids, boundaries, slack),
        0 <= slack,
        forall|i: int, j: int|
            0 <= i <= j < centroids.len() ==> (#[trigger] centroids[i]).units() <= (
            #[trigger] centroids[j]).units(),
        0 <= other < centroids.len(),
    ensures
        bin_of(value, boundaries) < centroids.len(),
        gap(value, centroids[bin_of(value, boundaries) as int]) <= gap(value, centroids[other])
            + slack,
{
    law_bin_brackets_value(value, boundaries);
    let q = bin_of(value, boundaries) as int;
    let c = centroids[q];
    if other < q {
        assert(boundaries[q].units() < value.units());
        assert(centroids[other].units() <= centroids[q - 1].units());
        assert(centroids[q - 1].units() <= c.units());
    } else if q < other {
        assert(value.units() <= boundaries[q + 1].units());
        assert(centroids[q + 1].units() <= centroids[other].units());
        assert(c.units() <= centroids[q + 1].units());
    }
}

/// By a codebook every value is restored as the nearest centroid: no other one is closer by more
/// than a millionth.
pub proof fn law_codebook_restores_nearest(
    codebook: CodebookView,
    num_bits: u32,
    value: Float32,
    other: int,
)
    requires
        valid_codebook(codebook, num_bits),
        0 <= other < codebook.0.len(),
    ensures
        bin_of(value, codebook.1) < codebook.0.len(),
        gap(value, codebook.0[bin_of(value, codebook.1) as int]) <= gap(value, codebook.0[other])
            + halfway_slack(),
        1_000_000 * halfway_slack() < pow2(149),
{
    lemma_pow2_adds(129, 20);
    lemma2_to64();
    lemma_pow2_strictly_increases(0, 129);
    law_bin_is_nearest_centroid(value, codebook.0, codebook.1, halfway_slack(), other);
}

/// Whatever was requested before, by the codebook that a request is answered with every value is
/// restored as the nearest centroid, up to a millionth.
pub proof fn law_requested_codebook_restores_nearest<
    F: Fn(usize, u32) -> (Vec<Float32>, Vec<Float32>),
>(
    compute: F,
    requests: Seq<(usize, u32)>,
    caches: Seq<Map<(usize, u32), CodebookView>>,
    results: Seq<Result<CodebookView, TurboError>>,
    t: int,
    value: Float32,
    other: int,
)
    requires
        requests_run(compute, requests, caches, results),
        0 <= t < requests.len(),
        computes_codebooks(compute, requests[t].0, requests[t].1),
        results[t] is Ok,
        0 <= other < results[t]->Ok_0.0.len(),
    ensures
        ({
            let (centroids, boundaries) = results[t]->Ok_0;
            gap(value, centroids[bin_of(value, boundaries) as int]) <= gap(value, centroids[other])
                + halfway_slack()
        }),
{
    law_earlier_requests_do_not_matter(compute, requests, caches, results, t);
    law_codebook_restores_nearest(results[t]->Ok_0, requests[t].1, value, other);
}

/// A centroid falls into its own bin, wherever neighbouring centroids are further apart than
/// the slack with which the boundaries lie between them.
pub proof fn law_centroid_is_in_its_bin(
    centroids: Seq<Float32>,
    boundaries: Seq<Float32>,
    slack: int,
    i: int,
)
    requires
        ascending(boundaries),
        near_midpoints(centroids, boundaries, slack),
        0 <= i < centroids.len(),
        forall|j: int|
            1 <= j < centroids.len() ==> centroids[j - 1].units() + slack < (
            #[trigger] centroids[j]).units(),
    ensures
        bin_of(centroids[i], boundaries) == i,
{
    let value = centroids[i];
    law_bin_brackets_value(value, boundaries);
    let q = bin_of(value, boundaries) as int;
    if q < i {
        assert(value.units() <= boundaries[i].units());
        assert(centroids[i - 1].units() + slack < centroids[i].units());
        assert(2 * boundaries[i].units() <= centroids[i - 1].units() + centroids[i].units() + slack);
    } else if i < q {
        assert(boundaries[i + 1].units() < value.units());
        assert(centroids[i + 1 - 1].units() + slack < centroids[i + 1].units());
        assert(centroids[i + 1 - 1].units() + centroids[i + 1].units() <= 2
            * boundaries[i + 1].units() + slack);
    }
}

/// Where the centroids of a codebook are more than a millionth apart from each other and from the
/// ends, each lies inside its own cell, boundaries and centroids strictly ascend, and each centroid
/// falls into its own bin.
#[verifier::spinoff_prover]
pub proof fn law_centroids_apart_lie_inside_their_cells(codebook: CodebookView, num_bits: u32)
    requires
        valid_codebook(codebook, num_bits),
        forall|i: int|
            1 <= i < codebook.0.len() ==> codebook.0[i - 1].units() + halfway_slack() < (
            #[trigger] codebook.0[i]).units(),
        (Float32 { bits: MINUS_ONE_BITS }).units() < codebook.0.first().units(),
        codebook.0.last().units() < (Float32 { bits: ONE_BITS }).units(),
    ensures
        forall|i: int|
            0 <= i < codebook.0.len() ==> codebook.1[i].units() < (#[trigger] codebook.0[i]).units()
                < codebook.1[i + 1].units(),
        forall|i: int|
            0 <= i < codebook.0.len() ==> (#[trigger] codebook.1[i]).units() < codebook.1[i
                + 1].units(),
        forall|i: int|
            0 <= i < codebook.0.len() ==> bin_of(#[trigger] codebook.0[i], codebook.1) == i,
{
    let (centroids, boundaries) = codebook;
    let k = centroids.len() as int;
    assert forall|i: int| 0 <= i < k implies boundaries[i].units() < (
    #[trigger] centroids[i]).units() < boundaries[i + 1].units() by {
        if i > 0 {
            assert(centroids[i - 1].units() + halfway_slack() < centroids[i].units());
            assert(is_midpoint(centroids[i - 1], boundaries[i], centroids[i], halfway_slack()));
        } else {
            assert(boundaries[0] == boundaries.first());
        }
        if i + 1 < k {
            assert(centroids[i].units() + halfway_slack() < centroids[i + 1].units());
            let j = i + 1;
            assert(is_midpoint(centroids[j - 1], boundaries[j], centroids[j], halfway_slack()));
        } else {
            assert(boundaries[k] == boundaries.last());
        }
    }
    assert forall|i: int| 0 <= i < k implies (#[trigger] boundaries[i]).units() < boundaries[i
        + 1].units() by {
        assert(boundaries[i].units() < centroids[i].units() < boundaries[i + 1].units());
    }
    assert forall|i: int| 0 <= i < k implies bin_of(#[trigger] centroids[i], boundaries) == i by {
        law_centroid_is_in_its_bin(centroids, boundaries, halfway_slack(), i);
    }
}

/// Asking twice for the same codebook gives the same one, and leaves the cache as the first
/// request left it.
pub proof fn law_codebook_is_computed_once<
    F: Fn(usize, u32) -> (Vec<Float32>, Vec<Float32>),
    G: Fn(usize, u32) -> (Vec<Float32>, Vec<Float32>),
>(
    first_compute: F,
    second_compute: G,
    dim: usize,
    num_bits: u32,
    before: Map<(usize, u32), CodebookView>,
    between: Map<(usize, u32), CodebookView>,
    after: Map<(usize, u32), CodebookView>,
    first: Result<CodebookView, TurboError>,
    second: Result<CodebookView, TurboError>,
)
    requires
        codebook_request(first_compute, dim, num_bits, before, between, first),
        codebook_request(second_compute, dim, num_bits, between, after, second),
    ensures
        second == first,
        after == between,
{
}

/// A request changes no other entry of the cache, and never drops one.
pub proof fn law_request_keeps_entries<F: Fn(usize, u32) -> (Vec<Float32>, Vec<Float32>)>(
    compute: F,
    dim: usize,
    num_bits: u32,
    before: Map<(usize, u32), CodebookView>,
    after: Map<(usize, u32), CodebookView>,
    r: Result<CodebookView, TurboError>,
    key: (usize, u32),
)
    requires
        codebook_request(compute, dim, num_bits, before, after, r),
        before.contains_key(key),
    ensures
        after.contains_key(key),
        after[key] == before[key],
{
}

/// Every lower end of a bisection has less than `p` below it, unless it is the first one, and
/// no upper end has.
pub proof fn law_bisection_brackets<
    W,
    M: Fn(W, W) -> W,
    E: Fn(W, W) -> bool,
>(
    midpoint: M,
    below: spec_fn(W, W, usize, bool) -> bool,
    close: E,
    p: W,
    dim: usize,
    ends: (W, W),
    history: Seq<(W, W)>,
    t: int,
)
    requires
        bisection_steps(midpoint, below, close, p, dim, ends, history),
        0 <= t < history.len(),
    ensures
        history[t].0 == ends.0 || below(history[t].0, p, dim, true),
        history[t].1 == ends.1 || below(history[t].1, p, dim, false),
    decreases t,
{
    if t > 0 {
        law_bisection_brackets(midpoint, below, close, p, dim, ends, history, t - 1);
        assert(bisection_step_to(midpoint, below, p, dim, history, t));
    }
}

// --- Order in Lloyd's iteration ---

/// Whether the numbers ascend, from the one end at the lowest to the other at the highest.
pub open spec fn ascends_within<W>(
    value: spec_fn(W) -> real,
    ends: (W, W),
    numbers: Seq<W>,
) -> bool {
    &&& value(ends.0) <= value(ends.1)
    &&& forall|i: int, j: int|
        0 <= i <= j < numbers.len() ==> value(ends.0) <= value(#[trigger] numbers[i]) <= value(
            #[trigger] numbers[j],
        ) <= value(ends.1)
}

/// Whether midpoints lie between the two numbers.
pub open spec fn midpoints_between<W, M: Fn(W, W) -> W>(
    midpoint: M,
    value: spec_fn(W) -> real,
) -> bool {
    forall|a: W, b: W, r: W|
        value(a) <= value(b) && #[trigger] call_ensures(midpoint, (a, b), r) ==> value(a) <= value(
            r,
        ) <= value(b)
}

/// Whether the mean of a cell lies in the cell.
pub open spec fn means_within<W>(
    mean: spec_fn(W, W, usize, W) -> bool,
    dim: usize,
    value: spec_fn(W) -> real,
) -> bool {
    forall|a: W, b: W, r: W|
        value(a) <= value(b) && #[trigger] mean(a, b, dim, r) ==> value(a) <= value(
            r,
        ) <= value(b)
}

/// Whether quantiles ascend between the ends.
pub open spec fn quantiles_ascend<W>(
    quantile: spec_fn(usize, usize, usize, W) -> bool,
    k: usize,
    dim: usize,
    ends: (W, W),
    value: spec_fn(W) -> real,
) -> bool {
    forall|i: usize, j: usize, x: W, y: W|
        i <= j < k && #[trigger] quantile(i, k, dim, x) && #[trigger] quantile(j, k, dim, y,
        ) ==> value(ends.0) <= value(x) <= value(y) <= value(ends.1)
}

/// Whether rounding keeps the order of numbers between the ends, and takes the ends to -1 and 1.
pub open spec fn narrows_in_order<W, N: Fn(W) -> Float32>(
    narrow: N,
    ends: (W, W),
    value: spec_fn(W) -> real,
) -> bool {
    &&& forall|r: Float32| #[trigger]
        call_ensures(narrow, (ends.0,), r) ==> r == (Float32 { bits: MINUS_ONE_BITS })
    &&& forall|r: Float32| #[trigger]
        call_ensures(narrow, (ends.1,), r) ==> r == (Float32 { bits: ONE_BITS })
    &&& forall|a: W, b: W, x: Float32, y: Float32|
        value(ends.0) <= value(a) <= value(b) <= value(ends.1) && #[trigger] call_ensures(
            narrow,
            (a,),
            x,
        ) && #[trigger] call_ensures(narrow, (b,), y) ==> {
            &&& !x.nan()
            &&& !y.nan()
            &&& (Float32 { bits: MINUS_ONE_BITS }).units() <= x.units() <= y.units() <= (Float32 {
                bits: ONE_BITS,
            }).units()
        }
}

/// The boundaries of ascending centroids ascend, and each centroid lies in its cell.
pub proof fn law_boundaries_ascend<W, M: Fn(W, W) -> W>(
    midpoint: M,
    value: spec_fn(W) -> real,
    ends: (W, W),
    centroids: Seq<W>,
    boundaries: Seq<W>,
)
    requires
        centroids.len() >= 1,
        midpoints_between(midpoint, value),
        ascends_within(value, ends, centroids),
        voronoi(midpoint, ends, centroids, boundaries),
    ensures
        ascends_within(value, ends, boundaries),
        forall|i: int|
            0 <= i < centroids.len() ==> value(boundaries[i]) <= value(#[trigger] centroids[i])
                <= value(boundaries[i + 1]),
{
    let k = centroids.len() as int;
    assert forall|i: int| 1 <= i < k implies value(centroids[i - 1]) <= value(
        #[trigger] boundaries[i],
    ) <= value(centroids[i]) by {
        assert(value(centroids[i - 1]) <= value(centroids[i]));
    }
    assert forall|i: int, j: int| 0 <= i <= j < boundaries.len() implies value(ends.0) <= value(
        #[trigger] boundaries[i],
    ) <= value(#[trigger] boundaries[j]) <= value(ends.1) by {
        if 1 <= i && j < k {
            assert(value(centroids[i - 1]) <= value(boundaries[i]) <= value(centroids[i]));
            assert(value(centroids[j - 1]) <= value(boundaries[j]) <= value(centroids[j]));
            assert(value(ends.0) <= value(centroids[i - 1]) <= value(centroids[j]) <= value(ends.1));
            if i < j {
                assert(value(centroids[i]) <= value(centroids[j - 1]));
            }
        } else if i == 0 && 1 <= j < k {
            assert(value(centroids[j - 1]) <= value(boundaries[j]) <= value(centroids[j]));
            assert(value(ends.0) <= value(centroids[j - 1]) <= value(centroids[j]) <= value(ends.1));
        } else if j == k && 1 <= i < k {
            assert(value(centroids[i - 1]) <= value(boundaries[i]) <= value(centroids[i]));
            assert(value(ends.0) <= value(centroids[i - 1]) <= value(centroids[i]) <= value(ends.1));
        }
    }
    assert forall|i: int| 0 <= i < k implies value(boundaries[i]) <= value(#[trigger] centroids[i])
        <= value(boundaries[i + 1]) by {
        assert(value(ends.0) <= value(centroids[i]) <= value(ends.1));
        if 1 <= i {
            assert(value(centroids[i - 1]) <= value(boundaries[i]) <= value(centroids[i]));
        }
        if i + 1 < k {
            assert(value(centroids[i + 1 - 1]) <= value(boundaries[i + 1]) <= value(
                centroids[i + 1],
            ));
        }
    }
}

/// A step of Lloyd's iteration keeps the centroids' order.
pub proof fn law_lloyd_step_keeps_order<W, M: Fn(W, W) -> W>(
    midpoint: M,
    mean: spec_fn(W, W, usize, W) -> bool,
    value: spec_fn(W) -> real,
    dim: usize,
    ends: (W, W),
    before: Seq<W>,
    after: Seq<W>,
)
    requires
        before.len() >= 1,
        midpoints_between(midpoint, value),
        means_within(mean, dim, value),
        ascends_within(value, ends, before),
        lloyd_step(midpoint, mean, dim, ends, before, after),
    ensures
        ascends_within(value, ends, after),
        after.len() == before.len(),
{
    let boundaries = lemma_step_cells(midpoint, mean, dim, ends, before, after);
    law_boundaries_ascend(midpoint, value, ends, before, boundaries);
    assert forall|i: int| 0 <= i < after.len() implies value(ends.0) <= value(boundaries[i])
        <= value(#[trigger] after[i]) <= value(boundaries[i + 1]) <= value(ends.1) by {
        assert(value(boundaries[i]) <= value(boundaries[i + 1]));
    }
    assert forall|i: int, j: int| 0 <= i <= j < after.len() implies value(ends.0) <= value(
        #[trigger] after[i],
    ) <= value(#[trigger] after[j]) <= value(ends.1) by {
        if i < j {
            assert(value(boundaries[i + 1]) <= value(boundaries[j]));
        }
    }
}

proof fn lemma_history_ascends<
    W,
    M: Fn(W, W) -> W,
>(
    midpoint: M,
    mean: spec_fn(W, W, usize, W) -> bool,
    settled: spec_fn(Seq<W>, Seq<W>, bool) -> bool,
    value: spec_fn(W) -> real,
    dim: usize,
    ends: (W, W),
    history: Seq<Seq<W>>,
    t: int,
)
    requires
        0 <= t < history.len(),
        history[0].len() >= 1,
        midpoints_between(midpoint, value),
        means_within(mean, dim, value),
        ascends_within(value, ends, history[0]),
        lloyd_steps(midpoint, mean, settled, dim, ends, history),
    ensures
        ascends_within(value, ends, history[t]),
        history[t].len() == history[0].len(),
    decreases t,
{
    if t > 0 {
        lemma_history_ascends(midpoint, mean, settled, value, dim, ends, history, t - 1);
        assert(lloyd_step_to(midpoint, mean, dim, ends, history, t));
        law_lloyd_step_keeps_order(
            midpoint,
            mean,
            value,
            dim,
            ends,
            history[t - 1],
            history[t],
        );
    }
}

/// The centroids and the boundaries, before they are narrowed, that Lloyd's iteration comes to, in
/// order and with each centroid in its own cell.
proof fn lemma_lloyd_in_order<W, M: Fn(W, W) -> W, N: Fn(W) -> Float32>(
    quantile: spec_fn(usize, usize, usize, W) -> bool,
    midpoint: M,
    mean: spec_fn(W, W, usize, W) -> bool,
    settled: spec_fn(Seq<W>, Seq<W>, bool) -> bool,
    narrow: N,
    value: spec_fn(W) -> real,
    k: usize,
    dim: usize,
    ends: (W, W),
    codebook: CodebookView,
) -> (r: (Seq<W>, Seq<W>))
    requires
        k >= 1,
        value(ends.0) <= value(ends.1),
        midpoints_between(midpoint, value),
        means_within(mean, dim, value),
        quantiles_ascend(quantile, k, dim, ends, value),
        lloyd_codebook(quantile, midpoint, mean, settled, narrow, k, dim, ends, codebook),
    ensures
        r.0.len() == k,
        voronoi(midpoint, ends, r.0, r.1),
        narrowed(narrow, r.0, codebook.0),
        narrowed(narrow, r.1, codebook.1),
        ascends_within(value, ends, r.0),
        ascends_within(value, ends, r.1),
        forall|i: int|
            0 <= i < k ==> value(r.1[i]) <= value(#[trigger] r.0[i]) <= value(r.1[i + 1]),
{
    let (history, boundaries) = lemma_lloyd_parts(
        quantile,
        midpoint,
        mean,
        settled,
        narrow,
        k,
        dim,
        ends,
        codebook,
    );
    let start = history[0];
    assert forall|i: int, j: int| 0 <= i <= j < start.len() implies value(ends.0) <= value(
        #[trigger] start[i],
    ) <= value(#[trigger] start[j]) <= value(ends.1) by {
        assert(quantile(i as usize, k, dim, start[i]));
        assert(quantile(j as usize, k, dim, start[j]));
    }
    lemma_history_ascends(
        midpoint,
        mean,
        settled,
        value,
        dim,
        ends,
        history,
        history.len() - 1,
    );
    law_boundaries_ascend(midpoint, value, ends, history.last(), boundaries);
    (history.last(), boundaries)
}

// --- Rounding in Lloyd's iteration ---

/// The value of one, in the units of 2^-149 in which the values of narrow numbers are counted.
pub open spec fn units_of_one() -> real {
    pow2(149) as int as real
}

/// Whether twice a midpoint of numbers between the ends differs from their sum by no more than
/// `error`, in units.
pub open spec fn midpoints_within<W, M: Fn(W, W) -> W>(
    midpoint: M,
    ends: (W, W),
    value: spec_fn(W) -> real,
    error: real,
) -> bool {
    forall|a: W, b: W, r: W|
        value(ends.0) <= value(a) <= value(b) <= value(ends.1) && #[trigger] call_ensures(
            midpoint,
            (a, b),
            r,
        ) ==> -error <= (2 as real * value(r) - value(a) - value(b)) * units_of_one() <= error
}

/// Whether a number between the ends changes by no more than `error` when it is narrowed, in units.
pub open spec fn narrows_within<W, N: Fn(W) -> Float32>(
    narrow: N,
    ends: (W, W),
    value: spec_fn(W) -> real,
    error: real,
) -> bool {
    forall|a: W, x: Float32|
        value(ends.0) <= value(a) <= value(ends.1) && #[trigger] call_ensures(narrow, (a,), x)
            ==> -error <= x.units() as real - value(a) * units_of_one() <= error
}

/// Whether midpoints are off by no more than 2^-21, and narrowing is by no more than 2^-23.
pub open spec fn rounds_closely<W, M: Fn(W, W) -> W, N: Fn(W) -> Float32>(
    midpoint: M,
    narrow: N,
    ends: (W, W),
    value: spec_fn(W) -> real,
) -> bool {
    &&& midpoints_within(midpoint, ends, value, pow2(128) as int as real)
    &&& narrows_within(narrow, ends, value, pow2(126) as int as real)
}

/// The boundaries that Lloyd's iteration comes to lie halfway between the centroids, up to what
/// the midpoints and the narrowing are off.
pub proof fn law_lloyd_boundaries_are_near_midpoints<
    W,
    M: Fn(W, W) -> W,
    N: Fn(W) -> Float32,
>(
    quantile: spec_fn(usize, usize, usize, W) -> bool,
    midpoint: M,
    mean: spec_fn(W, W, usize, W) -> bool,
    settled: spec_fn(Seq<W>, Seq<W>, bool) -> bool,
    narrow: N,
    value: spec_fn(W) -> real,
    midpoint_error: real,
    narrow_error: real,
    slack: int,
    k: usize,
    dim: usize,
    ends: (W, W),
    codebook: CodebookView,
)
    requires
        k >= 1,
        value(ends.0) <= value(ends.1),
        midpoints_between(midpoint, value),
        means_within(mean, dim, value),
        quantiles_ascend(quantile, k, dim, ends, value),
        midpoints_within(midpoint, ends, value, midpoint_error),
        narrows_within(narrow, ends, value, narrow_error),
        midpoint_error + 4 as real * narrow_error <= slack as real,
        lloyd_codebook(quantile, midpoint, mean, settled, narrow, k, dim, ends, codebook),
    ensures
        near_midpoints(codebook.0, codebook.1, slack),
{
    let (centroids, boundaries) = lemma_lloyd_in_order(
        quantile,
        midpoint,
        mean,
        settled,
        narrow,
        value,
        k,
        dim,
        ends,
        codebook,
    );
    assert forall|i: int| 1 <= i < codebook.0.len() implies is_midpoint(
        codebook.0[i - 1],
        #[trigger] codebook.1[i],
        codebook.0[i],
        slack,
    ) by {
        let b = codebook.1[i].units();
        let c = codebook.0[i - 1].units();
        let d = codebook.0[i].units();
        let one = units_of_one();
        let vb = value(boundaries[i]);
        let vc = value(centroids[i - 1]);
        let vd = value(centroids[i]);
        assert(value(ends.0) <= vc <= vd <= value(ends.1));
        assert(value(ends.0) <= vb <= vb <= value(ends.1));
        assert(call_ensures(narrow, (boundaries[i],), codebook.1[i]));
        assert(call_ensures(narrow, (centroids[i - 1],), codebook.0[i - 1]));
        assert(call_ensures(narrow, (centroids[i],), codebook.0[i]));
        assert(call_ensures(midpoint, (centroids[i - 1], centroids[i]), boundaries[i]));
        lemma_product_rules(one, 2 as real * vb - vc, vd);
        lemma_product_rules(one, 2 as real * vb, vc);
        lemma_product_rules(one, vb, vb);
        lemma_product_rules(one, vc, vd);
        lemma_product_rules(one, vd, vc);
        lemma_product_rules(one, 2 as real * vb - vc - vd, vc);
        assert(2 as real * (b as real) - c as real - d as real <= slack as real);
        assert(c as real + d as real - 2 as real * (b as real) <= slack as real);
        assert((2 * b - c - d) as real <= slack as real);
        assert((c + d - 2 * b) as real <= slack as real);
    }
}

/// What Lloyd's iteration comes to is a codebook: as many centroids as there are codes, within
/// -1 and 1 and ascending, each in its own cell between ascending boundaries from -1 to 1, which
/// lie halfway between the centroids. This holds for any arithmetic in which midpoints lie between
/// their numbers, means in their cells, quantiles ascend, and rounding keeps the order and is
/// close.
pub proof fn law_lloyd_codebook_is_valid<
    W,
    M: Fn(W, W) -> W,
    N: Fn(W) -> Float32,
>(
    quantile: spec_fn(usize, usize, usize, W) -> bool,
    midpoint: M,
    mean: spec_fn(W, W, usize, W) -> bool,
    settled: spec_fn(Seq<W>, Seq<W>, bool) -> bool,
    narrow: N,
    value: spec_fn(W) -> real,
    num_bits: u32,
    dim: usize,
    ends: (W, W),
    codebook: CodebookView,
)
    requires
        num_bits < 32,
        value(ends.0) <= value(ends.1),
        midpoints_between(midpoint, value),
        means_within(mean, dim, value),
        quantiles_ascend(quantile, pow2(num_bits as nat) as usize, dim, ends, value),
        narrows_in_order(narrow, ends, value),
        rounds_closely(midpoint, narrow, ends, value),
        lloyd_codebook(
            quantile,
            midpoint,
            mean,
            settled,
            narrow,
            pow2(num_bits as nat) as usize,
            dim,
            ends,
            codebook,
        ),
    ensures
        valid_codebook(codebook, num_bits),
{
    let k = pow2(num_bits as nat) as usize;
    lemma_two_to_the(num_bits);
    let (centroids, boundaries) = lemma_lloyd_in_order(
        quantile,
        midpoint,
        mean,
        settled,
        narrow,
        value,
        k,
        dim,
        ends,
        codebook,
    );
    assert forall|i: int| 0 <= i < codebook.0.len() implies !(#[trigger] codebook.0[i]).nan() by {
        assert(value(ends.0) <= value(centroids[i]) <= value(centroids[i]) <= value(ends.1));
    }
    assert forall|i: int, j: int| 0 <= i <= j < codebook.0.len() implies (Float32 {
        bits: MINUS_ONE_BITS,
    }).units() <= (#[trigger] codebook.0[i]).units() <= (#[trigger] codebook.0[j]).units() <= (
    Float32 { bits: ONE_BITS }).units() by {
        assert(value(ends.0) <= value(centroids[i]) <= value(centroids[j]) <= value(ends.1));
    }
    assert forall|i: int, j: int| 0 <= i <= j < codebook.1.len() implies {
        &&& !(#[trigger] codebook.1[i]).nan()
        &&& codebook.1[i].units() <= (#[trigger] codebook.1[j]).units()
    } by {
        assert(value(ends.0) <= value(boundaries[i]) <= value(boundaries[j]) <= value(ends.1));
    }
    assert(call_ensures(narrow, (boundaries[0],), codebook.1[0]));
    assert(call_ensures(narrow, (boundaries[k as int],), codebook.1[k as int]));
    assert forall|i: int| 0 <= i < codebook.0.len() implies codebook.1[i].units() <= (
    #[trigger] codebook.0[i]).units() <= codebook.1[i + 1].units() by {
        assert(value(ends.0) <= value(boundaries[i]) <= value(boundaries[i + 1]) <= value(ends.1));
        assert(value(boundaries[i]) <= value(centroids[i]) <= value(boundaries[i + 1]));
        assert(call_ensures(narrow, (centroids[i],), codebook.0[i]));
        assert(call_ensures(narrow, (boundaries[i],), codebook.1[i]));
        assert(call_ensures(narrow, (boundaries[i + 1],), codebook.1[i + 1]));
    }
    lemma_pow2_adds(126, 2);
    lemma_pow2_adds(128, 1);
    lemma2_to64();
    law_lloyd_boundaries_are_near_midpoints(
        quantile,
        midpoint,
        mean,
        settled,
        narrow,
        value,
        pow2(128) as int as real,
        pow2(126) as int as real,
        halfway_slack(),
        k,
        dim,
        ends,
        codebook,
    );
}

// --- Symmetry in Lloyd's iteration ---

/// Whether the numbers read backwards are their mirror images.
pub open spec fn mirrored<W>(mirror: spec_fn(W) -> W, numbers: Seq<W>) -> bool {
    forall|i: int|
        0 <= i < numbers.len() ==> numbers[numbers.len() - 1 - i] == mirror(#[trigger] numbers[i])
}

/// Whether the midpoint of mirror images is the mirror image of the midpoint.
pub open spec fn midpoints_mirror<W, M: Fn(W, W) -> W>(
    midpoint: M,
    mirror: spec_fn(W) -> W,
) -> bool {
    forall|a: W, b: W, r: W, s: W| #[trigger]
        call_ensures(midpoint, (a, b), r) && #[trigger] call_ensures(
            midpoint,
            (mirror(b), mirror(a)),
            s,
        ) ==> s == mirror(r)
}

/// Whether the mean of a cell's mirror image is the mirror image of the mean.
pub open spec fn means_mirror<W>(
    mean: spec_fn(W, W, usize, W) -> bool,
    dim: usize,
    mirror: spec_fn(W) -> W,
) -> bool {
    forall|a: W, b: W, r: W, s: W| #[trigger]
        mean(a, b, dim, r) && #[trigger] mean(mirror(b), mirror(a), dim, s,
        ) ==> s == mirror(r)
}

proof fn lemma_boundaries_mirror<W, M: Fn(W, W) -> W>(
    midpoint: M,
    mirror: spec_fn(W) -> W,
    ends: (W, W),
    centroids: Seq<W>,
    boundaries: Seq<W>,
)
    requires
        centroids.len() >= 1,
        ends.1 == mirror(ends.0),
        ends.0 == mirror(ends.1),
        midpoints_mirror(midpoint, mirror),
        mirrored(mirror, centroids),
        voronoi(midpoint, ends, centroids, boundaries),
    ensures
        mirrored(mirror, boundaries),
{
    let k = centroids.len() as int;
    assert forall|i: int| 0 <= i < boundaries.len() implies boundaries[boundaries.len() - 1 - i]
        == mirror(#[trigger] boundaries[i]) by {
        if 1 <= i < k {
            assert(centroids[k - 1 - i] == mirror(centroids[i]));
            assert(centroids[k - 1 - (i - 1)] == mirror(centroids[i - 1]));
            assert(call_ensures(midpoint, (centroids[i - 1], centroids[i]), boundaries[i]));
            assert(call_ensures(
                midpoint,
                (centroids[k - i - 1], centroids[k - i]),
                boundaries[k - i],
            ));
        }
    }
}

proof fn lemma_history_mirrors<
    W,
    M: Fn(W, W) -> W,
>(
    midpoint: M,
    mean: spec_fn(W, W, usize, W) -> bool,
    settled: spec_fn(Seq<W>, Seq<W>, bool) -> bool,
    mirror: spec_fn(W) -> W,
    dim: usize,
    ends: (W, W),
    history: Seq<Seq<W>>,
    t: int,
)
    requires
        0 <= t < history.len(),
        history[0].len() >= 1,
        ends.1 == mirror(ends.0),
        ends.0 == mirror(ends.1),
        midpoints_mirror(midpoint, mirror),
        means_mirror(mean, dim, mirror),
        mirrored(mirror, history[0]),
        lloyd_steps(midpoint, mean, settled, dim, ends, history),
    ensures
        mirrored(mirror, history[t]),
        history[t].len() == history[0].len(),
    decreases t,
{
    if t > 0 {
        lemma_history_mirrors(midpoint, mean, settled, mirror, dim, ends, history, t - 1);
        assert(lloyd_step_to(midpoint, mean, dim, ends, history, t));
        let before = history[t - 1];
        let after = history[t];
        let boundaries = lemma_step_cells(midpoint, mean, dim, ends, before, after);
        lemma_boundaries_mirror(midpoint, mirror, ends, before, boundaries);
        let k = after.len() as int;
        assert forall|i: int| 0 <= i < after.len() implies after[after.len() - 1 - i] == mirror(
            #[trigger] after[i],
        ) by {
            assert(boundaries[k - i] == mirror(boundaries[i]));
            assert(boundaries[k - (i + 1)] == mirror(boundaries[i + 1]));
            assert(mean(boundaries[k - 1 - i], boundaries[k - 1 - i + 1], dim, after[k - 1 - i],
            ));
        }
    }
}

/// Where the arithmetic is symmetric around zero, so is the codebook: the centroids read backwards
/// are their negatives.
pub proof fn law_symmetric_arithmetic_gives_symmetric_centroids<
    W,
    M: Fn(W, W) -> W,
    N: Fn(W) -> Float32,
>(
    quantile: spec_fn(usize, usize, usize, W) -> bool,
    midpoint: M,
    mean: spec_fn(W, W, usize, W) -> bool,
    settled: spec_fn(Seq<W>, Seq<W>, bool) -> bool,
    narrow: N,
    mirror: spec_fn(W) -> W,
    k: usize,
    dim: usize,
    ends: (W, W),
    codebook: CodebookView,
)
    requires
        k >= 1,
        ends.1 == mirror(ends.0),
        ends.0 == mirror(ends.1),
        forall|i: usize, j: usize, x: W, y: W|
            i + j == k - 1 && #[trigger] quantile(i, k, dim, x)
                && #[trigger] quantile(j, k, dim, y) ==> y == mirror(x),
        midpoints_mirror(midpoint, mirror),
        means_mirror(mean, dim, mirror),
        forall|a: W, x: Float32, y: Float32| #[trigger]
            call_ensures(narrow, (a,), x) && #[trigger] call_ensures(narrow, (mirror(a),), y)
                ==> y.units() == -x.units(),
        lloyd_codebook(quantile, midpoint, mean, settled, narrow, k, dim, ends, codebook),
    ensures
        codebook.0.len() == k,
        forall|i: int|
            0 <= i < k ==> codebook.0[k - 1 - i].units() == -(#[trigger] codebook.0[i]).units(),
{
    let (history, boundaries) = lemma_lloyd_parts(
        quantile,
        midpoint,
        mean,
        settled,
        narrow,
        k,
        dim,
        ends,
        codebook,
    );
    let start = history[0];
    assert forall|i: int| 0 <= i < start.len() implies start[start.len() - 1 - i] == mirror(
        #[trigger] start[i],
    ) by {
        assert(quantile(i as usize, k, dim, start[i]));
        assert(quantile((k - 1 - i) as usize, k, dim, start[k - 1 - i]));
    }
    lemma_history_mirrors(
        midpoint,
        mean,
        settled,
        mirror,
        dim,
        ends,
        history,
        history.len() - 1,
    );
    let centroids = history.last();
    assert forall|i: int| 0 <= i < k implies codebook.0[k - 1 - i].units() == -(
    #[trigger] codebook.0[i]).units() by {
        assert(centroids[k - 1 - i] == mirror(centroids[i]));
        assert(call_ensures(narrow, (centroids[i],), codebook.0[i]));
        assert(call_ensures(narrow, (centroids[k - 1 - i],), codebook.0[k - 1 - i]));
    }
}

/// There is a codebook for every dimension from three on and every width from one to eight bits. A
/// smaller dimension is refused whatever the width, and otherwise any other width.
pub proof fn law_parameters_with_a_codebook(dim: usize, num_bits: u32)
    ensures
        valid_parameters(dim, num_bits) <==> dim >= 3 && (num_bits == 1 || num_bits == 2 || num_bits
            == 3 || num_bits == 4 || num_bits == 5 || num_bits == 6 || num_bits == 7 || num_bits
            == 8),
        dim < 3 ==> parameter_error(dim, num_bits) == (TurboError::Dimension { dim }),
        dim >= 3 ==> parameter_error(dim, num_bits) == (TurboError::NumBits { num_bits }),
{
}

/// A request is answered from the cache where the codebook for its dimension and its width is
/// there, and else with what `compute` gives for just these, which is in the cache from then on.
pub proof fn law_request_is_for_its_parameters<
    F: Fn(usize, u32) -> (Vec<Float32>, Vec<Float32>),
>(
    compute: F,
    dim: usize,
    num_bits: u32,
    before: Map<(usize, u32), CodebookView>,
    after: Map<(usize, u32), CodebookView>,
    r: Result<CodebookView, TurboError>,
)
    requires
        codebook_request(compute, dim, num_bits, before, after, r),
    ensures
        r is Ok <==> dim >= 3 && 1 <= num_bits <= 8,
        r is Err ==> after == before && r->Err_0 == if dim < 3 {
            TurboError::Dimension { dim }
        } else {
            TurboError::NumBits { num_bits }
        },
        r is Ok && before.contains_key((dim, num_bits)) ==> r->Ok_0 == before[(dim, num_bits)]
            && after == before,
        r is Ok && !before.contains_key((dim, num_bits)) ==> exists|
            c: (Vec<Float32>, Vec<Float32>),
        | #[trigger]
            call_ensures(compute, (dim, num_bits), c) && r->Ok_0 == (c.0@, c.1@),
        r is Ok ==> after.contains_key((dim, num_bits)) && after[(dim, num_bits)] == r->Ok_0,
        forall|key: (usize, u32)|
            key != (dim, num_bits) ==> (#[trigger] after.contains_key(key) <==> before.contains_key(
                key,
            )) && (before.contains_key(key) ==> after[key] == before[key]),
{
}

/// A codebook has `2^b` centroids and a boundary at either side of each, runs from -1 to 1 in
/// ascending order, each centroid between its boundaries, and each inner boundary lies halfway
/// between the centroids at its sides, up to a millionth.
pub proof fn law_codebook_runs_from_end_to_end(codebook: CodebookView, num_bits: u32, i: int)
    requires
        valid_codebook(codebook, num_bits),
        0 <= i < codebook.0.len(),
    ensures
        codebook.0.len() == pow2(num_bits as nat),
        codebook.1.len() == codebook.0.len() + 1,
        codebook.1[0].bits == 0xBF80_0000,
        codebook.1[codebook.0.len() as int].bits == 0x3F80_0000,
        !codebook.0[i].nan(),
        codebook.1[i].units() <= codebook.0[i].units() <= codebook.1[i + 1].units(),
        -pow2(149) <= codebook.0[i].units() <= pow2(149),
        i > 0 ==> {
            let twice = 2 * codebook.1[i].units();
            let both = codebook.0[i - 1].units() + codebook.0[i].units();
            &&& codebook.0[i - 1].units() <= codebook.0[i].units()
            &&& !codebook.1[i].nan()
            &&& 1_000_000 * (twice - both) < pow2(149)
            &&& 1_000_000 * (both - twice) < pow2(149)
        },
{
    law_named_numbers();
    lemma_pow2_adds(129, 20);
    lemma2_to64();
    lemma_pow2_strictly_increases(0, 129);
    assert(codebook.1[0] == codebook.1.first());
    assert(codebook.1[codebook.0.len() as int] == codebook.1.last());
    assert(codebook.0[i].units() <= codebook.0[i].units());
    if i > 0 {
        assert(codebook.0[i - 1].units() <= codebook.0[i].units());
        assert(is_midpoint(codebook.0[i - 1], codebook.1[i], codebook.0[i], halfway_slack()));
    }
}

} // verus!
