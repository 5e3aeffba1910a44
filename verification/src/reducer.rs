use vstd::prelude::*;

verus! {

/// Number of lanes that the chunked reduction adds up side by side.
pub const LANES: usize = 16;

/// Integer division that rounds toward zero, for a positive divisor.
pub open spec fn trunc_div(a: int, b: int) -> int
    recommends
        b > 0,
{
    if a >= 0 {
        a / b
    } else {
        -((-a) / b)
    }
}

/// The exact sum of a run of values: what a scalar fold from the left yields.
pub open spec fn sum_of(values: Seq<i16>) -> int
    decreases values.len(),
{
    if values.len() == 0 {
        0
    } else {
        sum_of(values.drop_last()) + values.last()
    }
}

/// The mean of `count` values with the sum `sum`, rounded toward zero. Where
/// there is no value nothing is divided, and the mean is 0.
pub open spec fn mean_from(sum: int, count: int) -> int {
    if count == 0 {
        0
    } else {
        trunc_div(sum, count)
    }
}

/// The mean of a run of values, rounded toward zero; 0 for an empty run.
pub open spec fn mean_of(values: Seq<i16>) -> int {
    mean_from(sum_of(values), values.len() as int)
}

/// What lane `lane` of the accumulator holds once the first `chunks` full
/// chunks have been added to it element by element.
pub open spec fn lane_acc(values: Seq<i16>, lane: int, chunks: nat) -> int
    decreases chunks,
{
    if chunks == 0 {
        0
    } else {
        lane_acc(values, lane, (chunks - 1) as nat) + values[(chunks - 1) * LANES + lane]
    }
}

/// The sum over the first `lanes` lanes of the accumulator after `chunks`
/// full chunks.
pub open spec fn horizontal_sum(values: Seq<i16>, chunks: nat, lanes: nat) -> int
    decreases lanes,
{
    if lanes == 0 {
        0
    } else {
        horizontal_sum(values, chunks, (lanes - 1) as nat) + lane_acc(
            values,
            lanes - 1,
            chunks,
        )
    }
}

/// The sum as the chunked reduction forms it: all lanes of the accumulator
/// after every full chunk, plus the scalar sum of the remainder.
pub open spec fn vector_sum(values: Seq<i16>) -> int {
    let chunks = values.len() / (LANES as nat);
    horizontal_sum(values, chunks, LANES as nat) + sum_of(values.skip(chunks * LANES))
}

/// A sum of `n` values lies between `n` times the least and `n` times the
/// greatest value of the type.
pub proof fn lemma_sum_of_bounds(values: Seq<i16>)
    ensures
        i16::MIN * values.len() <= sum_of(values) <= i16::MAX * values.len(),
    decreases values.len(),
{
    if values.len() > 0 {
        lemma_sum_of_bounds(values.drop_last());
    }
}

/// The sum of a concatenation is the sum of the sums.
pub proof fn lemma_sum_of_concat(a: Seq<i16>, b: Seq<i16>)
    ensures
        sum_of(a + b) == sum_of(a) + sum_of(b),
    decreases b.len(),
{
    if b.len() > 0 {
        assert((a + b).drop_last() =~= a + b.drop_last());
        lemma_sum_of_concat(a, b.drop_last());
    }
}

/// Extending a prefix by one element adds that element to the sum.
pub proof fn lemma_sum_of_take_next(values: Seq<i16>, i: int)
    requires
        0 <= i < values.len(),
    ensures
        sum_of(values.take(i + 1)) == sum_of(values.take(i)) + values[i],
{
    assert(values.take(i + 1).drop_last() =~= values.take(i));
}

/// A quotient rounded toward zero stays between two bounds on the mean.
pub proof fn lemma_trunc_div_between(sum: int, count: int, lo: int, hi: int)
    requires
        count > 0,
        count * lo <= sum <= count * hi,
    ensures
        lo <= trunc_div(sum, count) <= hi,
{
    if sum >= 0 {
        let q = sum / count;
        assert(q * count <= sum < (q + 1) * count && q >= 0) by (nonlinear_arith)
            requires
                q == sum / count,
                count > 0,
                sum >= 0,
        ;
        assert(q <= hi) by (nonlinear_arith)
            requires
                q * count <= sum,
                sum <= count * hi,
                count > 0,
        ;
        assert(lo <= q) by (nonlinear_arith)
            requires
                count * lo <= sum,
                sum < (q + 1) * count,
                count > 0,
        ;
    } else {
        let q = (-sum) / count;
        assert(q * count <= -sum < (q + 1) * count && q >= 0) by (nonlinear_arith)
            requires
                q == (-sum) / count,
                count > 0,
                sum < 0,
        ;
        assert(-q <= hi) by (nonlinear_arith)
            requires
                -sum < (q + 1) * count,
                sum <= count * hi,
                count > 0,
        ;
        assert(lo <= -q) by (nonlinear_arith)
            requires
                count * lo <= sum,
                q * count <= -sum,
                count > 0,
        ;
    }
}

/// Each lane of the accumulator stays within what its count of values allows.
pub proof fn lemma_lane_acc_bounds(values: Seq<i16>, lane: int, chunks: nat)
    ensures
        i16::MIN * chunks <= lane_acc(values, lane, chunks) <= i16::MAX * chunks,
    decreases chunks,
{
    if chunks > 0 {
        lemma_lane_acc_bounds(values, lane, (chunks - 1) as nat);
    }
}

/// Adding one more full chunk to the first `lanes` lanes adds the sum of the
/// first `lanes` values of that chunk.
proof fn lemma_horizontal_sum_next_chunk(values: Seq<i16>, chunks: nat, lanes: nat)
    requires
        lanes <= LANES,
        (chunks + 1) * LANES <= values.len(),
    ensures
        horizontal_sum(values, chunks + 1, lanes) == horizontal_sum(values, chunks, lanes)
            + sum_of(values.subrange(chunks * LANES, chunks * LANES + lanes)),
    decreases lanes,
{
    let start = chunks * LANES;
    if lanes > 0 {
        let fewer = (lanes - 1) as nat;
        lemma_horizontal_sum_next_chunk(values, chunks, fewer);
        assert(values.subrange(start, start + lanes).drop_last() =~= values.subrange(
            start,
            start + fewer,
        ));
    }
}

/// All lanes together hold the sum of the values in the full chunks.
proof fn lemma_horizontal_sum_is_prefix_sum(values: Seq<i16>, chunks: nat)
    requires
        chunks * LANES <= values.len(),
    ensures
        horizontal_sum(values, chunks, LANES as nat) == sum_of(values.take(chunks * LANES)),
    decreases chunks,
{
    if chunks == 0 {
        lemma_horizontal_sum_of_no_chunk(values, LANES as nat);
    } else {
        let fewer = (chunks - 1) as nat;
        lemma_horizontal_sum_is_prefix_sum(values, fewer);
        lemma_horizontal_sum_next_chunk(values, fewer, LANES as nat);
        let head = values.take(fewer * LANES);
        let chunk = values.subrange(fewer * LANES, fewer * LANES + LANES);
        lemma_sum_of_concat(head, chunk);
        assert(head + chunk =~= values.take(chunks * LANES));
    }
}

/// Before any chunk is added, every lane holds zero.
proof fn lemma_horizontal_sum_of_no_chunk(values: Seq<i16>, lanes: nat)
    ensures
        horizontal_sum(values, 0, lanes) == 0,
    decreases lanes,
{
    if lanes > 0 {
        lemma_horizontal_sum_of_no_chunk(values, (lanes - 1) as nat);
    }
}

/// The chunked reduction and the scalar fold yield the same sum, for every
/// run of values: whatever its length is, a multiple of the lane count or not.
pub proof fn lemma_vector_sum_is_scalar_sum(values: Seq<i16>)
    ensures
        vector_sum(values) == sum_of(values),
{
    let chunks = values.len() / (LANES as nat);
    lemma_horizontal_sum_is_prefix_sum(values, chunks);
    lemma_sum_of_concat(values.take(chunks * LANES), values.skip(chunks * LANES));
    assert(values.take(chunks * LANES) + values.skip(chunks * LANES) =~= values);
}

/// The scalar fold: the sum of the values and their number.
pub fn reduce_scalar(values: &[i16]) -> (r: (i128, usize))
    ensures
        r.0 == sum_of(values@),
        r.1 == values@.len(),
{
    let mut sum: i128 = 0;
    let mut count: usize = 0;
    while count < values.len()
        invariant
            count <= values@.len(),
            sum == sum_of(values@.take(count as int)),
        decreases values@.len() - count,
    {
        proof {
            lemma_sum_of_take_next(values@, count as int);
            lemma_sum_of_bounds(values@.take(count as int));
        }
        sum = sum + values[count] as i128;
        count = count + 1;
    }
    assert(values@.take(count as int) =~= values@);
    (sum, count)
}

/// Adds the full chunk with index `chunk` to the accumulator, lane by lane.
fn add_chunk(acc: &mut [i128; LANES], values: &[i16], chunk: usize)
    requires
        (chunk + 1) * LANES <= values.len(),
        forall|lane: int|
            0 <= lane < LANES ==> old(acc)[lane] == lane_acc(values@, lane, chunk as nat),
    ensures
        forall|lane: int|
            0 <= lane < LANES ==> final(acc)[lane] == lane_acc(
                values@,
                lane,
                (chunk + 1) as nat,
            ),
{
    let base = chunk * LANES;
    let mut lane: usize = 0;
    while lane < LANES
        invariant
            lane <= LANES,
            base == chunk * LANES,
            base + LANES <= values.len(),
            forall|j: int|
                0 <= j < lane ==> acc[j] == lane_acc(values@, j, (chunk + 1) as nat),
            forall|j: int| lane <= j < LANES ==> acc[j] == lane_acc(values@, j, chunk as nat),
        decreases LANES - lane,
    {
        proof {
            lemma_lane_acc_bounds(values@, lane as int, chunk as nat);
        }
        acc[lane] = acc[lane] + values[base + lane] as i128;
        lane = lane + 1;
    }
}

/// The chunked reduction: full chunks of `LANES` values are added element by
/// element into an accumulator of `LANES` lanes, the lanes are summed, and the
/// remainder is added by a scalar fold. The count is kept beside the sum.
///
/// It returns what `reduce_scalar` returns on the same values.
pub fn reduce_lanes(values: &[i16]) -> (r: (i128, usize))
    ensures
        r.0 == vector_sum(values@),
        r.0 == sum_of(values@),
        r.1 == values@.len(),
{
    let chunks = values.len() / LANES;
    let mut acc: [i128; LANES] = [0i128; LANES];
    let mut count: usize = 0;
    let mut chunk: usize = 0;
    while chunk < chunks
        invariant
            chunk <= chunks,
            chunks * LANES <= values.len(),
            count == chunk * LANES,
            forall|lane: int|
                0 <= lane < LANES ==> acc[lane] == lane_acc(values@, lane, chunk as nat),
        decreases chunks - chunk,
    {
        add_chunk(&mut acc, values, chunk);
        count = count + LANES;
        chunk = chunk + 1;
    }
    let mut sum: i128 = 0;
    let mut lane: usize = 0;
    while lane < LANES
        invariant
            lane <= LANES,
            sum == horizontal_sum(values@, chunks as nat, lane as nat),
            -0x8000_0000_0000_0000_0000 * lane <= sum <= 0x8000_0000_0000_0000_0000 * lane,
            forall|j: int| 0 <= j < LANES ==> acc[j] == lane_acc(values@, j, chunks as nat),
        decreases LANES - lane,
    {
        proof {
            lemma_lane_acc_bounds(values@, lane as int, chunks as nat);
        }
        sum = sum + acc[lane];
        lane = lane + 1;
    }
    let remainder = &values[count..values.len()];
    let (rest, rest_count) = reduce_scalar(remainder);
    proof {
        lemma_vector_sum_is_scalar_sum(values@);
        lemma_sum_of_bounds(remainder@);
    }
    (sum + rest, count + rest_count)
}

/// The mean of `count` values whose sum is `sum`, rounded toward zero; the
/// mean of no values is 0.
pub fn mean_toward_zero(sum: i128, count: u64) -> (mean: i16)
    requires
        i16::MIN * count <= sum <= i16::MAX * count,
    ensures
        mean == mean_from(sum as int, count as int),
{
    if count == 0 {
        0
    } else {
        proof {
            lemma_trunc_div_between(sum as int, count as int, i16::MIN as int, i16::MAX as int);
        }
        (sum / (count as i128)) as i16
    }
}

/// The mean of the values by a scalar fold, rounded toward zero; 0 where
/// there is no value.
pub fn get_average(slice: &[i16]) -> (mean: i16)
    ensures
        mean == mean_of(slice@),
{
    let (sum, count) = reduce_scalar(slice);
    proof {
        lemma_sum_of_bounds(slice@);
    }
    mean_toward_zero(sum, count as u64)
}

/// The mean of the values by the chunked reduction, rounded toward zero; 0
/// where there is no value. It returns what `get_average` returns.
pub fn get_average_simd(slice: &[i16]) -> (mean: i16)
    ensures
        mean == mean_of(slice@),
{
    let (sum, count) = reduce_lanes(slice);
    proof {
        lemma_sum_of_bounds(slice@);
    }
    mean_toward_zero(sum, count as u64)
}

} // verus!
