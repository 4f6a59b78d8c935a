//! The log-linear histogram that `Histogram` responses carry, kept in the
//! `histogram` crate's own type behind trusted wrappers. The library speaks
//! of a histogram through two names: the parameters it was built with and the
//! sequence of its per-bucket counters. Bucket boundaries follow from the
//! parameters alone; the spec functions below state the crate's formulas.

use vstd::arithmetic::power2::lemma2_to64;
use vstd::arithmetic::power2::pow2;
use vstd::prelude::*;

verus! {

/// Grouping power of every histogram in the tree: each power of two is split
/// into `2^8` buckets.
pub const HIST_GROUPING: u8 = 8;

/// Largest storable value power: any `u64` can be recorded.
pub const HIST_MAX_VALUE_POW: u8 = 64;

/// Number of buckets a histogram with the tree's parameters has.
pub const HIST_BUCKETS: usize = 14592;

#[verifier::external_type_specification]
#[verifier::external_body]
pub struct ExHistogram(histogram::Histogram);

#[verifier::external_type_specification]
#[verifier::external_body]
pub struct ExHistogramError(histogram::Error);

/// The parameters (grouping power, max value power) a histogram was built
/// with.
pub uninterp spec fn hist_config(h: histogram::Histogram) -> (u8, u8);

/// The per-bucket counters of a histogram, in index order.
pub uninterp spec fn hist_counts(h: histogram::Histogram) -> Seq<u64>;

/// How many buckets a valid configuration allocates: one bucket per value
/// below the cutoff `2^(g+1)`, then `2^g` buckets for each of the remaining
/// `m - g - 1` powers of two.
pub open spec fn spec_total_buckets(g: nat, m: nat) -> nat {
    (pow2((g + 1) as nat) + (m - g - 1) * pow2(g)) as nat
}

/// The largest value a configuration can store.
pub open spec fn spec_hist_max(m: nat) -> nat {
    if m == 64 {
        u64::MAX as nat
    } else {
        (pow2(m) - 1) as nat
    }
}

/// Inclusive lower bound of bucket `i` under grouping power `g`.
pub open spec fn spec_bucket_low(g: nat, i: nat) -> nat {
    let grp = i / pow2(g);
    let off = i % pow2(g);
    if grp < 1 {
        off
    } else {
        pow2((g + grp - 1) as nat) + pow2((grp - 1) as nat) * off
    }
}

/// Inclusive upper bound of bucket `i` under grouping power `g` and max
/// value power `m`: the last bucket tops out at the largest storable value.
pub open spec fn spec_bucket_high(g: nat, m: nat, i: nat) -> nat {
    if i + 1 == spec_total_buckets(g, m) {
        spec_hist_max(m)
    } else {
        let grp = i / pow2(g);
        let off = i % pow2(g) + 1;
        if grp < 1 {
            (off - 1) as nat
        } else {
            (pow2((g + grp - 1) as nat) + pow2((grp - 1) as nat) * off - 1) as nat
        }
    }
}

/// The tree's parameters allocate exactly `HIST_BUCKETS` buckets.
pub proof fn lemma_hist_buckets_value()
    ensures
        spec_total_buckets(HIST_GROUPING as nat, HIST_MAX_VALUE_POW as nat) == HIST_BUCKETS,
{
    lemma2_to64();
    assert(pow2(9) == 512 && pow2(8) == 256);
    assert(spec_total_buckets(8, 64) == (512 + 55 * 256) as nat);
}

/// Relies on `histogram::Histogram::new` at the tree's parameters: it
/// accepts them and allocates that configuration's buckets, all zero. The
/// crate's bucket arithmetic overflows at large grouping powers, so nothing
/// is claimed of other parameters and the `requires` keeps them out.
#[verifier::external_body]
pub(crate) fn hist_new(grouping: u8, max_pow: u8) -> (r: Result<histogram::Histogram, histogram::Error>)
    requires
        grouping == HIST_GROUPING,
        max_pow == HIST_MAX_VALUE_POW,
    ensures
        r is Ok,
        r matches Ok(h) ==> hist_config(h) == (grouping, max_pow) && hist_counts(h).len()
            == spec_total_buckets(grouping as nat, max_pow as nat) && forall|i: int|
            0 <= i < hist_counts(h).len() ==> hist_counts(h)[i] == 0u64,
{
    histogram::Histogram::new(grouping, max_pow)
}

/// One observation of `value` was recorded: the counter of a bucket whose
/// range holds the value grew by one, wrapping, and nothing else moved.
pub open spec fn incremented(g: nat, m: nat, pre: Seq<u64>, post: Seq<u64>, value: u64) -> bool {
    exists|i: int|
        {
            &&& 0 <= i < pre.len()
            &&& #[trigger] spec_bucket_low(g, i as nat) <= value as nat
            &&& value as nat <= spec_bucket_high(g, m, i as nat)
            &&& post == pre.update(i, (pre[i] + 1) as u64)
        }
}

/// Relies on `histogram::Histogram::increment`: it accepts exactly the
/// storable values and adds one, wrapping, to the counter of the bucket
/// whose range holds the value; bounds and parameters do not move.
#[verifier::external_body]
pub(crate) fn hist_increment(h: &mut histogram::Histogram, value: u64) -> (r: Result<
    (),
    histogram::Error,
>)
    ensures
        hist_config(*final(h)) == hist_config(*old(h)),
        hist_counts(*final(h)).len() == hist_counts(*old(h)).len(),
        r is Ok <==> value as nat <= spec_hist_max(hist_config(*old(h)).1 as nat),
        r is Ok ==> incremented(
            hist_config(*old(h)).0 as nat,
            hist_config(*old(h)).1 as nat,
            hist_counts(*old(h)),
            hist_counts(*final(h)),
            value,
        ),
        r is Err ==> hist_counts(*final(h)) == hist_counts(*old(h)),
{
    h.increment(value)
}

/// Relies on `histogram::Histogram::wrapping_add`: it accepts exactly
/// parameter-equal operands and adds the counters bucket by bucket with
/// wrapping overflow.
#[verifier::external_body]
pub(crate) fn hist_wrapping_add(a: &histogram::Histogram, b: &histogram::Histogram) -> (r: Result<
    histogram::Histogram,
    histogram::Error,
>)
    ensures
        r is Ok <==> hist_config(*a) == hist_config(*b),
        r matches Ok(h) ==> hist_config(h) == hist_config(*a) && (hist_counts(*a).len()
            == hist_counts(*b).len() ==> hist_counts(h) == Seq::new(
            hist_counts(*a).len(),
            |i: int| (hist_counts(*a)[i] + hist_counts(*b)[i]) as u64,
        )),
{
    a.wrapping_add(b)
}

/// Relies on `histogram::Histogram::as_slice`: the raw counters, in index
/// order.
#[verifier::external_body]
pub(crate) fn hist_as_vec(h: &histogram::Histogram) -> (r: Vec<u64>)
    ensures
        r@ == hist_counts(*h),
{
    h.as_slice().to_vec()
}

/// Relies on `histogram::Histogram::from_buckets` at the tree's parameters:
/// it accepts exactly one counter per bucket and builds the histogram
/// holding those counters. The crate's bucket arithmetic overflows at large
/// grouping powers, so nothing is claimed of other parameters and the
/// `requires` keeps them out.
#[verifier::external_body]
pub(crate) fn hist_from_buckets(grouping: u8, max_pow: u8, counts: &Vec<u64>) -> (r: Result<
    histogram::Histogram,
    histogram::Error,
>)
    requires
        grouping == HIST_GROUPING,
        max_pow == HIST_MAX_VALUE_POW,
    ensures
        r is Ok <==> counts@.len() == spec_total_buckets(grouping as nat, max_pow as nat),
        r matches Ok(h) ==> hist_config(h) == (grouping, max_pow) && hist_counts(h) == counts@,
{
    histogram::Histogram::from_buckets(grouping, max_pow, counts.clone())
}

/// Relies on `histogram::Histogram::iter` and the accessors of
/// `histogram::Bucket`: one (lower bound, upper bound, counter) triple per
/// bucket, in index order, with the bounds the configuration's formulas
/// give.
#[verifier::external_body]
pub(crate) fn hist_triples(h: &histogram::Histogram) -> (r: Vec<(u64, u64, u64)>)
    ensures
        r@.len() == hist_counts(*h).len(),
        forall|i: int|
            0 <= i < r@.len() ==> #[trigger] r@[i] == (
                spec_bucket_low(hist_config(*h).0 as nat, i as nat) as u64,
                spec_bucket_high(hist_config(*h).0 as nat, hist_config(*h).1 as nat, i as nat)
                    as u64,
                hist_counts(*h)[i],
            ),
{
    h.iter().map(|b| (b.start(), b.end(), b.count())).collect()
}

/// The triples of the buckets that hold at least one observation, in index
/// order.
pub open spec fn spec_nonzero_triples(g: nat, m: nat, counts: Seq<u64>) -> Seq<(u64, u64, u64)> {
    Seq::new(
        counts.len(),
        |i: int|
            (
                spec_bucket_low(g, i as nat) as u64,
                spec_bucket_high(g, m, i as nat) as u64,
                counts[i],
            ),
    ).filter(|t: (u64, u64, u64)| t.2 != 0u64)
}

/// Keeps the buckets that hold at least one observation: what a human-facing
/// rendering of a histogram shows.
pub(crate) fn nonzero_triples(h: &histogram::Histogram) -> (r: Vec<(u64, u64, u64)>)
    ensures
        r@ == spec_nonzero_triples(
            hist_config(*h).0 as nat,
            hist_config(*h).1 as nat,
            hist_counts(*h),
        ),
{
    let ghost g = hist_config(*h).0 as nat;
    let ghost m = hist_config(*h).1 as nat;
    let ghost all = Seq::new(
        hist_counts(*h).len(),
        |i: int| (spec_bucket_low(g, i as nat) as u64, spec_bucket_high(g, m, i as nat) as u64, hist_counts(*h)[i]),
    );
    let triples = hist_triples(h);
    assert(triples@ =~= all);
    let n = triples.len();
    let mut r: Vec<(u64, u64, u64)> = Vec::new();
    let mut i: usize = 0;
    while i < n
        invariant
            i <= n,
            n == triples@.len(),
            triples@ == all,
            r@ == all.take(i as int).filter(|t: (u64, u64, u64)| t.2 != 0u64),
        decreases n - i,
    {
        let t = triples[i];
        proof {
            reveal_with_fuel(Seq::filter, 2);
            assert(all.take(i + 1).drop_last() =~= all.take(i as int));
            assert(all.take(i + 1).last() == t);
        }
        if t.2 != 0 {
            r.push(t);
        }
        i = i + 1;
    }
    proof {
        assert(all.take(n as int) =~= all);
    }
    r
}

/// Renders the counters an aggregated histogram response carries as the
/// nonempty buckets with their value ranges, in index order. Refused when
/// the counters do not match the tree's bucket layout.
pub fn buckets_from_counts(counts: &Vec<u64>) -> (r: Result<
    Vec<(u64, u64, u64)>,
    crate::errors::TbonError,
>)
    ensures
        r is Ok <==> counts@.len() == HIST_BUCKETS,
        r matches Ok(buckets) ==> buckets@ == spec_nonzero_triples(
            HIST_GROUPING as nat,
            HIST_MAX_VALUE_POW as nat,
            counts@,
        ),
        r matches Err(e) ==> e is BadResponse,
{
    proof {
        lemma_hist_buckets_value();
    }
    if counts.len() != HIST_BUCKETS {
        return Err(
            crate::errors::TbonError::BadResponse(
                String::from_str("Histogram bucket count mismatch"),
            ),
        );
    }
    let h = match hist_from_buckets(HIST_GROUPING, HIST_MAX_VALUE_POW, counts) {
        Ok(h) => h,
        Err(_) => {
            proof {
                assert(false);
            }
            return Err(
                crate::errors::TbonError::BadResponse(String::from_str("Histogram setup failed")),
            );
        },
    };
    Ok(nonzero_triples(&h))
}

} // verus!
