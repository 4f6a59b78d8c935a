//! The aggregation engine: what a node answers once its children have
//! answered. Every function here is pure in the node's own counters, the
//! node's host key and clock reading, and the responses its children sent;
//! the socket fan-out that gathers those responses lives outside the
//! library.

use crate::counters::map_of_entries;
use crate::counters::unique_keys;
use crate::counters::CounterStore;
use crate::errors::TbonError;
use crate::hist::hist_as_vec;
use crate::hist::hist_counts;
use crate::hist::hist_config;
use crate::hist::hist_from_buckets;
use crate::hist::hist_increment;
use crate::hist::hist_new;
use crate::hist::hist_wrapping_add;
use crate::hist::incremented;
use crate::hist::lemma_hist_buckets_value;
use crate::hist::spec_bucket_high;
use crate::hist::spec_bucket_low;
use crate::hist::spec_total_buckets;
use crate::hist::HIST_BUCKETS;
use crate::hist::HIST_GROUPING;
use crate::hist::HIST_MAX_VALUE_POW;
use crate::protocol::TbonQuery;
use crate::protocol::TbonResponse;
use crate::view::TreeView;
use vstd::arithmetic::div_mod::lemma_div_is_ordered;
use vstd::arithmetic::div_mod::lemma_div_multiples_vanish;
use vstd::prelude::*;

verus! {

// ---------------------------------------------------------------------------
// Screening: one failed child fails the whole aggregation.
// ---------------------------------------------------------------------------
/// Index of the first error response, or the length when none is one.
pub open spec fn spec_first_error(resps: Seq<TbonResponse>) -> int
    decreases resps.len(),
{
    if resps.len() == 0 {
        0
    } else if resps[0] is Error {
        0
    } else {
        1 + spec_first_error(resps.drop_first())
    }
}

/// Refuses a batch of child responses as soon as one of them is an error;
/// partial success is never exposed. The error carries the first failing
/// child's message.
pub fn screen_children(resps: Vec<TbonResponse>) -> (r: Result<Vec<TbonResponse>, TbonError>)
    ensures
        r is Ok <==> forall|i: int| 0 <= i < resps@.len() ==> !((#[trigger] resps@[i]) is Error),
        r matches Ok(kept) ==> kept == resps,
        r matches Err(e) ==> {
            let j = spec_first_error(resps@);
            &&& 0 <= j < resps@.len()
            &&& resps@[j] is Error
            &&& e matches TbonError::ChildFailed(m) && resps@[j] == TbonResponse::Error(m)
        },
{
    let n = resps.len();
    let mut i: usize = 0;
    while i < n
        invariant
            i <= n,
            n == resps@.len(),
            forall|j: int| 0 <= j < i ==> !((#[trigger] resps@[j]) is Error),
        decreases n - i,
    {
        match &resps[i] {
            TbonResponse::Error(m) => {
                proof {
                    lemma_first_error_found(resps@, i as int);
                }
                return Err(TbonError::ChildFailed(m.clone()));
            },
            _ => {},
        }
        i = i + 1;
    }
    Ok(resps)
}

/// The first-error index is never negative.
proof fn lemma_first_error_nonneg(resps: Seq<TbonResponse>)
    ensures
        spec_first_error(resps) >= 0,
    decreases resps.len(),
{
    if resps.len() > 0 && !(resps[0] is Error) {
        lemma_first_error_nonneg(resps.drop_first());
    }
}

/// When the scan stops on an error, that position is the first-error index.
proof fn lemma_first_error_found(resps: Seq<TbonResponse>, i: int)
    requires
        0 <= i < resps.len(),
        resps[i] is Error,
        forall|j: int| 0 <= j < i ==> !((#[trigger] resps[j]) is Error),
    ensures
        spec_first_error(resps) == i,
    decreases i,
{
    if i > 0 {
        assert forall|j: int| 0 <= j < i - 1 implies !((#[trigger] resps.drop_first()[j])
            is Error) by {
            assert(resps.drop_first()[j] == resps[j + 1]);
        }
        lemma_first_error_found(resps.drop_first(), i - 1);
    } else {
        lemma_first_error_nonneg(resps);
    }
}

// ---------------------------------------------------------------------------
// Count.
// ---------------------------------------------------------------------------
/// Sum of a batch of child counts.
pub open spec fn spec_sum_counts(s: Seq<u32>) -> int
    decreases s.len(),
{
    if s.len() == 0 {
        0
    } else {
        spec_sum_counts(s.drop_last()) + s.last()
    }
}

/// A prefix never sums to more than the whole: counts are unsigned.
proof fn lemma_sum_counts_take(s: Seq<u32>, i: int)
    requires
        0 <= i <= s.len(),
    ensures
        spec_sum_counts(s.take(i)) <= spec_sum_counts(s),
        spec_sum_counts(s) >= 0,
    decreases s.len(),
{
    if s.len() > 0 {
        lemma_sum_counts_take(s.drop_last(), if i < s.len() { i } else { i - 1 });
        if i < s.len() {
            assert(s.take(i) =~= s.drop_last().take(i));
        } else {
            assert(s.take(i) =~= s);
        }
    } else {
        assert(s.take(i) =~= s);
    }
}

/// Folds child counts: every child's count plus one for this node. Refused
/// only when the total overflows the wire's 32-bit count.
pub fn fold_count(parts: &Vec<u32>) -> (r: Option<u32>)
    ensures
        r is Some <==> 1 + spec_sum_counts(parts@) <= u32::MAX,
        r matches Some(total) ==> total == 1 + spec_sum_counts(parts@),
{
    let n = parts.len();
    let mut acc: u64 = 1;
    let mut i: usize = 0;
    while i < n
        invariant
            i <= n,
            n == parts@.len(),
            acc == 1 + spec_sum_counts(parts@.take(i as int)),
            acc <= u32::MAX,
        decreases n - i,
    {
        proof {
            assert(parts@.take(i + 1).drop_last() =~= parts@.take(i as int));
        }
        acc = acc + parts[i] as u64;
        if acc > u32::MAX as u64 {
            proof {
                lemma_sum_counts_take(parts@, i + 1);
            }
            return None;
        }
        i = i + 1;
    }
    proof {
        assert(parts@.take(n as int) =~= parts@);
    }
    Some(acc as u32)
}

// ---------------------------------------------------------------------------
// Extracting the payloads of a uniform batch of responses.
// ---------------------------------------------------------------------------
/// The counts of a batch of `Count` responses. Any other variant among them
/// is a protocol violation and refuses the batch.
pub fn count_parts(resps: &Vec<TbonResponse>) -> (r: Result<Vec<u32>, TbonError>)
    ensures
        r is Ok <==> forall|i: int| 0 <= i < resps@.len() ==> (#[trigger] resps@[i]) is Count,
        r matches Ok(parts) ==> parts@.len() == resps@.len() && forall|i: int|
            0 <= i < resps@.len() ==> resps@[i] == TbonResponse::Count(#[trigger] parts@[i]),
        r matches Err(e) ==> e matches TbonError::BadResponse(m) && m@
            == "Bad response type in count"@,
{
    let n = resps.len();
    let mut parts: Vec<u32> = Vec::new();
    let mut i: usize = 0;
    while i < n
        invariant
            i <= n,
            n == resps@.len(),
            parts@.len() == i,
            forall|j: int|
                0 <= j < i ==> resps@[j] == TbonResponse::Count(#[trigger] parts@[j]),
        decreases n - i,
    {
        match &resps[i] {
            TbonResponse::Count(c) => {
                parts.push(*c);
            },
            _ => {
                return Err(
                    TbonError::BadResponse(String::from_str("Bad response type in count")),
                );
            },
        }
        i = i + 1;
    }
    proof {
        assert forall|j: int| 0 <= j < resps@.len() implies (#[trigger] resps@[j]) is Count by {
            assert(resps@[j] == TbonResponse::Count(parts@[j]));
        }
    }
    Ok(parts)
}

/// The key sets of a batch of `ListKeys` responses.
pub fn keys_parts(resps: &Vec<TbonResponse>) -> (r: Result<Vec<Vec<String>>, TbonError>)
    ensures
        r is Ok <==> forall|i: int| 0 <= i < resps@.len() ==> (#[trigger] resps@[i]) is ListKeys,
        r matches Ok(parts) ==> parts@.len() == resps@.len() && forall|i: int|
            0 <= i < resps@.len() ==> ((#[trigger] resps@[i]) matches TbonResponse::ListKeys(ks)
                && views_of(parts@[i]@) == views_of(ks@)),
        r matches Err(e) ==> e matches TbonError::BadResponse(m) && m@
            == "Bad response type in listkeys"@,
{
    let n = resps.len();
    let mut parts: Vec<Vec<String>> = Vec::new();
    let mut i: usize = 0;
    while i < n
        invariant
            i <= n,
            n == resps@.len(),
            parts@.len() == i,
            forall|j: int|
                0 <= j < i ==> ((#[trigger] resps@[j]) matches TbonResponse::ListKeys(ks)
                    && views_of(parts@[j]@) == views_of(ks@)),
        decreases n - i,
    {
        match &resps[i] {
            TbonResponse::ListKeys(ks) => {
                parts.push(copy_strings(ks));
            },
            _ => {
                return Err(
                    TbonError::BadResponse(String::from_str("Bad response type in listkeys")),
                );
            },
        }
        i = i + 1;
    }
    Ok(parts)
}

/// The entry lists of a batch of `Values` responses.
pub fn values_parts(resps: &Vec<TbonResponse>) -> (r: Result<Vec<Vec<(String, u64)>>, TbonError>)
    ensures
        r is Ok <==> forall|i: int| 0 <= i < resps@.len() ==> (#[trigger] resps@[i]) is Values,
        r matches Ok(parts) ==> parts@.len() == resps@.len() && forall|i: int|
            0 <= i < resps@.len() ==> ((#[trigger] resps@[i]) matches TbonResponse::Values(es)
                && entry_views_of(parts@[i]@) == entry_views_of(es@)),
        r matches Err(e) ==> e matches TbonError::BadResponse(m) && m@
            == "Bad response type in values"@,
{
    let n = resps.len();
    let mut parts: Vec<Vec<(String, u64)>> = Vec::new();
    let mut i: usize = 0;
    while i < n
        invariant
            i <= n,
            n == resps@.len(),
            parts@.len() == i,
            forall|j: int|
                0 <= j < i ==> ((#[trigger] resps@[j]) matches TbonResponse::Values(es)
                    && entry_views_of(parts@[j]@) == entry_views_of(es@)),
        decreases n - i,
    {
        match &resps[i] {
            TbonResponse::Values(es) => {
                parts.push(copy_entries(es));
            },
            _ => {
                return Err(
                    TbonError::BadResponse(String::from_str("Bad response type in values")),
                );
            },
        }
        i = i + 1;
    }
    Ok(parts)
}

/// The timestamp and bucket counters of a batch of `Histogram` responses.
pub fn histogram_parts(resps: &Vec<TbonResponse>) -> (r: Result<Vec<(u64, Vec<u64>)>, TbonError>)
    ensures
        r is Ok <==> forall|i: int| 0 <= i < resps@.len() ==> (#[trigger] resps@[i]) is Histogram,
        r matches Ok(parts) ==> parts@.len() == resps@.len() && forall|i: int|
            0 <= i < resps@.len() ==> ((#[trigger] resps@[i]) matches TbonResponse::Histogram(
                ts,
                cs,
            ) && parts@[i].0 == ts && parts@[i].1@ == cs@),
        r matches Err(e) ==> e matches TbonError::BadResponse(m) && m@
            == "Bad response type in histogram"@,
{
    let n = resps.len();
    let mut parts: Vec<(u64, Vec<u64>)> = Vec::new();
    let mut i: usize = 0;
    while i < n
        invariant
            i <= n,
            n == resps@.len(),
            parts@.len() == i,
            forall|j: int|
                0 <= j < i ==> ((#[trigger] resps@[j]) matches TbonResponse::Histogram(ts, cs)
                    && parts@[j].0 == ts && parts@[j].1@ == cs@),
        decreases n - i,
    {
        match &resps[i] {
            TbonResponse::Histogram(ts, counts) => {
                parts.push((*ts, copy_u64s(counts)));
            },
            _ => {
                return Err(
                    TbonError::BadResponse(String::from_str("Bad response type in histogram")),
                );
            },
        }
        i = i + 1;
    }
    Ok(parts)
}

/// Element-wise copy of a counter vector.
fn copy_u64s(v: &Vec<u64>) -> (r: Vec<u64>)
    ensures
        r@ == v@,
{
    let n = v.len();
    let mut r: Vec<u64> = Vec::new();
    let mut i: usize = 0;
    while i < n
        invariant
            i <= n,
            n == v@.len(),
            r@ =~= v@.take(i as int),
        decreases n - i,
    {
        r.push(v[i]);
        i = i + 1;
    }
    proof {
        assert(v@.take(n as int) =~= v@);
        assert(r@ =~= v@);
    }
    r
}

/// Element-wise copy of a key list; the copies spell the same names.
fn copy_strings(v: &Vec<String>) -> (r: Vec<String>)
    ensures
        views_of(r@) == views_of(v@),
{
    let n = v.len();
    let mut r: Vec<String> = Vec::new();
    let mut i: usize = 0;
    while i < n
        invariant
            i <= n,
            n == v@.len(),
            r@.len() == i,
            forall|j: int| 0 <= j < i ==> #[trigger] r@[j]@ == v@[j]@,
        decreases n - i,
    {
        r.push(v[i].clone());
        i = i + 1;
    }
    proof {
        assert(views_of(r@) =~= views_of(v@));
    }
    r
}

/// Element-wise copy of an entry list; the copies carry the same names and
/// values.
fn copy_entries(v: &Vec<(String, u64)>) -> (r: Vec<(String, u64)>)
    ensures
        entry_views_of(r@) == entry_views_of(v@),
{
    let n = v.len();
    let mut r: Vec<(String, u64)> = Vec::new();
    let mut i: usize = 0;
    while i < n
        invariant
            i <= n,
            n == v@.len(),
            r@.len() == i,
            forall|j: int|
                0 <= j < i ==> #[trigger] r@[j].0@ == v@[j].0@ && r@[j].1 == v@[j].1,
        decreases n - i,
    {
        r.push((v[i].0.clone(), v[i].1));
        i = i + 1;
    }
    proof {
        assert(entry_views_of(r@) =~= entry_views_of(v@));
    }
    r
}

/// The names a key list spells.
pub open spec fn views_of(v: Seq<String>) -> Seq<Seq<char>> {
    v.map_values(|s: String| s@)
}

/// The name-value pairs an entry list spells.
pub open spec fn entry_views_of(v: Seq<(String, u64)>) -> Seq<(Seq<char>, u64)> {
    v.map_values(|e: (String, u64)| (e.0@, e.1))
}

// ---------------------------------------------------------------------------
// ListKeys.
// ---------------------------------------------------------------------------
/// The set of names a key list holds.
pub open spec fn strs_set(s: Seq<Seq<char>>) -> Set<Seq<char>> {
    Set::new(|k: Seq<char>| s.contains(k))
}

/// No name occurs twice.
pub open spec fn unique_strs(s: Seq<Seq<char>>) -> bool {
    forall|i: int, j: int| 0 <= i < j < s.len() ==> s[i] != s[j]
}

/// Union of the key sets of a batch of children.
pub open spec fn union_key_sets(children: Seq<Seq<Seq<char>>>) -> Set<Seq<char>>
    decreases children.len(),
{
    if children.len() == 0 {
        Set::empty()
    } else {
        union_key_sets(children.drop_last()) + strs_set(children.last())
    }
}

/// Appending one name adds exactly that name to the set.
proof fn lemma_strs_set_push(s: Seq<Seq<char>>, x: Seq<char>)
    ensures
        strs_set(s.push(x)) =~= strs_set(s).insert(x),
{
    assert forall|k: Seq<char>|
        strs_set(s.push(x)).contains(k) == strs_set(s).insert(x).contains(k) by {
        if s.push(x).contains(k) {
            let i = choose|i: int| 0 <= i < s.push(x).len() && s.push(x)[i] == k;
            if i < s.len() {
                assert(s[i] == k);
            }
        }
        if s.contains(k) {
            let i = choose|i: int| 0 <= i < s.len() && s[i] == k;
            assert(s.push(x)[i] == k);
        }
        if k == x {
            assert(s.push(x)[s.len() as int] == k);
        }
    }
}

/// Does the list spell this name?
fn contains_str(v: &Vec<String>, key: &String) -> (r: bool)
    ensures
        r == views_of(v@).contains(key@),
{
    let n = v.len();
    let mut i: usize = 0;
    while i < n
        invariant
            i <= n,
            n == v@.len(),
            forall|j: int| 0 <= j < i ==> #[trigger] v@[j]@ != key@,
        decreases n - i,
    {
        if v[i] == *key {
            assert(views_of(v@)[i as int] == key@);
            return true;
        }
        i = i + 1;
    }
    assert forall|j: int| 0 <= j < views_of(v@).len() implies #[trigger] views_of(v@)[j]
        != key@ by {
        assert(views_of(v@)[j] == v@[j]@);
    }
    false
}

/// Folds key lists: the union of this node's counter names with every
/// child's key set, each name kept once.
pub fn fold_list_keys(local: Vec<String>, children: &Vec<Vec<String>>) -> (r: Vec<String>)
    requires
        unique_strs(views_of(local@)),
    ensures
        unique_strs(views_of(r@)),
        strs_set(views_of(r@)) =~= strs_set(views_of(local@)) + union_key_sets(
            children@.map_values(|c: Vec<String>| views_of(c@)),
        ),
{
    let ghost base = strs_set(views_of(local@));
    let ghost cviews = children@.map_values(|c: Vec<String>| views_of(c@));
    let mut acc = local;
    let cn = children.len();
    let mut ci: usize = 0;
    while ci < cn
        invariant
            ci <= cn,
            cn == children@.len(),
            cviews == children@.map_values(|c: Vec<String>| views_of(c@)),
            base == strs_set(views_of(acc@)).intersect(base),
            unique_strs(views_of(acc@)),
            strs_set(views_of(acc@)) =~= base + union_key_sets(cviews.take(ci as int)),
        decreases cn - ci,
    {
        let child = &children[ci];
        let kn = child.len();
        let mut ki: usize = 0;
        while ki < kn
            invariant
                ki <= kn,
                ci < cn,
                cn == children@.len(),
                kn == children@[ci as int]@.len(),
                cviews == children@.map_values(|c: Vec<String>| views_of(c@)),
                unique_strs(views_of(acc@)),
                strs_set(views_of(acc@)) =~= base + union_key_sets(cviews.take(ci as int))
                    + strs_set(views_of(children@[ci as int]@).take(ki as int)),
            decreases kn - ki,
        {
            let key = &children[ci][ki];
            let ghost pre = views_of(acc@);
            let present = contains_str(&acc, key);
            if !present {
                acc.push(key.clone());
                proof {
                    assert(views_of(acc@) =~= pre.push(key@));
                    lemma_strs_set_push(pre, key@);
                    assert forall|a: int, b: int|
                        0 <= a < b < views_of(acc@).len() implies views_of(acc@)[a] != views_of(
                        acc@,
                    )[b] by {
                        if b == views_of(acc@).len() - 1 {
                            assert(pre.contains(views_of(acc@)[a]) ==> strs_set(pre).contains(
                                views_of(acc@)[a],
                            ));
                            assert(pre[a] == views_of(acc@)[a]);
                        }
                    }
                }
            }
            proof {
                let cv = views_of(children@[ci as int]@);
                assert(cv.take(ki + 1) =~= cv.take(ki as int).push(cv[ki as int]));
                lemma_strs_set_push(cv.take(ki as int), cv[ki as int]);
                assert(cv[ki as int] == key@);
                if present {
                    assert(strs_set(pre).contains(key@));
                    assert(strs_set(views_of(acc@)) =~= base + union_key_sets(
                        cviews.take(ci as int),
                    ) + strs_set(cv.take(ki + 1)));
                } else {
                    assert(strs_set(views_of(acc@)) =~= base + union_key_sets(
                        cviews.take(ci as int),
                    ) + strs_set(cv.take(ki + 1)));
                }
            }
            ki = ki + 1;
        }
        proof {
            assert(views_of(children@[ci as int]@).take(kn as int) =~= views_of(
                children@[ci as int]@,
            ));
            assert(cviews.take(ci + 1).drop_last() =~= cviews.take(ci as int));
            assert(cviews.take(ci + 1).last() == cviews[ci as int]);
            assert(cviews[ci as int] == views_of(children@[ci as int]@));
            assert(strs_set(views_of(acc@)) =~= base + union_key_sets(cviews.take(ci + 1)));
        }
        ci = ci + 1;
    }
    proof {
        assert(cviews.take(cn as int) =~= cviews);
    }
    acc
}

// ---------------------------------------------------------------------------
// Values.
// ---------------------------------------------------------------------------
/// Inserting a run of entries into a map, first entry first.
pub open spec fn spec_insert_all(m: Map<Seq<char>, u64>, es: Seq<(Seq<char>, u64)>) -> Map<
    Seq<char>,
    u64,
>
    decreases es.len(),
{
    if es.len() == 0 {
        m
    } else {
        spec_insert_all(m, es.drop_last()).insert(es.last().0, es.last().1)
    }
}

/// The map a batch of children's entry lists builds up, child by child;
/// later entries win on collision.
pub open spec fn spec_children_values(children: Seq<Seq<(Seq<char>, u64)>>) -> Map<Seq<char>, u64>
    decreases children.len(),
{
    if children.len() == 0 {
        Map::empty()
    } else {
        spec_insert_all(spec_children_values(children.drop_last()), children.last())
    }
}

/// The map a `Values` aggregation answers with: every child's entries, then
/// this node's own reading under its host key, if the key is set here.
pub open spec fn spec_values_map(
    children: Seq<Seq<(Seq<char>, u64)>>,
    hostkey: Seq<char>,
    local: Option<u64>,
) -> Map<Seq<char>, u64> {
    match local {
        Some(v) => spec_children_values(children).insert(hostkey, v),
        None => spec_children_values(children),
    }
}

/// Folds value maps: the union of every child's map, plus this node's own
/// entry when it holds the key.
pub fn fold_values(local: Option<u64>, hostkey: &String, children: &Vec<Vec<(String, u64)>>) -> (r:
    Vec<(String, u64)>)
    ensures
        unique_keys(entry_views_of(r@)),
        map_of_entries(entry_views_of(r@)) =~= spec_values_map(
            children@.map_values(|c: Vec<(String, u64)>| entry_views_of(c@)),
            hostkey@,
            local,
        ),
{
    let ghost cviews = children@.map_values(|c: Vec<(String, u64)>| entry_views_of(c@));
    let mut store = CounterStore::new();
    let cn = children.len();
    let mut ci: usize = 0;
    while ci < cn
        invariant
            ci <= cn,
            cn == children@.len(),
            cviews == children@.map_values(|c: Vec<(String, u64)>| entry_views_of(c@)),
            store.wf(),
            store.as_map() =~= spec_children_values(cviews.take(ci as int)),
        decreases cn - ci,
    {
        let child = &children[ci];
        let kn = child.len();
        let mut ki: usize = 0;
        while ki < kn
            invariant
                ki <= kn,
                ci < cn,
                cn == children@.len(),
                kn == children@[ci as int]@.len(),
                cviews == children@.map_values(|c: Vec<(String, u64)>| entry_views_of(c@)),
                store.wf(),
                store.as_map() =~= spec_insert_all(
                    spec_children_values(cviews.take(ci as int)),
                    entry_views_of(children@[ci as int]@).take(ki as int),
                ),
            decreases kn - ki,
        {
            let entry = &children[ci][ki];
            store.set_counter(entry.0.as_str(), entry.1);
            proof {
                let ev = entry_views_of(children@[ci as int]@);
                assert(ev.take(ki + 1).drop_last() =~= ev.take(ki as int));
                assert(ev.take(ki + 1).last() == ev[ki as int]);
                assert(ev[ki as int] == (entry.0@, entry.1));
            }
            ki = ki + 1;
        }
        proof {
            let ev = entry_views_of(children@[ci as int]@);
            assert(ev.take(kn as int) =~= ev);
            assert(cviews.take(ci + 1).drop_last() =~= cviews.take(ci as int));
            assert(cviews.take(ci + 1).last() == cviews[ci as int]);
            assert(cviews[ci as int] == ev);
        }
        ci = ci + 1;
    }
    proof {
        assert(cviews.take(cn as int) =~= cviews);
    }
    if let Some(v) = local {
        store.set_counter(hostkey.as_str(), v);
    }
    proof {
        assert(entry_views_of(store.entries@) =~= store.entries_seq());
    }
    store.entries
}

// ---------------------------------------------------------------------------
// Histogram.
// ---------------------------------------------------------------------------
/// Bucket-by-bucket addition with wrapping overflow: how two histograms with
/// the tree's parameters combine.
pub open spec fn spec_merge_counts(a: Seq<u64>, b: Seq<u64>) -> Seq<u64> {
    Seq::new(a.len(), |i: int| (a[i] + b[i]) as u64)
}

/// A run of child histograms merged onto a base, first child first.
pub open spec fn spec_merge_all(base: Seq<u64>, cs: Seq<Seq<u64>>) -> Seq<u64>
    decreases cs.len(),
{
    if cs.len() == 0 {
        base
    } else {
        spec_merge_counts(spec_merge_all(base, cs.drop_last()), cs.last())
    }
}

/// This node's own contribution to a histogram query: all buckets empty, or
/// a single observation recorded in the bucket whose range holds the local
/// value.
pub open spec fn spec_local_hist(local: Option<u64>, lc: Seq<u64>) -> bool {
    &&& lc.len() == HIST_BUCKETS
    &&& match local {
        None => forall|i: int| 0 <= i < lc.len() ==> lc[i] == 0u64,
        Some(v) => incremented(
            HIST_GROUPING as nat,
            HIST_MAX_VALUE_POW as nat,
            Seq::new(HIST_BUCKETS as nat, |j: int| 0u64),
            lc,
            v,
        ),
    }
}

/// Sum of a batch of timestamps.
pub open spec fn spec_sum_u64s(s: Seq<u64>) -> int
    decreases s.len(),
{
    if s.len() == 0 {
        0
    } else {
        spec_sum_u64s(s.drop_last()) + s.last()
    }
}

/// Just the timestamps of a batch of histogram parts.
pub open spec fn ts_views(parts: Seq<(u64, Vec<u64>)>) -> Seq<u64> {
    parts.map_values(|p: (u64, Vec<u64>)| p.0)
}

/// Just the bucket counters of a batch of histogram parts.
pub open spec fn hist_count_views(parts: Seq<(u64, Vec<u64>)>) -> Seq<Seq<u64>> {
    parts.map_values(|p: (u64, Vec<u64>)| p.1@)
}

/// A prefix of timestamps never sums to more than the whole batch's.
proof fn lemma_sum_ts_take(s: Seq<u64>, i: int)
    requires
        0 <= i <= s.len(),
    ensures
        0 <= spec_sum_u64s(s.take(i)),
        spec_sum_u64s(s.take(i)) <= i * (u64::MAX as int),
    decreases i,
{
    if i > 0 {
        assert(s.take(i).drop_last() =~= s.take(i - 1));
        lemma_sum_ts_take(s, i - 1);
        assert((i - 1) * (u64::MAX as int) + (u64::MAX as int) == i * (u64::MAX as int))
            by (nonlinear_arith);
    }
}

/// Folds child histograms: this node's contribution merged, bucket by
/// bucket with wrapping overflow, with every child's counters; the reported
/// timestamp is the mean of the local reading and the children's. Refused
/// only when a child's histogram has the wrong number of buckets.
pub fn fold_histogram(local: Option<u64>, local_ts: u64, parts: &Vec<(u64, Vec<u64>)>) -> (r:
    Result<(u64, Vec<u64>), TbonError>)
    ensures
        r is Ok <==> forall|i: int|
            0 <= i < parts@.len() ==> (#[trigger] parts@[i]).1@.len() == HIST_BUCKETS,
        r matches Ok(out) ==> {
            &&& out.1@.len() == HIST_BUCKETS
            &&& out.0 == (local_ts + spec_sum_u64s(ts_views(parts@))) / (parts@.len() as int + 1)
            &&& exists|lc: Seq<u64>|
                #![trigger spec_merge_all(lc, hist_count_views(parts@))]
                spec_local_hist(local, lc) && out.1@ == spec_merge_all(
                    lc,
                    hist_count_views(parts@),
                )
        },
        r matches Err(e) ==> e is BadResponse,
{
    proof {
        lemma_hist_buckets_value();
    }
    let mut h = match hist_new(HIST_GROUPING, HIST_MAX_VALUE_POW) {
        Ok(h) => h,
        Err(_) => {
            proof {
                assert(false);
            }
            return Err(TbonError::BadResponse(String::from_str("Histogram setup failed")));
        },
    };
    let ghost zeros = Seq::new(HIST_BUCKETS as nat, |j: int| 0u64);
    proof {
        assert(hist_counts(h) =~= zeros);
    }
    if let Some(v) = local {
        let ghost pre = hist_counts(h);
        let incr = hist_increment(&mut h, v);
        proof {
            assert(incr is Ok);
            assert(pre == zeros);
        }
    }
    let ghost lc = hist_counts(h);
    proof {
        assert(spec_local_hist(local, lc));
    }
    let ghost pviews = ts_views(parts@);
    let ghost ccounts = hist_count_views(parts@);
    let n = parts.len();
    let mut sum: u128 = local_ts as u128;
    let mut i: usize = 0;
    while i < n
        invariant
            i <= n,
            n == parts@.len(),
            pviews == ts_views(parts@),
            ccounts == hist_count_views(parts@),
            hist_config(h) == (HIST_GROUPING, HIST_MAX_VALUE_POW),
            hist_counts(h).len() == HIST_BUCKETS,
            spec_total_buckets(HIST_GROUPING as nat, HIST_MAX_VALUE_POW as nat) == HIST_BUCKETS,
            spec_local_hist(local, lc),
            hist_counts(h) == spec_merge_all(lc, ccounts.take(i as int)),
            forall|j: int| 0 <= j < i ==> (#[trigger] parts@[j]).1@.len() == HIST_BUCKETS,
            sum == local_ts + spec_sum_u64s(pviews.take(i as int)),
            sum <= (i + 1) * (u64::MAX as int),
        decreases n - i,
    {
        let part = &parts[i];
        if part.1.len() != HIST_BUCKETS {
            return Err(
                TbonError::BadResponse(String::from_str("Histogram bucket count mismatch")),
            );
        }
        let child = match hist_from_buckets(HIST_GROUPING, HIST_MAX_VALUE_POW, &part.1) {
            Ok(c) => c,
            Err(_) => {
                proof {
                    assert(false);
                }
                return Err(TbonError::BadResponse(String::from_str("Histogram setup failed")));
            },
        };
        let merged = match hist_wrapping_add(&h, &child) {
            Ok(m) => m,
            Err(_) => {
                proof {
                    assert(false);
                }
                return Err(TbonError::BadResponse(String::from_str("Histogram setup failed")));
            },
        };
        h = merged;
        proof {
            assert(ccounts.take(i + 1).drop_last() =~= ccounts.take(i as int));
            assert(ccounts.take(i + 1).last() == ccounts[i as int]);
            assert(ccounts[i as int] == parts@[i as int].1@);
            assert(hist_counts(h) =~= spec_merge_counts(
                spec_merge_all(lc, ccounts.take(i as int)),
                parts@[i as int].1@,
            ));
            assert(pviews.take(i + 1).drop_last() =~= pviews.take(i as int));
            assert(pviews.take(i + 1).last() == pviews[i as int]);
            assert((i + 1) * (u64::MAX as int) + (u64::MAX as int) == (i + 2) * (
            u64::MAX as int)) by (nonlinear_arith);
        }
        sum = sum + part.0 as u128;
        i = i + 1;
    }
    proof {
        assert(pviews.take(n as int) =~= pviews);
        assert(ccounts.take(n as int) =~= ccounts);
    }
    let divisor = (n as u128) + 1;
    let mean128 = sum / divisor;
    proof {
        lemma_div_is_ordered(sum as int, (n + 1) * (u64::MAX as int), (n + 1) as int);
        lemma_div_multiples_vanish(u64::MAX as int, (n + 1) as int);
        assert((n + 1) * (u64::MAX as int) == (u64::MAX as int) * ((n + 1) as int))
            by (nonlinear_arith);
    }
    let mean = mean128 as u64;
    let counts = hist_as_vec(&h);
    Ok((mean, counts))
}

// ---------------------------------------------------------------------------
// Dispatch.
// ---------------------------------------------------------------------------
/// The count each child reported; meaningful once every child sent `Count`.
pub open spec fn spec_child_counts(resps: Seq<TbonResponse>) -> Seq<u32> {
    resps.map_values(
        |r: TbonResponse|
            match r {
                TbonResponse::Count(c) => c,
                _ => 0u32,
            },
    )
}

/// The key set each child reported; meaningful once every child sent
/// `ListKeys`.
pub open spec fn spec_child_keys(resps: Seq<TbonResponse>) -> Seq<Seq<Seq<char>>> {
    resps.map_values(
        |r: TbonResponse|
            match r {
                TbonResponse::ListKeys(ks) => views_of(ks@),
                _ => Seq::<Seq<char>>::empty(),
            },
    )
}

/// The entries each child reported; meaningful once every child sent
/// `Values`.
pub open spec fn spec_child_entries(resps: Seq<TbonResponse>) -> Seq<Seq<(Seq<char>, u64)>> {
    resps.map_values(
        |r: TbonResponse|
            match r {
                TbonResponse::Values(es) => entry_views_of(es@),
                _ => Seq::<(Seq<char>, u64)>::empty(),
            },
    )
}

/// The timestamp each child reported; meaningful once every child sent
/// `Histogram`.
pub open spec fn spec_child_ts(resps: Seq<TbonResponse>) -> Seq<u64> {
    resps.map_values(
        |r: TbonResponse|
            match r {
                TbonResponse::Histogram(ts, _) => ts,
                _ => 0u64,
            },
    )
}

/// The bucket counters each child reported; meaningful once every child sent
/// `Histogram`.
pub open spec fn spec_child_hists(resps: Seq<TbonResponse>) -> Seq<Seq<u64>> {
    resps.map_values(
        |r: TbonResponse|
            match r {
                TbonResponse::Histogram(_, cs) => cs@,
                _ => Seq::<u64>::empty(),
            },
    )
}

/// This node's own reading of a key.
pub open spec fn spec_local_value(store: CounterStore, key: Seq<char>) -> Option<u64> {
    if store.as_map().contains_key(key) {
        Some(store.as_map()[key])
    } else {
        None
    }
}

/// Serves one aggregation query, given the responses the same query drew
/// from every child. `Join` and `Pivot` are bootstrap-only and answered with
/// an error response; a failed or ill-typed child fails the aggregation.
pub fn handle_query(
    q: &TbonQuery,
    store: &CounterStore,
    hostkey: &String,
    local_ts: u64,
    children: Vec<TbonResponse>,
) -> (r: Result<TbonResponse, TbonError>)
    requires
        store.wf(),
    ensures
        q is Join ==> (r matches Ok(resp) && resp@ == crate::protocol::ResponseView::Error(
            "Only server thread should receive Join commands"@,
        )),
        q is Pivot ==> (r matches Ok(resp) && resp@ == crate::protocol::ResponseView::Error(
            "Only server thread should receive Pivot commands"@,
        )),
        !(q is Join) && !(q is Pivot) && (exists|i: int|
            0 <= i < children@.len() && (#[trigger] children@[i]) is Error) ==> (r matches Err(e)
            && e matches TbonError::ChildFailed(m) && children@[spec_first_error(children@)]
            == TbonResponse::Error(m)),
        q is Count ==> {
            &&& r is Ok <==> ((forall|i: int|
                0 <= i < children@.len() ==> (#[trigger] children@[i]) is Count) && 1
                + spec_sum_counts(spec_child_counts(children@)) <= u32::MAX)
            &&& r matches Ok(resp) ==> resp@ == crate::protocol::ResponseView::Count(
                (1 + spec_sum_counts(spec_child_counts(children@))) as u32,
            )
        },
        q is ListKeys ==> {
            &&& r is Ok <==> (forall|i: int|
                0 <= i < children@.len() ==> (#[trigger] children@[i]) is ListKeys)
            &&& r matches Ok(resp) ==> (resp@ matches crate::protocol::ResponseView::ListKeys(ks)
                && unique_strs(ks) && strs_set(ks) =~= store.as_map().dom() + union_key_sets(
                spec_child_keys(children@),
            ))
        },
        q matches TbonQuery::Values(key) ==> {
            &&& r is Ok <==> (forall|i: int|
                0 <= i < children@.len() ==> (#[trigger] children@[i]) is Values)
            &&& r matches Ok(resp) ==> (resp@ matches crate::protocol::ResponseView::Values(es)
                && unique_keys(es) && map_of_entries(es) =~= spec_values_map(
                spec_child_entries(children@),
                hostkey@,
                spec_local_value(*store, key@),
            ))
        },
        q matches TbonQuery::Histogram(key) ==> {
            &&& r is Ok <==> ((forall|i: int|
                0 <= i < children@.len() ==> (#[trigger] children@[i]) is Histogram) && forall|
                i: int,
            |
                0 <= i < children@.len() ==> (#[trigger] spec_child_hists(children@)[i]).len()
                    == HIST_BUCKETS)
            &&& r matches Ok(resp) ==> (resp@ matches crate::protocol::ResponseView::Histogram(
                ts,
                counts,
            ) && ts == (local_ts + spec_sum_u64s(spec_child_ts(children@))) / (
            children@.len() as int + 1) && exists|lc: Seq<u64>|
                #![trigger spec_merge_all(lc, spec_child_hists(children@))]
                spec_local_hist(spec_local_value(*store, key@), lc) && counts == spec_merge_all(
                    lc,
                    spec_child_hists(children@),
                ))
        },
{
    match q {
        TbonQuery::Join(_) => Ok(
            TbonResponse::Error(
                String::from_str("Only server thread should receive Join commands"),
            ),
        ),
        TbonQuery::Pivot(_) => Ok(
            TbonResponse::Error(
                String::from_str("Only server thread should receive Pivot commands"),
            ),
        ),
        TbonQuery::Count => {
            let clean = screen_children(children)?;
            let parts = count_parts(&clean)?;
            proof {
                assert(parts@ =~= spec_child_counts(clean@));
            }
            match fold_count(&parts) {
                Some(total) => Ok(TbonResponse::Count(total)),
                None => Err(
                    TbonError::BadResponse(String::from_str("Count overflow in aggregation")),
                ),
            }
        },
        TbonQuery::ListKeys => {
            let clean = screen_children(children)?;
            let parts = keys_parts(&clean)?;
            proof {
                assert(parts@.map_values(|c: Vec<String>| views_of(c@)) =~= spec_child_keys(
                    clean@,
                ));
            }
            let local = store.keys();
            proof {
                assert(unique_strs(views_of(local@))) by {
                    assert forall|a: int, b: int|
                        0 <= a < b < views_of(local@).len() implies views_of(local@)[a]
                        != views_of(local@)[b] by {
                        assert(views_of(local@)[a] == store.entries_seq()[a].0);
                        assert(views_of(local@)[b] == store.entries_seq()[b].0);
                    }
                }
            }
            let merged = fold_list_keys(local, &parts);
            proof {
                assert(strs_set(views_of(local@)) =~= store.as_map().dom()) by {
                    assert forall|k: Seq<char>|
                        strs_set(views_of(local@)).contains(k) == store.as_map().dom().contains(
                            k,
                        ) by {
                        if views_of(local@).contains(k) {
                            let i = choose|i: int|
                                0 <= i < views_of(local@).len() && views_of(local@)[i] == k;
                            assert(local@[i]@ == k);
                        }
                        if store.as_map().dom().contains(k) {
                            assert(store.as_map().contains_key(k));
                            let i = choose|i: int| 0 <= i < local@.len() && #[trigger] local@[i]@
                                == k;
                            assert(views_of(local@)[i] == k);
                            assert(views_of(local@).contains(k));
                        }
                    }
                }
                assert(views_of(merged@) =~= merged@.map_values(|k: String| k@));
            }
            Ok(TbonResponse::ListKeys(merged))
        },
        TbonQuery::Values(key) => {
            let clean = screen_children(children)?;
            let parts = values_parts(&clean)?;
            proof {
                assert(parts@.map_values(|c: Vec<(String, u64)>| entry_views_of(c@))
                    =~= spec_child_entries(clean@));
            }
            let local = store.get(key.as_str());
            let merged = fold_values(local, hostkey, &parts);
            proof {
                assert(entry_views_of(merged@) =~= merged@.map_values(
                    |e: (String, u64)| (e.0@, e.1),
                ));
            }
            Ok(TbonResponse::Values(merged))
        },
        TbonQuery::Histogram(key) => {
            let clean = screen_children(children)?;
            let parts = histogram_parts(&clean)?;
            proof {
                assert(ts_views(parts@) =~= spec_child_ts(clean@));
                assert(hist_count_views(parts@) =~= spec_child_hists(clean@));
            }
            let local = store.get(key.as_str());
            match fold_histogram(local, local_ts, &parts) {
                Ok((ts, counts)) => {
                    proof {
                        assert forall|i: int|
                            0 <= i < clean@.len() implies (#[trigger] spec_child_hists(
                            clean@,
                        )[i]).len() == parts@[i].1@.len() by {}
                    }
                    Ok(TbonResponse::Histogram(ts, counts))
                },
                Err(e) => {
                    proof {
                        let j = choose|j: int|
                            0 <= j < parts@.len() && (#[trigger] parts@[j]).1@.len()
                                != HIST_BUCKETS;
                        assert(spec_child_hists(clean@)[j].len() != HIST_BUCKETS);
                    }
                    Err(e)
                },
            }
        },
    }
}

/// What the acceptor answers to the first query on a fresh connection, and
/// whether it must close the connection afterwards. A `Join` is acknowledged
/// and the socket is kept as the downstream channel; a `Pivot` assigns an id
/// and a parent out of the tree view; anything else is refused.
pub fn bootstrap_reply(q: &TbonQuery, view: &mut TreeView) -> (r: (TbonResponse, bool))
    requires
        old(view)@.wf(),
        q is Pivot ==> old(view).current_id < u32::MAX,
    ensures
        final(view)@.wf(),
        q is Join ==> r.0 is Okay && !r.1 && *final(view) == *old(view),
        q matches TbonQuery::Pivot(addr) ==> {
            &&& r.1
            &&& final(view)@ =~= old(view)@.after_pivot(addr@)
            &&& old(view)@.has_capacity() ==> (r.0 matches TbonResponse::Pivot(id, target) && id
                == old(view)@.current_id + 1 && target@ == old(view)@.slots[old(
                view,
            )@.first_free()].addr)
            &&& !old(view)@.has_capacity() ==> (r.0 matches TbonResponse::Error(m) && m@
                == "Failed to join a root"@)
        },
        !(q is Join) && !(q is Pivot) ==> (r.1 && (r.0 matches TbonResponse::Error(m) && m@
            == "Expected only Join or Pivot as first command"@) && *final(view) == *old(view)),
{
    match q {
        TbonQuery::Join(_) => (TbonResponse::Okay, false),
        TbonQuery::Pivot(addr) => {
            match view.pivot(addr.clone()) {
                Ok((id, target)) => (TbonResponse::Pivot(id, target), true),
                Err(e) => (TbonResponse::Error(e.message()), true),
            }
        },
        _ => (
            TbonResponse::Error(
                String::from_str("Expected only Join or Pivot as first command"),
            ),
            true,
        ),
    }
}

// ---------------------------------------------------------------------------
// Reading a response back out, at the node that asked.
// ---------------------------------------------------------------------------
/// The count a `Count` response carries.
pub fn response_count(r: TbonResponse) -> (out: Result<u32, TbonError>)
    ensures
        out is Ok <==> r is Count,
        out matches Ok(c) ==> r == TbonResponse::Count(c),
        out matches Err(e) ==> e matches TbonError::BadResponse(m) && m@
            == "Bad response type in count"@,
{
    match r {
        TbonResponse::Count(c) => Ok(c),
        _ => Err(TbonError::BadResponse(String::from_str("Bad response type in count"))),
    }
}

/// The timestamp and bucket counters a `Histogram` response carries.
pub fn response_histogram(r: TbonResponse) -> (out: Result<(u64, Vec<u64>), TbonError>)
    ensures
        out is Ok <==> r is Histogram,
        out matches Ok(p) ==> r == TbonResponse::Histogram(p.0, p.1),
        out matches Err(e) ==> e matches TbonError::BadResponse(m) && m@
            == "Bad response type in histogram"@,
{
    match r {
        TbonResponse::Histogram(ts, counts) => Ok((ts, counts)),
        _ => Err(TbonError::BadResponse(String::from_str("Bad response type in histogram"))),
    }
}

/// The key set a `ListKeys` response carries.
pub fn response_list_keys(r: TbonResponse) -> (out: Result<Vec<String>, TbonError>)
    ensures
        out is Ok <==> r is ListKeys,
        out matches Ok(ks) ==> r == TbonResponse::ListKeys(ks),
        out matches Err(e) ==> e matches TbonError::BadResponse(m) && m@
            == "Bad response type in listkeys"@,
{
    match r {
        TbonResponse::ListKeys(ks) => Ok(ks),
        _ => Err(TbonError::BadResponse(String::from_str("Bad response type in listkeys"))),
    }
}

/// The entries a `Values` response carries.
pub fn response_values(r: TbonResponse) -> (out: Result<Vec<(String, u64)>, TbonError>)
    ensures
        out is Ok <==> r is Values,
        out matches Ok(es) ==> r == TbonResponse::Values(es),
        out matches Err(e) ==> e matches TbonError::BadResponse(m) && m@
            == "Bad response type in values"@,
{
    match r {
        TbonResponse::Values(es) => Ok(es),
        _ => Err(TbonError::BadResponse(String::from_str("Bad response type in values"))),
    }
}

} // verus!
