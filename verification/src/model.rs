//! A mathematical model of a whole aggregation tree, and the laws tying the
//! folds to it: when every node folds its children's correct answers, the
//! root's answer describes the entire tree.

use crate::aggregate::spec_local_hist;
use crate::aggregate::spec_merge_all;
use crate::aggregate::spec_merge_counts;
use crate::aggregate::spec_sum_counts;
use crate::aggregate::spec_sum_u64s;
use crate::aggregate::spec_children_values;
use crate::aggregate::spec_insert_all;
use crate::aggregate::spec_values_map;
use crate::aggregate::strs_set;
use crate::aggregate::unique_strs;
use crate::aggregate::union_key_sets;
use crate::counters::map_of_entries;
use crate::hist::spec_bucket_high;
use crate::hist::spec_bucket_low;
use crate::hist::HIST_BUCKETS;
use crate::hist::HIST_GROUPING;
use crate::hist::HIST_MAX_VALUE_POW;
use vstd::prelude::*;

verus! {

/// One node of the tree as mathematics: its counters, its host key, and the
/// models of its children.
pub struct NodeModel {
    pub counters: Map<Seq<char>, u64>,
    pub hostkey: Seq<char>,
    pub children: Seq<NodeModel>,
}

/// Number of nodes in the subtree rooted here.
pub open spec fn tree_nodes(n: NodeModel) -> int
    decreases n,
{
    1 + tree_nodes_of(n.children)
}

/// Number of nodes in a forest.
pub open spec fn tree_nodes_of(cs: Seq<NodeModel>) -> int
    decreases cs,
{
    if cs.len() == 0 {
        0
    } else {
        tree_nodes_of(cs.drop_last()) + tree_nodes(cs.last())
    }
}

/// Tree completeness: when every child of a node reports the size of its own
/// subtree, the count fold answers the size of the node's subtree — so the
/// root's count is the number of joined nodes plus one, by induction up the
/// tree.
pub proof fn lemma_count_completeness(n: NodeModel, parts: Seq<u32>)
    requires
        parts.len() == n.children.len(),
        forall|i: int| 0 <= i < parts.len() ==> parts[i] == tree_nodes(#[trigger] n.children[i]),
    ensures
        1 + spec_sum_counts(parts) == tree_nodes(n),
{
    lemma_sum_counts_matches(n.children, parts);
}

/// Summing correct per-subtree counts gives the forest's node count.
proof fn lemma_sum_counts_matches(cs: Seq<NodeModel>, parts: Seq<u32>)
    requires
        parts.len() == cs.len(),
        forall|i: int| 0 <= i < parts.len() ==> parts[i] == tree_nodes(#[trigger] cs[i]),
    ensures
        spec_sum_counts(parts) == tree_nodes_of(cs),
    decreases cs.len(),
{
    if cs.len() > 0 {
        assert(forall|i: int|
            0 <= i < parts.drop_last().len() ==> parts.drop_last()[i] == tree_nodes(
                #[trigger] cs.drop_last()[i],
            ));
        lemma_sum_counts_matches(cs.drop_last(), parts.drop_last());
    }
}

/// All counter names set anywhere in the subtree rooted here.
pub open spec fn tree_keys(n: NodeModel) -> Set<Seq<char>>
    decreases n,
{
    n.counters.dom() + tree_keys_of(n.children)
}

/// All counter names set anywhere in a forest.
pub open spec fn tree_keys_of(cs: Seq<NodeModel>) -> Set<Seq<char>>
    decreases cs,
{
    if cs.len() == 0 {
        Set::empty()
    } else {
        tree_keys_of(cs.drop_last()) + tree_keys(cs.last())
    }
}

/// ListKeys closure: when every child of a node reports its own subtree's
/// key set, the key fold answers the union of the counter names set at
/// every node of this subtree.
pub proof fn lemma_list_keys_closure(n: NodeModel, sets: Seq<Seq<Seq<char>>>)
    requires
        sets.len() == n.children.len(),
        forall|i: int|
            0 <= i < sets.len() ==> strs_set(#[trigger] sets[i]) == tree_keys(n.children[i]),
    ensures
        n.counters.dom() + union_key_sets(sets) =~= tree_keys(n),
{
    lemma_union_keys_matches(n.children, sets);
}

/// Uniting correct per-subtree key sets gives the forest's key set.
proof fn lemma_union_keys_matches(cs: Seq<NodeModel>, sets: Seq<Seq<Seq<char>>>)
    requires
        sets.len() == cs.len(),
        forall|i: int|
            0 <= i < sets.len() ==> strs_set(#[trigger] sets[i]) == tree_keys(cs[i]),
    ensures
        union_key_sets(sets) =~= tree_keys_of(cs),
    decreases cs.len(),
{
    if cs.len() > 0 {
        assert(forall|i: int|
            0 <= i < sets.drop_last().len() ==> strs_set(#[trigger] sets.drop_last()[i])
                == tree_keys(cs.drop_last()[i]));
        lemma_union_keys_matches(cs.drop_last(), sets.drop_last());
    }
}

/// The readings of one key across the subtree rooted here: one entry per
/// node that holds the key, under that node's host key; a later sibling wins
/// a host-key collision, which distinct host keys rule out.
pub open spec fn tree_values(n: NodeModel, key: Seq<char>) -> Map<Seq<char>, u64>
    decreases n,
{
    let base = tree_values_of(n.children, key);
    if n.counters.contains_key(key) {
        base.insert(n.hostkey, n.counters[key])
    } else {
        base
    }
}

/// The readings of one key across a forest.
pub open spec fn tree_values_of(cs: Seq<NodeModel>, key: Seq<char>) -> Map<Seq<char>, u64>
    decreases cs,
{
    if cs.len() == 0 {
        Map::empty()
    } else {
        tree_values_of(cs.drop_last(), key).union_prefer_right(tree_values(cs.last(), key))
    }
}

/// Inserting a run of entries is the same as uniting with the map the run
/// denotes.
pub proof fn lemma_insert_all_union(m: Map<Seq<char>, u64>, es: Seq<(Seq<char>, u64)>)
    ensures
        spec_insert_all(m, es) =~= m.union_prefer_right(map_of_entries(es)),
    decreases es.len(),
{
    if es.len() > 0 {
        lemma_insert_all_union(m, es.drop_last());
    }
}

/// Values completeness: when every child of a node reports its own
/// subtree's readings of a key, the value fold answers exactly one entry per
/// node of this subtree that holds the key, each under that node's host key.
pub proof fn lemma_values_completeness(
    n: NodeModel,
    key: Seq<char>,
    lists: Seq<Seq<(Seq<char>, u64)>>,
)
    requires
        lists.len() == n.children.len(),
        forall|i: int|
            0 <= i < lists.len() ==> map_of_entries(#[trigger] lists[i]) == tree_values(
                n.children[i],
                key,
            ),
    ensures
        spec_values_map(
            lists,
            n.hostkey,
            if n.counters.contains_key(key) {
                Some(n.counters[key])
            } else {
                None
            },
        ) =~= tree_values(n, key),
{
    lemma_children_values_matches(n.children, key, lists);
}

/// Folding correct per-subtree readings gives the forest's readings.
proof fn lemma_children_values_matches(
    cs: Seq<NodeModel>,
    key: Seq<char>,
    lists: Seq<Seq<(Seq<char>, u64)>>,
)
    requires
        lists.len() == cs.len(),
        forall|i: int|
            0 <= i < lists.len() ==> map_of_entries(#[trigger] lists[i]) == tree_values(
                cs[i],
                key,
            ),
    ensures
        spec_children_values(lists) =~= tree_values_of(cs, key),
    decreases cs.len(),
{
    if cs.len() > 0 {
        assert(forall|i: int|
            0 <= i < lists.drop_last().len() ==> map_of_entries(#[trigger] lists.drop_last()[i])
                == tree_values(cs.drop_last()[i], key));
        lemma_children_values_matches(cs.drop_last(), key, lists.drop_last());
        lemma_insert_all_union(spec_children_values(lists.drop_last()), lists.last());
    }
}

/// The host keys of the nodes of this subtree that hold the key.
pub open spec fn hosts_with_key(n: NodeModel, key: Seq<char>) -> Set<Seq<char>>
    decreases n,
{
    let base = hosts_with_key_of(n.children, key);
    if n.counters.contains_key(key) {
        base.insert(n.hostkey)
    } else {
        base
    }
}

/// The host keys of the nodes of a forest that hold the key.
pub open spec fn hosts_with_key_of(cs: Seq<NodeModel>, key: Seq<char>) -> Set<Seq<char>>
    decreases cs,
{
    if cs.len() == 0 {
        Set::empty()
    } else {
        hosts_with_key_of(cs.drop_last(), key) + hosts_with_key(cs.last(), key)
    }
}

/// The subtree's readings of a key carry exactly the host keys of the nodes
/// that hold it: with pairwise distinct host keys, one entry per such node.
pub proof fn lemma_values_domain(n: NodeModel, key: Seq<char>)
    ensures
        tree_values(n, key).dom() =~= hosts_with_key(n, key),
    decreases n,
{
    lemma_values_domain_of(n.children, key);
}

/// Domain of a forest's readings.
proof fn lemma_values_domain_of(cs: Seq<NodeModel>, key: Seq<char>)
    ensures
        tree_values_of(cs, key).dom() =~= hosts_with_key_of(cs, key),
    decreases cs,
{
    if cs.len() > 0 {
        lemma_values_domain_of(cs.drop_last(), key);
        lemma_values_domain(cs.last(), key);
    }
}

/// Every host key of the subtree rooted here, children's first, this node's
/// own last.
pub open spec fn tree_hosts(n: NodeModel) -> Seq<Seq<char>>
    decreases n,
{
    tree_hosts_of(n.children).push(n.hostkey)
}

/// Every host key of a forest.
pub open spec fn tree_hosts_of(cs: Seq<NodeModel>) -> Seq<Seq<char>>
    decreases cs,
{
    if cs.len() == 0 {
        Seq::empty()
    } else {
        tree_hosts_of(cs.drop_last()) + tree_hosts(cs.last())
    }
}

/// Splitting a duplicate-free run of names: each half is duplicate-free and
/// the halves share no name.
proof fn lemma_unique_split(a: Seq<Seq<char>>, b: Seq<Seq<char>>)
    requires
        unique_strs(a + b),
    ensures
        unique_strs(a),
        unique_strs(b),
        strs_set(a).disjoint(strs_set(b)),
{
    let c = a + b;
    assert forall|i: int, j: int| 0 <= i < j < a.len() implies a[i] != a[j] by {
        assert(c[i] == a[i] && c[j] == a[j]);
    }
    assert forall|i: int, j: int| 0 <= i < j < b.len() implies b[i] != b[j] by {
        assert(c[a.len() + i] == b[i] && c[a.len() + j] == b[j]);
    }
    assert forall|k: Seq<char>| strs_set(a).contains(k) implies !strs_set(b).contains(k) by {
        if a.contains(k) && b.contains(k) {
            let i = choose|i: int| 0 <= i < a.len() && a[i] == k;
            let j = choose|j: int| 0 <= j < b.len() && b[j] == k;
            assert(c[i] == k && c[a.len() + j] == k);
        }
    }
}

/// The holders of a key form a finite set drawn from the subtree's host
/// keys.
proof fn lemma_hosts_with_key_shape(n: NodeModel, key: Seq<char>)
    ensures
        hosts_with_key(n, key).finite(),
        hosts_with_key(n, key).subset_of(strs_set(tree_hosts(n))),
    decreases n,
{
    lemma_hosts_with_key_shape_of(n.children, key);
    assert forall|k: Seq<char>| hosts_with_key(n, key).contains(k) implies strs_set(
        tree_hosts(n),
    ).contains(k) by {
        if hosts_with_key_of(n.children, key).contains(k) {
            let i = choose|i: int|
                0 <= i < tree_hosts_of(n.children).len() && tree_hosts_of(n.children)[i] == k;
            assert(tree_hosts(n)[i] == k);
        } else {
            assert(k == n.hostkey);
            assert(tree_hosts(n).last() == k);
        }
    }
}

/// The holders of a key in a forest form a finite set drawn from the
/// forest's host keys.
proof fn lemma_hosts_with_key_shape_of(cs: Seq<NodeModel>, key: Seq<char>)
    ensures
        hosts_with_key_of(cs, key).finite(),
        hosts_with_key_of(cs, key).subset_of(strs_set(tree_hosts_of(cs))),
    decreases cs,
{
    if cs.len() > 0 {
        lemma_hosts_with_key_shape_of(cs.drop_last(), key);
        lemma_hosts_with_key_shape(cs.last(), key);
        let pre = tree_hosts_of(cs.drop_last());
        let lasth = tree_hosts(cs.last());
        assert forall|k: Seq<char>| hosts_with_key_of(cs, key).contains(k) implies strs_set(
            tree_hosts_of(cs),
        ).contains(k) by {
            if hosts_with_key_of(cs.drop_last(), key).contains(k) {
                let i = choose|i: int| 0 <= i < pre.len() && pre[i] == k;
                assert(tree_hosts_of(cs)[i] == k);
            } else {
                assert(hosts_with_key(cs.last(), key).contains(k));
                let i = choose|i: int| 0 <= i < lasth.len() && lasth[i] == k;
                assert(tree_hosts_of(cs)[pre.len() + i] == k);
            }
        }
    }
}

/// Values cardinality: with pairwise distinct host keys, the readings of a
/// key across a subtree number exactly the nodes that hold it — one entry
/// per contributing process.
pub proof fn lemma_values_count(n: NodeModel, key: Seq<char>)
    requires
        unique_strs(tree_hosts(n)),
    ensures
        hosts_with_key(n, key).finite(),
        hosts_with_key(n, key).len() == tree_hist_count(n, key),
    decreases n,
{
    broadcast use vstd::set::axiom_set_insert_len;

    assert(tree_hosts(n) =~= tree_hosts_of(n.children) + seq![n.hostkey]);
    lemma_unique_split(tree_hosts_of(n.children), seq![n.hostkey]);
    lemma_values_count_of(n.children, key);
    lemma_hosts_with_key_shape_of(n.children, key);
    if n.counters.contains_key(key) {
        assert(seq![n.hostkey][0] == n.hostkey);
        assert(strs_set(seq![n.hostkey]).contains(n.hostkey));
        assert(!hosts_with_key_of(n.children, key).contains(n.hostkey));
    }
}

/// Forest form of the values cardinality.
proof fn lemma_values_count_of(cs: Seq<NodeModel>, key: Seq<char>)
    requires
        unique_strs(tree_hosts_of(cs)),
    ensures
        hosts_with_key_of(cs, key).finite(),
        hosts_with_key_of(cs, key).len() == tree_hist_count_of(cs, key),
    decreases cs,
{
    if cs.len() > 0 {
        lemma_unique_split(tree_hosts_of(cs.drop_last()), tree_hosts(cs.last()));
        lemma_values_count_of(cs.drop_last(), key);
        lemma_values_count(cs.last(), key);
        lemma_hosts_with_key_shape_of(cs.drop_last(), key);
        lemma_hosts_with_key_shape(cs.last(), key);
        let a = hosts_with_key_of(cs.drop_last(), key);
        let b = hosts_with_key(cs.last(), key);
        assert forall|k: Seq<char>| a.contains(k) implies !b.contains(k) by {
            assert(strs_set(tree_hosts_of(cs.drop_last())).contains(k));
        }
        vstd::set_lib::lemma_set_disjoint_lens(a, b);
    }
}

/// Number of nodes of this subtree that hold the key: what the aggregated
/// histogram's total observation count must come to.
pub open spec fn tree_hist_count(n: NodeModel, key: Seq<char>) -> int
    decreases n,
{
    (if n.counters.contains_key(key) {
        1int
    } else {
        0int
    }) + tree_hist_count_of(n.children, key)
}

/// Number of nodes of a forest that hold the key.
pub open spec fn tree_hist_count_of(cs: Seq<NodeModel>, key: Seq<char>) -> int
    decreases cs,
{
    if cs.len() == 0 {
        0
    } else {
        tree_hist_count_of(cs.drop_last(), key) + tree_hist_count(cs.last(), key)
    }
}

/// A sum of bucket counters is never negative.
pub proof fn lemma_sum_u64s_nonneg(s: Seq<u64>)
    ensures
        spec_sum_u64s(s) >= 0,
    decreases s.len(),
{
    if s.len() > 0 {
        lemma_sum_u64s_nonneg(s.drop_last());
    }
}

/// No single bucket exceeds the total.
pub proof fn lemma_sum_u64s_ge_elem(s: Seq<u64>, i: int)
    requires
        0 <= i < s.len(),
    ensures
        s[i] <= spec_sum_u64s(s),
    decreases s.len(),
{
    if i < s.len() - 1 {
        assert(s.drop_last()[i] == s[i]);
        lemma_sum_u64s_ge_elem(s.drop_last(), i);
    } else {
        lemma_sum_u64s_nonneg(s.drop_last());
    }
}

/// An all-zero histogram holds no observations.
pub proof fn lemma_sum_u64s_zero(s: Seq<u64>)
    requires
        forall|i: int| 0 <= i < s.len() ==> s[i] == 0u64,
    ensures
        spec_sum_u64s(s) == 0,
    decreases s.len(),
{
    if s.len() > 0 {
        lemma_sum_u64s_zero(s.drop_last());
    }
}

/// Changing one bucket moves the total by the difference.
pub proof fn lemma_sum_u64s_update(s: Seq<u64>, i: int, v: u64)
    requires
        0 <= i < s.len(),
    ensures
        spec_sum_u64s(s.update(i, v)) == spec_sum_u64s(s) - s[i] + v,
    decreases s.len(),
{
    if i < s.len() - 1 {
        assert(s.update(i, v).drop_last() =~= s.drop_last().update(i, v));
        assert(s.update(i, v).last() == s.last());
        lemma_sum_u64s_update(s.drop_last(), i, v);
    } else {
        assert(s.update(i, v).drop_last() =~= s.drop_last());
        assert(s.update(i, v).last() == v);
    }
}

/// While the grand total fits in a bucket counter, a wrapping merge adds the
/// totals: no bucket can wrap.
pub proof fn lemma_merge_total(a: Seq<u64>, b: Seq<u64>)
    requires
        a.len() == b.len(),
        spec_sum_u64s(a) + spec_sum_u64s(b) <= u64::MAX,
    ensures
        spec_sum_u64s(spec_merge_counts(a, b)) == spec_sum_u64s(a) + spec_sum_u64s(b),
    decreases a.len(),
{
    if a.len() > 0 {
        lemma_sum_u64s_nonneg(a.drop_last());
        lemma_sum_u64s_nonneg(b.drop_last());
        lemma_sum_u64s_ge_elem(a, a.len() - 1);
        lemma_sum_u64s_ge_elem(b, b.len() - 1);
        assert(spec_merge_counts(a, b).drop_last() =~= spec_merge_counts(
            a.drop_last(),
            b.drop_last(),
        ));
        assert(spec_merge_counts(a, b).last() == (a.last() + b.last()) as u64);
        lemma_merge_total(a.drop_last(), b.drop_last());
    }
}

/// Sum of the totals of a batch of histograms.
pub open spec fn spec_sum_totals(cs: Seq<Seq<u64>>) -> int
    decreases cs.len(),
{
    if cs.len() == 0 {
        0
    } else {
        spec_sum_totals(cs.drop_last()) + spec_sum_u64s(cs.last())
    }
}

/// Totals of a batch of histograms are never negative.
pub proof fn lemma_sum_totals_nonneg(cs: Seq<Seq<u64>>)
    ensures
        spec_sum_totals(cs) >= 0,
    decreases cs.len(),
{
    if cs.len() > 0 {
        lemma_sum_totals_nonneg(cs.drop_last());
        lemma_sum_u64s_nonneg(cs.last());
    }
}

/// While the grand total fits in a bucket counter, merging a whole batch
/// onto a base adds every total.
pub proof fn lemma_merge_all_total(base: Seq<u64>, cs: Seq<Seq<u64>>)
    requires
        forall|i: int| 0 <= i < cs.len() ==> (#[trigger] cs[i]).len() == base.len(),
        spec_sum_u64s(base) + spec_sum_totals(cs) <= u64::MAX,
        spec_sum_u64s(base) >= 0,
    ensures
        spec_merge_all(base, cs).len() == base.len(),
        spec_sum_u64s(spec_merge_all(base, cs)) == spec_sum_u64s(base) + spec_sum_totals(cs),
    decreases cs.len(),
{
    if cs.len() > 0 {
        lemma_sum_u64s_nonneg(cs.last());
        lemma_sum_totals_nonneg(cs.drop_last());
        lemma_merge_all_total(base, cs.drop_last());
        lemma_merge_total(spec_merge_all(base, cs.drop_last()), cs.last());
    }
}

/// A node's own contribution holds one observation when its key is set and
/// none otherwise.
pub proof fn lemma_local_hist_total(local: Option<u64>, lc: Seq<u64>)
    requires
        spec_local_hist(local, lc),
    ensures
        spec_sum_u64s(lc) == if local is Some {
            1int
        } else {
            0int
        },
{
    match local {
        None => {
            lemma_sum_u64s_zero(lc);
        },
        Some(v) => {
            let zeros = Seq::new(HIST_BUCKETS as nat, |j: int| 0u64);
            let i = choose|i: int|
                {
                    &&& 0 <= i < zeros.len()
                    &&& #[trigger] spec_bucket_low(HIST_GROUPING as nat, i as nat) <= v as nat
                    &&& v as nat <= spec_bucket_high(
                        HIST_GROUPING as nat,
                        HIST_MAX_VALUE_POW as nat,
                        i as nat,
                    )
                    &&& lc == zeros.update(i, (zeros[i] + 1) as u64)
                };
            lemma_sum_u64s_zero(zeros);
            lemma_sum_u64s_update(zeros, i, 1u64);
        },
    }
}

/// Histogram totals: when every child of a node reports a histogram whose
/// total is its own subtree's number of holders of the key, and this node's
/// contribution records the key once if set here, the merged histogram's
/// total is the number of holders in this node's subtree — while that number
/// fits in a bucket counter. The mean that a rendering reports is computed
/// from the buckets outside the library and is not stated here.
pub proof fn lemma_histogram_total(
    n: NodeModel,
    key: Seq<char>,
    lc: Seq<u64>,
    cs: Seq<Seq<u64>>,
)
    requires
        cs.len() == n.children.len(),
        forall|i: int| 0 <= i < cs.len() ==> (#[trigger] cs[i]).len() == lc.len(),
        forall|i: int|
            0 <= i < cs.len() ==> spec_sum_u64s(#[trigger] cs[i]) == tree_hist_count(
                n.children[i],
                key,
            ),
        spec_sum_u64s(lc) == if n.counters.contains_key(key) {
            1int
        } else {
            0int
        },
        tree_hist_count(n, key) <= u64::MAX,
    ensures
        spec_sum_u64s(spec_merge_all(lc, cs)) == tree_hist_count(n, key),
{
    lemma_sum_totals_matches(n.children, key, cs);
    lemma_tree_hist_count_nonneg_of(n.children, key);
    lemma_merge_all_total(lc, cs);
}

/// Summing correct per-subtree totals gives the forest's holder count.
proof fn lemma_sum_totals_matches(cs: Seq<NodeModel>, key: Seq<char>, totals: Seq<Seq<u64>>)
    requires
        totals.len() == cs.len(),
        forall|i: int|
            0 <= i < totals.len() ==> spec_sum_u64s(#[trigger] totals[i]) == tree_hist_count(
                cs[i],
                key,
            ),
    ensures
        spec_sum_totals(totals) == tree_hist_count_of(cs, key),
    decreases cs.len(),
{
    if cs.len() > 0 {
        assert(forall|i: int|
            0 <= i < totals.drop_last().len() ==> spec_sum_u64s(#[trigger] totals.drop_last()[i])
                == tree_hist_count(cs.drop_last()[i], key));
        lemma_sum_totals_matches(cs.drop_last(), key, totals.drop_last());
    }
}

/// A holder count is never negative.
pub proof fn lemma_tree_hist_count_nonneg(n: NodeModel, key: Seq<char>)
    ensures
        tree_hist_count(n, key) >= 0,
    decreases n,
{
    lemma_tree_hist_count_nonneg_of(n.children, key);
}

/// A forest's holder count is never negative.
proof fn lemma_tree_hist_count_nonneg_of(cs: Seq<NodeModel>, key: Seq<char>)
    ensures
        tree_hist_count_of(cs, key) >= 0,
    decreases cs,
{
    if cs.len() > 0 {
        lemma_tree_hist_count_nonneg_of(cs.drop_last(), key);
        lemma_tree_hist_count_nonneg(cs.last(), key);
    }
}

} // verus!
