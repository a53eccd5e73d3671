//! Footprints of many symbols: distributions, rankings and searches.

use crate::app::anchors;
use crate::app::dto::{
    CfDistribution, MatchView, PercentileValue, PolicyKind, RankedView, SearchItem,
    SearchResponse, StatsResponse, TopItem, TopResponse,
};
use crate::app::engine;
use crate::app::engine::{
    detailed_node_type_str, expand_class_anchor, node_type_str, ContextEngine, EngineError,
};
use crate::domain::graph::NodeIndex;
use crate::domain::node::Node;
use crate::domain::policy::SyntacticBoundaryPolicy;
use crate::domain::solver::CfSolver;
use crate::domain::sort;
use crate::domain::sort::{sort_positions, Descending};
use crate::domain::text;
use crate::domain::text::{contains_text, lowercase, same_text};
use vstd::prelude::*;
use vstd::string::StringExecFns;

verus! {

/// Sizes in ascending order.
pub open spec fn sorted_sizes(sizes: Seq<u32>) -> Seq<u32> {
    sort::stable_order(sizes.len(), sort::key_order(sizes)).map_values(|k: usize| sizes[k as int])
}

/// The sum of sizes.
pub open spec fn sum_of(sizes: Seq<u32>) -> nat
    decreases sizes.len(),
{
    if sizes.len() == 0 {
        0
    } else {
        sum_of(sizes.drop_last()) + sizes.last() as nat
    }
}

/// The percentile in steps of five: the size below which that part of the others lies.
pub open spec fn percentile_of(sorted: Seq<u32>, step: int) -> PercentileValue {
    PercentileValue {
        percentile: (5 * (step + 1)) as u32,
        tokens: sorted[percentile_place(step, sorted.len() as int)],
    }
}

/// Whether a distribution is that of some sizes.
pub open spec fn distributes(r: CfDistribution, sizes: Seq<u32>) -> bool {
    let sorted = sorted_sizes(sizes);
    &&& r.count == sizes.len()
    &&& sizes.len() == 0 ==> r.percentiles@.len() == 0 && r.average == 0 && r.median == 0 && r.min
        == 0 && r.max == 0
    &&& sizes.len() > 0 ==> {
        &&& r.percentiles@ == Seq::new(20, |k: int| percentile_of(sorted, k))
        &&& r.average == sum_of(sizes) / sizes.len()
        &&& r.median == sorted[sizes.len() as int / 2]
        &&& r.min == sorted[0]
        &&& r.max == sorted[sizes.len() - 1]
    }
}

proof fn lemma_sum_bound(sizes: Seq<u32>)
    ensures
        sum_of(sizes) <= sizes.len() * u32::MAX,
    decreases sizes.len(),
{
    if sizes.len() > 0 {
        lemma_sum_bound(sizes.drop_last());
        let n = sizes.drop_last().len();
        assert((n + 1) * u32::MAX == n * u32::MAX + u32::MAX) by (nonlinear_arith);
    }
}

/// Sums sizes.
fn add_up(sizes: &Vec<u32>) -> (r: u128)
    ensures
        r == sum_of(sizes@),
{
    let mut sum: u128 = 0;
    let mut i: usize = 0;
    assert(sizes@.take(0) =~= Seq::empty());
    while i < sizes.len()
        invariant
            i <= sizes@.len(),
            sum == sum_of(sizes@.take(i as int)),
        decreases sizes@.len() - i,
    {
        proof {
            assert(sizes@.take(i + 1).drop_last() =~= sizes@.take(i as int));
            lemma_sum_bound(sizes@.take(i as int));
            let n = i as int;
            assert(n * u32::MAX < 0x1_0000_0000_0000_0000_0000_0000) by (nonlinear_arith)
                requires
                    n <= 0xffff_ffff_ffff_ffff,
            ;
        }
        sum = sum + sizes[i] as u128;
        i += 1;
    }
    assert(sizes@.take(i as int) =~= sizes@);
    sum
}

/// The distribution of sizes: percentiles in steps of five, average, median and ends.
pub fn compute_distribution(sizes: Vec<u32>) -> (r: CfDistribution)
    ensures
        distributes(r, sizes@),
{
    let count: usize = sizes.len();
    if count == 0 {
        return CfDistribution {
            count: 0,
            percentiles: Vec::new(),
            average: 0,
            median: 0,
            min: 0,
            max: 0,
        };
    }
    let order = sort_positions(&sizes);
    let ghost sorted = sorted_sizes(sizes@);
    proof {
        assert(sorted.len() == count);
        assert(forall|k: int| 0 <= k < count ==> sorted[k] == sizes@[order@[k] as int]);
    }
    let ghost expected = Seq::new(20, |k: int| percentile_of(sorted, k));
    let mut percentiles: Vec<PercentileValue> = Vec::new();
    let mut step: u32 = 0;
    assert(percentiles@ =~= expected.take(0));
    while step < 20
        invariant
            count > 0,
            count == sizes@.len(),
            sorted == sorted_sizes(sizes@),
            sorted.len() == count,
            order@.len() == count,
            forall|k: int| 0 <= k < count ==> (#[trigger] order@[k]) < count,
            forall|k: int| 0 <= k < count ==> sorted[k] == sizes@[order@[k] as int],
            expected == Seq::new(20, |k: int| percentile_of(sorted, k)),
            step <= 20,
            percentiles@ == expected.take(step as int),
        decreases 20 - step,
    {
        let percentile: u32 = 5 * (step + 1);
        proof {
            let p = percentile as int;
            let n = count - 1;
            assert(p * n / 100 <= n) by (nonlinear_arith)
                requires
                    0 <= p <= 100,
                    0 <= n,
            ;
            assert(0 <= p * n <= 100 * n) by (nonlinear_arith)
                requires
                    0 <= p <= 100,
                    0 <= n,
            ;
        }
        let at: u128 = percentile as u128 * (count as u128 - 1) / 100;
        let tokens: u32 = sizes[order[at as usize]];
        percentiles.push(PercentileValue { percentile, tokens });
        step += 1;
        assert(percentiles@ =~= expected.take(step as int));
    }
    assert(expected.take(20) =~= expected);
    let sum: u128 = add_up(&sizes);
    proof {
        lemma_sum_bound(sizes@);
        let s = sum as int;
        let n = count as int;
        assert(s / n <= u32::MAX) by (nonlinear_arith)
            requires
                0 <= s <= n * u32::MAX,
                n > 0,
        ;
    }
    let average: u64 = (sum / count as u128) as u64;
    CfDistribution {
        count,
        percentiles,
        average,
        median: sizes[order[count / 2]],
        min: sizes[order[0]],
        max: sizes[order[count - 1]],
    }
}

proof fn lemma_sum_between(sizes: Seq<u32>, low: u32, high: u32)
    requires
        forall|i: int| 0 <= i < sizes.len() ==> low <= #[trigger] sizes[i] <= high,
    ensures
        low * sizes.len() <= sum_of(sizes) <= high * sizes.len(),
    decreases sizes.len(),
{
    let n = sizes.len() as int;
    if n > 0 {
        let rest = sizes.drop_last();
        assert(forall|i: int| 0 <= i < rest.len() ==> rest[i] == sizes[i]);
        lemma_sum_between(rest, low, high);
        assert(sizes[n - 1] == sizes.last());
        assert(low * n == low * (n - 1) + low && high * n == high * (n - 1) + high)
            by (nonlinear_arith);
    } else {
        assert(low * n == 0 && high * n == 0) by (nonlinear_arith)
            requires
                n == 0,
        ;
    }
}

/// Sorted sizes are the same sizes in ascending order.
proof fn lemma_sorted_sizes(sizes: Seq<u32>)
    requires
        sizes.len() <= usize::MAX,
    ensures
        ({
            let sorted = sorted_sizes(sizes);
            &&& sorted.len() == sizes.len()
            &&& forall|i: int, j: int|
                #![trigger sorted[i], sorted[j]]
                0 <= i <= j < sorted.len() ==> sorted[i] <= sorted[j]
            &&& forall|i: int| 0 <= i < sizes.len() ==> sorted.contains(#[trigger] sizes[i])
        }),
{
    let sorted = sorted_sizes(sizes);
    let order = sort::stable_order(sizes.len(), sort::key_order(sizes));
    sort::law_sorting_by_keys(sizes, sizes);
    sizes.to_multiset_ensures();
    sorted.to_multiset_ensures();
    assert forall|i: int, j: int|
        #![trigger sorted[i], sorted[j]]
        0 <= i <= j < sorted.len() implies sorted[i] <= sorted[j] by {
        if i < j {
            assert(!sort::SortKey::precedes(
                &sizes[order[j] as int],
                &sizes[order[i] as int],
            ));
        }
    }
    assert forall|i: int| 0 <= i < sizes.len() implies sorted.contains(#[trigger] sizes[i]) by {
        assert(sizes.contains(sizes[i]));
        assert(sizes.to_multiset().count(sizes[i]) > 0);
        assert(sorted.to_multiset().count(sizes[i]) > 0);
    }
}

/// A distribution is consistent: all sizes, the median and the average lie between
/// the smallest and the largest, percentiles ascend, and the last is the largest.
pub proof fn law_distribution_is_consistent(r: CfDistribution, sizes: Seq<u32>)
    requires
        distributes(r, sizes),
        0 < sizes.len() <= usize::MAX,
    ensures
        forall|i: int| 0 <= i < sizes.len() ==> r.min <= #[trigger] sizes[i] <= r.max,
        r.min <= r.median <= r.max,
        r.min <= r.average <= r.max,
        r.percentiles@.len() == 20,
        forall|i: int, j: int|
            #![trigger r.percentiles@[i], r.percentiles@[j]]
            0 <= i <= j < 20 ==> r.percentiles@[i].percentile <= r.percentiles@[j].percentile
                && r.percentiles@[i].tokens <= r.percentiles@[j].tokens,
        r.percentiles@[19].percentile == 100,
        r.percentiles@[19].tokens == r.max,
{
    let sorted = sorted_sizes(sizes);
    let n = sizes.len() as int;
    lemma_sorted_sizes(sizes);
    assert forall|i: int| 0 <= i < sizes.len() implies r.min <= #[trigger] sizes[i] <= r.max by {
        assert(sorted.contains(sizes[i]));
        let k = choose|k: int| 0 <= k < sorted.len() && sorted[k] == sizes[i];
        assert(sorted[0] <= sorted[k] <= sorted[n - 1]);
    }
    lemma_sum_between(sizes, r.min, r.max);
    let sum = sum_of(sizes) as int;
    let low = r.min as int;
    let high = r.max as int;
    assert(low <= sum / n <= high) by (nonlinear_arith)
        requires
            low * n <= sum <= high * n,
            n > 0,
    ;
    assert forall|i: int| 0 <= i < 20 implies 0 <= #[trigger] percentile_place(i, n) < n by {
        let p = 5 * (i + 1);
        assert(0 <= p * (n - 1) / 100 <= n - 1) by (nonlinear_arith)
            requires
                0 <= p <= 100,
                n > 0,
        ;
    }
    assert forall|i: int, j: int|
        #![trigger r.percentiles@[i], r.percentiles@[j]]
        0 <= i <= j < 20 implies r.percentiles@[i].percentile <= r.percentiles@[j].percentile
        && r.percentiles@[i].tokens <= r.percentiles@[j].tokens by {
        let p = 5 * (i + 1);
        let q = 5 * (j + 1);
        assert(p * (n - 1) / 100 <= q * (n - 1) / 100) by (nonlinear_arith)
            requires
                0 <= p <= q,
                n > 0,
        ;
        assert(0 <= percentile_place(i, n) <= percentile_place(j, n) < n);
        assert(sorted[percentile_place(i, n)] <= sorted[percentile_place(j, n)]);
    }
    let m = n - 1;
    assert(5 * (19 + 1) * m / 100 == m) by (nonlinear_arith);
    assert(percentile_place(19, n) == n - 1);
}

/// A distribution says what any ascending list of the same sizes shows: its ends, the
/// size in the middle, and for every fifth of a hundred the size at that part of the way
/// from the first to the last, rounded down. The average is the whole sum divided by the
/// number of sizes, rounded down.
pub proof fn law_distribution_describes_the_sizes(
    r: CfDistribution,
    sizes: Seq<u32>,
    ascending: Seq<u32>,
)
    requires
        distributes(r, sizes),
        sizes.len() <= usize::MAX,
        ascending.to_multiset() == sizes.to_multiset(),
        forall|i: int, j: int|
            #![trigger ascending[i], ascending[j]]
            0 <= i <= j < ascending.len() ==> ascending[i] <= ascending[j],
    ensures
        ascending.len() == sizes.len(),
        r.count == sizes.len(),
        sizes.len() == 0 ==> r.percentiles@.len() == 0 && r.average == 0 && r.median == 0 && r.min
            == 0 && r.max == 0,
        sizes.len() > 0 ==> {
            let n = sizes.len() as int;
            let sum = sizes.fold_left(0int, |total: int, size: u32| total + size);
            &&& r.min == ascending[0]
            &&& r.max == ascending[n - 1]
            &&& r.median == ascending[n / 2]
            &&& r.percentiles@.len() == 20
            &&& forall|k: int|
                #![trigger r.percentiles@[k]]
                0 <= k < 20 ==> r.percentiles@[k].percentile == 5 * k + 5
                    && r.percentiles@[k].tokens == ascending[(5 * k + 5) * (n - 1) / 100]
            &&& r.average * n <= sum < r.average * n + n
        },
{
    let sorted = sorted_sizes(sizes);
    let leq = |a: u32, b: u32| a <= b;
    lemma_sorted_sizes(sizes);
    sort::law_sorting_by_keys(sizes, sizes);
    ascending.to_multiset_ensures();
    sizes.to_multiset_ensures();
    assert(sorted.to_multiset() == ascending.to_multiset());
    assert(vstd::relations::sorted_by(sorted, leq));
    assert(vstd::relations::sorted_by(ascending, leq));
    vstd::seq_lib::lemma_sorted_unique(sorted, ascending, leq);
    if sizes.len() > 0 {
        let n = sizes.len() as int;
        let sum = sum_of(sizes) as int;
        lemma_sum_is_fold(sizes);
        assert(sum / n * n <= sum < sum / n * n + n) by (nonlinear_arith)
            requires
                n > 0,
                sum >= 0,
        ;
        assert forall|k: int| #![trigger r.percentiles@[k]] 0 <= k < 20 implies
            r.percentiles@[k].percentile == 5 * k + 5 && r.percentiles@[k].tokens
            == ascending[(5 * k + 5) * (n - 1) / 100] by {
            assert(r.percentiles@[k] == percentile_of(sorted, k));
            assert(5 * (k + 1) == 5 * k + 5);
        }
    }
}

proof fn lemma_sum_is_fold(sizes: Seq<u32>)
    ensures
        sum_of(sizes) == sizes.fold_left(0int, |total: int, size: u32| total + size),
    decreases sizes.len(),
{
    if sizes.len() > 0 {
        lemma_sum_is_fold(sizes.drop_last());
    }
}

/// The place of a percentile among so many sizes.
pub open spec fn percentile_place(step: int, n: int) -> int {
    5 * (step + 1) * (n - 1) / 100
}

/// Entries with the largest first.
pub open spec fn ranked(entries: Seq<RankedView>) -> Seq<RankedView> {
    sort::stable_order(
        entries.len(),
        sort::key_order(
            entries.map_values(|entry: RankedView| Descending { value: entry.cf }),
        ),
    ).map_values(|k: usize| entries[k as int])
}

/// A ranking holds the same entries, with the sizes descending.
pub proof fn law_ranking_descends(entries: Seq<RankedView>)
    requires
        entries.len() <= usize::MAX,
    ensures
        ranked(entries).to_multiset() == entries.to_multiset(),
        forall|i: int, j: int|
            #![trigger ranked(entries)[i], ranked(entries)[j]]
            0 <= i < j < ranked(entries).len() ==> ranked(entries)[i].cf
                >= ranked(entries)[j].cf,
{
    let keys = entries.map_values(|entry: RankedView| Descending { value: entry.cf });
    let order = sort::stable_order(entries.len(), sort::key_order(keys));
    sort::law_sorting_by_keys(entries, keys);
    assert forall|i: int, j: int|
        #![trigger ranked(entries)[i], ranked(entries)[j]]
        0 <= i < j < ranked(entries).len() implies ranked(entries)[i].cf
        >= ranked(entries)[j].cf by {
        assert(!sort::SortKey::precedes(&keys[order[j] as int], &keys[order[i] as int]));
    }
}

/// The entries of a list as values of the specification.
pub open spec fn ranked_views(list: Seq<TopItem>) -> Seq<RankedView> {
    list.map_values(|item: TopItem| item@)
}

/// Sorts entries, the largest first.
fn rank(items: &Vec<TopItem>) -> (order: Vec<usize>)
    ensures
        order@.len() == items@.len(),
        forall|k: int| 0 <= k < order@.len() ==> (#[trigger] order@[k]) < items@.len(),
        ranked(ranked_views(items@)) == order@.map_values(
            |k: usize| ranked_views(items@)[k as int],
        ),
{
    let ghost entries = ranked_views(items@);
    let ghost wanted = entries.map_values(|entry: RankedView| Descending { value: entry.cf });
    let mut keys: Vec<Descending> = Vec::new();
    let mut i: usize = 0;
    while i < items.len()
        invariant
            entries == ranked_views(items@),
            wanted == entries.map_values(|entry: RankedView| Descending { value: entry.cf }),
            i <= items@.len(),
            keys@ == wanted.take(i as int),
        decreases items@.len() - i,
    {
        keys.push(Descending { value: items[i].cf });
        i += 1;
        assert(keys@ =~= wanted.take(i as int));
    }
    assert(wanted.take(i as int) =~= wanted);
    sort_positions(&keys)
}

impl ContextEngine {
    /// The footprint of one node, without a limit.
    pub open spec fn node_footprint(
        &self,
        policy: PolicyKind,
        idx: NodeIndex,
    ) -> crate::domain::solver::Footprint {
        self.footprint(policy, seq![idx], None)
    }

    /// The size of the footprint of one node.
    pub open spec fn node_cf(&self, policy: PolicyKind, idx: NodeIndex) -> u32 {
        self.node_footprint(policy, idx).cf_total() as u32
    }

    /// For each node its symbol and its file, from which it can be told whether it is
    /// test code.
    pub fn node_subjects(&self) -> (r: Vec<(String, String)>)
        requires
            self.wf(),
        ensures
            r@.len() == self.graph.nodes().len(),
            forall|i: int|
                #![trigger r@[i]]
                0 <= i < r@.len() ==> {
                    let core_value = self.graph.nodes()[i].node_core();
                    &&& r@[i].0@ == if self.symbols().contains_key(core_value.id) {
                        self.symbols()[core_value.id]
                    } else {
                        Seq::empty()
                    }
                    &&& r@[i].1@ == core_value.file_path@
                },
    {
        let count: usize = self.graph.node_count();
        let mut r: Vec<(String, String)> = Vec::new();
        let mut i: usize = 0;
        while i < count
            invariant
                self.wf(),
                count == self.graph.nodes().len(),
                i <= count,
                r@.len() == i,
                forall|i: int|
                    #![trigger r@[i]]
                    0 <= i < r@.len() ==> {
                        let core_value = self.graph.nodes()[i].node_core();
                        &&& r@[i].0@ == if self.symbols().contains_key(core_value.id) {
                            self.symbols()[core_value.id]
                        } else {
                            Seq::empty()
                        }
                        &&& r@[i].1@ == core_value.file_path@
                    },
            decreases count - i,
        {
            let node = self.graph.node(NodeIndex::new(i));
            let id: u32 = node.node_core().id;
            assert(self.node_id_to_symbol@.map_values(|symbol: String| symbol@).contains_key(id)
                == self.node_id_to_symbol@.contains_key(id));
            let symbol = match self.node_id_to_symbol.get(&id) {
                Some(symbol) => symbol.clone(),
                None => String::new(),
            };
            r.push((symbol, node.node_core().file_path.clone()));
            i += 1;
        }
        r
    }

    /// For each symbol the symbol and the file of its node, from which it can be told
    /// whether it is test code.
    pub fn symbol_subjects(&self) -> (r: Vec<(String, String)>)
        requires
            self.wf(),
        ensures
            r@.len() == self.graph.symbol_to_node.symbols().len(),
            forall|i: int|
                #![trigger r@[i]]
                0 <= i < r@.len() ==> {
                    let symbol = self.graph.symbol_to_node.symbols()[i];
                    &&& r@[i].0@ == symbol
                    &&& r@[i].1@ == self.graph.at(
                        self.graph.symbol_to_node@[symbol],
                    ).node_core().file_path@
                },
    {
        let count: usize = self.graph.symbol_to_node.len();
        let mut r: Vec<(String, String)> = Vec::new();
        let mut i: usize = 0;
        while i < count
            invariant
                self.wf(),
                count == self.graph.symbol_to_node.symbols().len(),
                i <= count,
                r@.len() == i,
                forall|i: int|
                    #![trigger r@[i]]
                    0 <= i < r@.len() ==> {
                        let symbol = self.graph.symbol_to_node.symbols()[i];
                        &&& r@[i].0@ == symbol
                        &&& r@[i].1@ == self.graph.at(
                            self.graph.symbol_to_node@[symbol],
                        ).node_core().file_path@
                    },
            decreases count - i,
        {
            let idx = *self.graph.symbol_to_node.value_at(i);
            assert(self.graph.has(idx));
            let path = self.graph.node(idx).node_core().file_path.clone();
            r.push((self.graph.symbol_to_node.key_at(i).clone(), path));
            i += 1;
        }
        r
    }

    /// The functions among the first so many nodes, as far as they count.
    pub open spec fn counted_functions(
        &self,
        include_tests: bool,
        is_test: Seq<bool>,
        end: int,
    ) -> Seq<NodeIndex>
        decreases end,
    {
        if end <= 0 {
            Seq::empty()
        } else {
            let rest = self.counted_functions(include_tests, is_test, end - 1);
            if self.graph.nodes()[end - 1] is Function && (include_tests || !is_test[end - 1]) {
                rest.push(NodeIndex { ix: (end - 1) as u32 })
            } else {
                rest
            }
        }
    }

    /// What is answered to a request for statistics.
    pub open spec fn answers_stats(
        &self,
        include_tests: bool,
        policy: PolicyKind,
        is_test: Seq<bool>,
        r: Result<StatsResponse, EngineError>,
    ) -> bool {
        let functions = self.counted_functions(
            include_tests,
            is_test,
            self.graph.nodes().len() as int,
        );
        let representable = forall|k: int|
            0 <= k < functions.len() ==> self.node_footprint(
                policy,
                #[trigger] functions[k],
            ).representable();
        match r {
            Ok(response) => representable && distributes(
                response.functions,
                functions.map_values(|idx: NodeIndex| self.node_cf(policy, idx)),
            ),
            Err(error) => error == EngineError::Unrepresentable && !representable,
        }
    }

    /// The distribution of the footprints of all functions. `is_test` tells for each
    /// node whether it is test code.
    pub fn stats(&self, include_tests: bool, policy: PolicyKind, is_test: &Vec<bool>) -> (r: Result<
        StatsResponse,
        EngineError,
    >)
        requires
            self.wf(),
            is_test@.len() == self.graph.nodes().len(),
        ensures
            self.answers_stats(include_tests, policy, is_test@, r),
    {
        let ghost functions = self.counted_functions(
            include_tests,
            is_test@,
            self.graph.nodes().len() as int,
        );
        let ghost all = functions.map_values(|idx: NodeIndex| self.node_cf(policy, idx));
        let solver = self.make_solver(policy);
        let count: usize = self.graph.node_count();
        let mut sizes: Vec<u32> = Vec::new();
        let mut i: usize = 0;
        assert(sizes@ =~= Seq::<NodeIndex>::empty().map_values(
            |idx: NodeIndex| self.node_cf(policy, idx),
        ));
        while i < count
            invariant
                self.wf(),
                solver == self.solver_for(policy),
                count == self.graph.nodes().len(),
                is_test@.len() == count,
                functions == self.counted_functions(include_tests, is_test@, count as int),
                i <= count,
                sizes@ == self.counted_functions(include_tests, is_test@, i as int).map_values(
                    |idx: NodeIndex| self.node_cf(policy, idx),
                ),
                forall|k: int|
                    0 <= k < self.counted_functions(include_tests, is_test@, i as int).len()
                        ==> self.node_footprint(
                        policy,
                        #[trigger] self.counted_functions(include_tests, is_test@, i as int)[k],
                    ).representable(),
            decreases count - i,
        {
            let idx = NodeIndex::new(i);
            let counts: bool = match self.graph.node(idx) {
                Node::Function(_) => include_tests || !is_test[i],
                Node::Variable(_) => false,
            };
            let ghost before = self.counted_functions(include_tests, is_test@, i as int);
            if counts {
                match solver.try_compute_cf_total(idx) {
                    Some(cf) => {
                        sizes.push(cf);
                        proof {
                            let after = before.push(idx);
                            assert(after.map_values(|idx: NodeIndex| self.node_cf(policy, idx))
                                =~= before.map_values(
                                |idx: NodeIndex| self.node_cf(policy, idx),
                            ).push(cf));
                            assert forall|k: int| 0 <= k < after.len() implies self.node_footprint(
                                policy,
                                #[trigger] after[k],
                            ).representable() by {
                                if k < before.len() {
                                    assert(after[k] == before[k]);
                                }
                            }
                        }
                    },
                    None => {
                        proof {
                            self.lemma_counted_prefix(
                                include_tests,
                                is_test@,
                                i + 1,
                                count as int,
                            );
                            let k = before.len() as int;
                            assert(functions[k] == idx);
                            assert(!self.node_footprint(policy, functions[k]).representable());
                        }
                        return Err(EngineError::Unrepresentable);
                    },
                }
            }
            i += 1;
        }
        Ok(StatsResponse { functions: compute_distribution(sizes) })
    }

    /// What counts among fewer nodes comes first.
    proof fn lemma_counted_prefix(
        &self,
        include_tests: bool,
        is_test: Seq<bool>,
        a: int,
        b: int,
    )
        requires
            0 <= a <= b,
        ensures
            ({
                let short = self.counted_functions(include_tests, is_test, a);
                let long = self.counted_functions(include_tests, is_test, b);
                short.len() <= long.len() && forall|k: int|
                    0 <= k < short.len() ==> #[trigger] long[k] == short[k]
            }),
        decreases b,
    {
        if a < b {
            self.lemma_counted_prefix(include_tests, is_test, a, b - 1);
        }
    }

    /// Whether a node is of a kind that is asked for.
    pub open spec fn is_of_type(&self, node: Node, node_type: Seq<char>) -> bool {
        node_type == "all"@ || node_type == engine::detailed_type_text(node) || node_type
            == engine::node_type_text(node)
    }

    /// Those of the first so many symbols that are asked for by type.
    pub open spec fn typed_symbols(
        &self,
        node_type: Seq<char>,
        include_tests: bool,
        is_test: Seq<bool>,
        end: int,
    ) -> Seq<Seq<char>>
        decreases end,
    {
        if end <= 0 {
            Seq::empty()
        } else {
            let rest = self.typed_symbols(node_type, include_tests, is_test, end - 1);
            let symbol = self.graph.symbol_to_node.symbols()[end - 1];
            if self.is_of_type(self.graph.at(self.graph.symbol_to_node@[symbol]), node_type) && (
            include_tests || !is_test[end - 1]) {
                rest.push(symbol)
            } else {
                rest
            }
        }
    }

    /// The entry of a symbol in a ranking.
    pub open spec fn entry_of(&self, policy: PolicyKind, symbol: Seq<char>) -> RankedView {
        let idx = self.graph.symbol_to_node@[symbol];
        RankedView {
            symbol,
            node_type: engine::detailed_type_text(self.graph.at(idx)),
            cf: self.node_cf(policy, idx),
        }
    }

    /// Whether the footprints of the symbols of a list can be represented.
    pub open spec fn symbols_representable(
        &self,
        policy: PolicyKind,
        symbols: Seq<Seq<char>>,
    ) -> bool {
        forall|k: int|
            0 <= k < symbols.len() ==> self.node_footprint(
                policy,
                self.graph.symbol_to_node@[#[trigger] symbols[k]],
            ).representable()
    }

    /// Makes the entry of a symbol in a ranking.
    fn make_entry(
        &self,
        solver: &CfSolver<SyntacticBoundaryPolicy>,
        i: usize,
        Ghost(policy): Ghost<PolicyKind>,
    ) -> (r: Option<TopItem>)
        requires
            self.wf(),
            *solver == self.solver_for(policy),
            i < self.graph.symbol_to_node.symbols().len(),
        ensures
            ({
                let symbol = self.graph.symbol_to_node.symbols()[i as int];
                match r {
                    Some(item) => item@ == self.entry_of(policy, symbol) && self.node_footprint(
                        policy,
                        self.graph.symbol_to_node@[symbol],
                    ).representable(),
                    None => !self.node_footprint(
                        policy,
                        self.graph.symbol_to_node@[symbol],
                    ).representable(),
                }
            }),
    {
        let idx = *self.graph.symbol_to_node.value_at(i);
        assert(self.graph.has(idx));
        match solver.try_compute_cf_total(idx) {
            Some(cf) => Some(
                TopItem {
                    symbol: self.graph.symbol_to_node.key_at(i).clone(),
                    node_type: String::from_str(detailed_node_type_str(self.graph.node(idx))),
                    cf,
                },
            ),
            None => None,
        }
    }

    /// What is asked for among fewer symbols comes first.
    proof fn lemma_typed_prefix(
        &self,
        node_type: Seq<char>,
        include_tests: bool,
        is_test: Seq<bool>,
        a: int,
        b: int,
    )
        requires
            0 <= a <= b,
        ensures
            ({
                let short = self.typed_symbols(node_type, include_tests, is_test, a);
                let long = self.typed_symbols(node_type, include_tests, is_test, b);
                short.len() <= long.len() && forall|k: int|
                    0 <= k < short.len() ==> #[trigger] long[k] == short[k]
            }),
        decreases b,
    {
        if a < b {
            self.lemma_typed_prefix(node_type, include_tests, is_test, a, b - 1);
        }
    }

    /// What is answered to a request for the largest footprints.
    pub open spec fn answers_top(
        &self,
        limit: usize,
        node_type: Seq<char>,
        include_tests: bool,
        policy: PolicyKind,
        is_test: Seq<bool>,
        r: Result<TopResponse, EngineError>,
    ) -> bool {
        let symbols = self.typed_symbols(
            node_type,
            include_tests,
            is_test,
            is_test.len() as int,
        );
        let entries = symbols.map_values(
            |symbol: Seq<char>| self.entry_of(policy, symbol),
        );
        match r {
            Ok(response) => self.symbols_representable(policy, symbols) && ranked_views(
                response.items@,
            ) == ranked(entries).take(
                if limit < entries.len() {
                    limit as int
                } else {
                    entries.len() as int
                },
            ),
            Err(error) => error == EngineError::Unrepresentable
                && !self.symbols_representable(policy, symbols),
        }
    }

    /// The symbols with the largest footprints. `is_test` tells for each symbol whether
    /// it is test code.
    pub fn top(
        &self,
        limit: usize,
        node_type: &str,
        include_tests: bool,
        policy: PolicyKind,
        is_test: &Vec<bool>,
    ) -> (r: Result<TopResponse, EngineError>)
        requires
            self.wf(),
            is_test@.len() == self.graph.symbol_to_node.symbols().len(),
        ensures
            self.answers_top(limit, node_type@, include_tests, policy, is_test@, r),
    {
        let ghost symbols = self.typed_symbols(
            node_type@,
            include_tests,
            is_test@,
            is_test@.len() as int,
        );
        let solver = self.make_solver(policy);
        let n: usize = self.graph.symbol_to_node.len();
        let mut items: Vec<TopItem> = Vec::new();
        let mut i: usize = 0;
        assert(ranked_views(items@) =~= Seq::<Seq<char>>::empty().map_values(
            |symbol: Seq<char>| self.entry_of(policy, symbol),
        ));
        while i < n
            invariant
                self.wf(),
                solver == self.solver_for(policy),
                n == self.graph.symbol_to_node.symbols().len(),
                is_test@.len() == n,
                symbols == self.typed_symbols(node_type@, include_tests, is_test@, n as int),
                i <= n,
                ranked_views(items@) == self.typed_symbols(
                    node_type@,
                    include_tests,
                    is_test@,
                    i as int,
                ).map_values(|symbol: Seq<char>| self.entry_of(policy, symbol)),
                self.symbols_representable(
                    policy,
                    self.typed_symbols(node_type@, include_tests, is_test@, i as int),
                ),
            decreases n - i,
        {
            let idx = *self.graph.symbol_to_node.value_at(i);
            assert(self.graph.has(idx));
            let node = self.graph.node(idx);
            let wanted: bool = same_text(node_type, "all") || same_text(
                node_type,
                detailed_node_type_str(node),
            ) || same_text(node_type, node_type_str(node));
            let ghost before = self.typed_symbols(node_type@, include_tests, is_test@, i as int);
            let ghost symbol = self.graph.symbol_to_node.symbols()[i as int];
            if wanted && (include_tests || !is_test[i]) {
                match self.make_entry(&solver, i, Ghost(policy)) {
                    Some(item) => {
                        let ghost had = ranked_views(items@);
                        items.push(item);
                        proof {
                            let after = before.push(symbol);
                            assert(ranked_views(items@) =~= had.push(item@));
                            assert(after.map_values(
                                |symbol: Seq<char>| self.entry_of(policy, symbol),
                            ) =~= had.push(item@));
                            assert forall|k: int| 0 <= k < after.len() implies self.node_footprint(
                                policy,
                                self.graph.symbol_to_node@[#[trigger] after[k]],
                            ).representable() by {
                                if k < before.len() {
                                    assert(after[k] == before[k]);
                                }
                            }
                        }
                    },
                    None => {
                        proof {
                            self.lemma_typed_prefix(
                                node_type@,
                                include_tests,
                                is_test@,
                                i + 1,
                                n as int,
                            );
                            let k = before.len() as int;
                            assert(symbols[k] == symbol);
                        }
                        return Err(EngineError::Unrepresentable);
                    },
                }
            }
            i += 1;
        }
        let order = rank(&items);
        let ghost entries = ranked_views(items@);
        let shown: usize = if limit < order.len() {
            limit
        } else {
            order.len()
        };
        let mut ranking: Vec<TopItem> = Vec::new();
        let mut j: usize = 0;
        assert(ranked_views(ranking@) =~= ranked(entries).take(0));
        while j < shown
            invariant
                entries == ranked_views(items@),
                order@.len() == items@.len(),
                forall|k: int| 0 <= k < order@.len() ==> (#[trigger] order@[k]) < items@.len(),
                ranked(entries) == order@.map_values(|k: usize| entries[k as int]),
                j <= shown <= order@.len(),
                ranked_views(ranking@) == ranked(entries).take(j as int),
            decreases shown - j,
        {
            let item = &items[order[j]];
            let copy = TopItem {
                symbol: item.symbol.clone(),
                node_type: item.node_type.clone(),
                cf: item.cf,
            };
            let ghost before = ranked_views(ranking@);
            ranking.push(copy);
            j += 1;
            assert(ranked_views(ranking@) =~= before.push(copy@));
            assert(ranked(entries).take(j as int) =~= before.push(
                entries[order@[j - 1] as int],
            ));
        }
        Ok(TopResponse { items: ranking })
    }

    /// Those of the first so many symbols that a text occurs in, given the symbols in
    /// lower case.
    pub open spec fn matching_symbols(
        &self,
        needle: Seq<char>,
        lowered: Seq<Seq<char>>,
        include_tests: bool,
        is_test: Seq<bool>,
        end: int,
    ) -> Seq<Seq<char>>
        decreases end,
    {
        if end <= 0 {
            Seq::empty()
        } else {
            let rest = self.matching_symbols(needle, lowered, include_tests, is_test, end - 1);
            if text::occurs(needle, lowered[end - 1]) && (include_tests || !is_test[end - 1]) {
                rest.push(self.graph.symbol_to_node.symbols()[end - 1])
            } else {
                rest
            }
        }
    }

    /// Those of the first so many types that a text occurs in and that are no nodes,
    /// given the types in lower case.
    pub open spec fn matching_types(
        &self,
        needle: Seq<char>,
        lowered: Seq<Seq<char>>,
        end: int,
    ) -> Seq<Seq<char>>
        decreases end,
    {
        if end <= 0 {
            Seq::empty()
        } else {
            let rest = self.matching_types(needle, lowered, end - 1);
            let type_id = self.graph.type_registry.ids()[end - 1];
            if text::occurs(needle, lowered[end - 1])
                && !self.graph.symbol_to_node@.contains_key(type_id) {
                rest.push(type_id)
            } else {
                rest
            }
        }
    }

    /// The footprint of the public methods of a class.
    pub open spec fn class_footprint(
        &self,
        policy: PolicyKind,
        type_id: Seq<char>,
    ) -> crate::domain::solver::Footprint {
        self.footprint(
            policy,
            anchors::nodes_of(*self.graph, engine::public_members(*self.graph, type_id)),
            None,
        )
    }

    /// Whether a class gets the size of a footprint in a search.
    pub open spec fn is_sized(&self, with_cf: bool, type_id: Seq<char>) -> bool {
        with_cf && engine::public_members(*self.graph, type_id).len() > 0
    }

    /// The entry of a class in a search.
    pub open spec fn class_entry(
        &self,
        policy: PolicyKind,
        with_cf: bool,
        type_id: Seq<char>,
    ) -> RankedView {
        RankedView {
            symbol: type_id,
            node_type: "class"@,
            cf: if self.is_sized(with_cf, type_id) {
                self.class_footprint(policy, type_id).cf_total() as u32
            } else {
                0
            },
        }
    }

    /// Whether the footprints of the classes of a list can be represented, as far as
    /// they are computed.
    pub open spec fn classes_representable(
        &self,
        policy: PolicyKind,
        with_cf: bool,
        types: Seq<Seq<char>>,
    ) -> bool {
        forall|k: int|
            0 <= k < types.len() && self.is_sized(with_cf, #[trigger] types[k])
                ==> self.class_footprint(policy, types[k]).representable()
    }

    proof fn lemma_matching_prefix(
        &self,
        needle: Seq<char>,
        lowered: Seq<Seq<char>>,
        include_tests: bool,
        is_test: Seq<bool>,
        a: int,
        b: int,
    )
        requires
            0 <= a <= b,
        ensures
            ({
                let short = self.matching_symbols(needle, lowered, include_tests, is_test, a);
                let long = self.matching_symbols(needle, lowered, include_tests, is_test, b);
                short.len() <= long.len() && forall|k: int|
                    0 <= k < short.len() ==> #[trigger] long[k] == short[k]
            }),
        decreases b,
    {
        if a < b {
            self.lemma_matching_prefix(needle, lowered, include_tests, is_test, a, b - 1);
        }
    }

    proof fn lemma_types_prefix(
        &self,
        needle: Seq<char>,
        lowered: Seq<Seq<char>>,
        a: int,
        b: int,
    )
        requires
            0 <= a <= b,
        ensures
            ({
                let short = self.matching_types(needle, lowered, a);
                let long = self.matching_types(needle, lowered, b);
                short.len() <= long.len() && forall|k: int|
                    0 <= k < short.len() ==> #[trigger] long[k] == short[k]
            }),
        decreases b,
    {
        if a < b {
            self.lemma_types_prefix(needle, lowered, a, b - 1);
        }
    }

    /// The entries of symbols that match.
    fn match_symbols(
        &self,
        needle: &str,
        lowered: &Vec<String>,
        include_tests: bool,
        policy: PolicyKind,
        is_test: &Vec<bool>,
    ) -> (r: Option<Vec<TopItem>>)
        requires
            self.wf(),
            lowered@.len() == self.graph.symbol_to_node.symbols().len(),
            is_test@.len() == lowered@.len(),
        ensures
            ({
                let symbols = self.matching_symbols(
                    needle@,
                    text::texts(lowered@),
                    include_tests,
                    is_test@,
                    lowered@.len() as int,
                );
                match r {
                    Some(items) => self.symbols_representable(policy, symbols) && ranked_views(
                        items@,
                    ) == symbols.map_values(|symbol: Seq<char>| self.entry_of(policy, symbol)),
                    None => !self.symbols_representable(policy, symbols),
                }
            }),
    {
        let ghost low = text::texts(lowered@);
        let ghost symbols = self.matching_symbols(
            needle@,
            low,
            include_tests,
            is_test@,
            lowered@.len() as int,
        );
        let solver = self.make_solver(policy);
        let n: usize = lowered.len();
        let mut items: Vec<TopItem> = Vec::new();
        let mut i: usize = 0;
        assert(ranked_views(items@) =~= Seq::<Seq<char>>::empty().map_values(
            |symbol: Seq<char>| self.entry_of(policy, symbol),
        ));
        while i < n
            invariant
                self.wf(),
                solver == self.solver_for(policy),
                low == text::texts(lowered@),
                n == lowered@.len(),
                n == self.graph.symbol_to_node.symbols().len(),
                is_test@.len() == n,
                symbols == self.matching_symbols(needle@, low, include_tests, is_test@, n as int),
                i <= n,
                ranked_views(items@) == self.matching_symbols(
                    needle@,
                    low,
                    include_tests,
                    is_test@,
                    i as int,
                ).map_values(|symbol: Seq<char>| self.entry_of(policy, symbol)),
                self.symbols_representable(
                    policy,
                    self.matching_symbols(needle@, low, include_tests, is_test@, i as int),
                ),
            decreases n - i,
        {
            let ghost before = self.matching_symbols(
                needle@,
                low,
                include_tests,
                is_test@,
                i as int,
            );
            let ghost symbol = self.graph.symbol_to_node.symbols()[i as int];
            assert(low[i as int] == lowered@[i as int]@);
            if contains_text(lowered[i].as_str(), needle) && (include_tests || !is_test[i]) {
                match self.make_entry(&solver, i, Ghost(policy)) {
                    Some(item) => {
                        let ghost had = ranked_views(items@);
                        items.push(item);
                        proof {
                            let after = before.push(symbol);
                            assert(ranked_views(items@) =~= had.push(item@));
                            assert(after.map_values(
                                |symbol: Seq<char>| self.entry_of(policy, symbol),
                            ) =~= had.push(item@));
                            assert forall|k: int| 0 <= k < after.len() implies self.node_footprint(
                                policy,
                                self.graph.symbol_to_node@[#[trigger] after[k]],
                            ).representable() by {
                                if k < before.len() {
                                    assert(after[k] == before[k]);
                                }
                            }
                        }
                    },
                    None => {
                        proof {
                            self.lemma_matching_prefix(
                                needle@,
                                low,
                                include_tests,
                                is_test@,
                                i + 1,
                                n as int,
                            );
                            let k = before.len() as int;
                            assert(symbols[k] == symbol);
                        }
                        return None;
                    },
                }
            }
            i += 1;
        }
        Some(items)
    }

    /// Makes the entry of a class in a search.
    fn make_class_entry(
        &self,
        solver: &CfSolver<SyntacticBoundaryPolicy>,
        type_id: &String,
        with_cf: bool,
        Ghost(policy): Ghost<PolicyKind>,
    ) -> (r: Option<TopItem>)
        requires
            self.wf(),
            *solver == self.solver_for(policy),
        ensures
            match r {
                Some(item) => item@ == self.class_entry(policy, with_cf, type_id@) && (
                self.is_sized(with_cf, type_id@) ==> self.class_footprint(
                    policy,
                    type_id@,
                ).representable()),
                None => self.is_sized(with_cf, type_id@) && !self.class_footprint(
                    policy,
                    type_id@,
                ).representable(),
            },
    {
        let expanded = expand_class_anchor(&self.graph, type_id.as_str());
        let ghost members = engine::public_members(self.context_graph(), type_id@);
        assert(members.len() == expanded@.len());
        let mut cf: u32 = 0;
        if with_cf && !expanded.is_empty() {
            let mut starts: Vec<NodeIndex> = Vec::new();
            let mut i: usize = 0;
            assert(starts@ =~= anchors::nodes_of(*self.graph, members.take(0)));
            while i < expanded.len()
                invariant
                    self.wf(),
                    members == text::texts(expanded@),
                    forall|k: int|
                        0 <= k < expanded@.len() ==> self.graph.symbol_to_node@.contains_key(
                            (#[trigger] expanded@[k])@,
                        ),
                    i <= expanded@.len(),
                    starts@ == anchors::nodes_of(*self.graph, members.take(i as int)),
                    forall|k: int| 0 <= k < starts@.len() ==> self.graph.has(#[trigger] starts@[k]),
                decreases expanded@.len() - i,
            {
                if let Some(idx) = self.graph.get_node_by_symbol(expanded[i].as_str()) {
                    starts.push(idx);
                }
                i += 1;
                assert(starts@ =~= anchors::nodes_of(*self.graph, members.take(i as int)));
            }
            assert(members.take(i as int) =~= members);
            match solver.try_compute_cf(starts.as_slice(), None) {
                Some(result) => {
                    cf = result.total_context_size;
                },
                None => {
                    return None;
                },
            }
        }
        Some(TopItem { symbol: type_id.clone(), node_type: String::from_str("class"), cf })
    }

    /// The entries of classes that match.
    fn match_types(
        &self,
        needle: &str,
        type_ids: &Vec<String>,
        lowered: &Vec<String>,
        with_cf: bool,
        policy: PolicyKind,
    ) -> (r: Option<Vec<TopItem>>)
        requires
            self.wf(),
            text::texts(type_ids@) == self.graph.type_registry.ids(),
            lowered@.len() == type_ids@.len(),
        ensures
            ({
                let types = self.matching_types(
                    needle@,
                    text::texts(lowered@),
                    lowered@.len() as int,
                );
                match r {
                    Some(items) => self.classes_representable(policy, with_cf, types)
                        && ranked_views(items@) == types.map_values(
                        |type_id: Seq<char>| self.class_entry(policy, with_cf, type_id),
                    ),
                    None => !self.classes_representable(policy, with_cf, types),
                }
            }),
    {
        let ghost low = text::texts(lowered@);
        let ghost types = self.matching_types(needle@, low, lowered@.len() as int);
        let solver = self.make_solver(policy);
        let n: usize = lowered.len();
        let mut items: Vec<TopItem> = Vec::new();
        let mut i: usize = 0;
        assert(ranked_views(items@) =~= Seq::<Seq<char>>::empty().map_values(
            |type_id: Seq<char>| self.class_entry(policy, with_cf, type_id),
        ));
        while i < n
            invariant
                self.wf(),
                solver == self.solver_for(policy),
                low == text::texts(lowered@),
                n == lowered@.len(),
                n == type_ids@.len(),
                text::texts(type_ids@) == self.graph.type_registry.ids(),
                types == self.matching_types(needle@, low, n as int),
                i <= n,
                ranked_views(items@) == self.matching_types(needle@, low, i as int).map_values(
                    |type_id: Seq<char>| self.class_entry(policy, with_cf, type_id),
                ),
                self.classes_representable(
                    policy,
                    with_cf,
                    self.matching_types(needle@, low, i as int),
                ),
            decreases n - i,
        {
            let ghost before = self.matching_types(needle@, low, i as int);
            let type_id = &type_ids[i];
            proof {
                assert(low[i as int] == lowered@[i as int]@);
                assert(self.graph.type_registry.ids()[i as int] == type_id@);
            }
            if contains_text(lowered[i].as_str(), needle)
                && !self.graph.symbol_to_node.contains_key(type_id.as_str()) {
                match self.make_class_entry(&solver, type_id, with_cf, Ghost(policy)) {
                    Some(item) => {
                        let ghost had = ranked_views(items@);
                        items.push(item);
                        proof {
                            let after = before.push(type_id@);
                            assert(ranked_views(items@) =~= had.push(item@));
                            assert(after.map_values(
                                |type_id: Seq<char>| self.class_entry(policy, with_cf, type_id),
                            ) =~= had.push(item@));
                            assert forall|k: int|
                                0 <= k < after.len() && self.is_sized(
                                    with_cf,
                                    #[trigger] after[k],
                                ) implies self.class_footprint(policy, after[k]).representable() by {
                                if k < before.len() {
                                    assert(after[k] == before[k]);
                                }
                            }
                        }
                    },
                    None => {
                        proof {
                            self.lemma_types_prefix(needle@, low, i + 1, n as int);
                            let k = before.len() as int;
                            assert(types[k] == type_id@);
                        }
                        return None;
                    },
                }
            }
            i += 1;
        }
        Some(items)
    }

    /// All entries of a search, given symbols and types in lower case.
    pub open spec fn search_entries(
        &self,
        needle: Seq<char>,
        symbols: Seq<Seq<char>>,
        types: Seq<Seq<char>>,
        with_cf: bool,
        include_tests: bool,
        policy: PolicyKind,
        is_test: Seq<bool>,
    ) -> Seq<RankedView> {
        self.matching_symbols(
            needle,
            symbols,
            include_tests,
            is_test,
            symbols.len() as int,
        ).map_values(|symbol: Seq<char>| self.entry_of(policy, symbol)) + self.matching_types(
            needle,
            types,
            types.len() as int,
        ).map_values(|type_id: Seq<char>| self.class_entry(policy, with_cf, type_id))
    }

    /// Whether all footprints of a search can be represented.
    pub open spec fn search_representable(
        &self,
        needle: Seq<char>,
        symbols: Seq<Seq<char>>,
        types: Seq<Seq<char>>,
        with_cf: bool,
        include_tests: bool,
        policy: PolicyKind,
        is_test: Seq<bool>,
    ) -> bool {
        &&& self.symbols_representable(
            policy,
            self.matching_symbols(
                needle,
                symbols,
                include_tests,
                is_test,
                symbols.len() as int,
            ),
        )
        &&& self.classes_representable(
            policy,
            with_cf,
            self.matching_types(needle, types, types.len() as int),
        )
    }

    /// Searches for a text, given the symbols and types in lower case. Nodes come with
    /// their footprints, and classes with those of their public methods. The largest
    /// come first; sizes are shown if they or a limit were asked for.
    pub fn search_lowered(
        &self,
        needle: &str,
        lowered_symbols: &Vec<String>,
        lowered_types: &Vec<String>,
        with_cf: bool,
        limit: Option<usize>,
        include_tests: bool,
        policy: PolicyKind,
        is_test: &Vec<bool>,
    ) -> (r: Result<SearchResponse, EngineError>)
        requires
            self.wf(),
            lowered_symbols@.len() == self.graph.symbol_to_node.symbols().len(),
            lowered_types@.len() == self.graph.type_registry.ids().len(),
            is_test@.len() == lowered_symbols@.len(),
            lowered_symbols@.len() + lowered_types@.len() <= usize::MAX,
        ensures
            ({
                let symbols = text::texts(lowered_symbols@);
                let types = text::texts(lowered_types@);
                let representable = self.search_representable(
                    needle@,
                    symbols,
                    types,
                    with_cf,
                    include_tests,
                    policy,
                    is_test@,
                );
                match r {
                    Ok(response) => representable && search_shows(
                        response,
                        self.search_entries(
                            needle@,
                            symbols,
                            types,
                            with_cf,
                            include_tests,
                            policy,
                            is_test@,
                        ),
                        with_cf,
                        limit,
                    ),
                    Err(error) => error == EngineError::Unrepresentable && !representable,
                }
            }),
    {
        let mut matches = match self.match_symbols(
            needle,
            lowered_symbols,
            include_tests,
            policy,
            is_test,
        ) {
            Some(items) => items,
            None => {
                return Err(EngineError::Unrepresentable);
            },
        };
        let type_ids = self.graph.type_registry.type_ids();
        assert(text::texts(type_ids@).len() == type_ids@.len());
        let mut classes = match self.match_types(
            needle,
            &type_ids,
            lowered_types,
            with_cf,
            policy,
        ) {
            Some(items) => items,
            None => {
                return Err(EngineError::Unrepresentable);
            },
        };
        let ghost entries = ranked_views(matches@) + ranked_views(classes@);
        matches.append(&mut classes);
        assert(ranked_views(matches@) =~= entries);
        let total_matches: usize = matches.len();
        let order = rank(&matches);
        let shown: usize = match limit {
            Some(limit) => if limit < total_matches {
                limit
            } else {
                total_matches
            },
            None => total_matches,
        };
        let with_sizes: bool = with_cf || limit.is_some();
        let ghost expected = ranked(entries).take(shown as int).map_values(
            |entry: RankedView| match_of(entry, with_sizes),
        );
        let mut items: Vec<SearchItem> = Vec::new();
        let mut j: usize = 0;
        assert(items@.map_values(|item: SearchItem| item@) =~= expected.take(0));
        while j < shown
            invariant
                entries == ranked_views(matches@),
                order@.len() == matches@.len(),
                forall|k: int| 0 <= k < order@.len() ==> (#[trigger] order@[k]) < matches@.len(),
                ranked(entries) == order@.map_values(|k: usize| entries[k as int]),
                j <= shown <= order@.len(),
                expected == ranked(entries).take(shown as int).map_values(
                    |entry: RankedView| match_of(entry, with_sizes),
                ),
                items@.map_values(|item: SearchItem| item@) == expected.take(j as int),
            decreases shown - j,
        {
            let found = &matches[order[j]];
            let item = SearchItem {
                symbol: found.symbol.clone(),
                node_type: found.node_type.clone(),
                cf: if with_sizes {
                    Some(found.cf)
                } else {
                    None
                },
            };
            let ghost before = items@;
            items.push(item);
            proof {
                assert(items@.map_values(|item: SearchItem| item@) =~= before.map_values(
                    |item: SearchItem| item@,
                ).push(item@));
                assert(expected[j as int] == match_of(entries[order@[j as int] as int], with_sizes));
                assert(expected.take(j + 1) =~= expected.take(j as int).push(
                    expected[j as int],
                ));
            }
            j += 1;
        }
        assert(expected.take(j as int) =~= expected);
        Ok(SearchResponse { items, total_matches })
    }

    /// What is answered to a search.
    pub open spec fn answers_search(
        &self,
        pattern: Seq<char>,
        with_cf: bool,
        limit: Option<usize>,
        include_tests: bool,
        policy: PolicyKind,
        is_test: Seq<bool>,
        r: Result<SearchResponse, EngineError>,
    ) -> bool {
        let needle = text::lowercase_of(pattern);
        let symbols = lowercase_all(self.graph.symbol_to_node.symbols());
        let types = lowercase_all(self.graph.type_registry.ids());
        let representable = self.search_representable(
            needle,
            symbols,
            types,
            with_cf,
            include_tests,
            policy,
            is_test,
        );
        match r {
            Ok(response) => representable && search_shows(
                response,
                self.search_entries(
                    needle,
                    symbols,
                    types,
                    with_cf,
                    include_tests,
                    policy,
                    is_test,
                ),
                with_cf,
                limit,
            ),
            Err(error) => error == EngineError::Unrepresentable && !representable,
        }
    }

    /// Searches for symbols and classes in which a pattern occurs, without regard to
    /// case. `is_test` tells for each symbol whether it is test code.
    pub fn search(
        &self,
        pattern: &str,
        with_cf: bool,
        limit: Option<usize>,
        include_tests: bool,
        policy: PolicyKind,
        is_test: &Vec<bool>,
    ) -> (r: Result<SearchResponse, EngineError>)
        requires
            self.wf(),
            is_test@.len() == self.graph.symbol_to_node.symbols().len(),
            self.graph.symbol_to_node.symbols().len() + self.graph.type_registry.ids().len()
                <= usize::MAX,
        ensures
            self.answers_search(pattern@, with_cf, limit, include_tests, policy, is_test@, r),
    {
        let needle = lowercase(pattern);
        let n: usize = self.graph.symbol_to_node.len();
        let ghost symbols = self.context_graph().symbol_to_node.symbols();
        let mut lowered_symbols: Vec<String> = Vec::new();
        let mut i: usize = 0;
        assert(text::texts(lowered_symbols@) =~= lowercase_all(symbols).take(0));
        while i < n
            invariant
                self.wf(),
                symbols == self.graph.symbol_to_node.symbols(),
                n == symbols.len(),
                i <= n,
                text::texts(lowered_symbols@) == lowercase_all(symbols).take(i as int),
            decreases n - i,
        {
            let ghost before = text::texts(lowered_symbols@);
            let low = lowercase(self.graph.symbol_to_node.key_at(i).as_str());
            lowered_symbols.push(low);
            assert(text::texts(lowered_symbols@) =~= before.push(low@));
            i += 1;
            assert(lowercase_all(symbols).take(i as int) =~= before.push(
                text::lowercase_of(symbols[i - 1]),
            ));
        }
        assert(lowercase_all(symbols).take(i as int) =~= lowercase_all(symbols));
        let type_ids = self.graph.type_registry.type_ids();
        let ghost types = text::texts(type_ids@);
        let mut lowered_types: Vec<String> = Vec::new();
        let mut j: usize = 0;
        assert(text::texts(lowered_types@) =~= lowercase_all(types).take(0));
        while j < type_ids.len()
            invariant
                types == text::texts(type_ids@),
                j <= type_ids@.len(),
                text::texts(lowered_types@) == lowercase_all(types).take(j as int),
            decreases type_ids@.len() - j,
        {
            let ghost before = text::texts(lowered_types@);
            let low = lowercase(type_ids[j].as_str());
            lowered_types.push(low);
            assert(text::texts(lowered_types@) =~= before.push(low@));
            j += 1;
            assert(lowercase_all(types).take(j as int) =~= before.push(
                text::lowercase_of(types[j - 1]),
            ));
        }
        proof {
            assert(lowercase_all(types).take(j as int) =~= lowercase_all(types));
            assert(text::texts(lowered_symbols@).len() == lowered_symbols@.len());
            assert(text::texts(lowered_types@).len() == lowered_types@.len());
        }
        self.search_lowered(
            needle.as_str(),
            &lowered_symbols,
            &lowered_types,
            with_cf,
            limit,
            include_tests,
            policy,
            is_test,
        )
    }
}

/// The texts of a list in lower case.
pub open spec fn lowercase_all(list: Seq<Seq<char>>) -> Seq<Seq<char>> {
    list.map_values(|item: Seq<char>| text::lowercase_of(item))
}

/// An entry as a search shows it.
pub open spec fn match_of(entry: RankedView, with_size: bool) -> MatchView {
    MatchView {
        symbol: entry.symbol,
        node_type: entry.node_type,
        cf: if with_size {
            Some(entry.cf)
        } else {
            None
        },
    }
}

/// Whether a response shows the entries of a search: all are counted, and the largest
/// are listed, up to a limit.
pub open spec fn search_shows(
    response: SearchResponse,
    entries: Seq<RankedView>,
    with_cf: bool,
    limit: Option<usize>,
) -> bool {
    let shown = match limit {
        Some(limit) => if limit < entries.len() {
            limit as int
        } else {
            entries.len() as int
        },
        None => entries.len() as int,
    };
    &&& response.total_matches == entries.len()
    &&& response.items@.map_values(|item: SearchItem| item@) == ranked(entries).take(
        shown,
    ).map_values(|entry: RankedView| match_of(entry, with_cf || limit is Some))
}

} // verus!
