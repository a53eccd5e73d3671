//! How footprints are measured: each fragment counts once, and a limit leaves a lower
//! bound.

use crate::domain::boundaries;
use crate::domain::closure;
use crate::domain::graph::NodeIndex;
use crate::domain::node::NodeId;
use crate::domain::policy::BoundaryPolicy;
use crate::domain::solver;
use crate::domain::solver::{CfResult, CfSolver, Footprint};
use crate::domain::sort;
use crate::domain::text;
use crate::domain::traversal;
use crate::domain::traversal::{BoundaryStop, Charge, Progress, ReasoningState, Walk};
use vstd::prelude::*;

verus! {

/// Whether two lists give the same size to each fragment that is in both.
pub open spec fn sizes_agree(a: Seq<Charge>, b: Seq<Charge>) -> bool {
    forall|i: int, j: int|
        #![trigger a[i], b[j]]
        0 <= i < a.len() && 0 <= j < b.len() && a[i].id == b[j].id ==> a[i].size == b[j].size
}

/// Whether each fragment of a list is in another, at the same size or a larger one.
pub open spec fn covered(a: Seq<Charge>, b: Seq<Charge>) -> bool {
    forall|i: int| 0 <= i < a.len() ==> covers(b, #[trigger] a[i])
}

/// Whether a fragment is in a list, at the same size or a larger one.
pub open spec fn covers(list: Seq<Charge>, charge: Charge) -> bool {
    exists|j: int|
        0 <= j < list.len() && (#[trigger] list[j]).id == charge.id && charge.size <= list[j].size
}

proof fn lemma_total_remove(list: Seq<Charge>, j: int)
    requires
        0 <= j < list.len(),
    ensures
        traversal::total(list) == traversal::total(list.remove(j)) + list[j].size,
    decreases list.len(),
{
    if j == list.len() - 1 {
        assert(list.remove(j) =~= list.drop_last());
    } else {
        lemma_total_remove(list.drop_last(), j);
        assert(list.drop_last().remove(j) =~= list.remove(j).drop_last());
        assert(list.remove(j).last() == list.last());
    }
}

proof fn lemma_total_append(a: Seq<Charge>, b: Seq<Charge>)
    ensures
        traversal::total(a + b) == traversal::total(a) + traversal::total(b),
    decreases b.len(),
{
    if b.len() == 0 {
        assert(a + b =~= a);
    } else {
        lemma_total_append(a, b.drop_last());
        assert((a + b).drop_last() =~= a + b.drop_last());
    }
}

/// Different fragments that are all in another list cost no more than that list.
pub proof fn lemma_covered_total(a: Seq<Charge>, b: Seq<Charge>)
    requires
        closure::charged_once(a),
        covered(a, b),
    ensures
        traversal::total(a) <= traversal::total(b),
    decreases a.len(),
{
    if a.len() > 0 {
        let rest = a.drop_last();
        assert(covers(b, a[a.len() - 1]));
        let j = choose|j: int|
            0 <= j < b.len() && (#[trigger] b[j]).id == a.last().id && a.last().size <= b[j].size;
        let fewer = b.remove(j);
        assert forall|i: int| 0 <= i < rest.len() implies covers(fewer, #[trigger] rest[i]) by {
            assert(rest[i] == a[i]);
            assert(covers(b, a[i]));
            let k = choose|k: int|
                0 <= k < b.len() && (#[trigger] b[k]).id == a[i].id && a[i].size <= b[k].size;
            assert(a[i].id != a[a.len() - 1].id);
            let at = if k < j {
                k
            } else {
                k - 1
            };
            assert(fewer[at] == b[k]);
        }
        assert(closure::charged_once(rest)) by {
            assert forall|i: int, k: int|
                #![trigger rest[i], rest[k]]
                0 <= i < k < rest.len() implies rest[i].id != rest[k].id by {
                assert(a[i].id != a[k].id);
            }
        }
        lemma_covered_total(rest, fewer);
        lemma_total_remove(b, j);
    }
}

/// What is beyond another list: those fragments that are not in it.
proof fn lemma_beyond(list: Seq<Charge>, other: Seq<Charge>)
    ensures
        ({
            let rest = traversal::beyond(list, other);
            &&& closure::charged_once(list) ==> closure::charged_once(rest)
            &&& forall|i: int|
                0 <= i < rest.len() ==> list.contains(#[trigger] rest[i]) && !traversal::charged(
                    other,
                    rest[i].id,
                )
            &&& forall|k: int|
                0 <= k < list.len() && !traversal::charged(other, (#[trigger] list[k]).id)
                    ==> rest.contains(list[k])
        }),
    decreases list.len(),
{
    if list.len() > 0 {
        let shorter = list.drop_last();
        let before = traversal::beyond(shorter, other);
        let rest = traversal::beyond(list, other);
        lemma_beyond(shorter, other);
        assert(list[list.len() - 1] == list.last());
        assert forall|i: int| 0 <= i < rest.len() implies list.contains(#[trigger] rest[i])
            && !traversal::charged(other, rest[i].id) by {
            if i < before.len() {
                assert(rest[i] == before[i]);
                assert(shorter.contains(before[i]));
                let k = choose|k: int| 0 <= k < shorter.len() && shorter[k] == before[i];
                assert(list[k] == rest[i]);
            }
        }
        assert forall|k: int|
            0 <= k < list.len() && !traversal::charged(
                other,
                (#[trigger] list[k]).id,
            ) implies rest.contains(list[k]) by {
            if k < shorter.len() {
                assert(shorter[k] == list[k]);
                assert(before.contains(shorter[k]));
                let i = choose|i: int| 0 <= i < before.len() && before[i] == shorter[k];
                assert(rest[i] == list[k]);
            } else {
                assert(rest[before.len() as int] == list[k]);
            }
        }
        if closure::charged_once(list) {
            assert(closure::charged_once(shorter)) by {
                assert forall|i: int, k: int|
                    #![trigger shorter[i], shorter[k]]
                    0 <= i < k < shorter.len() implies shorter[i].id != shorter[k].id by {
                    assert(list[i].id != list[k].id);
                }
            }
            assert forall|i: int, j: int|
                #![trigger rest[i], rest[j]]
                0 <= i < j < rest.len() implies rest[i].id != rest[j].id by {
                assert(rest[i] == before[i]);
                if j < before.len() {
                    assert(rest[j] == before[j]);
                } else {
                    assert(shorter.contains(before[i]));
                    let k = choose|k: int| 0 <= k < shorter.len() && shorter[k] == before[i];
                    assert(list[k].id != list[list.len() - 1].id);
                }
            }
        }
    }
}

/// The fragments of both lists, each counted once.
pub open spec fn union_of(a: Seq<Charge>, b: Seq<Charge>) -> Seq<Charge> {
    a + traversal::beyond(b, a)
}

/// A list splits into what it shares with another and what is beyond it.
proof fn lemma_split_total(list: Seq<Charge>, other: Seq<Charge>)
    ensures
        traversal::total(list) == traversal::total(traversal::shared(list, other))
            + traversal::total(traversal::beyond(list, other)),
    decreases list.len(),
{
    if list.len() > 0 {
        let shorter = list.drop_last();
        lemma_split_total(shorter, other);
        let s = traversal::shared(shorter, other);
        let b = traversal::beyond(shorter, other);
        assert(s.push(list.last()).drop_last() =~= s);
        assert(b.push(list.last()).drop_last() =~= b);
    }
}

/// What is shared: those fragments that are in the other list too.
pub(crate) proof fn lemma_shared(list: Seq<Charge>, other: Seq<Charge>)
    ensures
        ({
            let rest = traversal::shared(list, other);
            &&& closure::charged_once(list) ==> closure::charged_once(rest)
            &&& forall|i: int|
                0 <= i < rest.len() ==> list.contains(#[trigger] rest[i]) && traversal::charged(
                    other,
                    rest[i].id,
                )
            &&& forall|k: int|
                0 <= k < list.len() && traversal::charged(other, (#[trigger] list[k]).id)
                    ==> rest.contains(list[k])
        }),
    decreases list.len(),
{
    if list.len() > 0 {
        let shorter = list.drop_last();
        let before = traversal::shared(shorter, other);
        let rest = traversal::shared(list, other);
        lemma_shared(shorter, other);
        assert(list[list.len() - 1] == list.last());
        assert forall|i: int| 0 <= i < rest.len() implies list.contains(#[trigger] rest[i])
            && traversal::charged(other, rest[i].id) by {
            if i < before.len() {
                assert(rest[i] == before[i]);
                assert(shorter.contains(before[i]));
                let k = choose|k: int| 0 <= k < shorter.len() && shorter[k] == before[i];
                assert(list[k] == rest[i]);
            }
        }
        assert forall|k: int|
            0 <= k < list.len() && traversal::charged(
                other,
                (#[trigger] list[k]).id,
            ) implies rest.contains(list[k]) by {
            if k < shorter.len() {
                assert(shorter[k] == list[k]);
                assert(before.contains(shorter[k]));
                let i = choose|i: int| 0 <= i < before.len() && before[i] == shorter[k];
                assert(rest[i] == list[k]);
            } else {
                assert(rest[before.len() as int] == list[k]);
            }
        }
        if closure::charged_once(list) {
            assert(closure::charged_once(shorter)) by {
                assert forall|i: int, k: int|
                    #![trigger shorter[i], shorter[k]]
                    0 <= i < k < shorter.len() implies shorter[i].id != shorter[k].id by {
                    assert(list[i].id != list[k].id);
                }
            }
            assert forall|i: int, j: int|
                #![trigger rest[i], rest[j]]
                0 <= i < j < rest.len() implies rest[i].id != rest[j].id by {
                assert(rest[i] == before[i]);
                if j < before.len() {
                    assert(rest[j] == before[j]);
                } else {
                    assert(shorter.contains(before[i]));
                    let k = choose|k: int| 0 <= k < shorter.len() && shorter[k] == before[i];
                    assert(list[k].id != list[list.len() - 1].id);
                }
            }
        }
    }
}

/// What two lists share costs the same in both, if their sizes agree.
proof fn lemma_shared_symmetric(a: Seq<Charge>, b: Seq<Charge>)
    requires
        closure::charged_once(a),
        sizes_agree(a, b),
    ensures
        traversal::total(traversal::shared(a, b)) <= traversal::total(traversal::shared(b, a)),
{
    let s = traversal::shared(a, b);
    let t = traversal::shared(b, a);
    lemma_shared(a, b);
    lemma_shared(b, a);
    assert forall|i: int| 0 <= i < s.len() implies covers(t, #[trigger] s[i]) by {
        assert(a.contains(s[i]));
        let x = choose|x: int| 0 <= x < a.len() && a[x] == s[i];
        assert(traversal::charged(b, s[i].id));
        let y = choose|y: int| 0 <= y < b.len() && (#[trigger] b[y]).id == s[i].id;
        assert(a[x].id == b[y].id);
        assert(traversal::charged(a, b[y].id));
        assert(t.contains(b[y]));
        let j = choose|j: int| 0 <= j < t.len() && t[j] == b[y];
        assert(t[j].id == s[i].id && s[i].size <= t[j].size);
    }
    lemma_covered_total(s, t);
}

impl Footprint {
    /// The size of a footprint is that of both directions less what they share.
    pub proof fn law_total_is_out_plus_in_less_shared(self)
        ensures
            self.cf_total() + traversal::total(
                traversal::shared(self.incoming.fragments, self.out.fragments),
            ) == self.cf_out() + self.cf_in(),
            self.cf_out() <= self.cf_total(),
            self.cf_total() <= self.cf_out() + self.cf_in(),
            self.cf_overlap() <= self.cf_out(),
    {
        lemma_split_total(self.incoming.fragments, self.out.fragments);
        lemma_split_total(self.out.fragments, self.incoming.fragments);
    }

    /// The size of a footprint is that of both directions less their overlap, where
    /// both directions give the same size to each fragment that they share.
    pub proof fn law_total_is_out_plus_in_less_overlap(self)
        requires
            closure::charged_once(self.out.fragments),
            closure::charged_once(self.incoming.fragments),
            sizes_agree(self.out.fragments, self.incoming.fragments),
        ensures
            self.cf_total() == self.cf_out() + self.cf_in() - self.cf_overlap(),
            self.cf_overlap() <= self.cf_in() <= self.cf_total(),
    {
        self.law_total_is_out_plus_in_less_shared();
        lemma_shared_symmetric(self.out.fragments, self.incoming.fragments);
        assert(sizes_agree(self.incoming.fragments, self.out.fragments)) by {
            assert forall|i: int, j: int|
                #![trigger self.incoming.fragments[i], self.out.fragments[j]]
                0 <= i < self.incoming.fragments.len() && 0 <= j < self.out.fragments.len()
                    && self.incoming.fragments[i].id
                    == self.out.fragments[j].id implies self.incoming.fragments[i].size
                == self.out.fragments[j].size by {
                assert(self.out.fragments[j].id == self.incoming.fragments[i].id);
            }
        }
        lemma_shared_symmetric(self.incoming.fragments, self.out.fragments);
        lemma_split_total(self.incoming.fragments, self.out.fragments);
    }
}

/// Whether a list of nodes holds the nodes of two others, in any order and any number.
pub open spec fn is_union(a: Seq<NodeIndex>, b: Seq<NodeIndex>, both: Seq<NodeIndex>) -> bool {
    forall|idx: NodeIndex| #[trigger]
        both.contains(idx) <==> a.contains(idx) || b.contains(idx)
}

/// Whether a list holds the texts of two others, each once, in lexicographic order.
pub open spec fn is_sorted_union(
    a: Seq<Seq<char>>,
    b: Seq<Seq<char>>,
    both: Seq<Seq<char>>,
) -> bool {
    &&& sort::strictly_sorted(both)
    &&& forall|x: Seq<char>| #[trigger] both.contains(x) <==> a.contains(x) || b.contains(x)
}

/// Whether a traversal is part of another: it visited some of the states, in the same
/// order, and charged some of the fragments.
pub open spec fn part_of(a: Progress, b: Progress) -> bool {
    &&& a.visited.subset_of(b.visited)
    &&& a.nodes.is_prefix_of(b.nodes)
    &&& a.fragments.is_prefix_of(b.fragments)
    &&& a.stops.is_prefix_of(b.stops)
}

impl<P: BoundaryPolicy> Walk<P> {
    /// Whether another traversal differs from this only in that it has no limit.
    pub open spec fn limits(self, other: Walk<P>) -> bool {
        &&& self.graph == other.graph
        &&& self.policy == other.policy
        &&& self.direction == other.direction
        &&& other.limit is None
    }

    /// Charging under a limit charges the same fragments first.
    proof fn lemma_charge_limited(
        self,
        other: Walk<P>,
        p: Progress,
        list: Seq<Charge>,
        state: ReasoningState,
    )
        requires
            self.limits(other),
            !p.truncated,
        ensures
            ({
                let a = self.charge_all(p, list, state);
                let b = other.charge_all(p, list, state);
                &&& !b.truncated
                &&& !a.truncated ==> a == b
                &&& a.fragments.is_prefix_of(b.fragments)
            }),
        decreases list.len(),
    {
        if list.len() > 0 {
            self.lemma_charge_limited(other, p, list.drop_last(), state);
        }
    }

    proof fn lemma_moves_grow(
        self,
        p: Progress,
        state: ReasoningState,
        steps: Seq<traversal::Move>,
    )
        ensures
            part_of(p, self.make_moves(p, state, steps)),
        decreases steps.len(),
    {
        if steps.len() > 0 {
            self.lemma_moves_grow(p, state, steps.drop_last());
        }
    }

    proof fn lemma_charges_grow(self, p: Progress, list: Seq<Charge>, state: ReasoningState)
        ensures
            part_of(p, self.charge_all(p, list, state)),
            self.charge_all(p, list, state).visited == p.visited,
            self.charge_all(p, list, state).nodes == p.nodes,
            self.charge_all(p, list, state).stops == p.stops,
            self.charge_all(p, list, state).queue == p.queue,
        decreases list.len(),
    {
        if list.len() > 0 {
            self.lemma_charges_grow(p, list.drop_last(), state);
        }
    }

    /// A step only adds to a traversal.
    proof fn lemma_step_grows(self, p: Progress)
        requires
            p.queue.len() > 0,
        ensures
            part_of(p, self.step(p)),
    {
        let state = p.queue[0];
        if !p.visited.contains(state) {
            let entered = self.enter(p);
            let list = traversal::required(self.graph, state);
            let loaded = self.charge_all(entered, list, state);
            self.lemma_charges_grow(entered, list, state);
            self.lemma_moves_grow(loaded, state, self.moves(state));
        }
    }

    proof fn lemma_run_grows(self, p: Progress)
        requires
            self.valid(p),
        ensures
            part_of(p, self.run(p)),
        decreases self.unvisited(p), p.queue.len(),
    {
        if p.queue.len() > 0 {
            self.lemma_step_valid(p);
            self.lemma_step_grows(p);
            self.lemma_run_grows(self.step(p));
        }
    }

    proof fn lemma_run_limited(self, other: Walk<P>, p: Progress)
        requires
            self.limits(other),
            self.valid(p),
            !p.truncated,
        ensures
            part_of(self.run(p), other.run(p)),
            !self.run(p).truncated ==> self.run(p) == other.run(p),
        decreases self.unvisited(p), p.queue.len(),
    {
        assert(other.valid(p)) by {
            assert forall|i: int| 0 <= i < p.queue.len() implies other.is_state(
                #[trigger] p.queue[i],
            ) by {
                assert(self.is_state(p.queue[i]));
            }
            assert forall|s: ReasoningState| #[trigger]
                p.visited.contains(s) implies other.is_state(s) by {
                assert(self.is_state(s));
            }
        }
        if p.queue.len() > 0 {
            let state = p.queue[0];
            self.lemma_step_valid(p);
            other.lemma_step_valid(p);
            let entered = self.enter(p);
            let list = traversal::required(self.graph, state);
            let a = self.charge_all(entered, list, state);
            let b = other.charge_all(entered, list, state);
            assert(other.enter(p) == entered);
            self.lemma_charge_limited(other, entered, list, state);
            self.lemma_charges_grow(entered, list, state);
            other.lemma_charges_grow(entered, list, state);
            if p.visited.contains(state) {
                assert(self.step(p) == other.step(p));
                self.lemma_run_limited(other, self.step(p));
            } else if a.truncated {
                assert(self.run(self.step(p)) == self.step(p));
                other.lemma_moves_grow(b, state, other.moves(state));
                other.lemma_run_grows(other.step(p));
                assert(part_of(self.step(p), b));
                assert(part_of(b, other.step(p)));
            } else {
                self.lemma_same_moves(other, a, state, self.moves(state));
                assert(self.step(p) == other.step(p));
                self.lemma_no_truncation(a, state, self.moves(state));
                self.lemma_run_limited(other, self.step(p));
            }
        }
    }

    proof fn lemma_no_truncation(
        self,
        p: Progress,
        state: ReasoningState,
        steps: Seq<traversal::Move>,
    )
        ensures
            self.make_moves(p, state, steps).truncated == p.truncated,
        decreases steps.len(),
    {
        if steps.len() > 0 {
            self.lemma_no_truncation(p, state, steps.drop_last());
        }
    }

    proof fn lemma_same_moves(
        self,
        other: Walk<P>,
        p: Progress,
        state: ReasoningState,
        steps: Seq<traversal::Move>,
    )
        requires
            self.limits(other),
        ensures
            self.make_moves(p, state, steps) == other.make_moves(p, state, steps),
            self.moves(state) == other.moves(state),
        decreases steps.len(),
    {
        if steps.len() > 0 {
            self.lemma_same_moves(other, p, state, steps.drop_last());
        }
    }

    /// A traversal under a limit is part of the one without. If the limit was not
    /// met, both are the same.
    pub proof fn law_limit_gives_part(self, other: Walk<P>, starts: Seq<NodeIndex>)
        requires
            self.limits(other),
            self.graph.wf(),
            forall|i: int| 0 <= i < starts.len() ==> self.graph.has(#[trigger] starts[i]),
        ensures
            part_of(self.outcome(starts), other.outcome(starts)),
            !self.outcome(starts).truncated ==> self.outcome(starts) == other.outcome(starts),
    {
        self.lemma_initial_valid(starts);
        self.lemma_run_limited(other, traversal::initial(starts, self.direction));
    }

    /// Without a limit it does not matter what was paid before: all that a traversal
    /// needs is charged.
    pub proof fn law_prepaid_hides_nothing(self, other: Walk<P>, starts: Seq<NodeIndex>)
        requires
            self.limits(other),
            self.limit is None,
            self.graph.wf(),
            forall|i: int| 0 <= i < starts.len() ==> self.graph.has(#[trigger] starts[i]),
        ensures
            self.outcome(starts) == other.outcome(starts),
    {
        self.law_visits_what_is_derivable(starts);
        self.law_limit_gives_part(other, starts);
    }

    /// What can be derived from nodes can be derived from one of the nodes' lists.
    proof fn lemma_derivable_union(
        self,
        a: Seq<NodeIndex>,
        b: Seq<NodeIndex>,
        both: Seq<NodeIndex>,
        s: ReasoningState,
    )
        requires
            is_union(a, b, both),
        ensures
            self.derivable(both, s) <==> self.derivable(a, s) || self.derivable(b, s),
    {
        let all = traversal::initial_states(both, self.direction);
        let of_a = traversal::initial_states(a, self.direction);
        let of_b = traversal::initial_states(b, self.direction);
        if self.derivable(both, s) {
            let chain = choose|chain: Seq<ReasoningState>| #[trigger]
                self.is_chain(both, chain) && chain.last() == s;
            let i = choose|i: int| 0 <= i < all.len() && all[i] == chain[0];
            assert(both.contains(both[i]));
            if a.contains(both[i]) {
                let j = choose|j: int| 0 <= j < a.len() && a[j] == both[i];
                assert(of_a[j] == chain[0]);
                assert(self.is_chain(a, chain) && chain.last() == s);
            } else {
                let j = choose|j: int| 0 <= j < b.len() && b[j] == both[i];
                assert(of_b[j] == chain[0]);
                assert(self.is_chain(b, chain) && chain.last() == s);
            }
        }
        if self.derivable(a, s) {
            let chain = choose|chain: Seq<ReasoningState>| #[trigger]
                self.is_chain(a, chain) && chain.last() == s;
            let i = choose|i: int| 0 <= i < of_a.len() && of_a[i] == chain[0];
            assert(a.contains(a[i]));
            assert(both.contains(a[i]));
            let j = choose|j: int| 0 <= j < both.len() && both[j] == a[i];
            assert(all[j] == chain[0]);
            assert(self.is_chain(both, chain) && chain.last() == s);
        }
        if self.derivable(b, s) {
            let chain = choose|chain: Seq<ReasoningState>| #[trigger]
                self.is_chain(b, chain) && chain.last() == s;
            let i = choose|i: int| 0 <= i < of_b.len() && of_b[i] == chain[0];
            assert(b.contains(b[i]));
            assert(both.contains(b[i]));
            let j = choose|j: int| 0 <= j < both.len() && both[j] == b[i];
            assert(all[j] == chain[0]);
            assert(self.is_chain(both, chain) && chain.last() == s);
        }
    }

    /// What is charged without a limit: what some state needs that can be derived.
    proof fn lemma_charged_if_derivable(self, starts: Seq<NodeIndex>, id: Seq<char>)
        requires
            self.graph.wf(),
            self.limit is None,
            forall|i: int| 0 <= i < starts.len() ==> self.graph.has(#[trigger] starts[i]),
        ensures
            traversal::charged(self.outcome(starts).fragments, id) <==> exists|
                s: ReasoningState,
                c: Charge,
            | #[trigger]
                self.needs(s, c) && c.id == id && self.derivable(starts, s),
    {
        let end = self.outcome(starts);
        self.law_visits_what_is_derivable(starts);
        self.law_charges_what_is_needed(starts);
        if traversal::charged(end.fragments, id) {
            let i = choose|i: int|
                0 <= i < end.fragments.len() && (#[trigger] end.fragments[i]).id == id;
            assert(self.needed(end, end.fragments[i]));
            let s = choose|s: ReasoningState| #[trigger]
                end.visited.contains(s) && self.needs(s, end.fragments[i]);
            assert(self.needs(s, end.fragments[i]) && self.derivable(starts, s));
        }
        if exists|s: ReasoningState, c: Charge| #[trigger]
            self.needs(s, c) && c.id == id && self.derivable(starts, s) {
            let (s, c) = choose|s: ReasoningState, c: Charge| #[trigger]
                self.needs(s, c) && c.id == id && self.derivable(starts, s);
            assert(end.visited.contains(s));
        }
    }

    /// Without a limit, a traversal from two lists of nodes together visits, reaches,
    /// charges and stops at what the traversals from each of them do, and nothing
    /// else. In which order the nodes come, and how often, does not matter.
    pub proof fn law_union_of_starts(
        self,
        a: Seq<NodeIndex>,
        b: Seq<NodeIndex>,
        both: Seq<NodeIndex>,
    )
        requires
            self.graph.wf(),
            self.limit is None,
            is_union(a, b, both),
            forall|i: int| 0 <= i < both.len() ==> self.graph.has(#[trigger] both[i]),
        ensures
            ({
                let x = self.outcome(a);
                let y = self.outcome(b);
                let z = self.outcome(both);
                &&& z.visited =~= x.visited.union(y.visited)
                &&& forall|idx: NodeIndex| #[trigger]
                    z.nodes.contains(idx) <==> x.nodes.contains(idx) || y.nodes.contains(idx)
                &&& forall|id: Seq<char>| #[trigger]
                    traversal::charged(z.fragments, id) <==> traversal::charged(x.fragments, id)
                        || traversal::charged(y.fragments, id)
                &&& forall|stop: BoundaryStop| #[trigger]
                    z.stops.contains(stop) <==> x.stops.contains(stop) || y.stops.contains(stop)
            }),
    {
        let x = self.outcome(a);
        let y = self.outcome(b);
        let z = self.outcome(both);
        assert forall|i: int| 0 <= i < a.len() implies self.graph.has(#[trigger] a[i]) by {
            assert(a.contains(a[i]));
            assert(both.contains(a[i]));
            let j = choose|j: int| 0 <= j < both.len() && both[j] == a[i];
            assert(self.graph.has(both[j]));
        }
        assert forall|i: int| 0 <= i < b.len() implies self.graph.has(#[trigger] b[i]) by {
            assert(b.contains(b[i]));
            assert(both.contains(b[i]));
            let j = choose|j: int| 0 <= j < both.len() && both[j] == b[i];
            assert(self.graph.has(both[j]));
        }
        self.law_visits_what_is_derivable(a);
        self.law_visits_what_is_derivable(b);
        self.law_visits_what_is_derivable(both);
        assert forall|s: ReasoningState| #[trigger]
            z.visited.contains(s) <==> x.visited.contains(s) || y.visited.contains(s) by {
            self.lemma_derivable_union(a, b, both, s);
            assert(self.derivable(both, s) <==> z.visited.contains(s));
            assert(self.derivable(a, s) <==> x.visited.contains(s));
            assert(self.derivable(b, s) <==> y.visited.contains(s));
        }
        self.law_nodes_are_visited(a);
        self.law_nodes_are_visited(b);
        self.law_nodes_are_visited(both);
        assert forall|idx: NodeIndex| #[trigger]
            z.nodes.contains(idx) <==> x.nodes.contains(idx) || y.nodes.contains(idx) by {
            if z.nodes.contains(idx) {
                let s = choose|s: ReasoningState| #[trigger]
                    z.visited.contains(s) && s.node_index == idx;
                assert(x.visited.contains(s) || y.visited.contains(s));
            }
            if x.nodes.contains(idx) {
                let s = choose|s: ReasoningState| #[trigger]
                    x.visited.contains(s) && s.node_index == idx;
                assert(z.visited.contains(s));
            }
            if y.nodes.contains(idx) {
                let s = choose|s: ReasoningState| #[trigger]
                    y.visited.contains(s) && s.node_index == idx;
                assert(z.visited.contains(s));
            }
        }
        assert forall|id: Seq<char>| #[trigger]
            traversal::charged(z.fragments, id) <==> traversal::charged(x.fragments, id)
                || traversal::charged(y.fragments, id) by {
            self.lemma_charged_if_derivable(a, id);
            self.lemma_charged_if_derivable(b, id);
            self.lemma_charged_if_derivable(both, id);
            if traversal::charged(z.fragments, id) {
                let (s, c) = choose|s: ReasoningState, c: Charge| #[trigger]
                    self.needs(s, c) && c.id == id && self.derivable(both, s);
                self.lemma_derivable_union(a, b, both, s);
            }
            if traversal::charged(x.fragments, id) {
                let (s, c) = choose|s: ReasoningState, c: Charge| #[trigger]
                    self.needs(s, c) && c.id == id && self.derivable(a, s);
                self.lemma_derivable_union(a, b, both, s);
            }
            if traversal::charged(y.fragments, id) {
                let (s, c) = choose|s: ReasoningState, c: Charge| #[trigger]
                    self.needs(s, c) && c.id == id && self.derivable(b, s);
                self.lemma_derivable_union(a, b, both, s);
            }
        }
        self.law_stops_are_recorded(a);
        self.law_stops_are_recorded(b);
        self.law_stops_are_recorded(both);
        assert forall|stop: BoundaryStop| #[trigger]
            z.stops.contains(stop) <==> x.stops.contains(stop) || y.stops.contains(stop) by {
            if z.stops.contains(stop) {
                let s = choose|s: ReasoningState| #[trigger]
                    z.visited.contains(s) && self.stops_at(s, stop);
                assert(x.visited.contains(s) || y.visited.contains(s));
            }
            if x.stops.contains(stop) {
                let s = choose|s: ReasoningState| #[trigger]
                    x.visited.contains(s) && self.stops_at(s, stop);
                assert(z.visited.contains(s));
            }
            if y.stops.contains(stop) {
                let s = choose|s: ReasoningState| #[trigger]
                    y.visited.contains(s) && self.stops_at(s, stop);
                assert(z.visited.contains(s));
            }
        }
    }

    /// A fragment that a limit kept out is charged without the limit, at the same size.
    proof fn lemma_missing(self, other: Walk<P>, starts: Seq<NodeIndex>, c: Charge) -> (j: int)
        requires
            self.limits(other),
            self.graph.wf(),
            boundaries::sizes_consistent(self.graph),
            forall|i: int| 0 <= i < starts.len() ==> self.graph.has(#[trigger] starts[i]),
            self.needed(self.outcome(starts), c),
        ensures
            0 <= j < other.outcome(starts).fragments.len(),
            other.outcome(starts).fragments[j].id == c.id,
            other.outcome(starts).fragments[j].size == c.size,
    {
        let some = self.outcome(starts);
        let all = other.outcome(starts);
        self.law_limit_gives_part(other, starts);
        other.law_visits_what_is_derivable(starts);
        other.law_charges_what_is_needed(starts);
        self.lemma_outcome_valid(starts);
        other.lemma_outcome_valid(starts);
        let s = choose|s: ReasoningState| #[trigger] some.visited.contains(s) && self.needs(s, c);
        assert(self.is_state(s));
        assert(all.visited.contains(s));
        assert(other.needs(s, c));
        assert(traversal::charged(all.fragments, c.id));
        let j = choose|j: int|
            0 <= j < all.fragments.len() && (#[trigger] all.fragments[j]).id == c.id;
        let d = all.fragments[j];
        assert(other.needed(all, d));
        let t = choose|t: ReasoningState| #[trigger] all.visited.contains(t) && other.needs(t, d);
        assert(other.is_state(t));
        let mine = traversal::required(self.graph, s);
        let theirs = traversal::required(self.graph, t);
        let k = choose|k: int| 0 <= k < mine.len() && mine[k] == c;
        let l = choose|l: int| 0 <= l < theirs.len() && theirs[l] == d;
        assert(mine[k].size == theirs[l].size);
        j
    }

    /// Whether what was paid is within the limit.
    pub open spec fn within_limit(self, fragments: Seq<Charge>) -> bool {
        self.limit matches Some(limit) ==> limit < u32::MAX ==> self.spent(fragments) <= limit
    }

    proof fn lemma_charge_within(self, p: Progress, list: Seq<Charge>, state: ReasoningState)
        requires
            self.within_limit(p.fragments),
        ensures
            self.within_limit(self.charge_all(p, list, state).fragments),
        decreases list.len(),
    {
        if list.len() > 0 {
            let before = self.charge_all(p, list.drop_last(), state);
            self.lemma_charge_within(p, list.drop_last(), state);
            let longer = before.fragments.push(list.last());
            assert(longer.drop_last() =~= before.fragments);
            let rest = traversal::beyond(before.fragments, self.prepaid);
            assert(rest.push(list.last()).drop_last() =~= rest);
        }
    }

    proof fn lemma_moves_within(
        self,
        p: Progress,
        state: ReasoningState,
        steps: Seq<traversal::Move>,
    )
        ensures
            self.make_moves(p, state, steps).fragments == p.fragments,
        decreases steps.len(),
    {
        if steps.len() > 0 {
            self.lemma_moves_within(p, state, steps.drop_last());
        }
    }

    proof fn lemma_run_within(self, p: Progress)
        requires
            self.valid(p),
            self.within_limit(p.fragments),
        ensures
            self.within_limit(self.run(p).fragments),
        decreases self.unvisited(p), p.queue.len(),
    {
        if p.queue.len() > 0 {
            let state = p.queue[0];
            let entered = self.enter(p);
            let list = traversal::required(self.graph, state);
            self.lemma_step_valid(p);
            self.lemma_charge_within(entered, list, state);
            self.lemma_moves_within(
                self.charge_all(entered, list, state),
                state,
                self.moves(state),
            );
            self.lemma_run_within(self.step(p));
        }
    }

    /// A traversal pays no more than its limit, together with what was paid before.
    pub proof fn law_limit_is_kept(self, starts: Seq<NodeIndex>)
        requires
            self.graph.wf(),
            forall|i: int| 0 <= i < starts.len() ==> self.graph.has(#[trigger] starts[i]),
            self.limit matches Some(limit) ==> traversal::total(self.prepaid) <= limit,
        ensures
            self.within_limit(self.outcome(starts).fragments),
    {
        self.lemma_initial_valid(starts);
        self.lemma_run_within(traversal::initial(starts, self.direction));
    }
}

impl<P: BoundaryPolicy> CfSolver<P> {
    /// Whether nodes are nodes of the graph.
    pub open spec fn has_all(&self, starts: Seq<NodeIndex>) -> bool {
        forall|i: int| 0 <= i < starts.len() ==> self.graph.has(#[trigger] starts[i])
    }

    /// No fragment is charged twice in one direction.
    pub(crate) proof fn lemma_charged_once(&self, starts: Seq<NodeIndex>, max_tokens: Option<u32>)
        requires
            self.graph.wf(),
            self.has_all(starts),
        ensures
            closure::charged_once(self.footprint(starts, max_tokens).out.fragments),
            closure::charged_once(self.footprint(starts, max_tokens).incoming.fragments),
    {
        let out = self.out_walk(max_tokens);
        out.law_charges_what_is_needed(starts);
        self.in_walk(max_tokens, out.outcome(starts).fragments).law_charges_what_is_needed(starts);
    }

    /// The size of a footprint is that of both directions less their overlap, where
    /// both directions give the same size to each fragment that they share.
    pub proof fn law_footprint_total(&self, starts: Seq<NodeIndex>, max_tokens: Option<u32>)
        requires
            self.graph.wf(),
            self.has_all(starts),
            sizes_agree(
                self.footprint(starts, max_tokens).out.fragments,
                self.footprint(starts, max_tokens).incoming.fragments,
            ),
        ensures
            ({
                let footprint = self.footprint(starts, max_tokens);
                &&& footprint.cf_total() == footprint.cf_out() + footprint.cf_in()
                    - footprint.cf_overlap()
                &&& footprint.cf_out() <= footprint.cf_total()
                &&& footprint.cf_in() <= footprint.cf_total()
                &&& footprint.cf_overlap() <= footprint.cf_out()
                &&& footprint.cf_overlap() <= footprint.cf_in()
            }),
    {
        self.lemma_charged_once(starts, max_tokens);
        self.footprint(starts, max_tokens).law_total_is_out_plus_in_less_overlap();
        self.footprint(starts, max_tokens).law_total_is_out_plus_in_less_shared();
    }

    /// A footprint that can be represented is within its limit.
    pub proof fn law_footprint_within_limit(&self, starts: Seq<NodeIndex>, limit: u32)
        requires
            self.graph.wf(),
            self.has_all(starts),
            self.footprint(starts, Some(limit)).representable(),
        ensures
            self.footprint(starts, Some(limit)).cf_out() <= limit,
            self.footprint(starts, Some(limit)).cf_total() <= limit,
    {
        let footprint = self.footprint(starts, Some(limit));
        let out = self.out_walk(Some(limit));
        out.law_limit_is_kept(starts);
        lemma_beyond_nothing(footprint.out.fragments);
        footprint.law_total_is_out_plus_in_less_shared();
        if limit < u32::MAX {
            self.in_walk(Some(limit), footprint.out.fragments).law_limit_is_kept(starts);
        }
    }

    /// A footprint under a limit is a lower bound in each direction, and exact where
    /// the limit was not met.
    pub proof fn law_limited_footprint_is_lower_bound(&self, starts: Seq<NodeIndex>, limit: u32)
        requires
            self.graph.wf(),
            self.has_all(starts),
        ensures
            ({
                let some = self.footprint(starts, Some(limit));
                let all = self.footprint(starts, None);
                &&& part_of(some.out, all.out)
                &&& part_of(some.incoming, all.incoming)
                &&& some.cf_out() <= all.cf_out()
                &&& some.cf_in() <= all.cf_in()
                &&& !some.out.truncated ==> some.out == all.out
                &&& !some.incoming.truncated ==> some.incoming == all.incoming
            }),
    {
        let some = self.footprint(starts, Some(limit));
        let all = self.footprint(starts, None);
        self.out_walk(Some(limit)).law_limit_gives_part(self.out_walk(None), starts);
        self.in_walk(Some(limit), some.out.fragments).law_limit_gives_part(
            self.in_walk(None, all.out.fragments),
            starts,
        );
        lemma_prefix_total(some.out.fragments, all.out.fragments);
        lemma_prefix_total(some.incoming.fragments, all.incoming.fragments);
    }

    /// The size of a footprint under a limit is a lower bound, where both directions
    /// give the same size to each fragment that they share.
    pub proof fn law_limited_total_is_lower_bound(&self, starts: Seq<NodeIndex>, limit: u32)
        requires
            self.graph.wf(),
            self.has_all(starts),
            sizes_agree(
                self.footprint(starts, None).out.fragments,
                self.footprint(starts, None).incoming.fragments,
            ),
        ensures
            self.footprint(starts, Some(limit)).cf_total() <= self.footprint(
                starts,
                None,
            ).cf_total(),
    {
        let some = self.footprint(starts, Some(limit));
        let all = self.footprint(starts, None);
        self.law_limited_footprint_is_lower_bound(starts, limit);
        self.lemma_charged_once(starts, Some(limit));
        lemma_prefix_covered(some.out.fragments, all.out.fragments);
        lemma_prefix_covered(some.incoming.fragments, all.incoming.fragments);
        lemma_unions(
            some.out.fragments,
            some.incoming.fragments,
            all.out.fragments,
            all.incoming.fragments,
        );
    }

    /// In a graph that gives each fragment one size, a limit is met exactly where the
    /// size of the footprint without it exceeds it; where it is not, the limit changes
    /// nothing. Only the largest size that can be represented is no limit for sizes
    /// beyond it.
    pub proof fn law_limit_is_met_beyond_it(&self, starts: Seq<NodeIndex>, limit: u32)
        requires
            self.graph.wf(),
            self.has_all(starts),
            boundaries::sizes_consistent(*self.graph),
            limit < u32::MAX || self.footprint(starts, None).cf_total() <= u32::MAX,
        ensures
            ({
                let some = self.footprint(starts, Some(limit));
                let all = self.footprint(starts, None);
                &&& some.out.truncated || some.incoming.truncated <==> all.cf_total() > limit
                &&& some.cf_total() <= all.cf_total()
                &&& some.cf_total() <= limit
                &&& !all.out.truncated && !all.incoming.truncated
                &&& all.cf_total() <= limit ==> some == all
            }),
    {
        let some = self.footprint(starts, Some(limit));
        let all = self.footprint(starts, None);
        let w_out = self.out_walk(Some(limit));
        let u_out = self.out_walk(None);
        let w_in = self.in_walk(Some(limit), some.out.fragments);
        let u_in = self.in_walk(None, all.out.fragments);
        self.law_limited_footprint_is_lower_bound(starts, limit);
        boundaries::law_directions_agree_on_sizes(*self, starts, None);
        self.law_limited_total_is_lower_bound(starts, limit);
        all.law_total_is_out_plus_in_less_shared();
        some.law_total_is_out_plus_in_less_shared();
        u_out.law_visits_what_is_derivable(starts);
        u_in.law_visits_what_is_derivable(starts);
        lemma_beyond_nothing(some.out.fragments);
        w_out.law_limit_is_kept(starts);
        if limit < u32::MAX {
            w_in.law_limit_is_kept(starts);
        }
        if some.out.truncated {
            w_out.law_limit_is_met_at_a_needed_fragment(starts);
            let c = choose|c: Charge| #[trigger] w_out.lacks(some.out, c);
            let j = w_out.lemma_missing(u_out, starts, c);
            self.lemma_charged_once(starts, Some(limit));
            lemma_one_more(some.out.fragments, all.out.fragments, c, j);
        } else if some.incoming.truncated {
            w_in.law_limit_is_met_at_a_needed_fragment(starts);
            let c = choose|c: Charge| #[trigger] w_in.lacks(some.incoming, c);
            let j = w_in.lemma_missing(u_in, starts, c);
            self.lemma_charged_once(starts, Some(limit));
            lemma_one_more_beyond(
                some.incoming.fragments,
                all.incoming.fragments,
                all.out.fragments,
                c,
                j,
            );
        }
    }

    /// Of two results for the same nodes, one under a limit and one without: the first
    /// is truncated exactly where the size of the second exceeds the limit, and where it
    /// is, it says which states were left. It is a lower bound within the limit, and
    /// exact where it is not truncated. Without a limit nothing is truncated.
    pub proof fn law_truncated_results(
        &self,
        starts: Seq<NodeIndex>,
        limit: u32,
        some: CfResult,
        all: CfResult,
    )
        requires
            self.graph.wf(),
            self.has_all(starts),
            boundaries::sizes_consistent(*self.graph),
            self.reports(some, self.footprint(starts, Some(limit))),
            self.reports(all, self.footprint(starts, None)),
        ensures
            some.truncated <==> all.cf_total > limit,
            some.truncated <==> some.unresolved_states@.len() > 0,
            some.cf_total <= limit,
            some.cf_total <= all.cf_total,
            some.cf_out <= all.cf_out,
            some.cf_in <= all.cf_in,
            forall|id: Seq<char>| #[trigger]
                text::texts(some.out_fragments@).contains(id) ==> text::texts(
                    all.out_fragments@,
                ).contains(id),
            forall|id: Seq<char>| #[trigger]
                text::texts(some.in_fragments@).contains(id) ==> text::texts(
                    all.in_fragments@,
                ).contains(id),
            !some.truncated ==> same_result(some, all),
            !all.truncated,
            all.unresolved_states@.len() == 0,
    {
        let few = self.footprint(starts, Some(limit));
        let full = self.footprint(starts, None);
        self.law_limit_is_met_beyond_it(starts, limit);
        self.law_limited_footprint_is_lower_bound(starts, limit);
        self.out_walk(Some(limit)).law_truncation_is_reported(starts);
        self.in_walk(Some(limit), few.out.fragments).law_truncation_is_reported(starts);
        self.out_walk(None).law_truncation_is_reported(starts);
        self.in_walk(None, full.out.fragments).law_truncation_is_reported(starts);
        self.lemma_charged_once(starts, Some(limit));
        self.lemma_charged_once(starts, None);
        self.lemma_fragment_names(some, few);
        self.lemma_fragment_names(all, full);
        lemma_prefix_charged(few.out.fragments, full.out.fragments);
        lemma_prefix_charged(few.incoming.fragments, full.incoming.fragments);
        if !some.truncated {
            assert(some.reachable_nodes_by_layer@.map_values(|layer: Vec<NodeId>| layer@)
                =~= all.reachable_nodes_by_layer@.map_values(|layer: Vec<NodeId>| layer@));
        }
    }

    /// Without a limit, the footprint of two lists of nodes together consists of the
    /// footprints of each of them, and nothing else, in either direction. In a graph
    /// that gives each fragment one size, it is no smaller than either of them.
    pub proof fn law_union_of_footprints(
        &self,
        a: Seq<NodeIndex>,
        b: Seq<NodeIndex>,
        both: Seq<NodeIndex>,
    )
        requires
            self.graph.wf(),
            self.has_all(both),
            is_union(a, b, both),
        ensures
            ({
                let x = self.footprint(a, None);
                let y = self.footprint(b, None);
                let z = self.footprint(both, None);
                &&& forall|id: Seq<char>| #[trigger]
                    traversal::charged(z.out.fragments, id) <==> traversal::charged(
                        x.out.fragments,
                        id,
                    ) || traversal::charged(y.out.fragments, id)
                &&& forall|id: Seq<char>| #[trigger]
                    traversal::charged(z.incoming.fragments, id) <==> traversal::charged(
                        x.incoming.fragments,
                        id,
                    ) || traversal::charged(y.incoming.fragments, id)
                &&& forall|idx: NodeIndex| #[trigger]
                    z.nodes().contains(idx) <==> x.nodes().contains(idx) || y.nodes().contains(idx)
                &&& boundaries::sizes_consistent(*self.graph) ==> {
                    &&& x.cf_out() <= z.cf_out() && y.cf_out() <= z.cf_out()
                    &&& x.cf_in() <= z.cf_in() && y.cf_in() <= z.cf_in()
                    &&& x.cf_total() <= z.cf_total() && y.cf_total() <= z.cf_total()
                }
            }),
    {
        let x = self.footprint(a, None);
        let y = self.footprint(b, None);
        let z = self.footprint(both, None);
        assert forall|i: int| 0 <= i < a.len() implies both.contains(#[trigger] a[i]) by {
            assert(a.contains(a[i]));
        }
        assert forall|i: int| 0 <= i < b.len() implies both.contains(#[trigger] b[i]) by {
            assert(b.contains(b[i]));
        }
        self.lemma_has_part(a, both);
        self.lemma_has_part(b, both);
        self.out_walk(None).law_union_of_starts(a, b, both);
        let walk = self.in_walk(None, Seq::empty());
        walk.law_union_of_starts(a, b, both);
        self.in_walk(None, x.out.fragments).law_prepaid_hides_nothing(walk, a);
        self.in_walk(None, y.out.fragments).law_prepaid_hides_nothing(walk, b);
        self.in_walk(None, z.out.fragments).law_prepaid_hides_nothing(walk, both);
        solver::lemma_merged_nodes_hold_both(x.out.nodes, x.incoming.nodes);
        solver::lemma_merged_nodes_hold_both(y.out.nodes, y.incoming.nodes);
        solver::lemma_merged_nodes_hold_both(z.out.nodes, z.incoming.nodes);
        if boundaries::sizes_consistent(self.context()) {
            boundaries::law_boundaries_cost_no_more(*self, *self, a, both);
            boundaries::law_boundaries_cost_no_more(*self, *self, b, both);
        }
    }

    proof fn lemma_has_part(&self, few: Seq<NodeIndex>, many: Seq<NodeIndex>)
        requires
            self.has_all(many),
            forall|i: int| 0 <= i < few.len() ==> many.contains(#[trigger] few[i]),
        ensures
            self.has_all(few),
    {
        assert forall|i: int| 0 <= i < few.len() implies self.graph.has(#[trigger] few[i]) by {
            assert(many.contains(few[i]));
            let j = choose|j: int| 0 <= j < many.len() && many[j] == few[i];
            assert(self.graph.has(many[j]));
        }
    }

    /// Without a limit, results for two lists of nodes and for both together: the last
    /// reaches and needs what one of the first two does, and nothing else. In a graph
    /// that gives each fragment one size, it is no smaller than either.
    pub proof fn law_union_of_results(
        &self,
        a: Seq<NodeIndex>,
        b: Seq<NodeIndex>,
        both: Seq<NodeIndex>,
        x: CfResult,
        y: CfResult,
        z: CfResult,
    )
        requires
            self.graph.wf(),
            self.has_all(both),
            is_union(a, b, both),
            self.reports(x, self.footprint(a, None)),
            self.reports(y, self.footprint(b, None)),
            self.reports(z, self.footprint(both, None)),
        ensures
            z.reachable_set@ =~= x.reachable_set@.union(y.reachable_set@),
            is_sorted_union(
                text::texts(x.out_fragments@),
                text::texts(y.out_fragments@),
                text::texts(z.out_fragments@),
            ),
            is_sorted_union(
                text::texts(x.in_fragments@),
                text::texts(y.in_fragments@),
                text::texts(z.in_fragments@),
            ),
            boundaries::sizes_consistent(*self.graph) ==> x.cf_out <= z.cf_out && x.cf_in
                <= z.cf_in && x.cf_total <= z.cf_total,
            boundaries::sizes_consistent(*self.graph) ==> y.cf_out <= z.cf_out && y.cf_in
                <= z.cf_in && y.cf_total <= z.cf_total,
    {
        let p = self.footprint(a, None);
        let q = self.footprint(b, None);
        let r = self.footprint(both, None);
        self.law_union_of_footprints(a, b, both);
        assert forall|i: int| 0 <= i < a.len() implies both.contains(#[trigger] a[i]) by {
            assert(a.contains(a[i]));
        }
        assert forall|i: int| 0 <= i < b.len() implies both.contains(#[trigger] b[i]) by {
            assert(b.contains(b[i]));
        }
        self.lemma_has_part(a, both);
        self.lemma_has_part(b, both);
        self.lemma_charged_once(a, None);
        self.lemma_charged_once(b, None);
        self.lemma_charged_once(both, None);
        self.lemma_fragment_names(x, p);
        self.lemma_fragment_names(y, q);
        self.lemma_fragment_names(z, r);
        let p_ids = solver::node_ids(self.context(), p.nodes());
        let q_ids = solver::node_ids(self.context(), q.nodes());
        let r_ids = solver::node_ids(self.context(), r.nodes());
        assert forall|id: NodeId| #[trigger]
            z.reachable_set@.contains(id) <==> x.reachable_set@.contains(id)
                || y.reachable_set@.contains(id) by {
            if r_ids.contains(id) {
                let k = choose|k: int| 0 <= k < r.nodes().len() && r_ids[k] == id;
                let idx = r.nodes()[k];
                assert(r.nodes().contains(idx));
                if p.nodes().contains(idx) {
                    let j = choose|j: int| 0 <= j < p.nodes().len() && p.nodes()[j] == idx;
                    assert(p_ids[j] == id);
                } else {
                    let j = choose|j: int| 0 <= j < q.nodes().len() && q.nodes()[j] == idx;
                    assert(q_ids[j] == id);
                }
            }
            if p_ids.contains(id) {
                let k = choose|k: int| 0 <= k < p.nodes().len() && p_ids[k] == id;
                let idx = p.nodes()[k];
                assert(p.nodes().contains(idx));
                assert(r.nodes().contains(idx));
                let j = choose|j: int| 0 <= j < r.nodes().len() && r.nodes()[j] == idx;
                assert(r_ids[j] == id);
            }
            if q_ids.contains(id) {
                let k = choose|k: int| 0 <= k < q.nodes().len() && q_ids[k] == id;
                let idx = q.nodes()[k];
                assert(q.nodes().contains(idx));
                assert(r.nodes().contains(idx));
                let j = choose|j: int| 0 <= j < r.nodes().len() && r.nodes()[j] == idx;
                assert(r_ids[j] == id);
            }
        }
    }

    /// The names of fragments in a result are those of the fragments that were charged,
    /// each once and in order.
    proof fn lemma_fragment_names(&self, r: CfResult, footprint: Footprint)
        requires
            self.reports(r, footprint),
            closure::charged_once(footprint.out.fragments),
            closure::charged_once(footprint.incoming.fragments),
        ensures
            sort::strictly_sorted(text::texts(r.out_fragments@)),
            sort::strictly_sorted(text::texts(r.in_fragments@)),
            forall|id: Seq<char>| #[trigger]
                text::texts(r.out_fragments@).contains(id) <==> traversal::charged(
                    footprint.out.fragments,
                    id,
                ),
            forall|id: Seq<char>| #[trigger]
                text::texts(r.in_fragments@).contains(id) <==> traversal::charged(
                    footprint.incoming.fragments,
                    id,
                ),
    {
        assert(r.out_fragments.len() == r.out_fragments@.len());
        assert(r.in_fragments.len() == r.in_fragments@.len());
        lemma_sorted_names(footprint.out.fragments, r.out_fragments@.len());
        lemma_sorted_names(footprint.incoming.fragments, r.in_fragments@.len());
    }

    /// Without a limit, the order of the start nodes does not matter, nor how often each
    /// of them comes: the nodes and the fragments are the same, and so are all sizes in a
    /// graph that gives each fragment one size.
    pub proof fn law_starts_are_a_set(
        &self,
        a: Seq<NodeIndex>,
        b: Seq<NodeIndex>,
        x: CfResult,
        y: CfResult,
    )
        requires
            self.graph.wf(),
            self.has_all(a),
            forall|idx: NodeIndex| #[trigger] a.contains(idx) <==> b.contains(idx),
            self.reports(x, self.footprint(a, None)),
            self.reports(y, self.footprint(b, None)),
        ensures
            x.reachable_set@ =~= y.reachable_set@,
            text::texts(x.out_fragments@) == text::texts(y.out_fragments@),
            text::texts(x.in_fragments@) == text::texts(y.in_fragments@),
            boundaries::sizes_consistent(*self.graph) ==> {
                &&& x.cf_out == y.cf_out
                &&& x.cf_in == y.cf_in
                &&& x.cf_overlap == y.cf_overlap
                &&& x.cf_total == y.cf_total
                &&& x.total_context_size == y.total_context_size
            },
    {
        assert forall|i: int| 0 <= i < b.len() implies a.contains(#[trigger] b[i]) by {
            assert(b.contains(b[i]));
        }
        self.lemma_has_part(b, a);
        self.law_union_of_results(a, a, b, x, x, y);
        self.law_union_of_results(b, b, a, y, y, x);
        sort::law_strictly_sorted_texts_are_a_set(
            text::texts(x.out_fragments@),
            text::texts(y.out_fragments@),
        );
        sort::law_strictly_sorted_texts_are_a_set(
            text::texts(x.in_fragments@),
            text::texts(y.in_fragments@),
        );
        if boundaries::sizes_consistent(self.context()) {
            boundaries::law_directions_agree_on_sizes(*self, a, None);
            boundaries::law_directions_agree_on_sizes(*self, b, None);
            self.law_footprint_total(a, None);
            self.law_footprint_total(b, None);
        }
    }
}

/// Whether two results are the same, but for the policies they name.
pub open spec fn same_but_policy(a: CfResult, b: CfResult) -> bool {
    &&& a.reachable_set@ == b.reachable_set@
    &&& a.reachable_nodes_ordered@ == b.reachable_nodes_ordered@
    &&& a.reachable_nodes_by_layer@.map_values(|layer: Vec<NodeId>| layer@)
        == b.reachable_nodes_by_layer@.map_values(|layer: Vec<NodeId>| layer@)
    &&& a.traversal_steps@ == b.traversal_steps@
    &&& a.total_context_size == b.total_context_size
    &&& a.cf_total == b.cf_total
    &&& a.cf_out == b.cf_out
    &&& a.cf_in == b.cf_in
    &&& a.cf_overlap == b.cf_overlap
    &&& text::texts(a.out_fragments@) == text::texts(b.out_fragments@)
    &&& text::texts(a.in_fragments@) == text::texts(b.in_fragments@)
    &&& a.boundary_stops@ == b.boundary_stops@
    &&& a.unresolved_states@ == b.unresolved_states@
    &&& a.truncated == b.truncated
    &&& a.size_function_id@ == b.size_function_id@
    &&& a.measurement_scope_id@ == b.measurement_scope_id@
    &&& a.graph_total_references == b.graph_total_references
    &&& a.graph_unresolved_calls == b.graph_unresolved_calls
    &&& a.graph_total_functions == b.graph_total_functions
    &&& a.graph_functions_with_explicit_fragments == b.graph_functions_with_explicit_fragments
}

/// Whether two results are the same.
pub open spec fn same_result(a: CfResult, b: CfResult) -> bool {
    same_but_policy(a, b) && a.boundary_policy_id@ == b.boundary_policy_id@
}

/// A policy that cannot tell counts as one that enters: footprints are the same under
/// two policies that decide alike but for that, and results differ only in the name of
/// the policy.
pub proof fn law_unknown_counts_as_entering<P: BoundaryPolicy, Q: BoundaryPolicy>(
    p: CfSolver<P>,
    q: CfSolver<Q>,
    starts: Seq<NodeIndex>,
    max_tokens: Option<u32>,
    x: CfResult,
    y: CfResult,
)
    requires
        p.graph == q.graph,
        p.graph.wf(),
        p.has_all(starts),
        boundaries::agree_but_for_unknown(*p.boundary_policy, *q.boundary_policy),
        p.reports(x, p.footprint(starts, max_tokens)),
        q.reports(y, q.footprint(starts, max_tokens)),
    ensures
        p.footprint(starts, max_tokens) == q.footprint(starts, max_tokens),
        same_but_policy(x, y),
        x.boundary_policy_id@ == p.boundary_policy.name(),
        y.boundary_policy_id@ == q.boundary_policy.name(),
{
    boundaries::law_not_telling_is_no_stop(p.policy(), q.policy());
    boundaries::law_only_stops_matter(p.out_walk(max_tokens), q.out_walk(max_tokens), starts);
    let out = p.footprint(starts, max_tokens).out;
    boundaries::law_only_stops_matter(
        p.in_walk(max_tokens, out.fragments),
        q.in_walk(max_tokens, out.fragments),
        starts,
    );
    assert(x.reachable_nodes_by_layer@.map_values(|layer: Vec<NodeId>| layer@)
        =~= y.reachable_nodes_by_layer@.map_values(|layer: Vec<NodeId>| layer@));
}

/// Sorted names of charges are the names of the charges.
proof fn lemma_sorted_names(list: Seq<Charge>, len: nat)
    requires
        list.len() == len,
        len <= usize::MAX,
        closure::charged_once(list),
    ensures
        sort::strictly_sorted(sort::sorted_texts(solver::charge_ids(list))),
        forall|id: Seq<char>| #[trigger]
            sort::sorted_texts(solver::charge_ids(list)).contains(id) <==> traversal::charged(
                list,
                id,
            ),
{
    let ids = solver::charge_ids(list);
    let sorted = sort::sorted_texts(ids);
    assert forall|i: int, j: int|
        0 <= i < ids.len() && 0 <= j < ids.len() && i != j implies ids[i] != ids[j] by {
        if i < j {
            assert(list[i].id != list[j].id);
        } else {
            assert(list[j].id != list[i].id);
        }
    }
    sort::law_sorting_different_texts(ids);
    assert forall|id: Seq<char>| #[trigger]
        sorted.contains(id) <==> traversal::charged(list, id) by {
        if ids.contains(id) {
            let i = choose|i: int| 0 <= i < ids.len() && ids[i] == id;
            assert(list[i].id == id);
        }
        if traversal::charged(list, id) {
            let i = choose|i: int| 0 <= i < list.len() && (#[trigger] list[i]).id == id;
            assert(ids[i] == id);
        }
    }
}

/// A list with one more fragment costs no more than a list that it is part of, and that
/// holds the fragment.
proof fn lemma_one_more(a: Seq<Charge>, b: Seq<Charge>, c: Charge, j: int)
    requires
        closure::charged_once(a),
        a.is_prefix_of(b),
        !traversal::charged(a, c.id),
        0 <= j < b.len(),
        b[j].id == c.id,
        b[j].size == c.size,
    ensures
        traversal::total(a) + c.size <= traversal::total(b),
{
    let longer = a.push(c);
    assert(longer.drop_last() =~= a);
    assert forall|i: int| 0 <= i < longer.len() implies covers(b, #[trigger] longer[i]) by {
        if i < a.len() {
            assert(b[i] == longer[i]);
        } else {
            assert(b[j].id == longer[i].id && longer[i].size <= b[j].size);
        }
    }
    assert forall|i: int, k: int|
        #![trigger longer[i], longer[k]]
        0 <= i < k < longer.len() implies longer[i].id != longer[k].id by {
        assert(longer[i] == a[i]);
        if k < a.len() {
            assert(longer[k] == a[k]);
        }
    }
    lemma_covered_total(longer, b);
}

/// The same for what is beyond another list.
proof fn lemma_one_more_beyond(
    a: Seq<Charge>,
    b: Seq<Charge>,
    other: Seq<Charge>,
    c: Charge,
    j: int,
)
    requires
        closure::charged_once(a),
        a.is_prefix_of(b),
        !traversal::charged(a, c.id),
        !traversal::charged(other, c.id),
        0 <= j < b.len(),
        b[j].id == c.id,
        b[j].size == c.size,
    ensures
        traversal::total(traversal::beyond(a, other)) + c.size <= traversal::total(
            traversal::beyond(b, other),
        ),
{
    let x = traversal::beyond(a, other);
    let y = traversal::beyond(b, other);
    let longer = x.push(c);
    assert(longer.drop_last() =~= x);
    lemma_beyond(a, other);
    lemma_beyond(b, other);
    assert forall|i: int| 0 <= i < longer.len() implies covers(y, #[trigger] longer[i]) by {
        let at = if i < x.len() {
            assert(longer[i] == x[i]);
            assert(a.contains(x[i]));
            let k = choose|k: int| 0 <= k < a.len() && a[k] == x[i];
            assert(b[k] == x[i]);
            k
        } else {
            j
        };
        assert(!traversal::charged(other, b[at].id));
        assert(y.contains(b[at]));
        let m = choose|m: int| 0 <= m < y.len() && y[m] == b[at];
        assert(y[m].id == longer[i].id && longer[i].size <= y[m].size);
    }
    assert forall|i: int, k: int|
        #![trigger longer[i], longer[k]]
        0 <= i < k < longer.len() implies longer[i].id != longer[k].id by {
        assert(longer[i] == x[i]);
        if k < x.len() {
            assert(longer[k] == x[k]);
        } else {
            assert(a.contains(x[i]));
            let m = choose|m: int| 0 <= m < a.len() && a[m] == x[i];
            assert(a[m].id == x[i].id);
        }
    }
    lemma_covered_total(longer, y);
}

proof fn lemma_beyond_nothing(list: Seq<Charge>)
    ensures
        traversal::beyond(list, Seq::empty()) == list,
    decreases list.len(),
{
    if list.len() > 0 {
        lemma_beyond_nothing(list.drop_last());
        assert(list.drop_last().push(list.last()) =~= list);
    }
}

proof fn lemma_prefix_covered(a: Seq<Charge>, b: Seq<Charge>)
    requires
        a.is_prefix_of(b),
    ensures
        covered(a, b),
{
    assert forall|i: int| 0 <= i < a.len() implies covers(b, #[trigger] a[i]) by {
        assert(b[i].id == a[i].id);
    }
}

proof fn lemma_prefix_charged(a: Seq<Charge>, b: Seq<Charge>)
    requires
        a.is_prefix_of(b),
    ensures
        forall|id: Seq<char>| #[trigger] traversal::charged(a, id) ==> traversal::charged(b, id),
{
    assert forall|id: Seq<char>| #[trigger] traversal::charged(a, id) implies traversal::charged(
        b,
        id,
    ) by {
        let i = choose|i: int| 0 <= i < a.len() && (#[trigger] a[i]).id == id;
        assert(b[i].id == id);
    }
}

proof fn lemma_prefix_total(a: Seq<Charge>, b: Seq<Charge>)
    requires
        a.is_prefix_of(b),
    ensures
        traversal::total(a) <= traversal::total(b),
    decreases b.len(),
{
    if a.len() == b.len() {
        assert(a =~= b);
    } else {
        assert(a.is_prefix_of(b.drop_last()));
        lemma_prefix_total(a, b.drop_last());
    }
}

proof fn lemma_union_once(a: Seq<Charge>, b: Seq<Charge>)
    requires
        closure::charged_once(a),
        closure::charged_once(b),
    ensures
        closure::charged_once(union_of(a, b)),
{
    let rest = traversal::beyond(b, a);
    let all = union_of(a, b);
    lemma_beyond(b, a);
    assert forall|i: int, j: int|
        #![trigger all[i], all[j]]
        0 <= i < j < all.len() implies all[i].id != all[j].id by {
        if i < a.len() {
            assert(all[i] == a[i]);
            if j < a.len() {
                assert(all[j] == a[j]);
            } else {
                assert(all[j] == rest[j - a.len()]);
                assert(!traversal::charged(a, rest[j - a.len()].id));
            }
        } else {
            assert(all[i] == rest[i - a.len()]);
            assert(all[j] == rest[j - a.len()]);
        }
    }
}

/// The union of lists costs no more than that of lists that cover them.
pub proof fn lemma_unions(
    a_out: Seq<Charge>,
    a_in: Seq<Charge>,
    b_out: Seq<Charge>,
    b_in: Seq<Charge>,
)
    requires
        closure::charged_once(a_out),
        closure::charged_once(a_in),
        covered(a_out, b_out),
        covered(a_in, b_in),
        sizes_agree(b_out, b_in),
    ensures
        traversal::total(a_out) + traversal::total(traversal::beyond(a_in, a_out))
            <= traversal::total(b_out) + traversal::total(traversal::beyond(b_in, b_out)),
{
    lemma_total_append(a_out, traversal::beyond(a_in, a_out));
    lemma_total_append(b_out, traversal::beyond(b_in, b_out));
    lemma_union_once(a_out, a_in);
    lemma_union_covers(a_out, a_in, b_out, b_in);
    lemma_covered_total(union_of(a_out, a_in), union_of(b_out, b_in));
}

proof fn lemma_union_covers(
    a_out: Seq<Charge>,
    a_in: Seq<Charge>,
    b_out: Seq<Charge>,
    b_in: Seq<Charge>,
)
    requires
        covered(a_out, b_out),
        covered(a_in, b_in),
        sizes_agree(b_out, b_in),
    ensures
        covered(union_of(a_out, a_in), union_of(b_out, b_in)),
{
    let a = union_of(a_out, a_in);
    let b = union_of(b_out, b_in);
    let a_rest = traversal::beyond(a_in, a_out);
    let b_rest = traversal::beyond(b_in, b_out);
    lemma_beyond(a_in, a_out);
    lemma_beyond(b_in, b_out);
    assert forall|i: int| 0 <= i < a.len() implies covers(b, #[trigger] a[i]) by {
        if i < a_out.len() {
            assert(a[i] == a_out[i]);
            assert(covers(b_out, a_out[i]));
            let y = choose|y: int|
                0 <= y < b_out.len() && (#[trigger] b_out[y]).id == a[i].id && a[i].size
                    <= b_out[y].size;
            assert(b[y] == b_out[y]);
        } else {
            assert(a[i] == a_rest[i - a_out.len()]);
            assert(a_in.contains(a_rest[i - a_out.len()]));
            let x = choose|x: int| 0 <= x < a_in.len() && a_in[x] == a[i];
            assert(covers(b_in, a_in[x]));
            let z = choose|z: int|
                0 <= z < b_in.len() && (#[trigger] b_in[z]).id == a[i].id && a[i].size
                    <= b_in[z].size;
            if traversal::charged(b_out, b_in[z].id) {
                let y = choose|y: int|
                    0 <= y < b_out.len() && (#[trigger] b_out[y]).id == b_in[z].id;
                assert(b_out[y].size == b_in[z].size);
                assert(b[y] == b_out[y]);
            } else {
                assert(b_rest.contains(b_in[z]));
                let y = choose|y: int| 0 <= y < b_rest.len() && b_rest[y] == b_in[z];
                assert(b[b_out.len() + y] == b_in[z]);
            }
        }
    }
}

} // verus!
