//! What a traversal reaches: the states that can be derived from its start, and the
//! fragments that those states need.

use crate::domain::graph::NodeIndex;
use crate::domain::policy::BoundaryPolicy;
use crate::domain::traversal;
use crate::domain::traversal::{
    Arrival, BoundaryStop, Charge, Move, Progress, ReasoningState, Walk,
};
use vstd::prelude::*;

verus! {

/// Whether each fragment of a list is in it once.
pub open spec fn charged_once(list: Seq<Charge>) -> bool {
    forall|i: int, j: int|
        #![trigger list[i], list[j]]
        0 <= i < j < list.len() ==> list[i].id != list[j].id
}

impl<P: BoundaryPolicy> Walk<P> {
    /// Whether visiting one state leads to another. Nothing is derived from external
    /// nodes.
    pub open spec fn leads_to(self, a: ReasoningState, b: ReasoningState) -> bool {
        &&& !self.graph.at(a.node_index).node_core().is_external
        &&& exists|k: int|
            0 <= k < self.moves(a).len() && self.successor(a, #[trigger] self.moves(a)[k]) == Some(
                b,
            )
    }

    /// Whether each state of a list leads to the next, and the first is one of the
    /// start states.
    pub open spec fn is_chain(self, starts: Seq<NodeIndex>, chain: Seq<ReasoningState>) -> bool {
        &&& chain.len() > 0
        &&& traversal::initial_states(starts, self.direction).contains(chain[0])
        &&& forall|i: int|
            0 <= i < chain.len() - 1 ==> self.leads_to(#[trigger] chain[i], chain[i + 1])
    }

    /// Whether a state can be derived from start nodes.
    pub open spec fn derivable(self, starts: Seq<NodeIndex>, state: ReasoningState) -> bool {
        exists|chain: Seq<ReasoningState>| #[trigger]
            self.is_chain(starts, chain) && chain.last() == state
    }

    /// Whether a state needs a fragment.
    pub open spec fn needs(self, state: ReasoningState, charge: Charge) -> bool {
        traversal::required(self.graph, state).contains(charge)
    }

    /// Whether a state that was visited needs a fragment.
    pub open spec fn needed(self, p: Progress, charge: Charge) -> bool {
        exists|s: ReasoningState| #[trigger] p.visited.contains(s) && self.needs(s, charge)
    }

    /// Whether a state stops at a boundary.
    pub open spec fn stops_at(self, state: ReasoningState, stop: BoundaryStop) -> bool {
        &&& !self.graph.at(state.node_index).node_core().is_external
        &&& exists|k: int|
            0 <= k < self.moves(state).len() && self.stop(state, #[trigger] self.moves(state)[k])
                == Some(stop)
    }

    /// What every step keeps holds at the end.
    proof fn lemma_run_keeps(self, kept: spec_fn(Progress) -> bool, progress: Progress)
        requires
            self.valid(progress),
            kept(progress),
            forall|p: Progress|
                self.valid(p) && p.queue.len() > 0 && kept(p) ==> kept(#[trigger] self.step(p)),
        ensures
            kept(self.run(progress)),
            self.valid(self.run(progress)),
            self.run(progress).queue.len() == 0,
        decreases self.unvisited(progress), progress.queue.len(),
    {
        if progress.queue.len() > 0 {
            self.lemma_step_valid(progress);
            assert(kept(self.step(progress)));
            self.lemma_run_keeps(kept, self.step(progress));
        }
    }

    /// What moves add to a traversal.
    proof fn lemma_moves_add(self, progress: Progress, state: ReasoningState, steps: Seq<Move>)
        ensures
            ({
                let after = self.make_moves(progress, state, steps);
                &&& after.visited == progress.visited
                &&& after.nodes == progress.nodes
                &&& after.fragments == progress.fragments
                &&& after.unresolved == progress.unresolved
                &&& after.truncated == progress.truncated
                &&& forall|x: ReasoningState| #[trigger]
                    after.queue.contains(x) <==> progress.queue.contains(x) || exists|k: int|
                        0 <= k < steps.len() && self.successor(state, #[trigger] steps[k]) == Some(
                            x,
                        )
                &&& forall|x: BoundaryStop| #[trigger]
                    after.stops.contains(x) <==> progress.stops.contains(x) || exists|k: int|
                        0 <= k < steps.len() && self.stop(state, #[trigger] steps[k]) == Some(x)
            }),
        decreases steps.len(),
    {
        if steps.len() > 0 {
            let rest = steps.drop_last();
            let before = self.make_moves(progress, state, rest);
            let after = self.make_moves(progress, state, steps);
            self.lemma_moves_add(progress, state, rest);
            assert forall|x: ReasoningState| #[trigger]
                after.queue.contains(x) <==> progress.queue.contains(x) || exists|k: int|
                    0 <= k < steps.len() && self.successor(state, #[trigger] steps[k]) == Some(
                        x,
                    ) by {
                lemma_maybe_push(before.queue, self.successor(state, steps.last()), x);
                if exists|k: int|
                    0 <= k < rest.len() && self.successor(state, #[trigger] rest[k]) == Some(x) {
                    let k = choose|k: int|
                        0 <= k < rest.len() && self.successor(state, #[trigger] rest[k]) == Some(x);
                    assert(steps[k] == rest[k]);
                }
                if exists|k: int|
                    0 <= k < steps.len() && self.successor(state, #[trigger] steps[k]) == Some(x) {
                    let k = choose|k: int|
                        0 <= k < steps.len() && self.successor(state, #[trigger] steps[k]) == Some(
                            x,
                        );
                    if k < rest.len() {
                        assert(rest[k] == steps[k]);
                    }
                }
                assert(steps[steps.len() - 1] == steps.last());
            }
            assert forall|x: BoundaryStop| #[trigger]
                after.stops.contains(x) <==> progress.stops.contains(x) || exists|k: int|
                    0 <= k < steps.len() && self.stop(state, #[trigger] steps[k]) == Some(x) by {
                lemma_maybe_push(before.stops, self.stop(state, steps.last()), x);
                if exists|k: int|
                    0 <= k < rest.len() && self.stop(state, #[trigger] rest[k]) == Some(x) {
                    let k = choose|k: int|
                        0 <= k < rest.len() && self.stop(state, #[trigger] rest[k]) == Some(x);
                    assert(steps[k] == rest[k]);
                }
                if exists|k: int|
                    0 <= k < steps.len() && self.stop(state, #[trigger] steps[k]) == Some(x) {
                    let k = choose|k: int|
                        0 <= k < steps.len() && self.stop(state, #[trigger] steps[k]) == Some(x);
                    if k < rest.len() {
                        assert(rest[k] == steps[k]);
                    }
                }
                assert(steps[steps.len() - 1] == steps.last());
            }
        }
    }

    /// What charging adds to a traversal.
    proof fn lemma_charges_add(self, progress: Progress, list: Seq<Charge>, state: ReasoningState)
        requires
            !progress.truncated,
        ensures
            ({
                let after = self.charge_all(progress, list, state);
                &&& after.queue == progress.queue
                &&& after.visited == progress.visited
                &&& after.nodes == progress.nodes
                &&& after.stops == progress.stops
                &&& after.reached == progress.reached
                &&& progress.fragments.is_prefix_of(after.fragments)
                &&& after.unresolved == if after.truncated {
                    progress.unresolved.push(state)
                } else {
                    progress.unresolved
                }
                &&& charged_once(progress.fragments) ==> charged_once(after.fragments)
                &&& forall|i: int|
                    progress.fragments.len() <= i < after.fragments.len() ==> list.contains(
                        #[trigger] after.fragments[i],
                    )
                &&& !after.truncated ==> forall|k: int|
                    0 <= k < list.len() ==> traversal::charged(
                        after.fragments,
                        (#[trigger] list[k]).id,
                    )
                &&& self.limit is None ==> !after.truncated
            }),
        decreases list.len(),
    {
        if list.len() > 0 {
            let rest = list.drop_last();
            let before = self.charge_all(progress, rest, state);
            let after = self.charge_all(progress, list, state);
            self.lemma_charges_add(progress, rest, state);
            assert(list[list.len() - 1] == list.last());
            assert forall|i: int|
                progress.fragments.len() <= i < after.fragments.len() implies list.contains(
                #[trigger] after.fragments[i],
            ) by {
                if i < before.fragments.len() {
                    assert(rest.contains(before.fragments[i]));
                    let k = choose|k: int|
                        0 <= k < rest.len() && rest[k] == before.fragments[i];
                    assert(list[k] == after.fragments[i]);
                }
            }
            if !after.truncated {
                assert forall|k: int| 0 <= k < list.len() implies traversal::charged(
                    after.fragments,
                    (#[trigger] list[k]).id,
                ) by {
                    if k < rest.len() {
                        assert(rest[k] == list[k]);
                        let i = choose|i: int|
                            0 <= i < before.fragments.len() && (
                            #[trigger] before.fragments[i]).id == rest[k].id;
                        assert(after.fragments[i].id == list[k].id);
                    } else if !traversal::charged(before.fragments, list[k].id) {
                        assert(after.fragments[before.fragments.len() as int].id == list[k].id);
                    }
                }
            }
            if charged_once(progress.fragments) {
                assert forall|i: int, j: int|
                    #![trigger after.fragments[i], after.fragments[j]]
                    0 <= i < j < after.fragments.len() implies after.fragments[i].id
                    != after.fragments[j].id by {
                    assert(before.fragments[i] == after.fragments[i]);
                    if j < before.fragments.len() {
                        assert(before.fragments[j] == after.fragments[j]);
                    }
                }
            }
        }
    }

    /// Start states can be derived.
    proof fn lemma_derive_start(self, starts: Seq<NodeIndex>, state: ReasoningState)
        requires
            traversal::initial_states(starts, self.direction).contains(state),
        ensures
            self.derivable(starts, state),
    {
        let chain = seq![state];
        assert(self.is_chain(starts, chain) && chain.last() == state);
    }

    /// What a state leads to can be derived if the state can.
    proof fn lemma_derive_next(self, starts: Seq<NodeIndex>, a: ReasoningState, b: ReasoningState)
        requires
            self.derivable(starts, a),
            self.leads_to(a, b),
        ensures
            self.derivable(starts, b),
    {
        let chain = choose|chain: Seq<ReasoningState>| #[trigger]
            self.is_chain(starts, chain) && chain.last() == a;
        let longer = chain.push(b);
        assert forall|i: int| 0 <= i < longer.len() - 1 implies self.leads_to(
            #[trigger] longer[i],
            longer[i + 1],
        ) by {
            assert(longer[i] == chain[i]);
            if i < chain.len() - 1 {
                assert(self.leads_to(chain[i], chain[i + 1]));
                assert(longer[i + 1] == chain[i + 1]);
            }
        }
        assert(longer[0] == chain[0]);
        assert(self.is_chain(starts, longer) && longer.last() == b);
    }

    /// Whether all that a traversal holds comes from states that can be derived.
    spec fn sound(self, starts: Seq<NodeIndex>, p: Progress) -> bool {
        &&& forall|s: ReasoningState| #[trigger]
            p.queue.contains(s) ==> self.derivable(starts, s)
        &&& forall|s: ReasoningState| #[trigger]
            p.visited.contains(s) ==> self.derivable(starts, s)
        &&& forall|s: ReasoningState| #[trigger]
            p.unresolved.contains(s) ==> self.derivable(starts, s)
        &&& charged_once(p.fragments)
        &&& forall|i: int|
            #![trigger p.fragments[i]]
            0 <= i < p.fragments.len() ==> self.needed(p, p.fragments[i])
        &&& p.nodes.no_duplicates()
        &&& forall|idx: NodeIndex| #[trigger]
            p.nodes.contains(idx) <==> exists|s: ReasoningState| #[trigger]
                p.visited.contains(s) && s.node_index == idx
        &&& forall|x: BoundaryStop| #[trigger]
            p.stops.contains(x) ==> exists|s: ReasoningState| #[trigger]
                p.visited.contains(s) && self.stops_at(s, x)
        &&& p.truncated ==> p.unresolved.len() > 0 && p.queue.len() == 0
        &&& !p.truncated ==> p.unresolved.len() == 0
        &&& self.limit is None ==> !p.truncated
    }

    /// Whether a traversal that met no limit holds all that comes from the states it
    /// visited, or has yet to visit.
    spec fn complete(self, starts: Seq<NodeIndex>, p: Progress) -> bool {
        !p.truncated ==> {
            &&& forall|s: ReasoningState| #[trigger]
                traversal::initial_states(starts, self.direction).contains(s)
                    ==> p.visited.contains(s) || p.queue.contains(s)
            &&& forall|a: ReasoningState, b: ReasoningState|
                p.visited.contains(a) && #[trigger] self.leads_to(a, b) ==> p.visited.contains(b)
                    || p.queue.contains(b)
            &&& forall|s: ReasoningState, c: Charge|
                p.visited.contains(s) && #[trigger] self.needs(s, c) ==> traversal::charged(
                    p.fragments,
                    c.id,
                )
            &&& forall|s: ReasoningState, x: BoundaryStop|
                p.visited.contains(s) && #[trigger] self.stops_at(s, x) ==> p.stops.contains(x)
        }
    }

    proof fn lemma_initial(self, starts: Seq<NodeIndex>)
        ensures
            self.sound(starts, traversal::initial(starts, self.direction)),
            self.complete(starts, traversal::initial(starts, self.direction)),
    {
        let p = traversal::initial(starts, self.direction);
        assert forall|s: ReasoningState| #[trigger] p.queue.contains(s) implies self.derivable(
            starts,
            s,
        ) by {
            self.lemma_derive_start(starts, s);
        }
    }

    /// The state that a step visits, and the traversal after its fragments were
    /// charged.
    spec fn loaded(self, p: Progress) -> Progress {
        self.charge_all(
            self.enter(p),
            traversal::required(self.graph, p.queue[0]),
            p.queue[0],
        )
    }

    proof fn lemma_loaded(self, p: Progress)
        requires
            p.queue.len() > 0,
            !p.truncated,
            !p.visited.contains(p.queue[0]),
        ensures
            ({
                let state = p.queue[0];
                let loaded = self.loaded(p);
                &&& loaded.queue == p.queue.drop_first()
                &&& loaded.visited == p.visited.insert(state)
                &&& loaded.stops == p.stops
                &&& loaded.reached == p.reached
                &&& p.fragments.is_prefix_of(loaded.fragments)
                &&& loaded.unresolved == if loaded.truncated {
                    p.unresolved.push(state)
                } else {
                    p.unresolved
                }
                &&& charged_once(p.fragments) ==> charged_once(loaded.fragments)
                &&& forall|i: int|
                    p.fragments.len() <= i < loaded.fragments.len() ==> self.needs(
                        state,
                        #[trigger] loaded.fragments[i],
                    )
                &&& !loaded.truncated ==> forall|c: Charge| #[trigger]
                    self.needs(state, c) ==> traversal::charged(loaded.fragments, c.id)
                &&& self.limit is None ==> !loaded.truncated
                &&& forall|idx: NodeIndex| #[trigger]
                    loaded.nodes.contains(idx) <==> p.nodes.contains(idx) || idx
                        == state.node_index
                &&& p.nodes.no_duplicates() ==> loaded.nodes.no_duplicates()
                &&& forall|x: ReasoningState| #[trigger]
                    loaded.queue.contains(x) ==> p.queue.contains(x)
                &&& forall|x: ReasoningState| #[trigger]
                    p.queue.contains(x) ==> loaded.queue.contains(x) || x == state
            }),
    {
        let state = p.queue[0];
        let list = traversal::required(self.graph, state);
        let loaded = self.loaded(p);
        self.lemma_charges_add(self.enter(p), list, state);
        if !loaded.truncated {
            assert forall|c: Charge| #[trigger] self.needs(state, c) implies traversal::charged(
                loaded.fragments,
                c.id,
            ) by {
                let k = choose|k: int| 0 <= k < list.len() && list[k] == c;
                assert(traversal::charged(loaded.fragments, list[k].id));
            }
        }
        assert forall|idx: NodeIndex| #[trigger]
            loaded.nodes.contains(idx) <==> p.nodes.contains(idx) || idx == state.node_index by {
            lemma_maybe_push(p.nodes, Some(state.node_index), idx);
        }
        lemma_drop_first(p.queue);
    }

    proof fn lemma_step_sound(self, starts: Seq<NodeIndex>, p: Progress)
        requires
            p.queue.len() > 0,
            self.sound(starts, p),
        ensures
            self.sound(starts, self.step(p)),
    {
        let state = p.queue[0];
        let after = self.step(p);
        assert(p.queue.contains(state));
        lemma_drop_first(p.queue);
        if !p.visited.contains(state) {
            let loaded = self.loaded(p);
            self.lemma_loaded(p);
            self.lemma_moves_add(loaded, state, self.moves(state));
            assert(after.visited == p.visited.insert(state));
            assert(after.fragments == loaded.fragments);
            assert(after.nodes == loaded.nodes);
            assert(after.visited.contains(state));
            assert forall|s: ReasoningState| #[trigger]
                after.queue.contains(s) implies self.derivable(starts, s) by {
                if !loaded.queue.contains(s) {
                    assert(self.leads_to(state, s));
                    self.lemma_derive_next(starts, state, s);
                }
            }
            assert forall|s: ReasoningState| #[trigger]
                after.unresolved.contains(s) implies self.derivable(starts, s) by {
                if loaded.truncated {
                    let k = choose|k: int|
                        0 <= k < after.unresolved.len() && after.unresolved[k] == s;
                    if k > p.unresolved.len() {
                        assert(loaded.queue[k - p.unresolved.len() - 1] == s);
                        assert(loaded.queue.contains(s));
                    }
                }
            }
            assert forall|i: int|
                #![trigger after.fragments[i]]
                0 <= i < after.fragments.len() implies self.needed(after, after.fragments[i]) by {
                if i < p.fragments.len() {
                    assert(after.fragments[i] == p.fragments[i]);
                    let s = choose|s: ReasoningState| #[trigger]
                        p.visited.contains(s) && self.needs(s, p.fragments[i]);
                    assert(after.visited.contains(s));
                } else {
                    assert(self.needs(state, loaded.fragments[i]));
                }
            }
            assert forall|idx: NodeIndex| #[trigger]
                after.nodes.contains(idx) <==> exists|s: ReasoningState| #[trigger]
                    after.visited.contains(s) && s.node_index == idx by {
                assert(loaded.nodes.contains(idx) <==> p.nodes.contains(idx) || idx
                    == state.node_index);
                if p.nodes.contains(idx) {
                    let s = choose|s: ReasoningState| #[trigger]
                        p.visited.contains(s) && s.node_index == idx;
                    assert(after.visited.contains(s));
                }
                if exists|s: ReasoningState| #[trigger]
                    after.visited.contains(s) && s.node_index == idx {
                    let s = choose|s: ReasoningState| #[trigger]
                        after.visited.contains(s) && s.node_index == idx;
                    if s != state {
                        assert(p.visited.contains(s));
                    }
                }
            }
            assert forall|x: BoundaryStop| #[trigger]
                after.stops.contains(x) implies exists|s: ReasoningState| #[trigger]
                after.visited.contains(s) && self.stops_at(s, x) by {
                if p.stops.contains(x) {
                    let s = choose|s: ReasoningState| #[trigger]
                        p.visited.contains(s) && self.stops_at(s, x);
                    assert(after.visited.contains(s));
                } else {
                    assert(self.stops_at(state, x));
                }
            }
        }
    }

    proof fn lemma_step_complete(self, starts: Seq<NodeIndex>, p: Progress)
        requires
            p.queue.len() > 0,
            self.sound(starts, p),
            self.complete(starts, p),
        ensures
            self.complete(starts, self.step(p)),
    {
        let state = p.queue[0];
        let after = self.step(p);
        lemma_drop_first(p.queue);
        if !p.visited.contains(state) && !after.truncated {
            let loaded = self.loaded(p);
            self.lemma_loaded(p);
            self.lemma_moves_add(loaded, state, self.moves(state));
            assert(!loaded.truncated);
            assert(after.visited == p.visited.insert(state));
            assert(after.fragments == loaded.fragments);
            assert forall|s: ReasoningState| #[trigger]
                p.queue.contains(s) implies after.visited.contains(s) || after.queue.contains(
                s,
            ) by {
            }
            assert forall|a: ReasoningState, b: ReasoningState|
                after.visited.contains(a) && #[trigger] self.leads_to(
                    a,
                    b,
                ) implies after.visited.contains(b) || after.queue.contains(b) by {
                if a != state {
                    assert(p.visited.contains(a));
                }
            }
            assert forall|s: ReasoningState, c: Charge|
                after.visited.contains(s) && #[trigger] self.needs(
                    s,
                    c,
                ) implies traversal::charged(after.fragments, c.id) by {
                if s != state {
                    assert(p.visited.contains(s));
                    let i = choose|i: int|
                        0 <= i < p.fragments.len() && (#[trigger] p.fragments[i]).id == c.id;
                    assert(after.fragments[i] == p.fragments[i]);
                }
            }
            assert forall|s: ReasoningState, x: BoundaryStop|
                after.visited.contains(s) && #[trigger] self.stops_at(
                    s,
                    x,
                ) implies after.stops.contains(x) by {
                if s != state {
                    assert(p.visited.contains(s));
                    assert(p.stops.contains(x));
                }
            }
        }
    }

    /// What holds of the outcome of a traversal.
    proof fn lemma_outcome(self, starts: Seq<NodeIndex>)
        requires
            self.graph.wf(),
            forall|i: int| 0 <= i < starts.len() ==> self.graph.has(#[trigger] starts[i]),
        ensures
            self.sound(starts, self.outcome(starts)),
            self.complete(starts, self.outcome(starts)),
            self.valid(self.outcome(starts)),
            self.outcome(starts).queue.len() == 0,
    {
        let kept = |p: Progress| self.sound(starts, p) && self.complete(starts, p);
        self.lemma_initial_valid(starts);
        self.lemma_initial(starts);
        assert forall|p: Progress|
            self.valid(p) && p.queue.len() > 0 && kept(p) implies kept(#[trigger] self.step(p)) by {
            self.lemma_step_sound(starts, p);
            self.lemma_step_complete(starts, p);
        }
        self.lemma_run_keeps(kept, traversal::initial(starts, self.direction));
    }

    /// The states that a traversal visited are states of the walk.
    pub proof fn lemma_outcome_valid(self, starts: Seq<NodeIndex>)
        requires
            self.graph.wf(),
            forall|i: int| 0 <= i < starts.len() ==> self.graph.has(#[trigger] starts[i]),
        ensures
            self.valid(self.outcome(starts)),
    {
        self.lemma_outcome(starts);
    }

    /// Along a chain every state is visited, if the limit was not met.
    proof fn lemma_chain_visited(
        self,
        starts: Seq<NodeIndex>,
        chain: Seq<ReasoningState>,
        p: Progress,
    )
        requires
            self.is_chain(starts, chain),
            self.complete(starts, p),
            !p.truncated,
            p.queue.len() == 0,
        ensures
            p.visited.contains(chain.last()),
        decreases chain.len(),
    {
        if chain.len() == 1 {
            assert(chain[0] == chain.last());
        } else {
            let rest = chain.drop_last();
            assert forall|i: int| 0 <= i < rest.len() - 1 implies self.leads_to(
                #[trigger] rest[i],
                rest[i + 1],
            ) by {
                assert(self.leads_to(chain[i], chain[i + 1]));
            }
            assert(rest[0] == chain[0]);
            self.lemma_chain_visited(starts, rest, p);
            assert(rest.last() == chain[chain.len() - 2]);
            assert(self.leads_to(chain[chain.len() - 2], chain[chain.len() - 2 + 1]));
        }
    }

    /// Whether a state makes a move to a node that arrives there in a given way.
    pub open spec fn arrives(self, a: ReasoningState, idx: NodeIndex, arrival: Arrival) -> bool {
        &&& !self.graph.at(a.node_index).node_core().is_external
        &&& exists|k: int|
            0 <= k < self.moves(a).len() && #[trigger] self.arrives_by(a, k, idx, arrival)
    }

    /// Whether it is this move that arrives at a node in a given way.
    pub open spec fn arrives_by(
        self,
        a: ReasoningState,
        k: int,
        idx: NodeIndex,
        arrival: Arrival,
    ) -> bool {
        &&& self.successor(a, self.moves(a)[k]) is Some
        &&& self.successor(a, self.moves(a)[k])->0.node_index == idx
        &&& self.arrival(a, self.moves(a)[k]) == arrival
    }

    /// Whether one of some states makes a move to a node that arrives there in a given
    /// way.
    pub open spec fn comes_from(
        self,
        visited: Set<ReasoningState>,
        idx: NodeIndex,
        arrival: Arrival,
    ) -> bool {
        exists|a: ReasoningState| #[trigger]
            visited.contains(a) && self.arrives(a, idx, arrival)
    }

    /// What moves add to what is known of how nodes were reached.
    proof fn lemma_moves_reach(self, progress: Progress, state: ReasoningState, steps: Seq<Move>)
        ensures
            ({
                let after = self.make_moves(progress, state, steps).reached;
                let before = progress.reached;
                &&& forall|idx: NodeIndex| #[trigger]
                    before.contains_key(idx) ==> after.contains_key(idx) && after[idx]
                        == before[idx]
                &&& forall|idx: NodeIndex| #[trigger]
                    after.contains_key(idx) && !before.contains_key(idx) ==> exists|k: int|
                        0 <= k < steps.len() && self.successor(state, #[trigger] steps[k]) is Some
                            && self.successor(state, steps[k])->0.node_index == idx && after[idx]
                            == Some(self.arrival(state, steps[k]))
                &&& forall|k: int|
                    0 <= k < steps.len() && self.successor(state, #[trigger] steps[k]) is Some
                        ==> after.contains_key(self.successor(state, steps[k])->0.node_index)
            }),
        decreases steps.len(),
    {
        if steps.len() > 0 {
            let rest = steps.drop_last();
            let middle = self.make_moves(progress, state, rest).reached;
            let after = self.make_moves(progress, state, steps).reached;
            let before = progress.reached;
            self.lemma_moves_reach(progress, state, rest);
            assert(steps[steps.len() - 1] == steps.last());
            assert forall|idx: NodeIndex| #[trigger]
                after.contains_key(idx) && !before.contains_key(idx) implies exists|k: int|
                0 <= k < steps.len() && self.successor(state, #[trigger] steps[k]) is Some
                    && self.successor(state, steps[k])->0.node_index == idx && after[idx] == Some(
                    self.arrival(state, steps[k]),
                ) by {
                if middle.contains_key(idx) {
                    let k = choose|k: int|
                        0 <= k < rest.len() && self.successor(state, #[trigger] rest[k]) is Some
                            && self.successor(state, rest[k])->0.node_index == idx && middle[idx]
                            == Some(self.arrival(state, rest[k]));
                    assert(steps[k] == rest[k]);
                }
            }
            assert forall|k: int|
                0 <= k < steps.len() && self.successor(
                    state,
                    #[trigger] steps[k],
                ) is Some implies after.contains_key(
                self.successor(state, steps[k])->0.node_index,
            ) by {
                if k < rest.len() {
                    assert(rest[k] == steps[k]);
                }
            }
        }
    }

    /// Whether it is known of every node how it was reached, and whether that is so.
    spec fn traced(self, starts: Seq<NodeIndex>, p: Progress) -> bool {
        &&& forall|s: ReasoningState| #[trigger]
            p.queue.contains(s) ==> p.reached.contains_key(s.node_index)
        &&& p.nodes_reached()
        &&& forall|idx: NodeIndex| #[trigger]
            p.reached.contains_key(idx) ==> (p.reached[idx] is None <==> starts.contains(idx))
        &&& forall|idx: NodeIndex| #[trigger]
            p.reached.contains_key(idx) && p.reached[idx] is Some ==> self.comes_from(
                p.visited,
                idx,
                p.reached[idx]->0,
            )
        &&& forall|idx: NodeIndex| #[trigger]
            starts.contains(idx) ==> p.reached.contains_key(idx)
    }

    proof fn lemma_step_traced(self, starts: Seq<NodeIndex>, p: Progress)
        requires
            p.queue.len() > 0,
            self.sound(starts, p),
            self.traced(starts, p),
        ensures
            self.traced(starts, self.step(p)),
    {
        let state = p.queue[0];
        let after = self.step(p);
        assert(p.queue.contains(state));
        lemma_drop_first(p.queue);
        if !p.visited.contains(state) {
            let loaded = self.loaded(p);
            self.lemma_loaded(p);
            let steps = self.moves(state);
            self.lemma_moves_add(loaded, state, steps);
            self.lemma_moves_reach(loaded, state, steps);
            assert(after.visited.contains(state));
            assert forall|s: ReasoningState| #[trigger]
                after.queue.contains(s) implies after.reached.contains_key(s.node_index) by {
                if !loaded.queue.contains(s) {
                    let k = choose|k: int|
                        0 <= k < steps.len() && self.successor(state, #[trigger] steps[k]) == Some(
                            s,
                        );
                    assert(self.successor(state, steps[k]) is Some);
                }
            }
            assert forall|idx: NodeIndex| #[trigger]
                after.nodes.contains(idx) implies after.reached.contains_key(idx) by {
                assert(loaded.nodes.contains(idx));
            }
            assert forall|idx: NodeIndex| #[trigger]
                after.reached.contains_key(idx) implies (after.reached[idx] is None
                <==> starts.contains(idx)) by {
                if !p.reached.contains_key(idx) {
                    assert(exists|k: int|
                        0 <= k < steps.len() && self.successor(state, #[trigger] steps[k]) is Some
                            && self.successor(state, steps[k])->0.node_index == idx
                            && after.reached[idx] == Some(self.arrival(state, steps[k])));
                }
            }
            assert forall|idx: NodeIndex| #[trigger]
                after.reached.contains_key(idx) && after.reached[idx] is Some implies self.comes_from(
                after.visited,
                idx,
                after.reached[idx]->0,
            ) by {
                if p.reached.contains_key(idx) {
                    let a = choose|a: ReasoningState| #[trigger]
                        p.visited.contains(a) && self.arrives(a, idx, p.reached[idx]->0);
                    assert(after.visited.contains(a));
                } else {
                    let k = choose|k: int|
                        0 <= k < steps.len() && self.successor(state, #[trigger] steps[k]) is Some
                            && self.successor(state, steps[k])->0.node_index == idx
                            && after.reached[idx] == Some(self.arrival(state, steps[k]));
                    assert(self.arrives_by(state, k, idx, after.reached[idx]->0));
                    assert(self.arrives(state, idx, after.reached[idx]->0));
                }
            }
        }
    }

    /// A start node is reached from nowhere. Every other node of a traversal is
    /// reached by a move of a state that was visited: the kind of edge and the decision
    /// are those of that move.
    pub proof fn law_nodes_are_reached_by_moves(self, starts: Seq<NodeIndex>)
        requires
            self.graph.wf(),
            forall|i: int| 0 <= i < starts.len() ==> self.graph.has(#[trigger] starts[i]),
        ensures
            ({
                let end = self.outcome(starts);
                &&& end.nodes_reached()
                &&& forall|idx: NodeIndex| #[trigger]
                    end.nodes.contains(idx) ==> (end.reached[idx] is None <==> starts.contains(
                        idx,
                    ))
                &&& forall|idx: NodeIndex| #[trigger]
                    end.nodes.contains(idx) && end.reached[idx] is Some ==> self.comes_from(
                        end.visited,
                        idx,
                        end.reached[idx]->0,
                    )
            }),
    {
        let kept = |p: Progress| self.sound(starts, p) && self.traced(starts, p);
        let start = traversal::initial(starts, self.direction);
        self.lemma_initial_valid(starts);
        self.lemma_initial(starts);
        assert(self.traced(starts, start)) by {
            assert forall|s: ReasoningState| #[trigger]
                start.queue.contains(s) implies start.reached.contains_key(s.node_index) by {
                let k = choose|k: int| 0 <= k < start.queue.len() && start.queue[k] == s;
                assert(starts[k] == s.node_index);
            }
        }
        assert forall|p: Progress|
            self.valid(p) && p.queue.len() > 0 && kept(p) implies kept(#[trigger] self.step(p)) by {
            self.lemma_step_sound(starts, p);
            self.lemma_step_traced(starts, p);
        }
        self.lemma_run_keeps(kept, start);
        let end = self.outcome(starts);
        assert(self.traced(starts, end));
        assert forall|idx: NodeIndex| #[trigger] end.nodes.contains(idx) implies (
        end.reached[idx] is None <==> starts.contains(idx)) by {
            assert(end.reached.contains_key(idx));
        }
        assert forall|idx: NodeIndex| #[trigger]
            end.nodes.contains(idx) && end.reached[idx] is Some implies self.comes_from(
            end.visited,
            idx,
            end.reached[idx]->0,
        ) by {
            assert(end.reached.contains_key(idx));
        }
    }

    /// A traversal ends with no state left over. It visits only states that can be
    /// derived from its start nodes; it visits all of them if it met no limit, and
    /// without a limit it never does.
    pub proof fn law_visits_what_is_derivable(self, starts: Seq<NodeIndex>)
        requires
            self.graph.wf(),
            forall|i: int| 0 <= i < starts.len() ==> self.graph.has(#[trigger] starts[i]),
        ensures
            ({
                let end = self.outcome(starts);
                &&& end.queue.len() == 0
                &&& forall|s: ReasoningState| #[trigger]
                    end.visited.contains(s) ==> self.derivable(starts, s)
                &&& !end.truncated ==> forall|s: ReasoningState| #[trigger]
                    self.derivable(starts, s) ==> end.visited.contains(s)
                &&& self.limit is None ==> !end.truncated
            }),
    {
        let end = self.outcome(starts);
        self.lemma_outcome(starts);
        if !end.truncated {
            assert forall|s: ReasoningState| #[trigger]
                self.derivable(starts, s) implies end.visited.contains(s) by {
                let chain = choose|chain: Seq<ReasoningState>| #[trigger]
                    self.is_chain(starts, chain) && chain.last() == s;
                self.lemma_chain_visited(starts, chain, end);
            }
        }
    }

    /// A fragment is charged once, and only if a state that was visited needs it.
    /// Unless a limit was met, every fragment that a visited state needs is charged.
    pub proof fn law_charges_what_is_needed(self, starts: Seq<NodeIndex>)
        requires
            self.graph.wf(),
            forall|i: int| 0 <= i < starts.len() ==> self.graph.has(#[trigger] starts[i]),
        ensures
            ({
                let end = self.outcome(starts);
                &&& charged_once(end.fragments)
                &&& forall|i: int|
                    #![trigger end.fragments[i]]
                    0 <= i < end.fragments.len() ==> self.needed(end, end.fragments[i])
                &&& !end.truncated ==> forall|s: ReasoningState, c: Charge|
                    end.visited.contains(s) && #[trigger] self.needs(s, c) ==> traversal::charged(
                        end.fragments,
                        c.id,
                    )
            }),
    {
        self.lemma_outcome(starts);
    }

    /// The nodes of a traversal are those of the states it visited, each once.
    pub proof fn law_nodes_are_visited(self, starts: Seq<NodeIndex>)
        requires
            self.graph.wf(),
            forall|i: int| 0 <= i < starts.len() ==> self.graph.has(#[trigger] starts[i]),
        ensures
            ({
                let end = self.outcome(starts);
                &&& end.nodes.no_duplicates()
                &&& forall|idx: NodeIndex| #[trigger]
                    end.nodes.contains(idx) <==> exists|s: ReasoningState| #[trigger]
                        end.visited.contains(s) && s.node_index == idx
            }),
    {
        self.lemma_outcome(starts);
    }

    /// A boundary is recorded only if a visited state stops there. Unless a limit was
    /// met, every boundary is recorded at which a visited state stops.
    pub proof fn law_stops_are_recorded(self, starts: Seq<NodeIndex>)
        requires
            self.graph.wf(),
            forall|i: int| 0 <= i < starts.len() ==> self.graph.has(#[trigger] starts[i]),
        ensures
            ({
                let end = self.outcome(starts);
                &&& forall|x: BoundaryStop| #[trigger]
                    end.stops.contains(x) ==> exists|s: ReasoningState| #[trigger]
                        end.visited.contains(s) && self.stops_at(s, x)
                &&& !end.truncated ==> forall|s: ReasoningState, x: BoundaryStop|
                    end.visited.contains(s) && #[trigger] self.stops_at(
                        s,
                        x,
                    ) ==> end.stops.contains(x)
            }),
    {
        self.lemma_outcome(starts);
    }

    /// Whether a limit keeps a fragment from being charged.
    pub open spec fn blocks(self, fragments: Seq<Charge>, charge: Charge) -> bool {
        &&& !traversal::charged(fragments, charge.id)
        &&& !traversal::charged(self.prepaid, charge.id)
        &&& !self.affordable(fragments, charge.size)
    }

    /// Whether a limit keeps a fragment from being charged that a visited state needs.
    pub open spec fn lacks(self, p: Progress, charge: Charge) -> bool {
        self.needed(p, charge) && self.blocks(p.fragments, charge)
    }

    proof fn lemma_charges_blocked(self, p: Progress, list: Seq<Charge>, state: ReasoningState)
        requires
            !p.truncated,
        ensures
            self.charge_all(p, list, state).truncated ==> exists|k: int|
                0 <= k < list.len() && #[trigger] self.blocks(
                    self.charge_all(p, list, state).fragments,
                    list[k],
                ),
        decreases list.len(),
    {
        if list.len() > 0 {
            let rest = list.drop_last();
            let before = self.charge_all(p, rest, state);
            let after = self.charge_all(p, list, state);
            self.lemma_charges_blocked(p, rest, state);
            if before.truncated {
                let k = choose|k: int|
                    0 <= k < rest.len() && #[trigger] self.blocks(before.fragments, rest[k]);
                assert(rest[k] == list[k]);
                assert(self.blocks(after.fragments, list[k]));
            } else if after.truncated {
                assert(list[list.len() - 1] == list.last());
                assert(self.blocks(after.fragments, list[list.len() - 1]));
            }
        }
    }

    /// A traversal meets its limit only at a fragment that a visited state needs, that
    /// was not paid for, and that does not fit any more.
    pub proof fn law_limit_is_met_at_a_needed_fragment(self, starts: Seq<NodeIndex>)
        requires
            self.graph.wf(),
            forall|i: int| 0 <= i < starts.len() ==> self.graph.has(#[trigger] starts[i]),
        ensures
            self.outcome(starts).truncated ==> exists|c: Charge| #[trigger]
                self.lacks(self.outcome(starts), c),
    {
        let kept = |p: Progress|
            self.sound(starts, p) && (p.truncated ==> exists|c: Charge| #[trigger]
                self.lacks(p, c));
        self.lemma_initial_valid(starts);
        self.lemma_initial(starts);
        assert forall|p: Progress|
            self.valid(p) && p.queue.len() > 0 && kept(p) implies kept(#[trigger] self.step(p)) by {
            self.lemma_step_sound(starts, p);
            let state = p.queue[0];
            let after = self.step(p);
            if !p.visited.contains(state) {
                let loaded = self.loaded(p);
                let list = traversal::required(self.graph, state);
                self.lemma_loaded(p);
                self.lemma_moves_add(loaded, state, self.moves(state));
                self.lemma_charges_blocked(self.enter(p), list, state);
                if after.truncated {
                    assert(loaded.truncated);
                    let k = choose|k: int|
                        0 <= k < list.len() && #[trigger] self.blocks(loaded.fragments, list[k]);
                    assert(after.visited.contains(state));
                    assert(self.needs(state, list[k]));
                    assert(self.lacks(after, list[k]));
                }
            }
        }
        self.lemma_run_keeps(kept, traversal::initial(starts, self.direction));
    }

    /// A traversal that met its limit says which states it left, and these can be
    /// derived; one that did not leaves none.
    pub proof fn law_truncation_is_reported(self, starts: Seq<NodeIndex>)
        requires
            self.graph.wf(),
            forall|i: int| 0 <= i < starts.len() ==> self.graph.has(#[trigger] starts[i]),
        ensures
            ({
                let end = self.outcome(starts);
                &&& end.truncated <==> end.unresolved.len() > 0
                &&& forall|s: ReasoningState| #[trigger]
                    end.unresolved.contains(s) ==> self.derivable(starts, s)
            }),
    {
        self.lemma_outcome(starts);
    }
}

/// A list without its first element contains what the list does, but for that element.
proof fn lemma_drop_first<T>(list: Seq<T>)
    requires
        list.len() > 0,
    ensures
        forall|x: T| #[trigger] list.drop_first().contains(x) ==> list.contains(x),
        forall|x: T| #[trigger]
            list.contains(x) ==> list.drop_first().contains(x) || x == list[0],
{
    let rest = list.drop_first();
    assert forall|x: T| #[trigger] rest.contains(x) implies list.contains(x) by {
        let k = choose|k: int| 0 <= k < rest.len() && rest[k] == x;
        assert(list[k + 1] == x);
    }
    assert forall|x: T| #[trigger] list.contains(x) implies rest.contains(x) || x == list[0] by {
        let k = choose|k: int| 0 <= k < list.len() && list[k] == x;
        if k > 0 {
            assert(rest[k - 1] == x);
        }
    }
}

/// What a list contains after something was added, or not.
proof fn lemma_maybe_push<T>(list: Seq<T>, more: Option<T>, x: T)
    ensures
        (match more {
            Some(item) => list.push(item),
            None => list,
        }).contains(x) <==> list.contains(x) || more == Some(x),
{
    if let Some(item) = more {
        let longer = list.push(item);
        if list.contains(x) {
            let k = choose|k: int| 0 <= k < list.len() && list[k] == x;
            assert(longer[k] == x);
        }
        if longer.contains(x) {
            let k = choose|k: int| 0 <= k < longer.len() && longer[k] == x;
            if k < list.len() {
                assert(list[k] == x);
            }
        }
        assert(longer[list.len() as int] == item);
    }
}

} // verus!
