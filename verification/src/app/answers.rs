//! What rankings, searches and statistics answer, said over their responses.

use crate::app::anchors;
use crate::app::dto::{
    ComputeRequest, ComputeResponse, PolicyKind, RankedView, SearchItem, SearchResponse,
    StatsResponse, TopItem, TopResponse,
};
use crate::app::engine;
use crate::app::engine::ContextEngine;
use crate::app::ranking;
use crate::domain::graph::NodeIndex;
use crate::domain::node::{Mutability, Node, VariableKind};
use crate::domain::text;
use vstd::prelude::*;

verus! {

/// Whether a text is in a list of the items of a ranking, as a symbol.
pub open spec fn ranks(items: Seq<TopItem>, symbol: Seq<char>) -> bool {
    exists|k: int| 0 <= k < items.len() && (#[trigger] items[k]).symbol@ == symbol
}

/// Whether a text is in a list of the items of a search, as a symbol.
pub open spec fn lists(items: Seq<SearchItem>, symbol: Seq<char>) -> bool {
    exists|k: int| 0 <= k < items.len() && (#[trigger] items[k]).symbol@ == symbol
}

/// Whether entries have different symbols.
spec fn distinct(entries: Seq<RankedView>) -> bool {
    forall|i: int, j: int|
        #![trigger entries[i], entries[j]]
        0 <= i < j < entries.len() ==> entries[i].symbol != entries[j].symbol
}

/// A ranking holds the entries, each once where their symbols differ.
proof fn lemma_ranked(entries: Seq<RankedView>)
    requires
        entries.len() <= usize::MAX,
    ensures
        ranking::ranked(entries).len() == entries.len(),
        forall|e: RankedView| #[trigger]
            ranking::ranked(entries).contains(e) <==> entries.contains(e),
        distinct(entries) ==> distinct(ranking::ranked(entries)),
{
    broadcast use vstd::seq_lib::group_to_multiset_ensures;

    let r = ranking::ranked(entries);
    ranking::law_ranking_descends(entries);
    assert(r.len() == r.to_multiset().len());
    assert(entries.len() == entries.to_multiset().len());
    assert forall|e: RankedView| #[trigger] r.contains(e) <==> entries.contains(e) by {
        assert(r.contains(e) <==> r.to_multiset().count(e) > 0);
        assert(entries.contains(e) <==> entries.to_multiset().count(e) > 0);
    }
    if distinct(entries) {
        assert(entries.no_duplicates()) by {
            assert forall|i: int, j: int|
                0 <= i < entries.len() && 0 <= j < entries.len() && i != j implies entries[i]
                != entries[j] by {
                if i < j {
                    assert(entries[i].symbol != entries[j].symbol);
                } else {
                    assert(entries[j].symbol != entries[i].symbol);
                }
            }
        }
        entries.lemma_multiset_has_no_duplicates();
        r.lemma_multiset_has_no_duplicates_conv();
        assert forall|i: int, j: int|
            #![trigger r[i], r[j]]
            0 <= i < j < r.len() implies r[i].symbol != r[j].symbol by {
            assert(r.contains(r[i]) && r.contains(r[j]));
            let a = choose|a: int| 0 <= a < entries.len() && entries[a] == r[i];
            let b = choose|b: int| 0 <= b < entries.len() && entries[b] == r[j];
            assert(r[i] != r[j]);
            if a < b {
                assert(entries[a].symbol != entries[b].symbol);
            } else {
                assert(entries[b].symbol != entries[a].symbol);
            }
        }
    }
}

/// Whether an item is one of the first so many that are picked.
spec fn is_picked<T>(all: Seq<T>, picks: spec_fn(int) -> bool, end: int, item: T) -> bool {
    exists|i: int| 0 <= i < end && #[trigger] all[i] == item && picks(i)
}

/// Whether a list holds those of the first so many items that are picked, each once.
spec fn picked<T>(all: Seq<T>, picks: spec_fn(int) -> bool, end: int, r: Seq<T>) -> bool {
    &&& r.len() <= end
    &&& r.no_duplicates()
    &&& forall|i: int| #![trigger all[i]] 0 <= i < end && picks(i) ==> r.contains(all[i])
    &&& forall|k: int| #![trigger r[k]] 0 <= k < r.len() ==> is_picked(all, picks, end, r[k])
}

/// What is picked among items, by one more of them.
proof fn lemma_picked<T>(all: Seq<T>, picks: spec_fn(int) -> bool, end: int, rest: Seq<T>, r: Seq<T>)
    requires
        0 < end <= all.len(),
        all.no_duplicates(),
        picked(all, picks, end - 1, rest),
        r == if picks(end - 1) {
            rest.push(all[end - 1])
        } else {
            rest
        },
    ensures
        picked(all, picks, end, r),
{
    assert forall|k: int| #![trigger r[k]] 0 <= k < r.len() implies is_picked(
        all,
        picks,
        end,
        r[k],
    ) by {
        if k < rest.len() {
            assert(r[k] == rest[k]);
            assert(is_picked(all, picks, end - 1, rest[k]));
            let i = choose|i: int| 0 <= i < end - 1 && #[trigger] all[i] == rest[k] && picks(i);
            assert(all[i] == r[k]);
        } else {
            assert(all[end - 1] == r[k]);
        }
    }
    assert forall|i: int| #![trigger all[i]] 0 <= i < end && picks(i) implies r.contains(
        all[i],
    ) by {
        if i < end - 1 {
            assert(rest.contains(all[i]));
            let k = choose|k: int| 0 <= k < rest.len() && rest[k] == all[i];
            assert(r[k] == all[i]);
        } else {
            assert(r[rest.len() as int] == all[i]);
        }
    }
    if picks(end - 1) {
        assert forall|a: int, b: int| 0 <= a < r.len() && 0 <= b < r.len() && a != b implies r[a]
            != r[b] by {
            let k = if a < b {
                a
            } else {
                b
            };
            assert(r[k] == rest[k]);
            assert(is_picked(all, picks, end - 1, rest[k]));
            let i = choose|i: int| 0 <= i < end - 1 && #[trigger] all[i] == rest[k] && picks(i);
            assert(all[i] != all[end - 1]);
            if a < rest.len() && b < rest.len() {
                assert(r[a] == rest[a] && r[b] == rest[b]);
            }
        }
    }
}

impl ContextEngine {
    /// Which symbols are asked for by type.
    spec fn typing(
        &self,
        node_type: Seq<char>,
        include_tests: bool,
        is_test: Seq<bool>,
    ) -> spec_fn(int) -> bool {
        |i: int|
            self.is_of_type(
                self.graph.at(
                    self.graph.symbol_to_node@[self.graph.symbol_to_node.symbols()[i]],
                ),
                node_type,
            ) && (include_tests || !is_test[i])
    }

    proof fn lemma_typed(
        &self,
        node_type: Seq<char>,
        include_tests: bool,
        is_test: Seq<bool>,
        end: int,
    )
        requires
            self.wf(),
            0 <= end <= self.graph.symbol_to_node.symbols().len(),
        ensures
            picked(
                self.graph.symbol_to_node.symbols(),
                self.typing(node_type, include_tests, is_test),
                end,
                self.typed_symbols(node_type, include_tests, is_test, end),
            ),
        decreases end,
    {
        if end > 0 {
            self.lemma_typed(node_type, include_tests, is_test, end - 1);
            self.graph.symbol_to_node.lemma_symbols();
            lemma_picked(
                self.graph.symbol_to_node.symbols(),
                self.typing(node_type, include_tests, is_test),
                end,
                self.typed_symbols(node_type, include_tests, is_test, end - 1),
                self.typed_symbols(node_type, include_tests, is_test, end),
            );
        }
    }

    /// Which symbols match.
    spec fn matching(
        &self,
        needle: Seq<char>,
        lowered: Seq<Seq<char>>,
        include_tests: bool,
        is_test: Seq<bool>,
    ) -> spec_fn(int) -> bool {
        |i: int| text::occurs(needle, lowered[i]) && (include_tests || !is_test[i])
    }

    proof fn lemma_matching(
        &self,
        needle: Seq<char>,
        lowered: Seq<Seq<char>>,
        include_tests: bool,
        is_test: Seq<bool>,
        end: int,
    )
        requires
            self.wf(),
            0 <= end <= self.graph.symbol_to_node.symbols().len(),
        ensures
            picked(
                self.graph.symbol_to_node.symbols(),
                self.matching(needle, lowered, include_tests, is_test),
                end,
                self.matching_symbols(needle, lowered, include_tests, is_test, end),
            ),
        decreases end,
    {
        if end > 0 {
            self.lemma_matching(needle, lowered, include_tests, is_test, end - 1);
            self.graph.symbol_to_node.lemma_symbols();
            lemma_picked(
                self.graph.symbol_to_node.symbols(),
                self.matching(needle, lowered, include_tests, is_test),
                end,
                self.matching_symbols(needle, lowered, include_tests, is_test, end - 1),
                self.matching_symbols(needle, lowered, include_tests, is_test, end),
            );
        }
    }

    /// Which types match and are no nodes.
    spec fn matching_type(&self, needle: Seq<char>, lowered: Seq<Seq<char>>) -> spec_fn(
        int,
    ) -> bool {
        |i: int|
            text::occurs(needle, lowered[i]) && !self.graph.symbol_to_node@.contains_key(
                self.graph.type_registry.ids()[i],
            )
    }

    proof fn lemma_types(&self, needle: Seq<char>, lowered: Seq<Seq<char>>, end: int)
        requires
            self.wf(),
            0 <= end <= self.graph.type_registry.ids().len(),
        ensures
            picked(
                self.graph.type_registry.ids(),
                self.matching_type(needle, lowered),
                end,
                self.matching_types(needle, lowered, end),
            ),
        decreases end,
    {
        if end > 0 {
            self.lemma_types(needle, lowered, end - 1);
            self.graph.type_registry.law_types_are_listed_once();
            lemma_picked(
                self.graph.type_registry.ids(),
                self.matching_type(needle, lowered),
                end,
                self.matching_types(needle, lowered, end - 1),
                self.matching_types(needle, lowered, end),
            );
        }
    }

    /// The items of a ranking are those of the symbols that are asked for, the largest
    /// first, up to the limit.
    proof fn lemma_top(
        &self,
        limit: usize,
        node_type: Seq<char>,
        include_tests: bool,
        policy: PolicyKind,
        is_test: Seq<bool>,
        response: TopResponse,
    ) -> (r: Seq<RankedView>)
        requires
            self.wf(),
            is_test.len() == self.graph.symbol_to_node.symbols().len(),
            self.answers_top(limit, node_type, include_tests, policy, is_test, Ok(response)),
        ensures
            ({
                let symbols = self.typed_symbols(
                    node_type,
                    include_tests,
                    is_test,
                    is_test.len() as int,
                );
                &&& distinct(r)
                &&& r.len() == symbols.len()
                &&& response.items@.len() == if limit < r.len() {
                    limit as nat
                } else {
                    r.len()
                }
                &&& forall|k: int|
                    #![trigger response.items@[k]]
                    0 <= k < response.items@.len() ==> response.items@[k]@ == r[k]
                &&& forall|i: int, j: int|
                    #![trigger r[i], r[j]]
                    0 <= i < j < r.len() ==> r[i].cf >= r[j].cf
                &&& forall|k: int|
                    #![trigger symbols[k]]
                    0 <= k < symbols.len() ==> r.contains(self.entry_of(policy, symbols[k]))
                &&& forall|k: int|
                    #![trigger r[k]]
                    0 <= k < r.len() ==> symbols.contains(r[k].symbol) && r[k] == self.entry_of(
                        policy,
                        r[k].symbol,
                    )
                &&& r == ranking::ranked(
                    symbols.map_values(|symbol: Seq<char>| self.entry_of(policy, symbol)),
                )
            }),
    {
        let symbols = self.typed_symbols(node_type, include_tests, is_test, is_test.len() as int);
        let entries = symbols.map_values(|symbol: Seq<char>| self.entry_of(policy, symbol));
        let r = ranking::ranked(entries);
        self.lemma_typed(node_type, include_tests, is_test, is_test.len() as int);
        self.graph.symbol_to_node.lemma_len();
        assert(distinct(entries)) by {
            assert forall|i: int, j: int|
                #![trigger entries[i], entries[j]]
                0 <= i < j < entries.len() implies entries[i].symbol != entries[j].symbol by {
                assert(symbols[i] != symbols[j]);
            }
        }
        lemma_ranked(entries);
        ranking::law_ranking_descends(entries);
        let views = ranking::ranked_views(response.items@);
        assert(views.len() == response.items@.len());
        assert forall|k: int|
            #![trigger response.items@[k]]
            0 <= k < response.items@.len() implies response.items@[k]@ == r[k] by {
            assert(views[k] == response.items@[k]@);
        }
        assert forall|k: int| #![trigger symbols[k]] 0 <= k < symbols.len() implies r.contains(
            self.entry_of(policy, symbols[k]),
        ) by {
            assert(entries[k] == self.entry_of(policy, symbols[k]));
            assert(entries.contains(entries[k]));
        }
        assert forall|k: int| #![trigger r[k]] 0 <= k < r.len() implies symbols.contains(
            r[k].symbol,
        ) && r[k] == self.entry_of(policy, r[k].symbol) by {
            assert(r.contains(r[k]));
            assert(entries.contains(r[k]));
            let i = choose|i: int| 0 <= i < entries.len() && entries[i] == r[k];
            assert(symbols[i] == r[k].symbol);
        }
        r
    }

    /// With a limit that is not reached, the symbol of a node that is not left out as a
    /// test is in a ranking exactly if all nodes are asked for, or nodes of its kind, or
    /// nodes of its detailed kind: methods are functions with a scope; fields of classes
    /// are class variables, other variables that never change are constants, and of the
    /// rest those of a module are module variables.
    pub proof fn law_ranking_lists_nodes_by_type(
        &self,
        limit: usize,
        node_type: Seq<char>,
        include_tests: bool,
        policy: PolicyKind,
        is_test: Seq<bool>,
        response: TopResponse,
        i: int,
    )
        requires
            self.wf(),
            is_test.len() == self.graph.symbol_to_node.symbols().len(),
            self.answers_top(limit, node_type, include_tests, policy, is_test, Ok(response)),
            response.items@.len() < limit,
            0 <= i < is_test.len(),
        ensures
            ({
                let symbol = self.graph.symbol_to_node.symbols()[i];
                let node = self.graph.at(self.graph.symbol_to_node@[symbol]);
                let of_type = node_type == "all"@ || match node {
                    Node::Function(f) => node_type == "function"@ || (f.core.scope is Some
                        && node_type == "method"@),
                    Node::Variable(v) => {
                        ||| node_type == "variable"@
                        ||| v.variable_kind == VariableKind::ClassField && node_type
                            == "class_variable"@
                        ||| v.variable_kind != VariableKind::ClassField && v.mutability
                            == Mutability::Const && node_type == "constant"@
                        ||| v.variable_kind == VariableKind::Global && v.mutability
                            != Mutability::Const && node_type == "module_variable"@
                    },
                };
                ranks(response.items@, symbol) <==> of_type && (include_tests || !is_test[i])
            }),
    {
        let all = self.graph.symbol_to_node.symbols();
        let symbol = all[i];
        let symbols = self.typed_symbols(node_type, include_tests, is_test, is_test.len() as int);
        let picks = self.typing(node_type, include_tests, is_test);
        let r = self.lemma_top(limit, node_type, include_tests, policy, is_test, response);
        self.lemma_typed(node_type, include_tests, is_test, is_test.len() as int);
        self.graph.symbol_to_node.lemma_symbols();
        if picks(i) {
            assert(symbols.contains(symbol));
            let k = choose|k: int| 0 <= k < symbols.len() && symbols[k] == symbol;
            assert(r.contains(self.entry_of(policy, symbols[k])));
            let j = choose|j: int| 0 <= j < r.len() && r[j] == self.entry_of(policy, symbol);
            assert(response.items@[j]@ == r[j]);
        }
        if ranks(response.items@, symbol) {
            let k = choose|k: int|
                0 <= k < response.items@.len() && (#[trigger] response.items@[k]).symbol@
                    == symbol;
            assert(response.items@[k]@ == r[k]);
            assert(symbols.contains(r[k].symbol));
            let j = choose|j: int| 0 <= j < symbols.len() && symbols[j] == symbol;
            assert(is_picked(all, picks, is_test.len() as int, symbols[j]));
            let m = choose|m: int|
                0 <= m < is_test.len() && #[trigger] all[m] == symbols[j] && picks(m);
            assert(m == i);
        }
    }

    /// With limits that are not reached, an item of the ranking of all nodes is in the
    /// ranking of a type, as the same item, exactly if that type is "all", the type that
    /// the item reports, or the basic kind of its node. So asking for the type of an item
    /// gives a ranking with that item.
    pub proof fn law_ranking_of_a_type_is_a_selection(
        &self,
        limit: usize,
        node_type: Seq<char>,
        include_tests: bool,
        policy: PolicyKind,
        is_test: Seq<bool>,
        all: TopResponse,
        response: TopResponse,
        k: int,
    )
        requires
            self.wf(),
            is_test.len() == self.graph.symbol_to_node.symbols().len(),
            self.answers_top(limit, "all"@, include_tests, policy, is_test, Ok(all)),
            self.answers_top(limit, node_type, include_tests, policy, is_test, Ok(response)),
            all.items@.len() < limit,
            response.items@.len() < limit,
            0 <= k < all.items@.len(),
        ensures
            ({
                let item = all.items@[k]@;
                let node = self.graph.at(self.graph.symbol_to_node@[item.symbol]);
                (exists|j: int|
                    0 <= j < response.items@.len() && (#[trigger] response.items@[j])@ == item)
                    <==> node_type == "all"@ || node_type == item.node_type || node_type
                    == if node is Function {
                    "function"@
                } else {
                    "variable"@
                }
            }),
            node_type == all.items@[k].node_type@ ==> ranks(
                response.items@,
                all.items@[k].symbol@,
            ),
    {
        let item = all.items@[k]@;
        let symbols = self.graph.symbol_to_node.symbols();
        let every = self.typed_symbols("all"@, include_tests, is_test, is_test.len() as int);
        let picks = self.typing("all"@, include_tests, is_test);
        let r = self.lemma_top(limit, "all"@, include_tests, policy, is_test, all);
        let some = self.lemma_top(limit, node_type, include_tests, policy, is_test, response);
        self.lemma_typed("all"@, include_tests, is_test, is_test.len() as int);
        assert(r[k] == item);
        let a = choose|a: int| 0 <= a < every.len() && every[a] == item.symbol;
        assert(is_picked(symbols, picks, is_test.len() as int, every[a]));
        let i = choose|i: int|
            0 <= i < is_test.len() && #[trigger] symbols[i] == every[a] && picks(i);
        self.law_ranking_lists_nodes_by_type(
            limit,
            node_type,
            include_tests,
            policy,
            is_test,
            response,
            i,
        );
        assert(item.node_type == engine::detailed_type_text(
            self.graph.at(self.graph.symbol_to_node@[item.symbol]),
        ));
        if ranks(response.items@, item.symbol) {
            let j = choose|j: int|
                0 <= j < response.items@.len() && (#[trigger] response.items@[j]).symbol@
                    == item.symbol;
            assert(response.items@[j]@ == some[j]);
            assert(some[j] == self.entry_of(policy, item.symbol));
            assert(response.items@[j]@ == item);
        }
        if exists|j: int|
            0 <= j < response.items@.len() && (#[trigger] response.items@[j])@ == item {
            let j = choose|j: int|
                0 <= j < response.items@.len() && (#[trigger] response.items@[j])@ == item;
            assert(response.items@[j].symbol@ == item.symbol);
        }
    }

    /// The items of a ranking are symbols of nodes, each once, with the detailed kinds of
    /// the nodes. No item is smaller than a later one, and each has the size that a
    /// computation of its symbol alone reports under the same policy.
    pub proof fn law_ranking_shows_computed_sizes(
        &self,
        limit: usize,
        node_type: Seq<char>,
        include_tests: bool,
        policy: PolicyKind,
        is_test: Seq<bool>,
        response: TopResponse,
        k: int,
        req: ComputeRequest,
        computed: ComputeResponse,
    )
        requires
            self.wf(),
            is_test.len() == self.graph.symbol_to_node.symbols().len(),
            self.answers_top(limit, node_type, include_tests, policy, is_test, Ok(response)),
            0 <= k < response.items@.len(),
            text::texts(req.symbols@) == seq![response.items@[k].symbol@],
            req.policy == policy,
            req.max_tokens is None,
            self.answers_compute(req, Ok(computed)),
        ensures
            self.graph.symbol_to_node@.contains_key(response.items@[k].symbol@),
            response.items@[k].node_type@ == computed.anchor_resolutions->0@[0].resolved_kind@,
            response.items@[k].cf == computed.total_context_size,
            forall|j: int|
                #![trigger response.items@[j]]
                0 <= j < response.items@.len() && j != k ==> response.items@[j].symbol@
                    != response.items@[k].symbol@,
            forall|j: int|
                #![trigger response.items@[j]]
                k < j < response.items@.len() ==> response.items@[j].cf <= response.items@[k].cf,
    {
        let symbol = response.items@[k].symbol@;
        let symbols = self.typed_symbols(node_type, include_tests, is_test, is_test.len() as int);
        let all = self.graph.symbol_to_node.symbols();
        let picks = self.typing(node_type, include_tests, is_test);
        let r = self.lemma_top(limit, node_type, include_tests, policy, is_test, response);
        self.lemma_typed(node_type, include_tests, is_test, is_test.len() as int);
        self.graph.symbol_to_node.lemma_symbols();
        assert(response.items@[k]@ == r[k]);
        let a = choose|a: int| 0 <= a < symbols.len() && symbols[a] == symbol;
        assert(is_picked(all, picks, is_test.len() as int, symbols[a]));
        let i = choose|i: int|
            0 <= i < is_test.len() && #[trigger] all[i] == symbols[a] && picks(i);
        assert(self.graph.symbol_to_node@.contains_key(all[i]));
        self.lemma_computed(symbol, req, computed);
        assert(self.node_footprint(
            policy,
            self.graph.symbol_to_node@[symbols[a]],
        ).representable());
        assert forall|j: int|
            #![trigger response.items@[j]]
            0 <= j < response.items@.len() && j != k implies response.items@[j].symbol@
            != symbol by {
            assert(response.items@[j]@ == r[j]);
            if j < k {
                assert(r[j].symbol != r[k].symbol);
            } else {
                assert(r[k].symbol != r[j].symbol);
            }
        }
        assert forall|j: int|
            #![trigger response.items@[j]]
            k < j < response.items@.len() implies response.items@[j].cf
            <= response.items@[k].cf by {
            assert(response.items@[j]@ == r[j]);
            assert(r[k].cf >= r[j].cf);
        }
    }

    /// What a computation of one node reports.
    proof fn lemma_computed(
        &self,
        symbol: Seq<char>,
        req: ComputeRequest,
        computed: ComputeResponse,
    )
        requires
            self.wf(),
            self.graph.symbol_to_node@.contains_key(symbol),
            text::texts(req.symbols@) == seq![symbol],
            req.max_tokens is None,
            self.answers_compute(req, Ok(computed)),
        ensures
            computed.total_context_size as nat == self.node_footprint(
                req.policy,
                self.graph.symbol_to_node@[symbol],
            ).cf_total(),
            computed.anchor_resolutions->0@.len() == 1,
            computed.anchor_resolutions->0@[0].resolved_kind@ == engine::detailed_type_text(
                self.graph.at(self.graph.symbol_to_node@[symbol]),
            ),
    {
        anchors::law_node_stands_for_itself(self.context_graph(), symbol);
        let views = computed.anchor_resolutions->0@.map_values(
            |a: crate::app::dto::AnchorResolution| a@,
        );
        let resolved = seq![symbol].map_values(
            |symbol: Seq<char>| anchors::resolution_of(*self.graph, symbol),
        );
        assert(views == resolved);
        assert(views.len() == computed.anchor_resolutions->0@.len());
        assert(resolved.len() == 1);
        assert(views[0] == anchors::resolution_of(*self.graph, seq![symbol][0]));
        assert(views[0] == computed.anchor_resolutions->0@[0]@);
        assert(anchors::compute_summary(computed).total_context_size
            == computed.total_context_size as nat);
    }

    /// A limit takes the first items of a ranking, and as many as there are up to it.
    pub proof fn law_limit_takes_the_first_of_a_ranking(
        &self,
        limit: usize,
        larger: usize,
        node_type: Seq<char>,
        include_tests: bool,
        policy: PolicyKind,
        is_test: Seq<bool>,
        response: TopResponse,
        longer: TopResponse,
    )
        requires
            self.wf(),
            is_test.len() == self.graph.symbol_to_node.symbols().len(),
            limit <= larger,
            self.answers_top(limit, node_type, include_tests, policy, is_test, Ok(response)),
            self.answers_top(larger, node_type, include_tests, policy, is_test, Ok(longer)),
        ensures
            response.items@.len() == if limit < longer.items@.len() {
                limit as nat
            } else {
                longer.items@.len()
            },
            forall|k: int|
                #![trigger response.items@[k]]
                #![trigger longer.items@[k]]
                0 <= k < response.items@.len() ==> response.items@[k]@ == longer.items@[k]@,
    {
        let a = self.lemma_top(limit, node_type, include_tests, policy, is_test, response);
        let b = self.lemma_top(larger, node_type, include_tests, policy, is_test, longer);
        assert forall|k: int|
            #![trigger response.items@[k]]
            #![trigger longer.items@[k]]
            0 <= k < response.items@.len() implies response.items@[k]@ == longer.items@[k]@ by {
            assert(response.items@[k]@ == a[k]);
            assert(longer.items@[k]@ == b[k]);
        }
    }

    /// The symbols of nodes that match in a search.
    spec fn found_symbols(
        &self,
        pattern: Seq<char>,
        include_tests: bool,
        is_test: Seq<bool>,
    ) -> Seq<Seq<char>> {
        let low = ranking::lowercase_all(self.graph.symbol_to_node.symbols());
        self.matching_symbols(
            text::lowercase_of(pattern),
            low,
            include_tests,
            is_test,
            low.len() as int,
        )
    }

    /// The types that match in a search and are no nodes.
    spec fn found_types(&self, pattern: Seq<char>) -> Seq<Seq<char>> {
        let low = ranking::lowercase_all(self.graph.type_registry.ids());
        self.matching_types(text::lowercase_of(pattern), low, low.len() as int)
    }

    /// Which symbols of nodes match in a search.
    spec fn finds_symbol(
        &self,
        pattern: Seq<char>,
        include_tests: bool,
        is_test: Seq<bool>,
    ) -> spec_fn(int) -> bool {
        self.matching(
            text::lowercase_of(pattern),
            ranking::lowercase_all(self.graph.symbol_to_node.symbols()),
            include_tests,
            is_test,
        )
    }

    /// Which types match in a search and are no nodes.
    spec fn finds_type(&self, pattern: Seq<char>) -> spec_fn(int) -> bool {
        self.matching_type(
            text::lowercase_of(pattern),
            ranking::lowercase_all(self.graph.type_registry.ids()),
        )
    }

    /// What is found in a search are symbols of nodes and other types, each once.
    proof fn lemma_found(&self, pattern: Seq<char>, include_tests: bool, is_test: Seq<bool>)
        requires
            self.wf(),
        ensures
            picked(
                self.graph.symbol_to_node.symbols(),
                self.finds_symbol(pattern, include_tests, is_test),
                self.graph.symbol_to_node.symbols().len() as int,
                self.found_symbols(pattern, include_tests, is_test),
            ),
            picked(
                self.graph.type_registry.ids(),
                self.finds_type(pattern),
                self.graph.type_registry.ids().len() as int,
                self.found_types(pattern),
            ),
            forall|k: int|
                #![trigger self.found_symbols(pattern, include_tests, is_test)[k]]
                0 <= k < self.found_symbols(pattern, include_tests, is_test).len()
                    ==> self.graph.symbol_to_node@.contains_key(
                    self.found_symbols(pattern, include_tests, is_test)[k],
                ),
            forall|k: int|
                #![trigger self.found_types(pattern)[k]]
                0 <= k < self.found_types(pattern).len()
                    ==> !self.graph.symbol_to_node@.contains_key(self.found_types(pattern)[k])
                    && self.graph.type_registry.ids().contains(self.found_types(pattern)[k]),
    {
        let all = self.graph.symbol_to_node.symbols();
        let ids = self.graph.type_registry.ids();
        let symbols = self.found_symbols(pattern, include_tests, is_test);
        let types = self.found_types(pattern);
        let needle = text::lowercase_of(pattern);
        self.lemma_matching(
            needle,
            ranking::lowercase_all(all),
            include_tests,
            is_test,
            all.len() as int,
        );
        self.lemma_types(needle, ranking::lowercase_all(ids), ids.len() as int);
        self.graph.symbol_to_node.lemma_symbols();
        let picks = self.finds_symbol(pattern, include_tests, is_test);
        let picks_type = self.finds_type(pattern);
        assert forall|k: int|
            #![trigger symbols[k]]
            0 <= k < symbols.len() implies self.graph.symbol_to_node@.contains_key(
            symbols[k],
        ) by {
            assert(is_picked(all, picks, all.len() as int, symbols[k]));
            let i = choose|i: int|
                0 <= i < all.len() && #[trigger] all[i] == symbols[k] && picks(i);
            assert(self.graph.symbol_to_node@.contains_key(all[i]));
        }
        assert forall|k: int|
            #![trigger types[k]]
            0 <= k < types.len() implies !self.graph.symbol_to_node@.contains_key(types[k])
            && ids.contains(types[k]) by {
            assert(is_picked(ids, picks_type, ids.len() as int, types[k]));
        }
    }

    /// The items of a search are those of what is found, the largest first, up to the
    /// limit.
    proof fn lemma_search(
        &self,
        pattern: Seq<char>,
        with_cf: bool,
        limit: Option<usize>,
        include_tests: bool,
        policy: PolicyKind,
        is_test: Seq<bool>,
        response: SearchResponse,
    ) -> (r: Seq<RankedView>)
        requires
            self.wf(),
            is_test.len() == self.graph.symbol_to_node.symbols().len(),
            self.graph.symbol_to_node.symbols().len() + self.graph.type_registry.ids().len()
                <= usize::MAX,
            self.answers_search(
                pattern,
                with_cf,
                limit,
                include_tests,
                policy,
                is_test,
                Ok(response),
            ),
        ensures
            ({
                let symbols = self.found_symbols(pattern, include_tests, is_test);
                let types = self.found_types(pattern);
                &&& distinct(r)
                &&& r.len() == symbols.len() + types.len()
                &&& response.total_matches == r.len()
                &&& response.items@.len() == if limit is Some && limit->0 < r.len() {
                    limit->0 as nat
                } else {
                    r.len()
                }
                &&& forall|k: int|
                    #![trigger response.items@[k]]
                    0 <= k < response.items@.len() ==> response.items@[k]@ == ranking::match_of(
                        r[k],
                        with_cf || limit is Some,
                    )
                &&& forall|i: int, j: int|
                    #![trigger r[i], r[j]]
                    0 <= i < j < r.len() ==> r[i].cf >= r[j].cf
                &&& forall|k: int|
                    #![trigger symbols[k]]
                    0 <= k < symbols.len() ==> r.contains(self.entry_of(policy, symbols[k]))
                &&& forall|k: int|
                    #![trigger types[k]]
                    0 <= k < types.len() ==> r.contains(
                        self.class_entry(policy, with_cf, types[k]),
                    )
                &&& forall|k: int|
                    #![trigger r[k]]
                    0 <= k < r.len() ==> {
                        ||| symbols.contains(r[k].symbol) && r[k] == self.entry_of(
                            policy,
                            r[k].symbol,
                        )
                        ||| types.contains(r[k].symbol) && r[k] == self.class_entry(
                            policy,
                            with_cf,
                            r[k].symbol,
                        )
                    }
                &&& r == ranking::ranked(
                    symbols.map_values(|symbol: Seq<char>| self.entry_of(policy, symbol))
                        + types.map_values(
                        |type_id: Seq<char>| self.class_entry(policy, with_cf, type_id),
                    ),
                )
            }),
    {
        let symbols = self.found_symbols(pattern, include_tests, is_test);
        let types = self.found_types(pattern);
        let firsts = symbols.map_values(|symbol: Seq<char>| self.entry_of(policy, symbol));
        let seconds = types.map_values(
            |type_id: Seq<char>| self.class_entry(policy, with_cf, type_id),
        );
        let entries = firsts + seconds;
        let r = ranking::ranked(entries);
        self.lemma_found(pattern, include_tests, is_test);
        assert forall|i: int| #![trigger entries[i]] 0 <= i < entries.len() implies entries[i]
            == if i < symbols.len() {
            self.entry_of(policy, symbols[i])
        } else {
            self.class_entry(policy, with_cf, types[i - symbols.len()])
        } by {
            if i < symbols.len() {
                assert(entries[i] == firsts[i]);
            } else {
                assert(entries[i] == seconds[i - symbols.len()]);
            }
        }
        assert(distinct(entries)) by {
            assert forall|i: int, j: int|
                #![trigger entries[i], entries[j]]
                0 <= i < j < entries.len() implies entries[i].symbol != entries[j].symbol by {
                if j < symbols.len() {
                    assert(symbols[i] != symbols[j]);
                } else if i >= symbols.len() {
                    assert(types[i - symbols.len()] != types[j - symbols.len()]);
                } else {
                    assert(self.graph.symbol_to_node@.contains_key(symbols[i]));
                    assert(!self.graph.symbol_to_node@.contains_key(types[j - symbols.len()]));
                }
            }
        }
        lemma_ranked(entries);
        ranking::law_ranking_descends(entries);
        let views = response.items@.map_values(|item: SearchItem| item@);
        assert(views.len() == response.items@.len());
        assert forall|k: int|
            #![trigger response.items@[k]]
            0 <= k < response.items@.len() implies response.items@[k]@ == ranking::match_of(
            r[k],
            with_cf || limit is Some,
        ) by {
            assert(views[k] == response.items@[k]@);
        }
        assert forall|k: int| #![trigger symbols[k]] 0 <= k < symbols.len() implies r.contains(
            self.entry_of(policy, symbols[k]),
        ) by {
            assert(entries.contains(entries[k]));
        }
        assert forall|k: int| #![trigger types[k]] 0 <= k < types.len() implies r.contains(
            self.class_entry(policy, with_cf, types[k]),
        ) by {
            assert(entries.contains(entries[symbols.len() + k]));
        }
        assert forall|k: int|
            #![trigger r[k]]
            0 <= k < r.len() implies {
            ||| symbols.contains(r[k].symbol) && r[k] == self.entry_of(policy, r[k].symbol)
            ||| types.contains(r[k].symbol) && r[k] == self.class_entry(
                policy,
                with_cf,
                r[k].symbol,
            )
        } by {
            assert(r.contains(r[k]));
            assert(entries.contains(r[k]));
            let i = choose|i: int| 0 <= i < entries.len() && entries[i] == r[k];
            if i < symbols.len() {
                assert(symbols[i] == r[k].symbol);
            } else {
                assert(types[i - symbols.len()] == r[k].symbol);
            }
        }
        r
    }

    /// Without a limit, the symbol of a node is among the items of a search exactly if
    /// the pattern in lower case is a part of the symbol in lower case, and tests are
    /// asked for or the symbol is not marked as one.
    pub proof fn law_search_lists_matching_nodes(
        &self,
        pattern: Seq<char>,
        with_cf: bool,
        limit: Option<usize>,
        include_tests: bool,
        policy: PolicyKind,
        is_test: Seq<bool>,
        response: SearchResponse,
        i: int,
    )
        requires
            self.wf(),
            is_test.len() == self.graph.symbol_to_node.symbols().len(),
            self.graph.symbol_to_node.symbols().len() + self.graph.type_registry.ids().len()
                <= usize::MAX,
            self.answers_search(
                pattern,
                with_cf,
                limit,
                include_tests,
                policy,
                is_test,
                Ok(response),
            ),
            limit is None,
            0 <= i < is_test.len(),
        ensures
            ({
                let symbol = self.graph.symbol_to_node.symbols()[i];
                let lowered = text::lowercase_of(symbol);
                let needle = text::lowercase_of(pattern);
                let has_part = exists|a: int|
                    0 <= a <= lowered.len() - needle.len() && #[trigger] lowered.subrange(
                        a,
                        a + needle.len(),
                    ) == needle;
                &&& include_tests ==> (lists(response.items@, symbol) <==> has_part)
                &&& !include_tests ==> (lists(response.items@, symbol) <==> has_part
                    && !is_test[i])
            }),
    {
        let all = self.graph.symbol_to_node.symbols();
        let symbol = all[i];
        let symbols = self.found_symbols(pattern, include_tests, is_test);
        let types = self.found_types(pattern);
        let picks = self.finds_symbol(pattern, include_tests, is_test);
        let r = self.lemma_search(
            pattern,
            with_cf,
            limit,
            include_tests,
            policy,
            is_test,
            response,
        );
        self.lemma_found(pattern, include_tests, is_test);
        self.graph.symbol_to_node.lemma_symbols();
        assert(self.graph.symbol_to_node@.contains_key(all[i]));
        assert(ranking::lowercase_all(all)[i] == text::lowercase_of(symbol));
        if picks(i) {
            assert(symbols.contains(symbol));
            let k = choose|k: int| 0 <= k < symbols.len() && symbols[k] == symbol;
            assert(r.contains(self.entry_of(policy, symbols[k])));
            let j = choose|j: int| 0 <= j < r.len() && r[j] == self.entry_of(policy, symbol);
            assert(response.items@[j]@.symbol == symbol);
            assert(response.items@[j].symbol@ == symbol);
        }
        if lists(response.items@, symbol) {
            let k = choose|k: int|
                0 <= k < response.items@.len() && (#[trigger] response.items@[k]).symbol@
                    == symbol;
            assert(response.items@[k]@.symbol == r[k].symbol);
            if types.contains(symbol) {
                let t = choose|t: int| 0 <= t < types.len() && types[t] == symbol;
                assert(!self.graph.symbol_to_node@.contains_key(types[t]));
            }
            let j = choose|j: int| 0 <= j < symbols.len() && symbols[j] == symbol;
            assert(is_picked(all, picks, all.len() as int, symbols[j]));
            let m = choose|m: int|
                0 <= m < all.len() && #[trigger] all[m] == symbols[j] && picks(m);
            assert(m == i);
        }
        assert(text::occurs(text::lowercase_of(pattern), text::lowercase_of(symbol)) <==> {
            let lowered = text::lowercase_of(symbol);
            let needle = text::lowercase_of(pattern);
            exists|a: int|
                0 <= a <= lowered.len() - needle.len() && #[trigger] lowered.subrange(
                    a,
                    a + needle.len(),
                ) == needle
        });
    }

    /// Without a limit, a type that is no node is among the items of a search exactly if
    /// the pattern in lower case is a part of its identifier in lower case. Marks of tests
    /// make no difference.
    pub proof fn law_search_lists_matching_types(
        &self,
        pattern: Seq<char>,
        with_cf: bool,
        limit: Option<usize>,
        include_tests: bool,
        policy: PolicyKind,
        is_test: Seq<bool>,
        response: SearchResponse,
        i: int,
    )
        requires
            self.wf(),
            is_test.len() == self.graph.symbol_to_node.symbols().len(),
            self.graph.symbol_to_node.symbols().len() + self.graph.type_registry.ids().len()
                <= usize::MAX,
            self.answers_search(
                pattern,
                with_cf,
                limit,
                include_tests,
                policy,
                is_test,
                Ok(response),
            ),
            limit is None,
            0 <= i < self.graph.type_registry.ids().len(),
            !self.graph.symbol_to_node@.contains_key(self.graph.type_registry.ids()[i]),
        ensures
            ({
                let type_id = self.graph.type_registry.ids()[i];
                let lowered = text::lowercase_of(type_id);
                let needle = text::lowercase_of(pattern);
                lists(response.items@, type_id) <==> exists|a: int|
                    0 <= a <= lowered.len() - needle.len() && #[trigger] lowered.subrange(
                        a,
                        a + needle.len(),
                    ) == needle
            }),
    {
        let all = self.graph.type_registry.ids();
        let type_id = all[i];
        let symbols = self.found_symbols(pattern, include_tests, is_test);
        let types = self.found_types(pattern);
        let picks = self.finds_type(pattern);
        let r = self.lemma_search(
            pattern,
            with_cf,
            limit,
            include_tests,
            policy,
            is_test,
            response,
        );
        self.lemma_found(pattern, include_tests, is_test);
        self.graph.type_registry.law_types_are_listed_once();
        assert(ranking::lowercase_all(all)[i] == text::lowercase_of(type_id));
        if picks(i) {
            assert(types.contains(type_id));
            let k = choose|k: int| 0 <= k < types.len() && types[k] == type_id;
            assert(r.contains(self.class_entry(policy, with_cf, types[k])));
            let j = choose|j: int|
                0 <= j < r.len() && r[j] == self.class_entry(policy, with_cf, type_id);
            assert(response.items@[j]@.symbol == type_id);
            assert(response.items@[j].symbol@ == type_id);
        }
        if lists(response.items@, type_id) {
            let k = choose|k: int|
                0 <= k < response.items@.len() && (#[trigger] response.items@[k]).symbol@
                    == type_id;
            assert(response.items@[k]@.symbol == r[k].symbol);
            if symbols.contains(type_id) {
                let t = choose|t: int| 0 <= t < symbols.len() && symbols[t] == type_id;
                assert(self.graph.symbol_to_node@.contains_key(symbols[t]));
            }
            let j = choose|j: int| 0 <= j < types.len() && types[j] == type_id;
            assert(is_picked(all, picks, all.len() as int, types[j]));
            let m = choose|m: int|
                0 <= m < all.len() && #[trigger] all[m] == types[j] && picks(m);
            assert(m == i);
        }
        assert(text::occurs(text::lowercase_of(pattern), text::lowercase_of(type_id)) <==> {
            let lowered = text::lowercase_of(type_id);
            let needle = text::lowercase_of(pattern);
            exists|a: int|
                0 <= a <= lowered.len() - needle.len() && #[trigger] lowered.subrange(
                    a,
                    a + needle.len(),
                ) == needle
        });
    }

    /// The items of a search are symbols of nodes and other registered types, each once.
    /// All that match are counted. Sizes are shown exactly if they or a limit were asked
    /// for, and then no item is smaller than a later one. A type is shown as a class.
    pub proof fn law_search_items_are_different(
        &self,
        pattern: Seq<char>,
        with_cf: bool,
        limit: Option<usize>,
        include_tests: bool,
        policy: PolicyKind,
        is_test: Seq<bool>,
        response: SearchResponse,
        k: int,
    )
        requires
            self.wf(),
            is_test.len() == self.graph.symbol_to_node.symbols().len(),
            self.graph.symbol_to_node.symbols().len() + self.graph.type_registry.ids().len()
                <= usize::MAX,
            self.answers_search(
                pattern,
                with_cf,
                limit,
                include_tests,
                policy,
                is_test,
                Ok(response),
            ),
            0 <= k < response.items@.len(),
        ensures
            self.graph.symbol_to_node@.contains_key(response.items@[k].symbol@)
                || self.graph.type_registry.ids().contains(response.items@[k].symbol@),
            !self.graph.symbol_to_node@.contains_key(response.items@[k].symbol@)
                ==> response.items@[k].node_type@ == "class"@,
            forall|j: int|
                #![trigger response.items@[j]]
                0 <= j < response.items@.len() && j != k ==> response.items@[j].symbol@
                    != response.items@[k].symbol@,
            response.items@[k].cf is Some <==> with_cf || limit is Some,
            forall|j: int|
                #![trigger response.items@[j]]
                k < j < response.items@.len() && (with_cf || limit is Some)
                    ==> response.items@[j].cf->0 <= response.items@[k].cf->0,
            limit is None ==> response.total_matches == response.items@.len(),
    {
        let symbol = response.items@[k].symbol@;
        let symbols = self.found_symbols(pattern, include_tests, is_test);
        let types = self.found_types(pattern);
        let r = self.lemma_search(
            pattern,
            with_cf,
            limit,
            include_tests,
            policy,
            is_test,
            response,
        );
        self.lemma_found(pattern, include_tests, is_test);
        assert(response.items@[k]@ == ranking::match_of(r[k], with_cf || limit is Some));
        assert(symbol == r[k].symbol);
        if symbols.contains(symbol) {
            let t = choose|t: int| 0 <= t < symbols.len() && symbols[t] == symbol;
            assert(self.graph.symbol_to_node@.contains_key(symbols[t]));
        } else {
            let t = choose|t: int| 0 <= t < types.len() && types[t] == symbol;
            assert(self.graph.type_registry.ids().contains(types[t]));
        }
        assert forall|j: int|
            #![trigger response.items@[j]]
            0 <= j < response.items@.len() && j != k implies response.items@[j].symbol@
            != symbol by {
            assert(response.items@[j]@.symbol == r[j].symbol);
            if j < k {
                assert(r[j].symbol != r[k].symbol);
            } else {
                assert(r[k].symbol != r[j].symbol);
            }
        }
        assert forall|j: int|
            #![trigger response.items@[j]]
            k < j < response.items@.len() && (with_cf || limit is Some) implies
            response.items@[j].cf->0 <= response.items@[k].cf->0 by {
            assert(response.items@[j]@ == ranking::match_of(r[j], true));
            assert(r[k].cf >= r[j].cf);
        }
    }

    /// An item of a search shows the kind and the size that a computation of its symbol
    /// alone reports under the same policy: that of its node, or for a class that of its
    /// public methods, where sizes were asked for. A class without such methods, or where
    /// only a limit was asked for, has no size.
    pub proof fn law_search_shows_computed_sizes(
        &self,
        pattern: Seq<char>,
        with_cf: bool,
        limit: Option<usize>,
        include_tests: bool,
        policy: PolicyKind,
        is_test: Seq<bool>,
        response: SearchResponse,
        k: int,
        req: ComputeRequest,
        computed: ComputeResponse,
    )
        requires
            self.wf(),
            is_test.len() == self.graph.symbol_to_node.symbols().len(),
            self.graph.symbol_to_node.symbols().len() + self.graph.type_registry.ids().len()
                <= usize::MAX,
            self.answers_search(
                pattern,
                with_cf,
                limit,
                include_tests,
                policy,
                is_test,
                Ok(response),
            ),
            0 <= k < response.items@.len(),
            text::texts(req.symbols@) == seq![response.items@[k].symbol@],
            req.policy == policy,
            req.max_tokens is None,
            self.answers_compute(req, Ok(computed)),
        ensures
            response.items@[k].node_type@ == computed.anchor_resolutions->0@[0].resolved_kind@,
            ({
                let item = response.items@[k];
                let sized = match computed.anchor_resolutions->0@[0].expanded_to {
                    Some(members) => with_cf && members@.len() > 0,
                    None => true,
                };
                item.cf is Some ==> item.cf->0 == if sized {
                    computed.total_context_size
                } else {
                    0
                }
            }),
    {
        let symbol = response.items@[k].symbol@;
        let symbols = self.found_symbols(pattern, include_tests, is_test);
        let types = self.found_types(pattern);
        let r = self.lemma_search(
            pattern,
            with_cf,
            limit,
            include_tests,
            policy,
            is_test,
            response,
        );
        self.lemma_found(pattern, include_tests, is_test);
        assert(response.items@[k]@ == ranking::match_of(r[k], with_cf || limit is Some));
        assert(symbol == r[k].symbol);
        let views = computed.anchor_resolutions->0@.map_values(
            |a: crate::app::dto::AnchorResolution| a@,
        );
        let resolved = seq![symbol].map_values(
            |symbol: Seq<char>| anchors::resolution_of(*self.graph, symbol),
        );
        assert(views == resolved);
        assert(views.len() == computed.anchor_resolutions->0@.len());
        assert(resolved.len() == 1);
        assert(views[0] == anchors::resolution_of(*self.graph, symbol));
        assert(views[0] == computed.anchor_resolutions->0@[0]@);
        if symbols.contains(symbol) {
            let t = choose|t: int| 0 <= t < symbols.len() && symbols[t] == symbol;
            assert(self.graph.symbol_to_node@.contains_key(symbols[t]));
            if types.contains(symbol) {
                let u = choose|u: int| 0 <= u < types.len() && types[u] == symbol;
                assert(!self.graph.symbol_to_node@.contains_key(types[u]));
            }
            self.lemma_computed(symbol, req, computed);
            assert(self.node_footprint(
                policy,
                self.graph.symbol_to_node@[symbols[t]],
            ).representable());
        } else {
            let t = choose|t: int| 0 <= t < types.len() && types[t] == symbol;
            assert(!self.graph.symbol_to_node@.contains_key(types[t]));
            self.graph.type_registry.law_types_are_listed_once();
            assert(self.graph.types().contains_key(symbol));
            anchors::law_class_stands_for_its_methods(self.context_graph(), symbol);
            assert(anchors::compute_summary(computed).total_context_size
                == computed.total_context_size as nat);
            assert(self.is_sized(with_cf, types[t]) ==> self.class_footprint(
                policy,
                types[t],
            ).representable());
        }
    }

    /// Where tests are asked for, it makes no difference which symbols are marked.
    pub proof fn law_search_with_tests_ignores_marks(
        &self,
        pattern: Seq<char>,
        with_cf: bool,
        limit: Option<usize>,
        policy: PolicyKind,
        is_test: Seq<bool>,
        response: SearchResponse,
        other_marks: Seq<bool>,
        other: SearchResponse,
    )
        requires
            self.wf(),
            is_test.len() == self.graph.symbol_to_node.symbols().len(),
            self.graph.symbol_to_node.symbols().len() + self.graph.type_registry.ids().len()
                <= usize::MAX,
            self.answers_search(
                pattern,
                with_cf,
                limit,
                true,
                policy,
                is_test,
                Ok(response),
            ),
            other_marks.len() == is_test.len(),
            self.answers_search(
                pattern,
                with_cf,
                limit,
                true,
                policy,
                other_marks,
                Ok(other),
            ),
        ensures
            response.total_matches == other.total_matches,
            response.items@.len() == other.items@.len(),
            forall|k: int|
                #![trigger response.items@[k]]
                #![trigger other.items@[k]]
                0 <= k < response.items@.len() ==> response.items@[k]@ == other.items@[k]@,
    {
        let a = self.lemma_search(pattern, with_cf, limit, true, policy, is_test, response);
        let b = self.lemma_search(pattern, with_cf, limit, true, policy, other_marks, other);
        let low = ranking::lowercase_all(self.graph.symbol_to_node.symbols());
        self.lemma_marks(
            text::lowercase_of(pattern),
            low,
            is_test,
            other_marks,
            low.len() as int,
        );
        assert forall|k: int|
            #![trigger response.items@[k]]
            #![trigger other.items@[k]]
            0 <= k < response.items@.len() implies response.items@[k]@ == other.items@[k]@ by {
            assert(response.items@[k]@ == ranking::match_of(a[k], with_cf || limit is Some));
            assert(other.items@[k]@ == ranking::match_of(b[k], with_cf || limit is Some));
        }
    }

    proof fn lemma_marks(
        &self,
        needle: Seq<char>,
        lowered: Seq<Seq<char>>,
        a: Seq<bool>,
        b: Seq<bool>,
        end: int,
    )
        ensures
            self.matching_symbols(needle, lowered, true, a, end) == self.matching_symbols(
                needle,
                lowered,
                true,
                b,
                end,
            ),
        decreases end,
    {
        if end > 0 {
            self.lemma_marks(needle, lowered, a, b, end - 1);
        }
    }

    /// A limit takes the first items of a search with sizes, as many as there are up to
    /// it, and changes nothing else.
    pub proof fn law_limit_takes_the_first_of_a_search(
        &self,
        pattern: Seq<char>,
        limit: Option<usize>,
        include_tests: bool,
        policy: PolicyKind,
        is_test: Seq<bool>,
        response: SearchResponse,
        longer: SearchResponse,
    )
        requires
            self.wf(),
            is_test.len() == self.graph.symbol_to_node.symbols().len(),
            self.graph.symbol_to_node.symbols().len() + self.graph.type_registry.ids().len()
                <= usize::MAX,
            self.answers_search(
                pattern,
                true,
                limit,
                include_tests,
                policy,
                is_test,
                Ok(response),
            ),
            self.answers_search(
                pattern,
                true,
                None,
                include_tests,
                policy,
                is_test,
                Ok(longer),
            ),
        ensures
            response.total_matches == longer.total_matches,
            response.items@.len() == match limit {
                Some(limit) if limit < longer.items@.len() => limit as nat,
                _ => longer.items@.len(),
            },
            forall|k: int|
                #![trigger response.items@[k]]
                #![trigger longer.items@[k]]
                0 <= k < response.items@.len() ==> response.items@[k]@ == longer.items@[k]@,
    {
        let a = self.lemma_search(pattern, true, limit, include_tests, policy, is_test, response);
        let b = self.lemma_search(pattern, true, None, include_tests, policy, is_test, longer);
        assert forall|k: int|
            #![trigger response.items@[k]]
            #![trigger longer.items@[k]]
            0 <= k < response.items@.len() implies response.items@[k]@ == longer.items@[k]@ by {
            assert(response.items@[k]@ == ranking::match_of(a[k], true));
            assert(longer.items@[k]@ == ranking::match_of(b[k], true));
        }
    }

    /// The nodes of the graph, in their order.
    pub open spec fn places(&self) -> Seq<NodeIndex> {
        Seq::new(self.graph.nodes().len(), |i: int| NodeIndex { ix: i as u32 })
    }

    proof fn lemma_counted(&self, include_tests: bool, is_test: Seq<bool>, end: int)
        requires
            self.wf(),
            0 <= end <= self.graph.nodes().len(),
        ensures
            self.counted_functions(include_tests, is_test, end) == self.places().take(end).filter(
                |idx: NodeIndex|
                    self.graph.at(idx) is Function && (include_tests || !is_test[idx.ix as int]),
            ),
        decreases end,
    {
        reveal(Seq::filter);
        if end > 0 {
            self.lemma_counted(include_tests, is_test, end - 1);
            assert(self.places().take(end).drop_last() =~= self.places().take(end - 1));
            assert(self.places().take(end).last() == NodeIndex { ix: (end - 1) as u32 });
        } else {
            assert(self.places().take(0) =~= Seq::empty());
        }
    }

    /// Statistics are about the functions of the graph, all of them or those that are not
    /// marked as tests, and about nothing else: about their sizes, in any ascending list.
    pub proof fn law_statistics_are_of_functions(
        &self,
        include_tests: bool,
        policy: PolicyKind,
        is_test: Seq<bool>,
        response: StatsResponse,
        ascending: Seq<u32>,
    )
        requires
            self.wf(),
            is_test.len() == self.graph.nodes().len(),
            self.answers_stats(include_tests, policy, is_test, Ok(response)),
            ascending.to_multiset() == self.places().filter(
                |idx: NodeIndex|
                    self.graph.at(idx) is Function && (include_tests || !is_test[idx.ix as int]),
            ).map_values(|idx: NodeIndex| self.node_cf(policy, idx)).to_multiset(),
            forall|i: int, j: int|
                #![trigger ascending[i], ascending[j]]
                0 <= i <= j < ascending.len() ==> ascending[i] <= ascending[j],
        ensures
            response.functions.count == ascending.len(),
            response.functions.count == self.places().filter(
                |idx: NodeIndex|
                    self.graph.at(idx) is Function && (include_tests || !is_test[idx.ix as int]),
            ).len(),
            ascending.len() > 0 ==> {
                let n = ascending.len() as int;
                &&& response.functions.min == ascending[0]
                &&& response.functions.max == ascending[n - 1]
                &&& response.functions.median == ascending[n / 2]
                &&& forall|k: int|
                    #![trigger response.functions.percentiles@[k]]
                    0 <= k < 20 ==> response.functions.percentiles@[k].percentile == 5 * k + 5
                        && response.functions.percentiles@[k].tokens == ascending[(5 * k + 5) * (n
                        - 1) / 100]
            },
    {
        let end = self.graph.nodes().len() as int;
        self.lemma_counted(include_tests, is_test, end);
        assert(self.places().take(end) =~= self.places());
        let sizes = self.counted_functions(include_tests, is_test, end).map_values(
            |idx: NodeIndex| self.node_cf(policy, idx),
        );
        self.lemma_counted_len(include_tests, is_test, end);
        ranking::law_distribution_describes_the_sizes(response.functions, sizes, ascending);
    }

    proof fn lemma_counted_len(&self, include_tests: bool, is_test: Seq<bool>, end: int)
        requires
            0 <= end,
        ensures
            self.counted_functions(include_tests, is_test, end).len() <= end,
        decreases end,
    {
        if end > 0 {
            self.lemma_counted_len(include_tests, is_test, end - 1);
        }
    }

    /// The size of a node in statistics, rankings and searches is what a computation of
    /// its symbol alone reports under the same policy.
    pub proof fn law_node_size_is_computed(
        &self,
        symbol: Seq<char>,
        req: ComputeRequest,
        computed: ComputeResponse,
    )
        requires
            self.wf(),
            self.graph.symbol_to_node@.contains_key(symbol),
            text::texts(req.symbols@) == seq![symbol],
            req.max_tokens is None,
            self.answers_compute(req, Ok(computed)),
        ensures
            self.node_cf(req.policy, self.graph.symbol_to_node@[symbol])
                == computed.total_context_size,
    {
        self.lemma_computed(symbol, req, computed);
    }
}

} // verus!
