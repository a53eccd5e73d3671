//! The types that a signature brings in: those it mentions, and those that limit the
//! type parameters among them, again and again.

use crate::domain::text;
use crate::domain::type_registry::{TypeInfo, TypeRegistry};
use vstd::hash_set::StringHashSet;
use vstd::prelude::*;

verus! {

/// The types that limit a type parameter: its bound, and its constraints.
pub open spec fn limiting_types(info: TypeInfo) -> Seq<Seq<char>> {
    match info.definition.type_var_info {
        Some(limits) => (match limits.bound {
            Some(type_id) => seq![type_id@],
            None => Seq::empty(),
        }) + text::texts(limits.constraints@),
        None => Seq::empty(),
    }
}

/// A list of types, and one more if it is registered and new.
pub open spec fn add_type(
    list: Seq<Seq<char>>,
    type_id: Seq<char>,
    types: Map<Seq<char>, TypeInfo>,
) -> Seq<Seq<char>> {
    if types.contains_key(type_id) && !list.contains(type_id) {
        list.push(type_id)
    } else {
        list
    }
}

/// A list of types, and those of another that are registered and new, in order.
pub open spec fn add_types(
    list: Seq<Seq<char>>,
    more: Seq<Seq<char>>,
    types: Map<Seq<char>, TypeInfo>,
) -> Seq<Seq<char>>
    decreases more.len(),
{
    if more.len() == 0 {
        list
    } else {
        add_type(add_types(list, more.drop_last(), types), more.last(), types)
    }
}

/// Whether a list holds registered types, each once, and the first of them are done.
pub open spec fn is_worklist(
    list: Seq<Seq<char>>,
    done: int,
    types: Map<Seq<char>, TypeInfo>,
) -> bool {
    &&& types.dom().finite()
    &&& 0 <= done <= list.len()
    &&& list.no_duplicates()
    &&& forall|i: int|
        #![trigger list[i]]
        0 <= i < list.len() ==> types.contains_key(list[i])
}

/// A list of types together with what limits those that are not done, what limits
/// that, and so on.
pub open spec fn close_types(
    list: Seq<Seq<char>>,
    done: int,
    types: Map<Seq<char>, TypeInfo>,
) -> Seq<Seq<char>>
    decreases types.dom().len() - done,
    when is_worklist(list, done, types)
    via close_types_decreases
{
    if done >= list.len() {
        list
    } else {
        close_types(
            add_types(list, limiting_types(types[list[done]]), types),
            done + 1,
            types,
        )
    }
}

#[via_fn]
proof fn close_types_decreases(
    list: Seq<Seq<char>>,
    done: int,
    types: Map<Seq<char>, TypeInfo>,
) {
    lemma_worklist_len(list, done, types);
}

/// The registered types that some types bring in: themselves, and all that limits type
/// parameters among them, each once.
pub open spec fn named_types(
    mentioned: Seq<Seq<char>>,
    types: Map<Seq<char>, TypeInfo>,
) -> Seq<Seq<char>> {
    close_types(add_types(Seq::empty(), mentioned, types), 0, types)
}

/// There are no more types in a list than are registered.
proof fn lemma_worklist_len(list: Seq<Seq<char>>, done: int, types: Map<Seq<char>, TypeInfo>)
    requires
        is_worklist(list, done, types),
    ensures
        list.len() <= types.dom().len(),
{
    list.unique_seq_to_set();
    assert(list.to_set().subset_of(types.dom())) by {
        assert forall|id: Seq<char>| #[trigger] list.to_set().contains(id) implies types.dom().contains(
            id,
        ) by {
            let i = choose|i: int| 0 <= i < list.len() && list[i] == id;
            assert(types.contains_key(list[i]));
        }
    }
    vstd::set_lib::lemma_len_subset(list.to_set(), types.dom());
}

/// What adding types does.
proof fn lemma_add_types(
    list: Seq<Seq<char>>,
    done: int,
    more: Seq<Seq<char>>,
    types: Map<Seq<char>, TypeInfo>,
)
    requires
        is_worklist(list, done, types),
    ensures
        is_worklist(add_types(list, more, types), done, types),
        list.is_prefix_of(add_types(list, more, types)),
        forall|id: Seq<char>| #[trigger]
            add_types(list, more, types).contains(id) <==> list.contains(id) || (more.contains(id)
                && types.contains_key(id)),
    decreases more.len(),
{
    if more.len() > 0 {
        let rest = more.drop_last();
        let before = add_types(list, rest, types);
        let after = add_types(list, more, types);
        lemma_add_types(list, done, rest, types);
        assert(more[more.len() - 1] == more.last());
        assert forall|id: Seq<char>| #[trigger]
            after.contains(id) <==> list.contains(id) || (more.contains(id) && types.contains_key(
                id,
            )) by {
            assert(before.contains(id) <==> list.contains(id) || (rest.contains(id)
                && types.contains_key(id)));
            if rest.contains(id) {
                let k = choose|k: int| 0 <= k < rest.len() && rest[k] == id;
                assert(more[k] == id);
            }
            if more.contains(id) {
                let k = choose|k: int| 0 <= k < more.len() && more[k] == id;
                if k < rest.len() {
                    assert(rest[k] == id);
                }
            }
            if before.contains(id) {
                let k = choose|k: int| 0 <= k < before.len() && before[k] == id;
                assert(after[k] == id);
            }
            if after.contains(id) {
                let k = choose|k: int| 0 <= k < after.len() && after[k] == id;
                if k < before.len() {
                    assert(before[k] == id);
                }
            }
            if after.len() > before.len() {
                assert(after[before.len() as int] == more.last());
            }
        }
    }
}

/// Whether a set holds with every registered type also the registered types that limit
/// it.
pub open spec fn is_closed(ids: Set<Seq<char>>, types: Map<Seq<char>, TypeInfo>) -> bool {
    forall|id: Seq<char>, limit: Seq<char>|
        ids.contains(id) && types.contains_key(id) && #[trigger] limiting_types(
            types[id],
        ).contains(limit) && types.contains_key(limit) ==> ids.contains(limit)
}

proof fn lemma_close_types(
    list: Seq<Seq<char>>,
    done: int,
    types: Map<Seq<char>, TypeInfo>,
    ids: Set<Seq<char>>,
)
    requires
        is_worklist(list, done, types),
        forall|i: int, limit: Seq<char>|
            0 <= i < done && #[trigger] limiting_types(types[list[i]]).contains(limit)
                && types.contains_key(limit) ==> list.contains(limit),
        is_closed(ids, types),
        forall|id: Seq<char>| #[trigger] list.contains(id) ==> ids.contains(id),
    ensures
        ({
            let all = close_types(list, done, types);
            &&& all.no_duplicates()
            &&& list.is_prefix_of(all)
            &&& forall|id: Seq<char>| #[trigger] all.contains(id) ==> types.contains_key(id)
            &&& forall|id: Seq<char>| #[trigger] all.contains(id) ==> ids.contains(id)
            &&& is_closed(all.to_set(), types)
        }),
    decreases types.dom().len() - done,
{
    if done >= list.len() {
        assert forall|id: Seq<char>| #[trigger] list.contains(id) implies types.contains_key(id) by {
            let i = choose|i: int| 0 <= i < list.len() && list[i] == id;
            assert(types.contains_key(list[i]));
        }
        assert forall|id: Seq<char>, limit: Seq<char>|
            list.to_set().contains(id) && types.contains_key(id) && #[trigger] limiting_types(
                types[id],
            ).contains(limit) && types.contains_key(limit) implies list.to_set().contains(limit) by {
            let i = choose|i: int| 0 <= i < list.len() && list[i] == id;
            assert(limiting_types(types[list[i]]).contains(limit));
        }
    } else {
        let limits = limiting_types(types[list[done]]);
        let longer = add_types(list, limits, types);
        lemma_worklist_len(list, done, types);
        lemma_add_types(list, done, limits, types);
        assert(longer[done] == list[done]);
        assert forall|i: int, limit: Seq<char>|
            0 <= i < done + 1 && #[trigger] limiting_types(types[longer[i]]).contains(limit)
                && types.contains_key(limit) implies longer.contains(limit) by {
            assert(longer[i] == list[i]);
            if i < done {
                assert(limiting_types(types[list[i]]).contains(limit));
                assert(list.contains(limit));
            }
        }
        assert forall|id: Seq<char>| #[trigger] longer.contains(id) implies ids.contains(id) by {
            if !list.contains(id) {
                assert(limits.contains(id));
                assert(list.contains(list[done]));
                assert(ids.contains(list[done]));
                assert(limiting_types(types[list[done]]).contains(id));
            }
        }
        lemma_close_types(longer, done + 1, types, ids);
    }
}

/// The types that a signature brings in are registered, and each of them comes once.
/// They hold all registered types that it mentions, with each type those that limit
/// it, and nothing else: no smaller set does.
pub proof fn law_named_types_are_the_closure(
    mentioned: Seq<Seq<char>>,
    types: Map<Seq<char>, TypeInfo>,
    ids: Set<Seq<char>>,
)
    requires
        types.dom().finite(),
        is_closed(ids, types),
        forall|id: Seq<char>|
            mentioned.contains(id) && #[trigger] types.contains_key(id) ==> ids.contains(id),
    ensures
        ({
            let all = named_types(mentioned, types);
            &&& all.no_duplicates()
            &&& forall|id: Seq<char>| #[trigger] all.contains(id) ==> types.contains_key(id)
            &&& forall|id: Seq<char>|
                mentioned.contains(id) && #[trigger] types.contains_key(id) ==> all.contains(id)
            &&& is_closed(all.to_set(), types)
            &&& forall|id: Seq<char>| #[trigger] all.contains(id) ==> ids.contains(id)
        }),
{
    let none: Seq<Seq<char>> = Seq::empty();
    let first = add_types(none, mentioned, types);
    let all = named_types(mentioned, types);
    assert(is_worklist(none, 0, types));
    lemma_add_types(none, 0, mentioned, types);
    lemma_close_types(first, 0, types, ids);
    assert forall|id: Seq<char>|
        mentioned.contains(id) && #[trigger] types.contains_key(id) implies all.contains(id) by {
        assert(first.contains(id));
        let k = choose|k: int| 0 <= k < first.len() && first[k] == id;
        assert(all[k] == id);
    }
}

/// The texts behind a list of references.
pub open spec fn texts_behind(list: Seq<&String>) -> Seq<Seq<char>> {
    list.map_values(|id: &String| id@)
}

/// Whether a set holds the texts behind a list.
pub open spec fn holds_all(seen: Set<Seq<char>>, list: Seq<&String>) -> bool {
    forall|id: Seq<char>| #[trigger] seen.contains(id) <==> texts_behind(list).contains(id)
}

/// Adds a type to a list, if it is registered and new.
fn push_type<'n>(
    list: &mut Vec<&'n String>,
    seen: &mut StringHashSet,
    type_id: &'n String,
    registry: &TypeRegistry,
)
    requires
        registry.wf(),
        holds_all(old(seen)@, old(list)@),
    ensures
        holds_all(final(seen)@, final(list)@),
        texts_behind(final(list)@) == add_type(texts_behind(old(list)@), type_id@, registry@),
{
    let ghost before = list@;
    if !seen.contains(type_id.as_str()) && registry.contains(type_id.as_str()) {
        list.push(type_id);
        seen.insert(type_id.clone());
        proof {
            let a = texts_behind(before);
            let b = texts_behind(list@);
            assert(b =~= a.push(type_id@));
            assert forall|id: Seq<char>| #[trigger] seen@.contains(id) <==> b.contains(id) by {
                if a.contains(id) {
                    let k = choose|k: int| 0 <= k < a.len() && a[k] == id;
                    assert(b[k] == id);
                }
                if b.contains(id) {
                    let k = choose|k: int| 0 <= k < b.len() && b[k] == id;
                    if k < a.len() {
                        assert(a[k] == id);
                    }
                }
                assert(b[a.len() as int] == type_id@);
            }
        }
    }
}

/// Adds types to a list, as far as they are registered and new.
fn push_types<'n>(
    list: &mut Vec<&'n String>,
    seen: &mut StringHashSet,
    more: &Vec<&'n String>,
    registry: &TypeRegistry,
)
    requires
        registry.wf(),
        holds_all(old(seen)@, old(list)@),
    ensures
        holds_all(final(seen)@, final(list)@),
        texts_behind(final(list)@) == add_types(
            texts_behind(old(list)@),
            texts_behind(more@),
            registry@,
        ),
{
    let ghost start = texts_behind(list@);
    let ghost all = texts_behind(more@);
    let mut i: usize = 0;
    assert(all.take(0) =~= Seq::empty());
    while i < more.len()
        invariant
            registry.wf(),
            holds_all(seen@, list@),
            all == texts_behind(more@),
            i <= more@.len(),
            texts_behind(list@) == add_types(start, all.take(i as int), registry@),
        decreases more@.len() - i,
    {
        push_type(list, seen, more[i], registry);
        assert(all.take(i + 1).drop_last() =~= all.take(i as int));
        i += 1;
    }
    assert(all.take(i as int) =~= all);
}

/// The types that limit a type parameter.
fn limits_of<'n>(info: &'n TypeInfo) -> (r: Vec<&'n String>)
    ensures
        texts_behind(r@) == limiting_types(*info),
{
    let mut r: Vec<&'n String> = Vec::new();
    if let Some(limits) = &info.definition.type_var_info {
        if let Some(type_id) = &limits.bound {
            r.push(type_id);
        }
        let ghost first = texts_behind(r@);
        assert(first =~= match limits.bound {
            Some(type_id) => seq![type_id@],
            None => Seq::empty(),
        });
        let ghost names = text::texts(limits.constraints@);
        let mut i: usize = 0;
        while i < limits.constraints.len()
            invariant
                names == text::texts(limits.constraints@),
                i <= limits.constraints@.len(),
                texts_behind(r@) == first + names.take(i as int),
            decreases limits.constraints@.len() - i,
        {
            let ghost before = r@;
            r.push(&limits.constraints[i]);
            assert(texts_behind(r@) =~= texts_behind(before).push(
                limits.constraints@[i as int]@,
            ));
            assert(first + names.take(i + 1) =~= (first + names.take(i as int)).push(
                names[i as int],
            ));
            i += 1;
        }
        assert(names.take(i as int) =~= names);
    }
    assert(texts_behind(r@) =~= limiting_types(*info));
    r
}

/// The registered types that some types bring in, each once.
pub(crate) fn close_over<'n>(mentioned: &Vec<&'n String>, registry: &'n TypeRegistry) -> (r: Vec<
    &'n String,
>)
    requires
        registry.wf(),
    ensures
        texts_behind(r@) == named_types(texts_behind(mentioned@), registry@),
        is_worklist(texts_behind(r@), 0, registry@),
{
    let mut list: Vec<&'n String> = Vec::new();
    let mut seen: StringHashSet = StringHashSet::new();
    let ghost types = registry@;
    let ghost names = texts_behind(mentioned@);
    proof {
        registry.lemma_finite();
        assert(texts_behind(list@) =~= Seq::empty());
        lemma_add_types(texts_behind(list@), 0, names, types);
    }
    push_types(&mut list, &mut seen, mentioned, registry);
    let mut done: usize = 0;
    while done < list.len()
        invariant
            registry.wf(),
            types == registry@,
            holds_all(seen@, list@),
            is_worklist(texts_behind(list@), done as int, types),
            close_types(texts_behind(list@), done as int, types) == named_types(names, types),
        decreases types.dom().len() - done,
    {
        let ghost now = texts_behind(list@);
        proof {
            lemma_worklist_len(now, done as int, types);
            assert(types.contains_key(now[done as int]));
        }
        let type_id: &'n String = list[done];
        if let Some(info) = registry.get(type_id.as_str()) {
            let limits = limits_of(info);
            proof {
                lemma_add_types(now, done as int, texts_behind(limits@), types);
            }
            push_types(&mut list, &mut seen, &limits, registry);
        }
        done += 1;
    }
    list
}

} // verus!
