//! The call graph as a whole: the tables of outgoing and of incoming calls list the same calls, and
//! each call that leads to a function once.
use vstd::prelude::*;

use crate::callables;
use crate::callables::CallableView;
use crate::index;
use crate::index::IndexView;
use crate::model;
use crate::model::CallView;
use crate::model::EdgeView;
use crate::model::FunctionView;
use crate::model::ModuleView;
use crate::model::SourceRange;
use crate::relations;
use crate::relations::LinkView;
use crate::text::Text;

verus! {

/// The edges of each function, by the keys of the functions that they lead to.
pub type EdgeTable = Map<Text, Seq<(Text, EdgeView)>>;

/// Whether this is a function of a module at hand.
pub open spec fn stands(idx: IndexView, callable: CallableView) -> bool {
    exists|module: Text, i: int| callables::stands_at(idx, callable, module, i)
}

/// Whether functions of modules at hand that have the same key are shown alike.
pub open spec fn keys_tell_apart(idx: IndexView) -> bool {
    forall|c: CallableView, d: CallableView| #[trigger]
        stands(idx, c) && #[trigger] stands(idx, d) && c.key == d.key ==> c.item == d.item
}

/// Whether neither the functions of modules at hand nor the classes that they belong to have a
/// colon in their names.
pub open spec fn plainly_named(idx: IndexView) -> bool {
    forall|module: Text, i: int|
        idx.known().contains(module) && 0 <= i < idx.module(module).functions.len() ==> {
            let function = #[trigger] idx.module(module).functions[i];
            !function.name.contains(':') && !model::owner_of(function).contains(':')
        }
}

/// Whether no two functions of a module that stand at the same position are of different kinds.
pub open spec fn one_kind_each(idx: IndexView) -> bool {
    forall|module: Text, i: int, j: int|
        idx.known().contains(module) && 0 <= i < idx.module(module).functions.len() && 0 <= j
            < idx.module(module).functions.len() && (#[trigger] idx.module(module).functions[i]).line
            == (#[trigger] idx.module(module).functions[j]).line && idx.module(module).functions[i].col
            == idx.module(module).functions[j].col ==> idx.module(module).functions[i].kind
            == idx.module(module).functions[j].kind
}

/// Keys tell the functions of an index apart: where names hold no colons, and at each position of a
/// module there is one kind of function, two functions with the same key are shown alike.
pub proof fn law_keys_tell_the_functions_of_an_index_apart(idx: IndexView)
    requires
        idx.wf(),
        plainly_named(idx),
        one_kind_each(idx),
    ensures
        keys_tell_apart(idx),
{
    assert forall|c: CallableView, d: CallableView| #[trigger]
        stands(idx, c) && #[trigger] stands(idx, d) && c.key == d.key implies c.item == d.item by {
        let (m, i) = choose|m: Text, i: int| callables::stands_at(idx, c, m, i);
        let (n, j) = choose|n: Text, j: int| callables::stands_at(idx, d, n, j);
        index::lemma_lookup(idx, m);
        index::lemma_lookup(idx, n);
        model::law_callable_keys_tell_functions_apart(
            m,
            idx.module(m).functions[i],
            n,
            idx.module(n).functions[j],
        );
    }
}

/// Whether a table lists an edge from one function to another with these places.
pub open spec fn lists(table: EdgeTable, near: CallableView, far: CallableView, ranges: Seq<SourceRange>) -> bool {
    table.contains_key(near.key) && table[near.key].contains(
        (far.key, EdgeView { item: far.item, from_ranges: ranges }),
    )
}

/// Whether both ends of every link are functions of modules at hand.
pub open spec fn all_stand(idx: IndexView, links: Seq<LinkView>) -> bool {
    forall|i: int|
        0 <= i < links.len() ==> stands(idx, (#[trigger] links[i]).caller) && stands(
            idx,
            links[i].target,
        )
}

proof fn lemma_all_stand(idx: IndexView, a: Seq<LinkView>, b: Seq<LinkView>)
    requires
        all_stand(idx, a),
        all_stand(idx, b),
    ensures
        all_stand(idx, a + b),
{
    assert forall|i: int| 0 <= i < (a + b).len() implies stands(idx, (#[trigger] (a + b)[i]).caller)
        && stands(idx, (a + b)[i].target) by {
        if i < a.len() {
            assert((a + b)[i] == a[i]);
        } else {
            assert((a + b)[i] == b[i - a.len()]);
        }
    }
}

proof fn lemma_call_links_stand(idx: IndexView, info: ModuleView, function: FunctionView, caller: CallableView, calls: Seq<CallView>)
    requires
        idx.wf(),
        stands(idx, caller),
    ensures
        all_stand(idx, relations::call_links(idx, info, function, caller, calls).found),
    decreases calls.len(),
{
    if calls.len() > 0 {
        let raw = calls.last().raw_target;
        lemma_call_links_stand(idx, info, function, caller, calls.drop_last());
        callables::law_calls_lead_to_functions_at_hand(idx, info, function, raw);
        if let Ok(Some(target)) = callables::callable_in(idx, info, function, raw) {
            assert(stands(idx, target));
        }
    }
}

proof fn lemma_function_links_stand(idx: IndexView, name: Text, functions: Seq<FunctionView>)
    requires
        idx.wf(),
        idx.workspace.contains_key(name),
        forall|i: int|
            0 <= i < functions.len() ==> i < idx.workspace[name].functions.len() && (
            #[trigger] functions[i]) == idx.workspace[name].functions[i],
    ensures
        all_stand(idx, relations::function_links(idx, idx.workspace[name], functions).found),
    decreases functions.len(),
{
    if functions.len() > 0 {
        let info = idx.workspace[name];
        let last = functions.len() - 1;
        let function = functions[last];
        let caller = relations::caller_of(info, function);
        assert forall|i: int| 0 <= i < functions.drop_last().len() implies i
            < info.functions.len() && (#[trigger] functions.drop_last()[i]) == info.functions[i] by {
            assert(functions[i] == info.functions[i]);
        }
        lemma_function_links_stand(idx, name, functions.drop_last());
        assert(callables::stands_at(idx, caller, name, last));
        lemma_call_links_stand(idx, info, function, caller, function.calls);
        lemma_all_stand(
            idx,
            relations::function_links(idx, info, functions.drop_last()).found,
            relations::call_links(idx, info, function, caller, function.calls).found,
        );
    }
}

proof fn lemma_workspace_links_stand(idx: IndexView, modules: Seq<Text>)
    requires
        idx.wf(),
        forall|i: int|
            0 <= i < modules.len() ==> idx.workspace.contains_key(#[trigger] modules[i]),
    ensures
        all_stand(idx, relations::workspace_links(idx, modules).found),
    decreases modules.len(),
{
    if modules.len() > 0 {
        let name = modules[modules.len() - 1];
        let info = idx.workspace[name];
        assert forall|i: int| 0 <= i < modules.drop_last().len() implies idx.workspace.contains_key(
            #[trigger] modules.drop_last()[i],
        ) by {
            assert(idx.workspace.contains_key(modules[i]));
        }
        lemma_workspace_links_stand(idx, modules.drop_last());
        lemma_function_links_stand(idx, name, info.functions);
        lemma_all_stand(
            idx,
            relations::workspace_links(idx, modules.drop_last()).found,
            relations::function_links(idx, info, info.functions).found,
        );
    }
}

/// Whether an edge of the function of a key stems from a link.
pub open spec fn stems_from(edge: (Text, EdgeView), key: Text, link: LinkView, incoming: bool) -> bool {
    &&& relations::near(link, incoming).key == key
    &&& relations::far(link, incoming) == (CallableView { key: edge.0, item: edge.1.item })
}

/// Whether an edge has a place and stems from one of these links.
pub open spec fn founded(edge: (Text, EdgeView), key: Text, links: Seq<LinkView>, incoming: bool) -> bool {
    edge.1.from_ranges.len() > 0 && exists|j: int|
        0 <= j < links.len() && stems_from(edge, key, #[trigger] links[j], incoming)
}

/// Every edge has a place, and shows the function at the far end of one of the links.
pub proof fn law_edges_are_founded(links: Seq<LinkView>, key: Text, incoming: bool)
    ensures
        forall|i: int|
            0 <= i < relations::edges_of(links, key, incoming).len() ==> founded(
                #[trigger] relations::edges_of(links, key, incoming)[i],
                key,
                links,
                incoming,
            ),
    decreases links.len(),
{
    if links.len() > 0 {
        let shorter = links.drop_last();
        let link = links[links.len() - 1];
        let end = relations::far(link, incoming);
        let before = relations::edges_of(shorter, key, incoming);
        let edges = relations::edges_of(links, key, incoming);
        law_edges_are_founded(shorter, key, incoming);
        relations::lemma_edge_slot(before, end.key);
        assert forall|i: int| 0 <= i < edges.len() implies founded(
            #[trigger] edges[i],
            key,
            links,
            incoming,
        ) by {
            if i < before.len() {
                assert(founded(before[i], key, shorter, incoming));
                let j = choose|j: int|
                    0 <= j < shorter.len() && stems_from(before[i], key, #[trigger] shorter[j], incoming);
                assert(stems_from(edges[i], key, links[j], incoming));
            } else {
                assert(stems_from(edges[i], key, links[links.len() - 1], incoming));
            }
        }
    }
}

proof fn lemma_mirrored(idx: IndexView, links: Seq<LinkView>, a: CallableView, b: CallableView, ranges: Seq<SourceRange>, incoming: bool)
    requires
        all_stand(idx, links),
        keys_tell_apart(idx),
        stands(idx, a),
        lists(relations::edge_table(links, incoming), a, b, ranges),
    ensures
        lists(relations::edge_table(links, !incoming), b, a, ranges),
        ranges.len() > 0,
{
    let edges = relations::edges_of(links, a.key, incoming);
    let back = relations::edges_of(links, b.key, !incoming);
    let edge = (b.key, EdgeView { item: b.item, from_ranges: ranges });
    let i = choose|i: int| 0 <= i < edges.len() && edges[i] == edge;
    law_edges_are_founded(links, a.key, incoming);
    law_edges_are_founded(links, b.key, !incoming);
    relations::law_edges_are_distinct(links, a.key, incoming);
    relations::lemma_edge_slot(edges, b.key);
    relations::lemma_edge_slot(back, a.key);
    assert(edges[i].0 == b.key);
    assert(relations::places(edges, b.key) == ranges);
    relations::lemma_places(links, a.key, b.key, incoming);
    relations::lemma_places(links, b.key, a.key, !incoming);
    assert(founded(edges[i], a.key, links, incoming));
    let m = relations::edge_slot(back, a.key)->0;
    assert(relations::edge_slot(back, a.key) is Some);
    assert(back[m].1.from_ranges == ranges);
    assert(founded(back[m], b.key, links, !incoming));
    let j = choose|j: int|
        0 <= j < links.len() && stems_from(back[m], b.key, #[trigger] links[j], !incoming);
    let shown = relations::far(links[j], !incoming);
    assert(stands(idx, shown));
    assert(shown.item == a.item);
    assert(back[m] == (a.key, EdgeView { item: a.item, from_ranges: ranges }));
    assert(relations::near(links[j], !incoming).key == b.key);
    assert(relations::has_edge(links, b.key, !incoming));
}

/// One function is listed as calling another, at certain places, exactly where the other is listed
/// as called by it, at the same places; and there are such places. Each of the two is shown as the
/// function that it is.
pub proof fn law_call_tables_list_the_same_edges(idx: IndexView, a: CallableView, b: CallableView, ranges: Seq<SourceRange>)
    requires
        idx.wf(),
        idx.workspace.dom() == idx.order.to_set(),
        keys_tell_apart(idx),
        stands(idx, a),
        stands(idx, b),
    ensures
        lists(relations::linked(idx).outgoing, a, b, ranges) <==> lists(
            relations::linked(idx).incoming,
            b,
            a,
            ranges,
        ),
        lists(relations::linked(idx).outgoing, a, b, ranges) ==> ranges.len() > 0,
{
    let links = relations::workspace_links(idx, idx.order).found;
    assert forall|i: int| 0 <= i < idx.order.len() implies idx.workspace.contains_key(
        #[trigger] idx.order[i],
    ) by {
        assert(idx.order.to_set().contains(idx.order[i]));
    }
    lemma_workspace_links_stand(idx, idx.order);
    if lists(relations::linked(idx).outgoing, a, b, ranges) {
        lemma_mirrored(idx, links, a, b, ranges, false);
    }
    if lists(relations::linked(idx).incoming, b, a, ranges) {
        lemma_mirrored(idx, links, b, a, ranges, true);
    }
}

/// How many places edges have, all together.
pub open spec fn places_on(edges: Seq<(Text, EdgeView)>) -> nat
    decreases edges.len(),
{
    if edges.len() == 0 {
        0
    } else {
        places_on(edges.drop_last()) + edges.last().1.from_ranges.len()
    }
}

/// How many places the edges of these functions have in a table, all together.
pub open spec fn places_in(table: EdgeTable, keys: Seq<Text>) -> nat
    decreases keys.len(),
{
    if keys.len() == 0 {
        0
    } else {
        places_in(table, keys.drop_last()) + places_on(table[keys.last()])
    }
}

/// How many of these calls lead to a function.
pub open spec fn resolved_calls(idx: IndexView, info: ModuleView, function: FunctionView, calls: Seq<CallView>) -> nat
    decreases calls.len(),
{
    if calls.len() == 0 {
        0
    } else {
        resolved_calls(idx, info, function, calls.drop_last()) + (if callables::callable_in(
            idx,
            info,
            function,
            calls.last().raw_target,
        ) matches Ok(Some(_)) {
            1nat
        } else {
            0nat
        })
    }
}

/// How many calls of these functions of a module lead to a function.
pub open spec fn resolved_in_functions(idx: IndexView, info: ModuleView, functions: Seq<FunctionView>) -> nat
    decreases functions.len(),
{
    if functions.len() == 0 {
        0
    } else {
        resolved_in_functions(idx, info, functions.drop_last()) + resolved_calls(
            idx,
            info,
            functions.last(),
            functions.last().calls,
        )
    }
}

/// How many calls in these modules of the workspace lead to a function.
pub open spec fn resolved_in_modules(idx: IndexView, modules: Seq<Text>) -> nat
    decreases modules.len(),
{
    if modules.len() == 0 {
        0
    } else {
        let info = idx.workspace[modules.last()];
        resolved_in_modules(idx, modules.drop_last()) + resolved_in_functions(
            idx,
            info,
            info.functions,
        )
    }
}

proof fn lemma_call_links_count(idx: IndexView, info: ModuleView, function: FunctionView, caller: CallableView, calls: Seq<CallView>)
    ensures
        relations::call_links(idx, info, function, caller, calls).found.len() == resolved_calls(
            idx,
            info,
            function,
            calls,
        ),
    decreases calls.len(),
{
    if calls.len() > 0 {
        lemma_call_links_count(idx, info, function, caller, calls.drop_last());
    }
}

proof fn lemma_function_links_count(idx: IndexView, info: ModuleView, functions: Seq<FunctionView>)
    ensures
        relations::function_links(idx, info, functions).found.len() == resolved_in_functions(
            idx,
            info,
            functions,
        ),
    decreases functions.len(),
{
    if functions.len() > 0 {
        let function = functions.last();
        lemma_function_links_count(idx, info, functions.drop_last());
        lemma_call_links_count(
            idx,
            info,
            function,
            relations::caller_of(info, function),
            function.calls,
        );
    }
}

proof fn lemma_workspace_links_count(idx: IndexView, modules: Seq<Text>)
    ensures
        relations::workspace_links(idx, modules).found.len() == resolved_in_modules(idx, modules),
    decreases modules.len(),
{
    if modules.len() > 0 {
        let info = idx.workspace[modules.last()];
        lemma_workspace_links_count(idx, modules.drop_last());
        lemma_function_links_count(idx, info, info.functions);
    }
}

proof fn lemma_one_more_place(edges: Seq<(Text, EdgeView)>, i: int, edge: (Text, EdgeView))
    requires
        0 <= i < edges.len(),
        edge.1.from_ranges.len() == edges[i].1.from_ranges.len() + 1,
    ensures
        places_on(edges.update(i, edge)) == places_on(edges) + 1,
    decreases edges.len(),
{
    let next = edges.update(i, edge);
    if i == edges.len() - 1 {
        assert(next.drop_last() =~= edges.drop_last());
    } else {
        assert(next.drop_last() =~= edges.drop_last().update(i, edge));
        lemma_one_more_place(edges.drop_last(), i, edge);
    }
}

/// How many links have the function of a key at their near end.
pub open spec fn links_at(links: Seq<LinkView>, key: Text, incoming: bool) -> nat
    decreases links.len(),
{
    if links.len() == 0 {
        0
    } else {
        links_at(links.drop_last(), key, incoming) + (if relations::near(links.last(), incoming).key
            == key {
            1nat
        } else {
            0nat
        })
    }
}

proof fn lemma_places_on(links: Seq<LinkView>, key: Text, incoming: bool)
    ensures
        places_on(relations::edges_of(links, key, incoming)) == links_at(links, key, incoming),
    decreases links.len(),
{
    if links.len() > 0 {
        let link = links.last();
        let end = relations::far(link, incoming);
        let before = relations::edges_of(links.drop_last(), key, incoming);
        lemma_places_on(links.drop_last(), key, incoming);
        relations::lemma_edge_slot(before, end.key);
        if relations::near(link, incoming).key == key {
            let next = relations::with_call(before, end, link.range);
            match relations::edge_slot(before, end.key) {
                Some(i) => {
                    lemma_one_more_place(before, i, next[i]);
                },
                None => {
                    assert(next.drop_last() =~= before);
                },
            }
        }
    }
}

/// How many links have one of these functions at their near end.
spec fn links_among(links: Seq<LinkView>, keys: Seq<Text>, incoming: bool) -> nat
    decreases keys.len(),
{
    if keys.len() == 0 {
        0
    } else {
        links_among(links, keys.drop_last(), incoming) + links_at(links, keys.last(), incoming)
    }
}

proof fn lemma_one_more_link(links: Seq<LinkView>, keys: Seq<Text>, incoming: bool)
    requires
        links.len() > 0,
        keys.no_duplicates(),
    ensures
        links_among(links, keys, incoming) == links_among(links.drop_last(), keys, incoming) + (
        if keys.contains(relations::near(links.last(), incoming).key) {
            1nat
        } else {
            0nat
        }),
    decreases keys.len(),
{
    if keys.len() > 0 {
        let key = relations::near(links.last(), incoming).key;
        let shorter = keys.drop_last();
        lemma_one_more_link(links, shorter, incoming);
        assert(shorter.push(keys.last()) =~= keys);
        vstd::seq_lib::lemma_seq_contains_after_push(shorter, keys.last(), key);
        if shorter.contains(key) {
            assert(keys[shorter.index_of(key)] == key);
            assert(keys[keys.len() - 1] != key);
        }
    }
}

proof fn lemma_links_among(links: Seq<LinkView>, keys: Seq<Text>, incoming: bool)
    requires
        keys.no_duplicates(),
        forall|i: int|
            0 <= i < links.len() ==> keys.contains(relations::near(#[trigger] links[i], incoming).key),
    ensures
        links_among(links, keys, incoming) == links.len(),
    decreases links.len(),
{
    if links.len() == 0 {
        lemma_no_links(links, keys, incoming);
    } else {
        let shorter = links.drop_last();
        assert forall|i: int| 0 <= i < shorter.len() implies keys.contains(
            relations::near(#[trigger] shorter[i], incoming).key,
        ) by {
            assert(keys.contains(relations::near(links[i], incoming).key));
        }
        lemma_links_among(shorter, keys, incoming);
        lemma_one_more_link(links, keys, incoming);
        assert(keys.contains(relations::near(links[links.len() - 1], incoming).key));
    }
}

proof fn lemma_no_links(links: Seq<LinkView>, keys: Seq<Text>, incoming: bool)
    requires
        links.len() == 0,
    ensures
        links_among(links, keys, incoming) == 0,
    decreases keys.len(),
{
    if keys.len() > 0 {
        lemma_no_links(links, keys.drop_last(), incoming);
    }
}

proof fn lemma_places_in(links: Seq<LinkView>, keys: Seq<Text>, incoming: bool)
    requires
        forall|i: int|
            0 <= i < keys.len() ==> relations::has_edge(links, #[trigger] keys[i], incoming),
    ensures
        places_in(relations::edge_table(links, incoming), keys) == links_among(links, keys, incoming),
    decreases keys.len(),
{
    if keys.len() > 0 {
        let shorter = keys.drop_last();
        assert forall|i: int| 0 <= i < shorter.len() implies relations::has_edge(
            links,
            #[trigger] shorter[i],
            incoming,
        ) by {
            assert(relations::has_edge(links, keys[i], incoming));
        }
        lemma_places_in(links, shorter, incoming);
        assert(relations::has_edge(links, keys[keys.len() - 1], incoming));
        lemma_places_on(links, keys.last(), incoming);
    }
}

/// Each call in a workspace that leads to a function is one place in the table of outgoing calls, and
/// one in that of incoming calls: over the functions that a table lists, each once, its places add up
/// to those calls.
pub proof fn law_places_add_up_to_the_resolved_calls(idx: IndexView, keys: Seq<Text>, incoming: bool)
    requires
        keys.no_duplicates(),
        keys.to_set() == (if incoming {
            relations::linked(idx).incoming
        } else {
            relations::linked(idx).outgoing
        }).dom(),
    ensures
        places_in(
            if incoming {
                relations::linked(idx).incoming
            } else {
                relations::linked(idx).outgoing
            },
            keys,
        ) == resolved_in_modules(idx, idx.order),
{
    let links = relations::workspace_links(idx, idx.order).found;
    let table = relations::edge_table(links, incoming);
    assert forall|i: int| 0 <= i < keys.len() implies relations::has_edge(
        links,
        #[trigger] keys[i],
        incoming,
    ) by {
        assert(keys.to_set().contains(keys[i]));
        assert(table.dom().contains(keys[i]));
    }
    assert forall|i: int| 0 <= i < links.len() implies keys.contains(
        relations::near(#[trigger] links[i], incoming).key,
    ) by {
        let key = relations::near(links[i], incoming).key;
        assert(table.dom().contains(key));
        assert(keys.to_set().contains(key));
    }
    lemma_places_in(links, keys, incoming);
    lemma_links_among(links, keys, incoming);
    lemma_workspace_links_count(idx, idx.order);
}

/// The functions that the tables of calls list are finitely many.
pub proof fn law_call_tables_are_finite(idx: IndexView)
    ensures
        relations::linked(idx).outgoing.dom().finite(),
        relations::linked(idx).incoming.dom().finite(),
{
    let links = relations::workspace_links(idx, idx.order).found;
    lemma_table_is_finite(links, false);
    lemma_table_is_finite(links, true);
}

proof fn lemma_table_is_finite(links: Seq<LinkView>, incoming: bool)
    ensures
        relations::edge_table(links, incoming).dom().finite(),
{
    let ends = links.map_values(|link: LinkView| relations::near(link, incoming).key);
    let dom = relations::edge_table(links, incoming).dom();
    vstd::seq_lib::seq_to_set_is_finite(ends);
    assert forall|key: Text| dom.contains(key) implies ends.to_set().contains(key) by {
        let i = choose|i: int|
            0 <= i < links.len() && relations::near(#[trigger] links[i], incoming).key == key;
        assert(ends[i] == key);
    }
    vstd::set_lib::lemma_len_subset(dom, ends.to_set());
}

} // verus!
