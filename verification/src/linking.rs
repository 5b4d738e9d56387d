//! What the tables of calls hold: an edge for every call of the workspace that leads to a function, and
//! no others.
use vstd::prelude::*;

use crate::callables;
use crate::callables::CallableView;
use crate::callgraph;
use crate::errors::FaultView;
use crate::index::IndexView;
use crate::model;
use crate::model::CallView;
use crate::model::EdgeView;
use crate::model::FunctionView;
use crate::model::ModuleView;
use crate::model::SourceRange;
use crate::relations;
use crate::relations::LinkView;
use crate::text::Text;

verus! {

/// Whether call `c` of function `f` of a module leads to a function.
pub open spec fn leads_on(idx: IndexView, info: ModuleView, f: int, c: int, target: CallableView) -> bool {
    &&& 0 <= f < info.functions.len()
    &&& 0 <= c < info.functions[f].calls.len()
    &&& callables::callable_in(idx, info, info.functions[f], info.functions[f].calls[c].raw_target) matches Ok(
        Some(found),
    ) && found == target
}

/// Whether a table lists a call, at a place, from the function of one key to that of another.
pub open spec fn lists_call(table: Map<Text, Seq<(Text, EdgeView)>>, near: Text, far: Text, range: SourceRange) -> bool {
    table.contains_key(near) && exists|e: int|
        0 <= e < table[near].len() && (#[trigger] table[near][e]).0 == far && table[near][e].1.from_ranges.contains(range)
}

/// Whether a caller is function `f` of a module.
pub open spec fn is_caller(info: ModuleView, f: int, caller: CallableView) -> bool {
    let function = info.functions[f];
    &&& caller.key == model::callable_key_of(info.module_name, function)
    &&& caller.item.name == function.name
    &&& caller.item.kind == function.kind
    &&& caller.item.path == info.path
    &&& caller.item.line == function.line
    &&& caller.item.col == function.col
    &&& !caller.item.external
}

/// Whether a link stands for call `c` of function `f` of a module.
pub open spec fn is_link_of(idx: IndexView, info: ModuleView, f: int, c: int, link: LinkView) -> bool {
    &&& leads_on(idx, info, f, c, link.target)
    &&& is_caller(info, f, link.caller)
    &&& link.range == info.functions[f].calls[c].range
}

proof fn lemma_call_links(idx: IndexView, info: ModuleView, function: FunctionView, caller: CallableView, calls: Seq<CallView>)
    ensures
        forall|c: int|
            0 <= c < calls.len() ==> (callables::callable_in(idx, info, function, (#[trigger] calls[c]).raw_target) matches Ok(
                Some(target),
            ) ==> relations::call_links(idx, info, function, caller, calls).found.contains(
                LinkView { caller, target, range: calls[c].range },
            )),
        forall|link: LinkView| #[trigger]
            relations::call_links(idx, info, function, caller, calls).found.contains(link) ==> link.caller == caller
                && exists|c: int|
                0 <= c < calls.len() && link.range == (#[trigger] calls[c]).range && callables::callable_in(
                    idx,
                    info,
                    function,
                    calls[c].raw_target,
                ) == Ok::<Option<CallableView>, FaultView>(Some(link.target)),
    decreases calls.len(),
{
    if calls.len() > 0 {
        let front = calls.drop_last();
        let before = relations::call_links(idx, info, function, caller, front).found;
        let all = relations::call_links(idx, info, function, caller, calls).found;
        lemma_call_links(idx, info, function, caller, front);
        assert forall|c: int| 0 <= c < calls.len() implies (callables::callable_in(
            idx,
            info,
            function,
            (#[trigger] calls[c]).raw_target,
        ) matches Ok(Some(target)) ==> all.contains(LinkView { caller, target, range: calls[c].range })) by {
            if let Ok(Some(target)) = callables::callable_in(idx, info, function, calls[c].raw_target) {
                let link = LinkView { caller, target, range: calls[c].range };
                if c < front.len() {
                    assert(front[c] == calls[c]);
                    assert(before.contains(link));
                    assert(all[before.index_of(link)] == link);
                } else {
                    assert(all[all.len() - 1] == link);
                }
            }
        }
        assert forall|link: LinkView| #[trigger] all.contains(link) implies link.caller == caller && exists|c: int|
            0 <= c < calls.len() && link.range == (#[trigger] calls[c]).range && callables::callable_in(
                idx,
                info,
                function,
                calls[c].raw_target,
            ) == Ok::<Option<CallableView>, FaultView>(Some(link.target)) by {
            let k = all.index_of(link);
            if k < before.len() {
                assert(before[k] == link);
                assert(before.contains(link));
                let c = choose|c: int|
                    0 <= c < front.len() && link.range == (#[trigger] front[c]).range && callables::callable_in(
                        idx,
                        info,
                        function,
                        front[c].raw_target,
                    ) == Ok::<Option<CallableView>, FaultView>(Some(link.target));
                assert(calls[c] == front[c]);
            } else {
                assert(calls[calls.len() - 1].range == link.range);
            }
        }
    }
}

proof fn lemma_function_links(idx: IndexView, info: ModuleView, functions: Seq<FunctionView>)
    requires
        functions.len() <= info.functions.len(),
        functions == info.functions.take(functions.len() as int),
    ensures
        forall|f: int, c: int, link: LinkView|
            0 <= f < functions.len() && #[trigger] is_link_of(idx, info, f, c, link) ==> relations::function_links(
                idx,
                info,
                functions,
            ).found.contains(link),
        forall|link: LinkView| #[trigger]
            relations::function_links(idx, info, functions).found.contains(link) ==> exists|f: int, c: int|
                0 <= f < functions.len() && #[trigger] is_link_of(idx, info, f, c, link),
    decreases functions.len(),
{
    if functions.len() > 0 {
        let n = functions.len() - 1;
        let front = functions.drop_last();
        let function = functions.last();
        let caller = relations::caller_of(info, function);
        let before = relations::function_links(idx, info, front).found;
        let here = relations::call_links(idx, info, function, caller, function.calls).found;
        let all = relations::function_links(idx, info, functions).found;
        assert(front =~= info.functions.take(n as int));
        assert(function == info.functions[n as int]);
        lemma_function_links(idx, info, front);
        lemma_call_links(idx, info, function, caller, function.calls);
        assert forall|f: int, c: int, link: LinkView|
            0 <= f < functions.len() && #[trigger] is_link_of(idx, info, f, c, link) implies all.contains(link) by {
            if f < n {
                assert(before.contains(link));
                assert(all[before.index_of(link)] == link);
            } else {
                assert(link.caller.item == caller.item);
                assert(link == LinkView { caller, target: link.target, range: function.calls[c].range });
                assert(here.contains(link));
                assert(all[before.len() + here.index_of(link)] == link);
            }
        }
        assert forall|link: LinkView| #[trigger] all.contains(link) implies exists|f: int, c: int|
            0 <= f < functions.len() && #[trigger] is_link_of(idx, info, f, c, link) by {
            let k = all.index_of(link);
            if k < before.len() {
                assert(before[k] == link);
                assert(before.contains(link));
                let (f, c) = choose|f: int, c: int|
                    0 <= f < front.len() && #[trigger] is_link_of(idx, info, f, c, link);
                assert(is_link_of(idx, info, f, c, link));
            } else {
                assert(here[k - before.len()] == link);
                assert(here.contains(link));
                let c = choose|c: int|
                    0 <= c < function.calls.len() && link.range == (#[trigger] function.calls[c]).range
                        && callables::callable_in(idx, info, function, function.calls[c].raw_target) == Ok::<
                        Option<CallableView>,
                        FaultView,
                    >(Some(link.target));
                assert(is_link_of(idx, info, n as int, c, link));
            }
        }
    }
}

/// Whether a link stands for a call of a module among those named.
pub open spec fn is_made(idx: IndexView, modules: Seq<Text>, link: LinkView) -> bool {
    exists|m: int, f: int, c: int|
        0 <= m < modules.len() && #[trigger] is_link_of(idx, idx.workspace[modules[m]], f, c, link)
}

proof fn lemma_workspace_links(idx: IndexView, modules: Seq<Text>)
    ensures
        forall|link: LinkView| #[trigger]
            relations::workspace_links(idx, modules).found.contains(link) <==> is_made(idx, modules, link),
    decreases modules.len(),
{
    if modules.len() > 0 {
        let n = modules.len() - 1;
        let front = modules.drop_last();
        let info = idx.workspace[modules.last()];
        let before = relations::workspace_links(idx, front).found;
        let here = relations::function_links(idx, info, info.functions).found;
        let all = relations::workspace_links(idx, modules).found;
        lemma_workspace_links(idx, front);
        assert(info.functions.take(info.functions.len() as int) =~= info.functions);
        lemma_function_links(idx, info, info.functions);
        assert forall|link: LinkView| #[trigger] all.contains(link) <==> is_made(idx, modules, link) by {
            if all.contains(link) {
                let k = all.index_of(link);
                if k < before.len() {
                    assert(before[k] == link);
                    assert(before.contains(link));
                    let (m, f, c) = choose|m: int, f: int, c: int|
                        0 <= m < front.len() && #[trigger] is_link_of(idx, idx.workspace[front[m]], f, c, link);
                    assert(front[m] == modules[m]);
                    assert(is_link_of(idx, idx.workspace[modules[m]], f, c, link));
                } else {
                    assert(here[k - before.len()] == link);
                    assert(here.contains(link));
                    let (f, c) = choose|f: int, c: int|
                        0 <= f < info.functions.len() && #[trigger] is_link_of(idx, info, f, c, link);
                    assert(is_link_of(idx, idx.workspace[modules[n as int]], f, c, link));
                }
            }
            if is_made(idx, modules, link) {
                let (m, f, c) = choose|m: int, f: int, c: int|
                    0 <= m < modules.len() && #[trigger] is_link_of(idx, idx.workspace[modules[m]], f, c, link);
                if m < n {
                    assert(front[m] == modules[m]);
                    assert(is_link_of(idx, idx.workspace[front[m]], f, c, link));
                    assert(before.contains(link));
                    assert(all[before.index_of(link)] == link);
                } else {
                    assert(here.contains(link));
                    assert(all[before.len() + here.index_of(link)] == link);
                }
            }
        }
    }
}

proof fn lemma_between(links: Seq<LinkView>, caller: Text, target: Text, range: SourceRange)
    ensures
        relations::places_between(links, caller, target).contains(range) <==> exists|k: int|
            0 <= k < links.len() && (#[trigger] links[k]).caller.key == caller && links[k].target.key == target
                && links[k].range == range,
    decreases links.len(),
{
    if links.len() > 0 {
        let front = links.drop_last();
        let last = links.last();
        let before = relations::places_between(front, caller, target);
        lemma_between(front, caller, target, range);
        vstd::seq_lib::lemma_seq_contains_after_push(before, last.range, range);
        if exists|k: int|
            0 <= k < links.len() && (#[trigger] links[k]).caller.key == caller && links[k].target.key == target
                && links[k].range == range {
            let k = choose|k: int|
                0 <= k < links.len() && (#[trigger] links[k]).caller.key == caller && links[k].target.key == target
                    && links[k].range == range;
            if k < front.len() {
                assert(front[k] == links[k]);
            }
        }
        if exists|k: int|
            0 <= k < front.len() && (#[trigger] front[k]).caller.key == caller && front[k].target.key == target
                && front[k].range == range {
            let k = choose|k: int|
                0 <= k < front.len() && (#[trigger] front[k]).caller.key == caller && front[k].target.key == target
                    && front[k].range == range;
            assert(links[k] == front[k]);
        }
        if last.caller.key == caller && last.target.key == target && last.range == range {
            assert(links[links.len() - 1] == last);
        }
    }
}

proof fn lemma_listed(links: Seq<LinkView>, near: Text, far: Text, range: SourceRange, incoming: bool)
    ensures
        lists_call(relations::edge_table(links, incoming), near, far, range) <==> exists|k: int|
            0 <= k < links.len() && (#[trigger] links[k]).range == range && (if incoming {
                links[k].target.key == near && links[k].caller.key == far
            } else {
                links[k].caller.key == near && links[k].target.key == far
            }),
{
    let table = relations::edge_table(links, incoming);
    let edges = relations::edges_of(links, near, incoming);
    let (caller, target) = if incoming {
        (far, near)
    } else {
        (near, far)
    };
    relations::lemma_places(links, near, far, incoming);
    relations::lemma_edge_slot(edges, far);
    relations::law_edges_are_distinct(links, near, incoming);
    lemma_between(links, caller, target, range);
    if lists_call(table, near, far, range) {
        let e = choose|e: int|
            0 <= e < table[near].len() && (#[trigger] table[near][e]).0 == far && table[near][e].1.from_ranges.contains(
                range,
            );
        assert(edges[e].0 == far);
        assert(relations::edge_slot(edges, far) == Some(e));
        let k = choose|k: int|
            0 <= k < links.len() && (#[trigger] links[k]).caller.key == caller && links[k].target.key == target
                && links[k].range == range;
        assert(links[k].range == range);
    }
    if exists|k: int|
        0 <= k < links.len() && (#[trigger] links[k]).range == range && (if incoming {
            links[k].target.key == near && links[k].caller.key == far
        } else {
            links[k].caller.key == near && links[k].target.key == far
        }) {
        let k = choose|k: int|
            0 <= k < links.len() && (#[trigger] links[k]).range == range && (if incoming {
                links[k].target.key == near && links[k].caller.key == far
            } else {
                links[k].caller.key == near && links[k].target.key == far
            });
        assert(relations::near(links[k], incoming).key == near);
        assert(links[k].caller.key == caller);
        let e = relations::edge_slot(edges, far)->0;
        assert(relations::places(edges, far).contains(range));
        assert(relations::edge_slot(edges, far) is Some) by {
            if relations::edge_slot(edges, far) is None {
                assert(relations::places(edges, far) =~= Seq::empty());
            }
        }
        assert(table[near][e].0 == far);
    }
}

/// Whether some call of the workspace is made at a place, from the function of one key to that of
/// another.
pub open spec fn is_called_at(idx: IndexView, caller: Text, target: Text, range: SourceRange) -> bool {
    exists|m: Text, f: int, c: int, end: CallableView|
        idx.workspace.contains_key(m) && #[trigger] leads_on(idx, idx.workspace[m], f, c, end) && end.key == target
            && model::callable_key_of(idx.workspace[m].module_name, idx.workspace[m].functions[f]) == caller
            && idx.workspace[m].functions[f].calls[c].range == range
}

/// The tables of calls list a call exactly where a function of the workspace makes it: among those that
/// go out from the caller, and among those that come in to the function called.
pub proof fn law_calls_are_all_linked(idx: IndexView, caller: Text, target: Text, range: SourceRange)
    requires
        idx.workspace.dom() == idx.order.to_set(),
    ensures
        lists_call(relations::linked(idx).outgoing, caller, target, range) <==> is_called_at(idx, caller, target, range),
        lists_call(relations::linked(idx).incoming, target, caller, range) <==> is_called_at(idx, caller, target, range),
{
    let links = relations::workspace_links(idx, idx.order).found;
    lemma_workspace_links(idx, idx.order);
    lemma_listed(links, caller, target, range, false);
    lemma_listed(links, target, caller, range, true);
    if exists|k: int|
        0 <= k < links.len() && (#[trigger] links[k]).range == range && links[k].caller.key == caller
            && links[k].target.key == target {
        let k = choose|k: int|
            0 <= k < links.len() && (#[trigger] links[k]).range == range && links[k].caller.key == caller
                && links[k].target.key == target;
        assert(links.contains(links[k]));
        let (m, f, c) = choose|m: int, f: int, c: int|
            0 <= m < idx.order.len() && #[trigger] is_link_of(idx, idx.workspace[idx.order[m]], f, c, links[k]);
        assert(idx.order.to_set().contains(idx.order[m]));
        assert(leads_on(idx, idx.workspace[idx.order[m]], f, c, links[k].target));
    }
    if is_called_at(idx, caller, target, range) {
        let (m, f, c, end) = choose|m: Text, f: int, c: int, end: CallableView|
            idx.workspace.contains_key(m) && #[trigger] leads_on(idx, idx.workspace[m], f, c, end) && end.key == target
                && model::callable_key_of(idx.workspace[m].module_name, idx.workspace[m].functions[f]) == caller
                && idx.workspace[m].functions[f].calls[c].range == range;
        let info = idx.workspace[m];
        let link = LinkView { caller: relations::caller_of(info, info.functions[f]), target: end, range };
        assert(idx.order.to_set().contains(m));
        let k = idx.order.index_of(m);
        assert(is_link_of(idx, idx.workspace[idx.order[k]], f, c, link));
        assert(is_made(idx, idx.order, link));
        let p = links.index_of(link);
        assert(links.contains(link));
        assert(links[p].range == range);
    }
}

/// Whether an item shows a function as it is: one of the workspace that makes a call, or one that a
/// call leads to.
pub open spec fn is_end_of_call(idx: IndexView, near: Text, edge: (Text, EdgeView), incoming: bool) -> bool {
    exists|m: Text, f: int, c: int, end: CallableView| {
        let info = idx.workspace[m];
        &&& idx.workspace.contains_key(m) && #[trigger] leads_on(idx, idx.workspace[m], f, c, end)
        &&& if incoming {
            end.key == near && is_caller(info, f, CallableView { key: edge.0, item: edge.1.item })
        } else {
            end == (CallableView { key: edge.0, item: edge.1.item }) && near == model::callable_key_of(
                info.module_name,
                info.functions[f],
            )
        }
    }
}

/// Every edge shows the function at its far end as it is: the caller where incoming calls are listed,
/// the function called where outgoing ones are. It stands for one call at least.
pub proof fn law_edges_show_their_far_ends(idx: IndexView, near: Text, e: int, incoming: bool)
    requires
        idx.workspace.dom() == idx.order.to_set(),
        ({
            let table = if incoming {
                relations::linked(idx).incoming
            } else {
                relations::linked(idx).outgoing
            };
            table.contains_key(near) && 0 <= e < table[near].len()
        }),
    ensures
        ({
            let table = if incoming {
                relations::linked(idx).incoming
            } else {
                relations::linked(idx).outgoing
            };
            table[near][e].1.from_ranges.len() > 0 && is_end_of_call(idx, near, table[near][e], incoming)
        }),
{
    let links = relations::workspace_links(idx, idx.order).found;
    let edges = relations::edges_of(links, near, incoming);
    lemma_workspace_links(idx, idx.order);
    callgraph::law_edges_are_founded(links, near, incoming);
    assert(callgraph::founded(edges[e], near, links, incoming));
    let j = choose|j: int|
        0 <= j < links.len() && callgraph::stems_from(edges[e], near, #[trigger] links[j], incoming);
    assert(links.contains(links[j]));
    let (m, f, c) = choose|m: int, f: int, c: int|
        0 <= m < idx.order.len() && #[trigger] is_link_of(idx, idx.workspace[idx.order[m]], f, c, links[j]);
    assert(idx.order.to_set().contains(idx.order[m]));
    assert(leads_on(idx, idx.workspace[idx.order[m]], f, c, links[j].target));
}

} // verus!
