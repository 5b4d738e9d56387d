//! What the trees of calls show: every call, at the place at which it is made, and nothing else.
use vstd::prelude::*;

use crate::calltree;
use crate::index;
use crate::index::IndexView;
use crate::model;
use crate::model::CallItemView;
use crate::model::EdgeView;
use crate::model::FunctionView;
use crate::model::SourceRange;
use crate::render;
use crate::render::Place;
use crate::render::RowView;
use crate::showing;
use crate::sorting;
use crate::sorting::Key;
use crate::targets;
use crate::targets::OpenedView;
use crate::text::Text;

verus! {

/// The function that an item of a list of calls stands for, with its module, where the file of the
/// item and the function in it are found.
pub open spec fn function_behind(idx: IndexView, item: CallItemView) -> Option<(OpenedView, FunctionView)> {
    match targets::module_in(idx, item.path, None) {
        Ok(module) => match targets::function_target(module, item.name, Some(item.line), Some(item.col)) {
            Ok(function) => Some((module, function)),
            Err(_) => None,
        },
        Err(_) => None,
    }
}

/// The edges listed for a function, to those that call it or to those that it calls.
pub open spec fn edges_listed(idx: IndexView, key: Text, incoming: bool) -> Seq<(Text, EdgeView)> {
    if incoming && idx.incoming.contains_key(key) {
        idx.incoming[key]
    } else if !incoming && idx.outgoing.contains_key(key) {
        idx.outgoing[key]
    } else {
        Seq::empty()
    }
}

/// How many calls edges stand for.
pub open spec fn calls_on(edges: Seq<(Text, EdgeView)>) -> nat
    decreases edges.len(),
{
    if edges.len() == 0 {
        0
    } else {
        edges[0].1.from_ranges.len() + calls_on(edges.drop_first())
    }
}

/// Whether a row leads to a function.
pub open spec fn leads_to(row: RowView, module: OpenedView, function: FunctionView) -> bool {
    &&& row.kind == "call"@
    &&& row.name == function.name
    &&& row.target_path == module.info.path
    &&& row.target_line == function.line
    &&& row.target_col == function.col
    &&& row.external == module.external
}

/// Whether a row leads to where an item says, with nothing below it.
pub open spec fn leads_to_item(row: RowView, item: CallItemView) -> bool {
    &&& row.kind == "call"@
    &&& row.name == item.name
    &&& row.target_path == item.path
    &&& row.target_line == item.line
    &&& row.target_col == item.col
    &&& row.external == item.external
    &&& !row.recursive && !row.truncated && row.children.len() == 0
}

/// Whether a row shows a function with all its calls. A function on the way to the row is shown once
/// more, but not its calls. Below any other function stands, in the order of their places, a row for
/// each call on each of its edges.
#[verifier::opaque]
pub open spec fn shows_calls(idx: IndexView, row: RowView, module: OpenedView, function: FunctionView, incoming: bool, path: Set<Text>) -> bool
    decreases row, 1nat,
{
    let key = model::callable_key_of(module.name, function);
    let edges = edges_listed(idx, key, incoming);
    &&& leads_to(row, module, function)
    &&& !row.truncated
    &&& row.recursive <==> path.contains(key)
    &&& row.recursive ==> row.children.len() == 0
    &&& !row.recursive ==> {
        &&& row.children.len() == calls_on(edges)
        &&& showing::by_place(row.children, 0)
        &&& shows_edges(idx, row, edges, incoming, path.insert(key))
    }
}

/// Whether the rows below a row show the calls on edges, all of them and no others.
#[verifier::opaque]
pub open spec fn shows_edges(idx: IndexView, row: RowView, edges: Seq<(Text, EdgeView)>, incoming: bool, path: Set<Text>) -> bool
    decreases row, 0nat,
{
    &&& forall|e: int, range: SourceRange|
        0 <= e < edges.len() && #[trigger] edges[e].1.from_ranges.contains(range) ==> exists|j: int|
            0 <= j < row.children.len() && shows_call(
                idx,
                #[trigger] row.children[j],
                row.target_path,
                edges[e].1.item,
                range,
                incoming,
                path,
            )
    &&& forall|j: int|
        0 <= j < row.children.len() ==> (#[trigger] row.children[j].kind) == "call"@ && exists|e: int, range: SourceRange|
            0 <= e < edges.len() && #[trigger] edges[e].1.from_ranges.contains(range) && shows_call(
                idx,
                row.children[j],
                row.target_path,
                edges[e].1.item,
                range,
                incoming,
                path,
            )
}

/// Whether a row shows one call between the function of file `home` and another one. It is shown
/// where the call starts, in the file of the caller: that of the other function where incoming calls
/// are shown, `home` where outgoing ones are. It leads to the other function.
#[verifier::opaque]
pub open spec fn shows_call(idx: IndexView, row: RowView, home: Text, item: CallItemView, range: SourceRange, incoming: bool, path: Set<Text>) -> bool
    decreases row, 2nat,
{
    &&& row.path == (if incoming {
        item.path
    } else {
        home
    })
    &&& row.line == range.start.line
    &&& row.col == range.start.col
    &&& match function_behind(idx, item) {
        Some((module, function)) => shows_calls(idx, row, module, function, incoming, path),
        None => leads_to_item(row, item),
    }
}

/// A row that shows a function with its calls leads to the function.
pub proof fn lemma_leads_to(idx: IndexView, row: RowView, module: OpenedView, function: FunctionView, incoming: bool, path: Set<Text>)
    requires
        shows_calls(idx, row, module, function, incoming, path),
    ensures
        leads_to(row, module, function),
{
    reveal_with_fuel(shows_calls, 1);
}

proof fn lemma_call_kind(idx: IndexView, row: RowView, home: Text, item: CallItemView, range: SourceRange, incoming: bool, path: Set<Text>)
    requires
        shows_call(idx, row, home, item, range, incoming, path),
    ensures
        row.kind == "call"@,
{
    reveal_with_fuel(shows_call, 1);
    reveal_with_fuel(shows_calls, 1);
}

/// A tree of calls shows each function with all its calls, each at its place in the file of the
/// caller. Its root is shown where it was asked for.
pub proof fn law_calls_are_all_shown(idx: IndexView, module: OpenedView, function: FunctionView, shown: Place, incoming: bool, path: Set<Text>)
    requires
        idx.wf(),
        calltree::callable_keys(idx).contains(model::callable_key_of(module.name, function)),
    ensures
        calltree::call_row(idx, module, function, shown, incoming, path) matches Ok(row) ==> shows_calls(
            idx,
            row,
            module,
            function,
            incoming,
            path,
        ) && row.path == shown.path && row.line == shown.line && row.col == shown.col,
    decreases calltree::off_calls(idx, path), 0nat, 0nat,
{
    let key = model::callable_key_of(module.name, function);
    let inner = path.insert(key);
    if let Ok(row) = calltree::call_row(idx, module, function, shown, incoming, path) {
        if path.contains(key) {
            reveal_with_fuel(shows_calls, 1);
        } else {
            let by_name = |edge: EdgeView| calltree::named_edge_key(edge);
            let found = calltree::edges_for(idx, key, incoming);
            let edges = sorting::sorted(found, by_name);
            let listed = edges_listed(idx, key, incoming);
            let home = module.info.path;
            calltree::lemma_off_calls(idx, path, key);
            lemma_edges(idx, home, edges, incoming, inner);
            let rows = calltree::edge_rows(idx, home, edges, incoming, inner)->Ok_0;
            assert(found =~= listed.map_values(|edge: (Text, EdgeView)| edge.1));
            lemma_calls_shown(idx, listed, edges, home, incoming, inner, rows, row);
            reveal_with_fuel(shows_calls, 1);
            reveal_with_fuel(shows_edges, 1);
        }
    }
}

/// How many calls edges without their keys stand for.
spec fn calls_of(edges: Seq<EdgeView>) -> nat
    decreases edges.len(),
{
    if edges.len() == 0 {
        0
    } else {
        edges[0].from_ranges.len() + calls_of(edges.drop_first())
    }
}

proof fn lemma_calls_of_push(edges: Seq<EdgeView>, last: EdgeView)
    ensures
        calls_of(edges.push(last)) == calls_of(edges) + last.from_ranges.len(),
    decreases edges.len(),
{
    reveal_with_fuel(calls_of, 2);
    if edges.len() == 0 {
        assert(edges.push(last).drop_first() =~= edges);
    } else {
        lemma_calls_of_push(edges.drop_first(), last);
        assert(edges.push(last).drop_first() =~= edges.drop_first().push(last));
    }
}

proof fn lemma_calls_of_placed(x: EdgeView, edges: Seq<EdgeView>, key: spec_fn(EdgeView) -> Key)
    ensures
        calls_of(sorting::placed(x, edges, key)) == x.from_ranges.len() + calls_of(edges),
    decreases edges.len(),
{
    if edges.len() == 0 || sorting::key_le(key(x), key(edges[0])) {
        assert((seq![x] + edges).drop_first() =~= edges);
    } else {
        let rest = sorting::placed(x, edges.drop_first(), key);
        lemma_calls_of_placed(x, edges.drop_first(), key);
        assert((seq![edges[0]] + rest).drop_first() =~= rest);
    }
}

proof fn lemma_calls_of_sorted(edges: Seq<EdgeView>, key: spec_fn(EdgeView) -> Key)
    ensures
        calls_of(sorting::sorted(edges, key)) == calls_of(edges),
    decreases edges.len(),
{
    if edges.len() > 0 {
        lemma_calls_of_sorted(edges.drop_first(), key);
        lemma_calls_of_placed(edges[0], sorting::sorted(edges.drop_first(), key), key);
    }
}

proof fn lemma_calls_on(edges: Seq<(Text, EdgeView)>)
    ensures
        calls_of(edges.map_values(|edge: (Text, EdgeView)| edge.1)) == calls_on(edges),
    decreases edges.len(),
{
    let bare = edges.map_values(|edge: (Text, EdgeView)| edge.1);
    if edges.len() > 0 {
        lemma_calls_on(edges.drop_first());
        assert(bare.drop_first() =~= edges.drop_first().map_values(|edge: (Text, EdgeView)| edge.1));
    }
}

/// Whether rows show the calls on edges, all of them and no others.
spec fn all_calls_shown(idx: IndexView, edges: Seq<EdgeView>, home: Text, incoming: bool, path: Set<Text>, rows: Seq<RowView>) -> bool {
    &&& forall|edge: EdgeView, range: SourceRange|
        edges.contains(edge) && #[trigger] on_edge(edge, range) ==> exists|x: RowView| #[trigger]
            rows.contains(x) && shows_call(idx, x, home, edge.item, range, incoming, path)
    &&& forall|x: RowView| #[trigger]
        rows.contains(x) ==> exists|edge: EdgeView, range: SourceRange|
            edges.contains(edge) && edge.from_ranges.contains(range) && #[trigger] shows_call(
                idx,
                x,
                home,
                edge.item,
                range,
                incoming,
                path,
            )
}

/// Whether a call is on an edge.
spec fn on_edge(edge: EdgeView, range: SourceRange) -> bool {
    edge.from_ranges.contains(range)
}

proof fn lemma_ranges(idx: IndexView, home: Text, item: CallItemView, ranges: Seq<SourceRange>, incoming: bool, path: Set<Text>)
    requires
        idx.wf(),
    ensures
        calltree::range_rows(idx, home, item, ranges, incoming, path) matches Ok(rows) ==> {
            &&& rows.len() == ranges.len()
            &&& forall|k: int|
                0 <= k < ranges.len() ==> shows_call(
                    idx,
                    #[trigger] rows[k],
                    home,
                    item,
                    ranges[k],
                    incoming,
                    path,
                )
        },
    decreases calltree::off_calls(idx, path), 1nat, ranges.len(),
{
    if ranges.len() > 0 {
        let front = ranges.drop_last();
        let shown = calltree::call_place(home, item, ranges.last(), incoming);
        lemma_ranges(idx, home, item, front, incoming, path);
        if let Some((module, function)) = function_behind(idx, item) {
            index::lemma_lookup(idx, module.name);
            calltree::lemma_function_target(idx, module, item.name, Some(item.line), Some(item.col));
            law_calls_are_all_shown(idx, module, function, shown, incoming, path);
        }
        if let Ok(rows) = calltree::range_rows(idx, home, item, ranges, incoming, path) {
            let before = calltree::range_rows(idx, home, item, front, incoming, path)->Ok_0;
            assert(shows_call(idx, rows.last(), home, item, ranges.last(), incoming, path)) by {
                reveal_with_fuel(shows_call, 1);
                reveal_with_fuel(shows_calls, 1);
            }
            assert forall|k: int| 0 <= k < ranges.len() implies shows_call(
                idx,
                #[trigger] rows[k],
                home,
                item,
                ranges[k],
                incoming,
                path,
            ) by {
                if k < front.len() {
                    assert(rows[k] == before[k]);
                }
            }
        }
    }
}

proof fn lemma_edges(idx: IndexView, home: Text, edges: Seq<EdgeView>, incoming: bool, path: Set<Text>)
    requires
        idx.wf(),
    ensures
        calltree::edge_rows(idx, home, edges, incoming, path) matches Ok(rows) ==> rows.len() == calls_of(edges)
            && all_calls_shown(idx, edges, home, incoming, path, rows),
    decreases calltree::off_calls(idx, path), 2nat, edges.len(),
{
    if edges.len() > 0 {
        let front = edges.drop_last();
        let last = edges.last();
        let key = |range: SourceRange| calltree::range_key(range);
        let ranges = sorting::sorted(last.from_ranges, key);
        lemma_edges(idx, home, front, incoming, path);
        lemma_ranges(idx, home, last.item, ranges, incoming, path);
        lemma_calls_of_push(front, last);
        assert(front.push(last) =~= edges);
        sorting::law_sorted_is_an_ordered_rearrangement(last.from_ranges, key);
        if let Ok(rows) = calltree::edge_rows(idx, home, edges, incoming, path) {
            let before = calltree::edge_rows(idx, home, front, incoming, path)->Ok_0;
            let tail = calltree::range_rows(idx, home, last.item, ranges, incoming, path)->Ok_0;
            assert forall|edge: EdgeView, range: SourceRange|
                edges.contains(edge) && #[trigger] on_edge(edge, range) implies exists|x: RowView| #[trigger]
                rows.contains(x) && shows_call(idx, x, home, edge.item, range, incoming, path) by {
                if front.contains(edge) {
                    let x = choose|x: RowView| #[trigger]
                        before.contains(x) && shows_call(idx, x, home, edge.item, range, incoming, path);
                    assert(rows[before.index_of(x)] == x);
                    assert(rows.contains(x));
                } else {
                    let e = edges.index_of(edge);
                    if e < front.len() {
                        assert(front[e] == edge);
                    }
                    sorting::lemma_sorted_contains(last.from_ranges, key, range);
                    let k = ranges.index_of(range);
                    assert(rows[before.len() + k] == tail[k]);
                    assert(rows.contains(tail[k]));
                }
            }
            assert forall|x: RowView| #[trigger] rows.contains(x) implies exists|edge: EdgeView, range: SourceRange|
                edges.contains(edge) && edge.from_ranges.contains(range) && #[trigger] shows_call(
                    idx,
                    x,
                    home,
                    edge.item,
                    range,
                    incoming,
                    path,
                ) by {
                let k = rows.index_of(x);
                if k < before.len() {
                    assert(before[k] == x);
                    assert(before.contains(x));
                    let (edge, range) = choose|edge: EdgeView, range: SourceRange|
                        front.contains(edge) && edge.from_ranges.contains(range) && #[trigger] shows_call(
                            idx,
                            x,
                            home,
                            edge.item,
                            range,
                            incoming,
                            path,
                        );
                    assert(edges[front.index_of(edge)] == edge);
                    assert(edges.contains(edge));
                } else {
                    let range = ranges[k - before.len()];
                    assert(tail[k - before.len()] == x);
                    assert(ranges.contains(range));
                    sorting::lemma_sorted_contains(last.from_ranges, key, range);
                    assert(edges.contains(edges[edges.len() - 1]));
                    assert(shows_call(idx, x, home, last.item, range, incoming, path));
                }
            }
        }
    }
}

proof fn lemma_calls_shown(idx: IndexView, listed: Seq<(Text, EdgeView)>, edges: Seq<EdgeView>, home: Text, incoming: bool, path: Set<Text>, rows: Seq<RowView>, row: RowView)
    requires
        edges == sorting::sorted(
            listed.map_values(|edge: (Text, EdgeView)| edge.1),
            |edge: EdgeView| calltree::named_edge_key(edge),
        ),
        rows.len() == calls_of(edges),
        all_calls_shown(idx, edges, home, incoming, path, rows),
        row.children == render::ordered_rows(rows),
        row.target_path == home,
    ensures
        row.children.len() == calls_on(listed),
        showing::by_place(row.children, 0),
        shows_edges(idx, row, listed, incoming, path),
{
    let bare = listed.map_values(|edge: (Text, EdgeView)| edge.1);
    let key = |edge: EdgeView| calltree::named_edge_key(edge);
    lemma_calls_on(listed);
    lemma_calls_of_sorted(bare, key);
    showing::lemma_ordered(rows);
    assert forall|e: int, range: SourceRange|
        0 <= e < listed.len() && #[trigger] listed[e].1.from_ranges.contains(range) implies exists|
        j: int,
    |
        0 <= j < row.children.len() && shows_call(
            idx,
            #[trigger] row.children[j],
            row.target_path,
            listed[e].1.item,
            range,
            incoming,
            path,
        ) by {
        let edge = listed[e].1;
        assert(bare[e] == edge);
        assert(bare.contains(edge));
        sorting::lemma_sorted_contains(bare, key, edge);
        assert(on_edge(edge, range));
        let x = choose|x: RowView| #[trigger]
            rows.contains(x) && shows_call(idx, x, home, edge.item, range, incoming, path);
        assert(row.children.contains(x));
        let j = row.children.index_of(x);
        assert(row.children[j] == x);
    }
    assert forall|j: int| 0 <= j < row.children.len() implies (#[trigger] row.children[j].kind) == "call"@ && exists|
        e: int,
        range: SourceRange,
    |
        0 <= e < listed.len() && #[trigger] listed[e].1.from_ranges.contains(range) && shows_call(
            idx,
            row.children[j],
            row.target_path,
            listed[e].1.item,
            range,
            incoming,
            path,
        ) by {
        let x = row.children[j];
        assert(row.children.contains(x));
        assert(rows.contains(x));
        let (edge, range) = choose|edge: EdgeView, range: SourceRange|
            edges.contains(edge) && edge.from_ranges.contains(range) && #[trigger] shows_call(
                idx,
                x,
                home,
                edge.item,
                range,
                incoming,
                path,
            );
        sorting::lemma_sorted_contains(bare, key, edge);
        let e = bare.index_of(edge);
        assert(bare[e] == listed[e].1);
        assert(listed[e].1.from_ranges.contains(range));
        lemma_call_kind(idx, x, home, edge.item, range, incoming, path);
    }
    lemma_fold_edges(idx, row, listed, incoming, path);
}

proof fn lemma_fold_edges(idx: IndexView, row: RowView, edges: Seq<(Text, EdgeView)>, incoming: bool, path: Set<Text>)
    requires
        forall|e: int, range: SourceRange|
            0 <= e < edges.len() && #[trigger] edges[e].1.from_ranges.contains(range) ==> exists|j: int|
                0 <= j < row.children.len() && shows_call(
                    idx,
                    #[trigger] row.children[j],
                    row.target_path,
                    edges[e].1.item,
                    range,
                    incoming,
                    path,
                ),
        forall|j: int|
            0 <= j < row.children.len() ==> (#[trigger] row.children[j].kind) == "call"@ && exists|e: int, range: SourceRange|
                0 <= e < edges.len() && #[trigger] edges[e].1.from_ranges.contains(range) && shows_call(
                    idx,
                    row.children[j],
                    row.target_path,
                    edges[e].1.item,
                    range,
                    incoming,
                    path,
                ),
    ensures
        shows_edges(idx, row, edges, incoming, path),
{
    reveal_with_fuel(shows_calls, 1);
    reveal_with_fuel(shows_call, 1);
    reveal_with_fuel(shows_edges, 1);
}

/// Whether every row of a tree but its root is shown in the file of the caller: for incoming calls in
/// the file that the row leads to, for outgoing ones in the file that the row above leads to.
pub open spec fn keeps_to_callers(row: RowView, incoming: bool) -> bool
    decreases row,
{
    forall|j: int|
        0 <= j < row.children.len() ==> (#[trigger] row.children[j]).path == (if incoming {
            row.children[j].target_path
        } else {
            row.target_path
        }) && keeps_to_callers(row.children[j], incoming)
}

/// Whether the file that each item names is that of the module found for it.
pub open spec fn files_are_found(idx: IndexView) -> bool {
    forall|item: CallItemView|
        (#[trigger] function_behind(idx, item)) matches Some((module, _)) ==> module.info.path == item.path
}

/// Every call of a tree of calls is shown in the file of its caller.
pub proof fn law_calls_are_shown_in_the_callers_file(idx: IndexView, row: RowView, module: OpenedView, function: FunctionView, incoming: bool, path: Set<Text>)
    requires
        files_are_found(idx),
        shows_calls(idx, row, module, function, incoming, path),
    ensures
        keeps_to_callers(row, incoming),
    decreases row,
{
    let key = model::callable_key_of(module.name, function);
    let inner = path.insert(key);
    let edges = edges_listed(idx, key, incoming);
    reveal_with_fuel(shows_calls, 1);
    reveal_with_fuel(shows_edges, 1);
    reveal_with_fuel(shows_call, 1);
    assert forall|j: int| 0 <= j < row.children.len() implies (#[trigger] row.children[j]).path == (if incoming {
        row.children[j].target_path
    } else {
        row.target_path
    }) && keeps_to_callers(row.children[j], incoming) by {
        let child = row.children[j];
        assert(child.kind == "call"@);
        let (e, range) = choose|e: int, range: SourceRange|
            0 <= e < edges.len() && #[trigger] edges[e].1.from_ranges.contains(range) && shows_call(
                idx,
                child,
                row.target_path,
                edges[e].1.item,
                range,
                incoming,
                inner,
            );
        let item = edges[e].1.item;
        match function_behind(idx, item) {
            Some((next, called)) => {
                law_calls_are_shown_in_the_callers_file(idx, child, next, called, incoming, inner);
            },
            None => {},
        }
    }
}

} // verus!
