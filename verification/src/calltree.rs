//! Who a function calls and who calls it, as a list and as a tree.
use rustc_hash::FxHashSet;
use vstd::prelude::*;

use crate::errors;
use crate::errors::Fault;
use crate::errors::FaultView;
use crate::errors::QueryError;
use crate::errors::QueryErrorView;
use crate::index;
use crate::index::IndexView;
use crate::index::WorkspaceIndex;
use crate::model;
use crate::model::callable_key;
use crate::model::CallHierarchyEdge;
use crate::model::CallHierarchyItem;
use crate::model::CallItemView;
use crate::model::EdgeView;
use crate::model::FunctionInfo;
use crate::model::FunctionView;
use crate::model::SourceRange;
use crate::names;
use crate::names::names_insert;
use crate::names::names_remove;
use crate::paths;
use crate::paths::order_key_of;
use crate::render;
use crate::render::make_row;
use crate::render::mark_recursive;
use crate::render::render_sort_nodes;
use crate::render::set_children;
use crate::render::Place;
use crate::render::RenderNode;
use crate::render::RowView;
use crate::resolve;
use crate::sorting;
use crate::sorting::key_of_text;
use crate::sorting::sort_keyed;
use crate::sorting::Key;
use crate::targets;
use crate::targets::locate_function_target;
use crate::targets::open_file;
use crate::targets::Opened;
use crate::targets::OpenedView;
use crate::text::Text;

verus! {

/// The keys of the functions of a module.
pub open spec fn function_keys(module: Text, functions: Seq<FunctionView>) -> Seq<Text> {
    functions.map_values(|function: FunctionView| model::callable_key_of(module, function))
}

/// The modules at hand, each with the key of each of its functions.
pub open spec fn keyed_modules(idx: IndexView) -> Set<(Text, Text)> {
    Set::new(
        |p: (Text, Text)|
            idx.known().contains(p.0) && function_keys(
                p.0,
                idx.module(p.0).functions,
            ).to_set().contains(p.1),
    )
}

/// The keys of the functions of the modules at hand.
pub open spec fn callable_keys(idx: IndexView) -> Set<Text> {
    keyed_modules(idx).map(|p: (Text, Text)| p.1)
}

/// How many of those functions are not on a path.
pub open spec fn off_calls(idx: IndexView, path: Set<Text>) -> nat {
    callable_keys(idx).difference(path).len()
}

/// The functions of a module at hand are among those that have keys.
pub proof fn lemma_callable_key(idx: IndexView, module: OpenedView, place: int)
    requires
        idx.wf(),
        targets::opened(idx, module.name) == Ok::<OpenedView, QueryErrorView>(module),
        0 <= place < module.info.functions.len(),
    ensures
        callable_keys(idx).contains(
            model::callable_key_of(module.name, module.info.functions[place]),
        ),
{
    let key = model::callable_key_of(module.name, module.info.functions[place]);
    index::lemma_lookup(idx, module.name);
    assert(function_keys(module.name, module.info.functions)[place] == key);
    assert(keyed_modules(idx).contains((module.name, key)));
}

/// One more function on the path leaves fewer off it.
pub proof fn lemma_off_calls(idx: IndexView, path: Set<Text>, key: Text)
    requires
        idx.wf(),
        callable_keys(idx).contains(key),
        !path.contains(key),
    ensures
        off_calls(idx, path.insert(key)) < off_calls(idx, path),
{
    let seconds = |a: Text| function_keys(a, idx.module(a).functions).to_set();
    assert forall|a: Text| idx.known().contains(a) implies (#[trigger] seconds(a)).finite() by {
        vstd::seq_lib::seq_to_set_is_finite(function_keys(a, idx.module(a).functions));
    }
    index::lemma_lookup(idx, Seq::empty());
    resolve::lemma_pairs_finite(idx.known(), seconds);
    assert(keyed_modules(idx) =~= Set::new(
        |p: (Text, Text)| idx.known().contains(p.0) && seconds(p.0).contains(p.1),
    ));
    keyed_modules(idx).lemma_map_finite(|p: (Text, Text)| p.1);
    let left = callable_keys(idx).difference(path);
    assert(left.contains(key));
    assert(callable_keys(idx).difference(path.insert(key)) =~= left.remove(key));
}

/// The edges of the function of a key.
pub open spec fn edges_for(idx: IndexView, key: Text, incoming: bool) -> Seq<EdgeView> {
    let table = if incoming {
        idx.incoming
    } else {
        idx.outgoing
    };
    if table.contains_key(key) {
        table[key].map_values(|edge: (Text, EdgeView)| edge.1)
    } else {
        Seq::empty()
    }
}

/// What orders edges in a list: path, line and column.
pub open spec fn edge_key(edge: EdgeView) -> Key {
    paths::order_key(edge.item.path).push(0).push(edge.item.line as u64).push(
        edge.item.col as u64,
    )
}

/// What orders edges in a tree: path, line, column and name.
pub open spec fn named_edge_key(edge: EdgeView) -> Key {
    edge_key(edge) + sorting::text_key(edge.item.name)
}

/// What orders the places of calls: where they start, then where they end.
pub open spec fn range_key(range: SourceRange) -> Key {
    seq![
        range.start.line as u64,
        range.start.col as u64,
        range.end.line as u64,
        range.end.col as u64,
    ]
}

/// The edges of the function of a key, in the order of a list.
pub open spec fn listed_edges(idx: IndexView, key: Text, incoming: bool) -> Seq<EdgeView> {
    sorting::sorted(edges_for(idx, key, incoming), |edge: EdgeView| edge_key(edge))
}

/// The module and the function that an item of a list of calls stands for, where they are found.
/// The path of an item is that of a module at hand: it needs no other form.
pub open spec fn item_target(idx: IndexView, item: CallItemView) -> Result<Option<(OpenedView, FunctionView)>, FaultView> {
    match targets::module_in(idx, item.path, None) {
        Err(QueryErrorView::Unfollowed(fault)) => Err(fault),
        Err(_) => Ok(None),
        Ok(module) => match targets::function_target(
            module,
            item.name,
            Some(item.line),
            Some(item.col),
        ) {
            Ok(function) => Ok(Some((module, function))),
            Err(_) => Ok(None),
        },
    }
}

/// The row of a function, without anything below it.
pub open spec fn function_row(module: OpenedView, function: FunctionView, shown: Place) -> RowView {
    render::row(
        "call"@,
        function.name,
        shown,
        Place { path: module.info.path, line: function.line, col: function.col },
        module.external,
    )
}

/// The row of an item whose function was not found.
pub open spec fn item_row(item: CallItemView, shown: Place) -> RowView {
    render::row(
        "call"@,
        item.name,
        shown,
        Place { path: item.path, line: item.line, col: item.col },
        item.external,
    )
}

/// Where a call is shown: in the caller's file.
pub open spec fn call_place(home: Text, item: CallItemView, range: SourceRange, incoming: bool) -> Place {
    Place {
        path: if incoming {
            item.path
        } else {
            home
        },
        line: range.start.line,
        col: range.start.col,
    }
}

/// The rows of a function and the functions that it calls, or that call it. A function on the
/// path from the root is not entered again.
pub open spec fn call_row(idx: IndexView, module: OpenedView, function: FunctionView, shown: Place, incoming: bool, path: Set<Text>) -> Result<RowView, FaultView>
    decreases off_calls(idx, path), 0nat, 0nat,
    when idx.wf() && callable_keys(idx).contains(model::callable_key_of(module.name, function))
{
    let key = model::callable_key_of(module.name, function);
    let node = function_row(module, function, shown);
    if path.contains(key) {
        Ok(RowView { recursive: true, ..node })
    } else {
        proof {
            lemma_off_calls(idx, path, key);
        }
        let edges = sorting::sorted(
            edges_for(idx, key, incoming),
            |edge: EdgeView| named_edge_key(edge),
        );
        match edge_rows(idx, module.info.path, edges, incoming, path.insert(key)) {
            Err(fault) => Err(fault),
            Ok(rows) => Ok(RowView { children: render::ordered_rows(rows), ..node }),
        }
    }
}

/// The rows of edges, one for each call.
pub open spec fn edge_rows(idx: IndexView, home: Text, edges: Seq<EdgeView>, incoming: bool, path: Set<Text>) -> Result<Seq<RowView>, FaultView>
    decreases off_calls(idx, path), 2nat, edges.len(),
    when idx.wf()
{
    if edges.len() == 0 {
        Ok(Seq::empty())
    } else {
        let edge = edges.last();
        let ranges = sorting::sorted(edge.from_ranges, |range: SourceRange| range_key(range));
        match (
            edge_rows(idx, home, edges.drop_last(), incoming, path),
            range_rows(idx, home, edge.item, ranges, incoming, path),
        ) {
            (Err(fault), _) => Err(fault),
            (_, Err(fault)) => Err(fault),
            (Ok(before), Ok(rows)) => Ok(before + rows),
        }
    }
}

/// The rows of the calls on one edge.
pub open spec fn range_rows(idx: IndexView, home: Text, item: CallItemView, ranges: Seq<SourceRange>, incoming: bool, path: Set<Text>) -> Result<Seq<RowView>, FaultView>
    decreases off_calls(idx, path), 1nat, ranges.len(),
    when idx.wf()
{
    if ranges.len() == 0 {
        Ok(Seq::empty())
    } else {
        let shown = call_place(home, item, ranges.last(), incoming);
        let last = match item_target(idx, item) {
            Err(fault) => Err(fault),
            Ok(Some((module, function))) => call_row(idx, module, function, shown, incoming, path),
            Ok(None) => Ok(item_row(item, shown)),
        };
        match (range_rows(idx, home, item, ranges.drop_last(), incoming, path), last) {
            (Err(fault), _) => Err(fault),
            (_, Err(fault)) => Err(fault),
            (Ok(before), Ok(node)) => Ok(before.push(node)),
        }
    }
}

/// What orders edges in a list.
fn key_of_edge(edge: &CallHierarchyEdge) -> (key: Vec<u64>)
    ensures
        key@ == edge_key(edge.deep_view()),
{
    let mut key = order_key_of(edge.item.path.as_str());
    key.push(0);
    key.push(edge.item.line as u64);
    key.push(edge.item.col as u64);
    key
}

/// The edges of the function of a key.
fn copy_edges(index: &WorkspaceIndex, key: &str, incoming: bool) -> (edges: Vec<CallHierarchyEdge>)
    requires
        index.wf(),
    ensures
        edges.deep_view() == edges_for(index@, key@, incoming),
{
    let table = if incoming { &index.incoming_calls } else { &index.outgoing_calls };
    let ghost viewed = table.deep_entries();
    assert(viewed == (if incoming { index@.incoming } else { index@.outgoing }));
    let mut edges: Vec<CallHierarchyEdge> = Vec::new();
    if let Some(list) = table.get(key) {
        assert(viewed.contains_key(key@));
        let ghost all = list.deep_view();
        let mut i: usize = 0;
        while i < list.len()
            invariant
                i <= list@.len(),
                all == list.deep_view(),
                edges@.len() == i,
                forall|k: int| 0 <= k < i ==> (#[trigger] edges@[k]).deep_view() == all[k].1,
            decreases list@.len() - i,
        {
            assert(all[i as int] == list@[i as int].deep_view());
            edges.push(list[i].1.clone());
            i = i + 1;
        }
        assert(edges.deep_view() =~= all.map_values(|edge: (Text, EdgeView)| edge.1));
    } else {
        assert(!viewed.contains_key(key@));
        assert(edges.deep_view() =~= Seq::empty());
    }
    edges
}

/// The edges of the function of a key, in the order of a list.
pub(crate) fn list_edges(index: &WorkspaceIndex, key: &str, incoming: bool) -> (ordered: Vec<CallHierarchyEdge>)
    requires
        index.wf(),
    ensures
        ordered.deep_view() == listed_edges(index@, key@, incoming),
{
    let edges = copy_edges(index, key, incoming);
    let mut keys: Vec<Vec<u64>> = Vec::new();
    let mut i: usize = 0;
    while i < edges.len()
        invariant
            i <= edges@.len(),
            keys@.len() == i,
            forall|k: int| 0 <= k < i ==> (#[trigger] keys@[k])@ == edge_key(edges@[k].deep_view()),
        decreases edges@.len() - i,
    {
        keys.push(key_of_edge(&edges[i]));
        i = i + 1;
    }
    sort_keyed(edges, keys, Ghost(|edge: EdgeView| edge_key(edge)))
}

/// The edges of the function of a key, in the order of a tree.
fn tree_edges(index: &WorkspaceIndex, key: &str, incoming: bool) -> (ordered: Vec<CallHierarchyEdge>)
    requires
        index.wf(),
    ensures
        ordered.deep_view() == sorting::sorted(
            edges_for(index@, key@, incoming),
            |edge: EdgeView| named_edge_key(edge),
        ),
{
    let edges = copy_edges(index, key, incoming);
    let mut keys: Vec<Vec<u64>> = Vec::new();
    let mut i: usize = 0;
    while i < edges.len()
        invariant
            i <= edges@.len(),
            keys@.len() == i,
            forall|k: int|
                0 <= k < i ==> (#[trigger] keys@[k])@ == named_edge_key(edges@[k].deep_view()),
        decreases edges@.len() - i,
    {
        let mut whole = key_of_edge(&edges[i]);
        let mut rest = key_of_text(edges[i].item.name.as_str());
        whole.append(&mut rest);
        keys.push(whole);
        i = i + 1;
    }
    sort_keyed(edges, keys, Ghost(|edge: EdgeView| named_edge_key(edge)))
}

/// The places of calls, in order.
fn order_ranges(ranges: &Vec<SourceRange>) -> (ordered: Vec<SourceRange>)
    ensures
        ordered.deep_view() == sorting::sorted(
            ranges.deep_view(),
            |range: SourceRange| range_key(range),
        ),
{
    let copy = ranges.clone();
    assert(copy.deep_view() =~= ranges.deep_view());
    let mut keys: Vec<Vec<u64>> = Vec::new();
    let mut i: usize = 0;
    while i < copy.len()
        invariant
            i <= copy@.len(),
            keys@.len() == i,
            forall|k: int| 0 <= k < i ==> (#[trigger] keys@[k])@ == range_key(copy@[k].deep_view()),
        decreases copy@.len() - i,
    {
        let range = copy[i];
        let mut key: Vec<u64> = Vec::new();
        key.push(range.start.line as u64);
        key.push(range.start.col as u64);
        key.push(range.end.line as u64);
        key.push(range.end.col as u64);
        assert(key@ =~= range_key(range));
        keys.push(key);
        i = i + 1;
    }
    sort_keyed(copy, keys, Ghost(|range: SourceRange| range_key(range)))
}

/// The module and the function that an item of a list of calls stands for, where they are found.
fn locate_call_target<'a>(index: &'a WorkspaceIndex, item: &CallHierarchyItem) -> (target: Result<Option<(Opened<'a>, &'a FunctionInfo)>, Fault>)
    requires
        index.wf(),
    ensures
        match target {
            Ok(Some((module, function))) => module.info.wf() && item_target(
                index@,
                item.deep_view(),
            ) == Ok::<Option<(OpenedView, FunctionView)>, FaultView>(
                Some((module.deep_view(), function.deep_view())),
            ) && callable_keys(index@).contains(
                model::callable_key_of(module.name@, function.deep_view()),
            ),
            Ok(None) => item_target(index@, item.deep_view()) == Ok::<
                Option<(OpenedView, FunctionView)>,
                FaultView,
            >(None),
            Err(fault) => item_target(index@, item.deep_view()) == Err::<
                Option<(OpenedView, FunctionView)>,
                FaultView,
            >(fault.deep_view()),
        },
{
    match open_file(index, item.path.as_str(), &None) {
        Err(QueryError::Unfollowed(fault)) => Err(fault),
        Err(_) => Ok(None),
        Ok(module) => match locate_function_target(
            &module,
            item.name.as_str(),
            Some(item.line),
            Some(item.col),
        ) {
            Ok(function) => {
                proof {
                    index.lemma_view_wf();
                    lemma_function_target(
                        index@,
                        module.deep_view(),
                        item.name@,
                        Some(item.line),
                        Some(item.col),
                    );
                }
                Ok(Some((module, function)))
            },
            Err(_) => Ok(None),
        },
    }
}

/// A function that a question is about has a key.
pub proof fn lemma_function_target(idx: IndexView, module: OpenedView, name: Text, line: Option<usize>, col: Option<usize>)
    requires
        idx.wf(),
        targets::opened(idx, module.name) == Ok::<OpenedView, QueryErrorView>(module),
    ensures
        targets::function_target(module, name, line, col) matches Ok(function) ==> callable_keys(
            idx,
        ).contains(model::callable_key_of(module.name, function)),
{
    targets::lemma_function_place(module.info.functions, name, line, col);
    if let Some(i) = targets::function_place(module.info.functions, name, line, col) {
        lemma_callable_key(idx, module, i);
    }
}

/// The rows of a function and the functions that it calls, or that call it.
pub(crate) fn build_call_render_node(
    index: &WorkspaceIndex,
    module: &Opened,
    function: &FunctionInfo,
    shown_path: &str,
    shown_line: usize,
    shown_col: usize,
    incoming: bool,
    visited: &mut FxHashSet<String>,
) -> (answer: Result<RenderNode, Fault>)
    requires
        index.wf(),
        callable_keys(index@).contains(
            model::callable_key_of(module.name@, function.deep_view()),
        ),
    ensures
        errors::follows(
            answer,
            call_row(
                index@,
                module.deep_view(),
                function.deep_view(),
                (Place { path: shown_path@, line: shown_line, col: shown_col }),
                incoming,
                names::names_of(*old(visited)),
            ),
        ),
        answer is Ok ==> names::names_of(*final(visited)) == names::names_of(*old(visited)),
    decreases off_calls(index@, names::names_of(*old(visited))), 0nat, 0nat,
{
    let ghost idx = index@;
    let ghost path = names::names_of(*visited);
    proof {
        index.lemma_view_wf();
    }
    let key = callable_key(module.name.as_str(), function);
    let home = module.info.path.as_str();
    let mut node = make_row(
        "call",
        function.name.as_str(),
        shown_path,
        shown_line,
        shown_col,
        home,
        function.line,
        function.col,
        module.external,
    );
    if !names_insert(visited, key.clone()) {
        assert(path.insert(key@) =~= path);
        mark_recursive(&mut node);
        return Ok(node);
    }
    proof {
        lemma_off_calls(idx, path, key@);
    }
    let ghost inner = path.insert(key@);
    assert(inner.remove(key@) =~= path);
    let edges = tree_edges(index, key.as_str(), incoming);
    let rows = match build_edge_rows(index, home, &edges, incoming, visited) {
        Err(fault) => {
            return Err(fault);
        },
        Ok(rows) => rows,
    };
    set_children(&mut node, render_sort_nodes(rows));
    names_remove(visited, key.as_str());
    Ok(node)
}

/// The rows of edges, one for each call.
fn build_edge_rows(index: &WorkspaceIndex, home: &str, edges: &Vec<CallHierarchyEdge>, incoming: bool, visited: &mut FxHashSet<String>) -> (answer: Result<Vec<RenderNode>, Fault>)
    requires
        index.wf(),
    ensures
        errors::follows(
            answer,
            edge_rows(
                index@,
                home@,
                edges.deep_view(),
                incoming,
                names::names_of(*old(visited)),
            ),
        ),
        answer is Ok ==> names::names_of(*final(visited)) == names::names_of(*old(visited)),
    decreases
        off_calls(index@, names::names_of(*old(visited))),
        2nat,
        edges.deep_view().len(),
{
    let ghost idx = index@;
    let ghost all = edges.deep_view();
    let ghost path = names::names_of(*visited);
    proof {
        index.lemma_view_wf();
    }
    let mut rows: Vec<RenderNode> = Vec::new();
    let mut i: usize = 0;
    assert(rows.deep_view() =~= Seq::empty());
    while i < edges.len()
        invariant
            i <= edges@.len(),
            index.wf(),
            idx == index@,
            idx.wf(),
            all == edges.deep_view(),
            path == names::names_of(*old(visited)),
            names::names_of(*visited) == path,
            edge_rows(idx, home@, all.take(i as int), incoming, path) == Ok::<
                Seq<RowView>,
                FaultView,
            >(rows.deep_view()),
        decreases edges@.len() - i,
    {
        let ghost before = rows.deep_view();
        assert(all.take(i as int + 1).drop_last() =~= all.take(i as int));
        assert(all.take(i as int + 1).last() == edges@[i as int].deep_view());
        let ranges = order_ranges(&edges[i].from_ranges);
        match build_range_rows(index, home, &edges[i].item, &ranges, incoming, visited) {
            Err(fault) => {
                proof {
                    lemma_edge_fault(idx, home@, all, i as int + 1, incoming, path);
                }
                return Err(fault);
            },
            Ok(made) => {
                let mut made = made;
                let ghost tail = made.deep_view();
                rows.append(&mut made);
                assert(rows.deep_view() =~= before + tail);
            },
        }
        i = i + 1;
    }
    assert(all.take(i as int) =~= all);
    Ok(rows)
}

/// The rows of the calls on one edge.
fn build_range_rows(index: &WorkspaceIndex, home: &str, item: &CallHierarchyItem, ranges: &Vec<SourceRange>, incoming: bool, visited: &mut FxHashSet<String>) -> (answer: Result<Vec<RenderNode>, Fault>)
    requires
        index.wf(),
    ensures
        errors::follows(
            answer,
            range_rows(
                index@,
                home@,
                item.deep_view(),
                ranges.deep_view(),
                incoming,
                names::names_of(*old(visited)),
            ),
        ),
        answer is Ok ==> names::names_of(*final(visited)) == names::names_of(*old(visited)),
    decreases
        off_calls(index@, names::names_of(*old(visited))),
        1nat,
        ranges.deep_view().len(),
{
    let ghost idx = index@;
    let ghost all = ranges.deep_view();
    let ghost viewed = item.deep_view();
    let ghost path = names::names_of(*visited);
    proof {
        index.lemma_view_wf();
    }
    let mut rows: Vec<RenderNode> = Vec::new();
    let mut i: usize = 0;
    assert(rows.deep_view() =~= Seq::empty());
    while i < ranges.len()
        invariant
            i <= ranges@.len(),
            index.wf(),
            idx == index@,
            idx.wf(),
            all == ranges.deep_view(),
            viewed == item.deep_view(),
            path == names::names_of(*old(visited)),
            names::names_of(*visited) == path,
            range_rows(idx, home@, viewed, all.take(i as int), incoming, path) == Ok::<
                Seq<RowView>,
                FaultView,
            >(rows.deep_view()),
        decreases ranges@.len() - i,
    {
        let ghost before = rows.deep_view();
        let range = ranges[i];
        assert(all.take(i as int + 1).drop_last() =~= all.take(i as int));
        assert(all.take(i as int + 1).last() == range);
        let shown_path = if incoming { item.path.as_str() } else { home };
        let node = match locate_call_target(index, item) {
            Err(fault) => {
                proof {
                    lemma_range_fault(idx, home@, viewed, all, i as int + 1, incoming, path);
                }
                return Err(fault);
            },
            Ok(Some((module, function))) => match build_call_render_node(
                index,
                &module,
                function,
                shown_path,
                range.start.line,
                range.start.col,
                incoming,
                visited,
            ) {
                Err(fault) => {
                    proof {
                        lemma_range_fault(idx, home@, viewed, all, i as int + 1, incoming, path);
                    }
                    return Err(fault);
                },
                Ok(node) => node,
            },
            Ok(None) => make_row(
                "call",
                item.name.as_str(),
                shown_path,
                range.start.line,
                range.start.col,
                item.path.as_str(),
                item.line,
                item.col,
                item.external,
            ),
        };
        let ghost made = node.deep_view();
        rows.push(node);
        assert(rows.deep_view() =~= before.push(made));
        i = i + 1;
    }
    assert(all.take(i as int) =~= all);
    Ok(rows)
}

/// A fault at one edge is the fault of all.
proof fn lemma_edge_fault(idx: IndexView, home: Text, edges: Seq<EdgeView>, n: int, incoming: bool, path: Set<Text>)
    requires
        idx.wf(),
        0 <= n <= edges.len(),
        edge_rows(idx, home, edges.take(n), incoming, path) is Err,
    ensures
        edge_rows(idx, home, edges, incoming, path) == edge_rows(
            idx,
            home,
            edges.take(n),
            incoming,
            path,
        ),
    decreases edges.len() - n,
{
    if n == edges.len() {
        assert(edges.take(n) =~= edges);
    } else {
        assert(edges.take(n + 1).drop_last() =~= edges.take(n));
        lemma_edge_fault(idx, home, edges, n + 1, incoming, path);
    }
}

/// A fault at one call is the fault of all.
proof fn lemma_range_fault(idx: IndexView, home: Text, item: CallItemView, ranges: Seq<SourceRange>, n: int, incoming: bool, path: Set<Text>)
    requires
        idx.wf(),
        0 <= n <= ranges.len(),
        range_rows(idx, home, item, ranges.take(n), incoming, path) is Err,
    ensures
        range_rows(idx, home, item, ranges, incoming, path) == range_rows(
            idx,
            home,
            item,
            ranges.take(n),
            incoming,
            path,
        ),
    decreases ranges.len() - n,
{
    if n == ranges.len() {
        assert(ranges.take(n) =~= ranges);
    } else {
        assert(ranges.take(n + 1).drop_last() =~= ranges.take(n));
        lemma_range_fault(idx, home, item, ranges, n + 1, incoming, path);
    }
}

} // verus!
