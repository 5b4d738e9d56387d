//! When answers are owed: where every name can be followed, every tree is there.
use vstd::prelude::*;

use crate::calltree;
use crate::errors::QueryErrorView;
use crate::hierarchy;
use crate::index;
use crate::index::IndexView;
use crate::model;
use crate::model::BaseView;
use crate::model::CallItemView;
use crate::model::ClassView;
use crate::model::EdgeView;
use crate::model::FieldView;
use crate::model::FunctionView;
use crate::model::ModuleView;
use crate::model::SourceRange;
use crate::paths;
use crate::render;
use crate::render::Place;
use crate::resolve;
use crate::showing;
use crate::sorting;
use crate::targets;
use crate::targets::OpenedView;
use crate::text::Text;
use crate::tracing;
use crate::typeshed;
use crate::typeshed::SnapshotPlanView;
use crate::typeshed::SnapshotView;

verus! {

/// Whether a base or a type can be followed: it leads to nothing, or to a module of which it is known
/// what it is or that there is none.
pub open spec fn is_followed(idx: IndexView, info: ModuleView, raw: Text) -> bool {
    match resolve::base_in(idx, info, raw) {
        Err(_) => false,
        Ok(BaseView::Workspace { module, .. }) => !(idx.lookup(module) is Unknown),
        Ok(BaseView::External { module, .. }) => !(idx.lookup(module) is Unknown),
        Ok(BaseView::Unresolved { .. }) => true,
    }
}

/// Whether the bases of a class and the types of its fields can be followed.
pub open spec fn class_is_followed(idx: IndexView, info: ModuleView, class: ClassView) -> bool {
    &&& forall|b: int| 0 <= b < class.bases.len() ==> is_followed(idx, info, #[trigger] class.bases[b])
    &&& forall|f: int|
        0 <= f < class.fields.len() ==> ((#[trigger] class.fields[f]).type_ref matches Some(raw) ==> is_followed(
            idx,
            info,
            raw,
        ))
}

/// Whether all classes at hand can be followed, and it is known whether there are builtins.
pub open spec fn all_followed(idx: IndexView) -> bool {
    &&& !(idx.lookup("builtins"@) is Unknown)
    &&& forall|m: Text, c: Text|
        (#[trigger] showing::class_there(idx, m, c)) matches Some((info, class)) ==> class_is_followed(idx, info, class)
}

proof fn lemma_fields(idx: IndexView, info: ModuleView, fields: Seq<FieldView>)
    requires
        forall|f: int|
            0 <= f < fields.len() ==> ((#[trigger] fields[f]).type_ref matches Some(raw) ==> is_followed(idx, info, raw)),
    ensures
        render::field_rows(idx, info, fields) is Ok,
    decreases fields.len(),
{
    if fields.len() > 0 {
        let front = fields.drop_last();
        assert forall|f: int| 0 <= f < front.len() implies ((#[trigger] front[f]).type_ref matches Some(raw)
            ==> is_followed(idx, info, raw)) by {
            assert(front[f] == fields[f]);
        }
        lemma_fields(idx, info, front);
        assert(fields[fields.len() - 1].type_ref matches Some(raw) ==> is_followed(idx, info, raw));
        assert(render::field_row(idx, info, fields.last()) is Ok);
    }
}

/// Where all names can be followed, there is a tree of supertypes for every class at hand.
pub proof fn law_supertype_trees_are_owed(idx: IndexView, module: Text, class: Text, path: Set<Text>)
    requires
        idx.wf(),
        all_followed(idx),
        !(idx.lookup(module) is Unknown),
    ensures
        showing::class_there(idx, module, class) is Some ==> render::super_row(idx, module, class, path) is Ok,
        render::super_row(idx, module, class, path) matches Err(error) ==> !(error is Unfollowed),
    decreases hierarchy::off_path(idx, path), 0nat, 0nat,
{
    let key = model::class_key_of(module, class);
    let inner = path.insert(key);
    index::lemma_lookup(idx, module);
    if let Some((info, found)) = showing::class_there(idx, module, class) {
        if !path.contains(key) {
            assert(class_is_followed(idx, info, found));
            hierarchy::lemma_off_path(idx, path, module, class);
            lemma_fields(idx, info, found.fields);
            lemma_bases(idx, info, found.bases, inner);
            law_supertype_trees_are_owed(idx, "builtins"@, "object"@, inner);
        }
    }
}

proof fn lemma_bases(idx: IndexView, info: ModuleView, bases: Seq<Text>, path: Set<Text>)
    requires
        idx.wf(),
        all_followed(idx),
        forall|b: int| 0 <= b < bases.len() ==> is_followed(idx, info, #[trigger] bases[b]),
    ensures
        render::super_rows(idx, info, bases, path) is Ok,
    decreases hierarchy::off_path(idx, path), 1nat, bases.len(),
{
    if bases.len() > 0 {
        let front = bases.drop_last();
        assert forall|b: int| 0 <= b < front.len() implies is_followed(idx, info, #[trigger] front[b]) by {
            assert(front[b] == bases[b]);
        }
        lemma_bases(idx, info, front, path);
        assert(is_followed(idx, info, bases[bases.len() - 1]));
        match resolve::base_in(idx, info, bases.last()) {
            Ok(BaseView::Workspace { module, class_name, .. }) => {
                law_supertype_trees_are_owed(idx, module, class_name, path);
            },
            Ok(BaseView::External { module, class_name, .. }) => {
                law_supertype_trees_are_owed(idx, module, class_name, path);
            },
            _ => {},
        }
    }
}

/// Where all names can be followed, there is a tree of subtypes for every class at hand, whatever the
/// depths asked for.
pub proof fn law_subtype_trees_are_owed(idx: IndexView, module: Text, class: Text, path: Set<Text>, depth: Option<usize>, member_depth: Option<usize>)
    requires
        idx.wf(),
        all_followed(idx),
        showing::class_there(idx, module, class) is Some,
    ensures
        render::sub_row(idx, module, class, path, depth, member_depth) is Ok,
    decreases hierarchy::off_path(idx, path), 0nat, 0nat,
{
    let key = model::class_key_of(module, class);
    let inner = path.insert(key);
    index::lemma_lookup(idx, module);
    let (info, found) = showing::class_there(idx, module, class)->0;
    if !path.contains(key) {
        let below = render::direct_subtypes(idx, module, class);
        assert(class_is_followed(idx, info, found));
        hierarchy::lemma_off_path(idx, path, module, class);
        lemma_fields(idx, info, found.fields);
        showing::lemma_direct_subtypes(idx, module, class);
        lemma_heirs(idx, below, inner, render::less_deep(depth), render::less_deep(member_depth));
    }
}

proof fn lemma_heirs(idx: IndexView, below: Seq<(Text, ClassView)>, path: Set<Text>, depth: Option<usize>, member_depth: Option<usize>)
    requires
        idx.wf(),
        all_followed(idx),
        forall|k: int| 0 <= k < below.len() ==> showing::is_heir(idx, ((#[trigger] below[k]).0, below[k].1.name)),
    ensures
        render::sub_rows(idx, below, path, depth, member_depth) is Ok,
    decreases hierarchy::off_path(idx, path), 1nat, below.len(),
{
    if below.len() > 0 {
        let front = below.drop_last();
        let (module, class) = below.last();
        assert forall|k: int| 0 <= k < front.len() implies showing::is_heir(
            idx,
            ((#[trigger] front[k]).0, front[k].1.name),
        ) by {
            assert(front[k] == below[k]);
        }
        assert(showing::is_heir(idx, (below[below.len() - 1].0, below[below.len() - 1].1.name)));
        lemma_heirs(idx, front, path, depth, member_depth);
        law_subtype_trees_are_owed(idx, module, class.name, path, depth, member_depth);
    }
}

/// Where all names can be followed, there is a hierarchy for every class at hand, and the reason why
/// there is none for another class is that it is missing.
pub proof fn law_hierarchies_are_owed(idx: IndexView, module: Text, class: Text, display: Text, path: Set<Text>, failed: Set<Text>)
    requires
        idx.wf(),
        all_followed(idx),
        !(idx.lookup(module) is Unknown),
    ensures
        showing::class_there(idx, module, class) is Some ==> hierarchy::class_node(
            idx,
            module,
            class,
            display,
            path,
            failed,
        ).0 is Ok,
        hierarchy::class_node(idx, module, class, display, path, failed).0 matches Err(error) ==> !(error is Unfollowed),
    decreases hierarchy::off_path(idx, path), 0nat, 0nat,
{
    let key = model::class_key_of(module, class);
    let inner = path.insert(key);
    index::lemma_lookup(idx, module);
    if let Some((info, found)) = showing::class_there(idx, module, class) {
        if !path.contains(key) && !failed.contains(key) {
            assert(class_is_followed(idx, info, found));
            hierarchy::lemma_off_path(idx, path, module, class);
            lemma_base_nodes(idx, module, found.bases, inner, failed);
            let after = hierarchy::base_nodes(idx, info, found.bases, inner, failed).1;
            law_hierarchies_are_owed(idx, "builtins"@, "object"@, "object"@, inner, after);
        }
    }
}

proof fn lemma_base_nodes(idx: IndexView, name: Text, bases: Seq<Text>, path: Set<Text>, failed: Set<Text>)
    requires
        idx.wf(),
        all_followed(idx),
        idx.lookup(name) is Known,
        forall|b: int| 0 <= b < bases.len() ==> is_followed(idx, idx.module(name), #[trigger] bases[b]),
    ensures
        hierarchy::base_nodes(idx, idx.module(name), bases, path, failed).0 is Ok,
    decreases hierarchy::off_path(idx, path), 1nat, bases.len(),
{
    if bases.len() > 0 {
        let info = idx.module(name);
        let front = bases.drop_last();
        assert forall|b: int| 0 <= b < front.len() implies is_followed(idx, info, #[trigger] front[b]) by {
            assert(front[b] == bases[b]);
        }
        lemma_base_nodes(idx, name, front, path, failed);
        assert(is_followed(idx, info, bases[bases.len() - 1]));
        resolve::lemma_workspace_bases_are_there(idx, name, bases.last());
        let held = hierarchy::base_nodes(idx, info, front, path, failed).1;
        match resolve::base_in(idx, info, bases.last()) {
            Ok(BaseView::Workspace { module, class_name, display }) => {
                index::lemma_lookup(idx, module);
                law_hierarchies_are_owed(idx, module, class_name, display, path, held);
            },
            Ok(BaseView::External { module, class_name, display }) => {
                law_hierarchies_are_owed(idx, module, class_name, display, path, held);
            },
            _ => {},
        }
    }
}

/// Whether it is known of the file of an item what module is in it, or that there is none.
pub open spec fn item_is_followed(idx: IndexView, item: CallItemView) -> bool {
    !(targets::module_in(idx, item.path, None) matches Err(QueryErrorView::Unfollowed(_)))
}

/// Whether that is known of all items that the tables of calls show.
pub open spec fn all_items_followed(idx: IndexView, incoming: bool) -> bool {
    forall|key: Text, e: int|
        0 <= e < tracing::edges_listed(idx, key, incoming).len() ==> item_is_followed(
            idx,
            (#[trigger] tracing::edges_listed(idx, key, incoming)[e]).1.item,
        )
}

/// Where it is known of the file of each function in the tables what is in it, there is a tree of calls
/// for every function.
pub proof fn law_call_trees_are_owed(idx: IndexView, module: OpenedView, function: FunctionView, shown: Place, incoming: bool, path: Set<Text>)
    requires
        idx.wf(),
        all_items_followed(idx, incoming),
        calltree::callable_keys(idx).contains(model::callable_key_of(module.name, function)),
    ensures
        calltree::call_row(idx, module, function, shown, incoming, path) is Ok,
    decreases calltree::off_calls(idx, path), 0nat, 0nat,
{
    let key = model::callable_key_of(module.name, function);
    if !path.contains(key) {
        let by_name = |edge: EdgeView| calltree::named_edge_key(edge);
        let listed = tracing::edges_listed(idx, key, incoming);
        let found = calltree::edges_for(idx, key, incoming);
        let edges = sorting::sorted(found, by_name);
        assert(found =~= listed.map_values(|edge: (Text, EdgeView)| edge.1));
        assert forall|e: int| 0 <= e < edges.len() implies item_is_followed(idx, (#[trigger] edges[e]).item) by {
            assert(edges.contains(edges[e]));
            sorting::lemma_sorted_contains(found, by_name, edges[e]);
            let k = found.index_of(edges[e]);
            assert(tracing::edges_listed(idx, key, incoming)[k].1 == edges[e]);
        }
        calltree::lemma_off_calls(idx, path, key);
        lemma_edges(idx, module.info.path, edges, incoming, path.insert(key));
    }
}

proof fn lemma_edges(idx: IndexView, home: Text, edges: Seq<EdgeView>, incoming: bool, path: Set<Text>)
    requires
        idx.wf(),
        all_items_followed(idx, incoming),
        forall|e: int| 0 <= e < edges.len() ==> item_is_followed(idx, (#[trigger] edges[e]).item),
    ensures
        calltree::edge_rows(idx, home, edges, incoming, path) is Ok,
    decreases calltree::off_calls(idx, path), 2nat, edges.len(),
{
    if edges.len() > 0 {
        let front = edges.drop_last();
        let last = edges.last();
        assert forall|e: int| 0 <= e < front.len() implies item_is_followed(idx, (#[trigger] front[e]).item) by {
            assert(front[e] == edges[e]);
        }
        assert(item_is_followed(idx, edges[edges.len() - 1].item));
        lemma_edges(idx, home, front, incoming, path);
        let ranges = sorting::sorted(last.from_ranges, |range: SourceRange| calltree::range_key(range));
        lemma_ranges(idx, home, last.item, ranges, incoming, path);
    }
}

proof fn lemma_ranges(idx: IndexView, home: Text, item: CallItemView, ranges: Seq<SourceRange>, incoming: bool, path: Set<Text>)
    requires
        idx.wf(),
        all_items_followed(idx, incoming),
        item_is_followed(idx, item),
    ensures
        calltree::range_rows(idx, home, item, ranges, incoming, path) is Ok,
    decreases calltree::off_calls(idx, path), 1nat, ranges.len(),
{
    if ranges.len() > 0 {
        let shown = calltree::call_place(home, item, ranges.last(), incoming);
        lemma_ranges(idx, home, item, ranges.drop_last(), incoming, path);
        if let Some((module, function)) = tracing::function_behind(idx, item) {
            index::lemma_lookup(idx, module.name);
            calltree::lemma_function_target(idx, module, item.name, Some(item.line), Some(item.col));
            law_call_trees_are_owed(idx, module, function, shown, incoming, path);
        }
    }
}

/// The newest snapshot that there is gets used, and its commit is the name of the directory that it
/// was put into; where there is none, one is fetched.
pub proof fn law_the_newest_snapshot_is_used(cache_root: Text, sha: Text, older: Seq<Text>)
    requires
        paths::is_segment(sha),
        sha != ".."@,
    ensures
        typeshed::snapshot_plan(seq![typeshed::stdlib_of(cache_root, sha)] + older) == SnapshotPlanView::Use(
            SnapshotView { sha, stdlib_root: typeshed::stdlib_of(cache_root, sha) },
        ),
        typeshed::snapshot_plan(Seq::empty()) == SnapshotPlanView::Sync,
{
    reveal_strlit("stdlib");
    reveal_strlit(".");
    let parts = seq![sha, "stdlib"@];
    assert(parts.drop_last() =~= seq![sha]);
    assert(seq![sha].drop_last() =~= Seq::<Text>::empty());
    reveal_with_fuel(paths::path_below, 3);
    assert(paths::path_below(cache_root, parts) == typeshed::stdlib_of(cache_root, sha));
    assert(paths::are_segments(parts)) by {
        assert(!"stdlib"@.contains('/'));
        assert("stdlib"@ != "."@);
    }
    paths::law_paths_below_keep_their_segments(cache_root, parts);
    let all = paths::segments(typeshed::stdlib_of(cache_root, sha));
    assert(all == paths::segments(cache_root) + parts);
    assert(all[all.len() - 2] == sha);
}

} // verus!
