//! What the answers hold: which class or function a question is about, and all that belongs to it.
use vstd::prelude::*;

use crate::ancestry;
use crate::callables;
use crate::calltree;
use crate::errors::QueryErrorView;
use crate::index;
use crate::index::IndexView;
use crate::index::Lookup;
use crate::model;
use crate::model::CallView;
use crate::model::ClassView;
use crate::model::EdgeView;
use crate::model::FunctionView;
use crate::model::HierarchyItemView;
use crate::model::ModuleView;
use crate::model::ReferenceView;
use crate::model::SourceRange;
use crate::paths;
use crate::queries;
use crate::render;
use crate::showing;
use crate::sorting;
use crate::targets;
use crate::targets::OpenedView;
use crate::text::Text;
use crate::tracing;

verus! {

/// Whether a module is the one of its name, as it is at hand.
pub open spec fn is_at_hand(idx: IndexView, module: OpenedView) -> bool {
    idx.lookup(module.name) == (Lookup::Known { module: module.info, external: module.external })
}

/// Whether a class is the one that a question names: the last class of that name in the module, or its
/// first class where no name is given.
pub open spec fn is_asked_for(info: ModuleView, name: Text, class: ClassView) -> bool {
    if name.len() == 0 {
        info.classes.len() > 0 && class == info.classes[0]
    } else {
        exists|i: int|
            0 <= i < info.classes.len() && class == #[trigger] info.classes[i] && class.name == name && forall|k: int|
                i < k < info.classes.len() ==> (#[trigger] info.classes[k]).name != name
    }
}

/// A question about a class is about the class that it names, and fails only where there is none.
pub proof fn law_classes_are_picked_by_name(module: OpenedView, name: Text)
    ensures
        match targets::class_target(module, name) {
            Ok(class) => is_asked_for(module.info, name, class),
            Err(_) => if name.len() == 0 {
                module.info.classes.len() == 0
            } else {
                forall|i: int| 0 <= i < module.info.classes.len() ==> (#[trigger] module.info.classes[i]).name != name
            },
        },
{
    model::lemma_class_slot(module.info.classes, name);
    if name.len() > 0 {
        if let Some(slot) = model::class_slot(module.info.classes, name) {
            assert(module.info.classes[slot].name == name);
            lemma_last_slot(module.info.classes, name);
        }
    }
}

proof fn lemma_last_slot(classes: Seq<ClassView>, name: Text)
    ensures
        model::class_slot(classes, name) matches Some(slot) ==> forall|k: int|
            slot < k < classes.len() ==> (#[trigger] classes[k]).name != name,
    decreases classes.len(),
{
    model::lemma_class_slot(classes, name);
    if classes.len() > 0 && classes.last().name != name {
        lemma_last_slot(classes.drop_last(), name);
        if let Some(slot) = model::class_slot(classes, name) {
            assert forall|k: int| slot < k < classes.len() implies (#[trigger] classes[k]).name != name by {
                if k < classes.len() - 1 {
                    assert(classes.drop_last()[k] == classes[k]);
                }
            }
        }
    }
}

/// Whether function `i` is the one that a question names: the first one at the position given, where
/// there is one, else the first one of the name given.
pub open spec fn is_pointed_at(functions: Seq<FunctionView>, name: Text, line: Option<usize>, col: Option<usize>, i: int) -> bool {
    let at = |k: int| line == Some(functions[k].line) && col == Some(functions[k].col);
    &&& 0 <= i < functions.len()
    &&& at(i) || functions[i].name == name
    &&& at(i) ==> forall|k: int| 0 <= k < i ==> !#[trigger] at(k)
    &&& !at(i) ==> {
        &&& forall|k: int| 0 <= k < functions.len() ==> !#[trigger] at(k)
        &&& forall|k: int| 0 <= k < i ==> (#[trigger] functions[k]).name != name
    }
}

/// A question about a function is about the function at the position that it gives, else about the
/// one that it names, and fails only where there is neither.
pub proof fn law_functions_are_picked_by_position(module: OpenedView, name: Text, line: Option<usize>, col: Option<usize>)
    ensures
        match targets::function_target(module, name, line, col) {
            Ok(function) => exists|i: int|
                is_pointed_at(module.info.functions, name, line, col, i) && function == #[trigger] module.info.functions[i],
            Err(_) => forall|i: int|
                0 <= i < module.info.functions.len() ==> (#[trigger] module.info.functions[i]).name != name && !(line
                    == Some(module.info.functions[i].line) && col == Some(module.info.functions[i].col)),
        },
{
    let functions = module.info.functions;
    targets::lemma_function_named(functions, name);
    if let (Some(l), Some(c)) = (line, col) {
        targets::lemma_function_at(functions, l, c);
    }
    if let Some(i) = targets::function_place(functions, name, line, col) {
        assert(functions[i] == module.info.functions[i]);
        let at = |k: int| line == Some(functions[k].line) && col == Some(functions[k].col);
        if at(i) {
            assert forall|k: int| 0 <= k < i implies !#[trigger] at(k) by {
                if at(k) {
                    assert(functions[k].line == line->0 && functions[k].col == col->0);
                }
            }
        } else {
            assert forall|k: int| 0 <= k < functions.len() implies !#[trigger] at(k) by {
                if at(k) {
                    assert(functions[k].line == line->0 && functions[k].col == col->0);
                }
            }
        }
        assert(is_pointed_at(functions, name, line, col, i));
    }
}

proof fn lemma_opened(idx: IndexView, file: Text, canonical: Option<Text>)
    requires
        idx.wf(),
    ensures
        targets::module_in(idx, file, canonical) matches Ok(module) ==> is_at_hand(idx, module) && targets::opened(
            idx,
            module.name,
        ) == Ok::<OpenedView, QueryErrorView>(module),
{
}

/// The tree of supertypes asked for is that of the class in the file.
pub proof fn law_supertype_trees_answer_the_question(idx: IndexView, file: Text, canonical: Option<Text>, name: Text)
    requires
        idx.wf(),
    ensures
        queries::supertypes_tree(idx, file, canonical, name) matches Ok(row) ==> exists|module: OpenedView, class: ClassView|
            targets::module_in(idx, file, canonical) == Ok::<OpenedView, QueryErrorView>(module) && is_asked_for(
                module.info,
                name,
                class,
            ) && #[trigger] showing::shows_supertypes(idx, row, module.name, class.name, Set::empty()),
        queries::supertypes_tree(idx, file, canonical, name) matches Err(error) ==> error is Unfollowed
            || targets::module_in(idx, file, canonical) is Err || (targets::module_in(idx, file, canonical) matches Ok(
            module,
        ) && targets::class_target(module, name) is Err),
{
    lemma_opened(idx, file, canonical);
    if let Ok(module) = targets::module_in(idx, file, canonical) {
        law_classes_are_picked_by_name(module, name);
        if let Ok(class) = targets::class_target(module, name) {
            showing::law_supertypes_are_all_shown(idx, module.name, class.name, Set::empty());
            lemma_class_there(idx, module, name, class);
        }
    }
}

proof fn lemma_class_there(idx: IndexView, module: OpenedView, name: Text, class: ClassView)
    requires
        is_at_hand(idx, module),
        targets::class_target(module, name) == Ok::<ClassView, QueryErrorView>(class),
    ensures
        showing::class_there(idx, module.name, class.name) is Some,
{
    model::lemma_class_slot(module.info.classes, name);
    model::lemma_class_slot(module.info.classes, class.name);
    if name.len() == 0 {
        assert(module.info.classes[0].name == class.name);
    }
}

/// The tree of subtypes asked for is that of the class in the file, down to the depths asked for, and
/// whole where no depth is asked for.
pub proof fn law_subtype_trees_answer_the_question(idx: IndexView, file: Text, canonical: Option<Text>, name: Text, depth: Option<usize>, member_depth: Option<usize>)
    requires
        idx.wf(),
    ensures
        queries::subtypes_tree(idx, file, canonical, name, depth, member_depth) matches Ok(row) ==> exists|
            module: OpenedView,
            class: ClassView,
        |
            targets::module_in(idx, file, canonical) == Ok::<OpenedView, QueryErrorView>(module) && is_asked_for(
                module.info,
                name,
                class,
            ) && #[trigger] showing::shows_subtypes(
                idx,
                row,
                module.name,
                class.name,
                Set::empty(),
                showing::levels_of(depth),
                showing::levels_of(member_depth),
            ),
        queries::subtypes_tree(idx, file, canonical, name, None, None) matches Ok(row) ==> showing::is_whole(row),
        queries::subtypes_tree(idx, file, canonical, name, depth, member_depth) matches Err(error) ==> error is Unfollowed
            || targets::module_in(idx, file, canonical) is Err || (targets::module_in(idx, file, canonical) matches Ok(
            module,
        ) && targets::class_target(module, name) is Err),
{
    lemma_opened(idx, file, canonical);
    if let Ok(module) = targets::module_in(idx, file, canonical) {
        law_classes_are_picked_by_name(module, name);
        if let Ok(class) = targets::class_target(module, name) {
            showing::law_subtypes_are_all_shown(
                idx,
                module.name,
                class.name,
                Set::empty(),
                depth,
                member_depth,
            );
            showing::law_subtypes_are_all_shown(idx, module.name, class.name, Set::empty(), None, None);
            lemma_class_there(idx, module, name, class);
            if let Ok(row) = queries::subtypes_tree(idx, file, canonical, name, None, None) {
                showing::law_unlimited_trees_are_whole(idx, row, module.name, class.name, Set::empty());
            }
        }
    }
}

/// The tree of calls asked for is that of the function in the file. Its root stands where the function
/// does.
pub proof fn law_call_trees_answer_the_question(idx: IndexView, file: Text, canonical: Option<Text>, name: Text, line: Option<usize>, col: Option<usize>, incoming: bool)
    requires
        idx.wf(),
    ensures
        queries::calls_tree(idx, file, canonical, name, line, col, incoming) matches Ok(row) ==> exists|
            module: OpenedView,
            i: int,
        |
            targets::module_in(idx, file, canonical) == Ok::<OpenedView, QueryErrorView>(module) && is_pointed_at(
                module.info.functions,
                name,
                line,
                col,
                i,
            ) && showing::stands_at(
                row,
                module.info.path,
                module.info.functions[i].line,
                module.info.functions[i].col,
            ) && #[trigger] tracing::shows_calls(
                idx,
                row,
                module,
                module.info.functions[i],
                incoming,
                Set::empty(),
            ),
{
    lemma_opened(idx, file, canonical);
    if let Ok(module) = targets::module_in(idx, file, canonical) {
        law_functions_are_picked_by_position(module, name, line, col);
        if let Ok(function) = targets::function_target(module, name, line, col) {
            let at = render::Place { path: module.info.path, line: function.line, col: function.col };
            calltree::lemma_function_target(idx, module, name, line, col);
            tracing::law_calls_are_all_shown(idx, module, function, at, incoming, Set::empty());
            if let Ok(row) = queries::calls_tree(idx, file, canonical, name, line, col, incoming) {
                tracing::lemma_leads_to(idx, row, module, function, incoming, Set::empty());
                let i = choose|i: int|
                    is_pointed_at(module.info.functions, name, line, col, i) && function
                        == #[trigger] module.info.functions[i];
                assert(tracing::shows_calls(
                    idx,
                    row,
                    module,
                    module.info.functions[i],
                    incoming,
                    Set::empty(),
                ));
            }
        }
    }
}

/// The hierarchy asked for is that of the class in the file.
pub proof fn law_hierarchies_answer_the_question(idx: IndexView, file: Text, canonical: Option<Text>, name: Text)
    requires
        idx.wf(),
        ancestry::keys_are_telling(idx),
    ensures
        queries::type_hierarchy(idx, file, canonical, name) matches Ok(answer) ==> {
            &&& answer.file == file
            &&& exists|module: OpenedView| #[trigger]
                is_at_hand(idx, module) && targets::module_in(idx, file, canonical) == Ok::<
                    OpenedView,
                    QueryErrorView,
                >(module) && ancestry::holds_named(
                    idx,
                    answer.hierarchy,
                    module.name,
                    answer.class_name,
                    answer.class_name,
                    Set::empty(),
                ) && if name.len() == 0 {
                    module.info.classes.len() > 0 && answer.class_name == module.info.classes[0].name
                } else {
                    answer.class_name == name
                } && showing::class_there(idx, module.name, answer.class_name) is Some
        },
{
    lemma_opened(idx, file, canonical);
    if let Ok(module) = targets::module_in(idx, file, canonical) {
        if let Ok(wanted) = queries::hierarchy_class(module, name) {
            ancestry::law_hierarchies_hold_every_base(
                idx,
                module.name,
                wanted,
                wanted,
                Set::empty(),
                Set::empty(),
            );
            assert(is_at_hand(idx, module));
        }
    }
}

/// Whether an item of a list stands for a class of the workspace.
pub open spec fn is_item_of(idx: IndexView, item: HierarchyItemView, heir: (Text, Text)) -> bool {
    let info = idx.workspace[heir.0];
    info.class_named(heir.1) matches Some(class) && {
        &&& item.name == class.name
        &&& item.path == info.path
        &&& item.line == class.line
        &&& item.col == class.col
        &&& !item.external
    }
}

/// Whether positions in files stand in order: by file, then line, then column.
pub open spec fn in_file_order(a: (Text, usize, usize), b: (Text, usize, usize)) -> bool {
    if paths::plain(a.0) != paths::plain(b.0) {
        sorting::components_le(paths::components(a.0), paths::components(b.0))
    } else if a.1 != b.1 {
        a.1 < b.1
    } else {
        a.2 <= b.2
    }
}

proof fn lemma_file_order(a: (Text, usize, usize), b: (Text, usize, usize))
    ensures
        sorting::key_le(
            paths::order_key(a.0).push(0).push(a.1 as u64).push(a.2 as u64),
            paths::order_key(b.0).push(0).push(b.1 as u64).push(b.2 as u64),
        ) == in_file_order(a, b),
{
    let x = seq![a.1 as u64, a.2 as u64];
    let y = seq![b.1 as u64, b.2 as u64];
    assert(paths::order_key(a.0).push(0).push(a.1 as u64).push(a.2 as u64) =~= paths::order_key(a.0).push(0) + x);
    assert(paths::order_key(b.0).push(0).push(b.1 as u64).push(b.2 as u64) =~= paths::order_key(b.0).push(0) + y);
    sorting::lemma_path_keys_are_positive(paths::components(a.0));
    sorting::lemma_path_keys_are_positive(paths::components(b.0));
    sorting::law_first_part_decides(paths::order_key(a.0), paths::order_key(b.0), x, y);
    paths::law_path_keys_tell_paths_apart(a.0, b.0);
    paths::law_paths_are_ordered_by_components(a.0, b.0);
    reveal_with_fuel(sorting::key_le, 4);
    assert(x.drop_first() =~= seq![a.2 as u64]);
    assert(y.drop_first() =~= seq![b.2 as u64]);
    assert(x.drop_first().drop_first() =~= Seq::<u64>::empty());
    assert(y.drop_first().drop_first() =~= Seq::<u64>::empty());
}

/// Whether items stand for each of the classes listed that is a class of the workspace.
#[verifier::opaque]
pub open spec fn lists_heirs(idx: IndexView, listed: Seq<(Text, Text)>, items: Seq<HierarchyItemView>) -> bool {
    forall|h: int|
        0 <= h < listed.len() && showing::is_heir(idx, #[trigger] listed[h]) ==> exists|k: int|
            0 <= k < items.len() && is_item_of(idx, #[trigger] items[k], listed[h])
}

/// Whether items stand for classes listed that are classes of the workspace, and for nothing else.
#[verifier::opaque]
pub open spec fn lists_only_heirs(idx: IndexView, listed: Seq<(Text, Text)>, items: Seq<HierarchyItemView>) -> bool {
    forall|k: int|
        0 <= k < items.len() ==> exists|h: int|
            0 <= h < listed.len() && showing::is_heir(idx, #[trigger] listed[h]) && is_item_of(
                idx,
                #[trigger] items[k],
                listed[h],
            )
}

/// Whether items stand in the order of their places.
#[verifier::opaque]
pub open spec fn is_in_file_order(items: Seq<HierarchyItemView>) -> bool {
    forall|k: int, l: int|
        0 <= k <= l < items.len() ==> in_file_order(
            ((#[trigger] items[k]).path, items[k].line, items[k].col),
            ((#[trigger] items[l]).path, items[l].line, items[l].col),
        )
}

/// The list of subtypes of a class holds an item for each class of the workspace that is listed as
/// inheriting from it, no others, and in the order of their places.
pub proof fn law_subtypes_are_all_listed(idx: IndexView, file: Text, canonical: Option<Text>, name: Text)
    requires
        idx.wf(),
    ensures
        queries::subtypes(idx, file, canonical, name) matches Ok(items) ==> exists|module: OpenedView, class: ClassView| {
            let listed = #[trigger] showing::heirs(idx, module.name, class.name);
            &&& targets::module_in(idx, file, canonical) == Ok::<OpenedView, QueryErrorView>(module)
            &&& is_asked_for(module.info, name, class)
            &&& items.len() == showing::heirs_at_hand(idx, listed)
            &&& lists_heirs(idx, listed, items)
            &&& lists_only_heirs(idx, listed, items)
            &&& is_in_file_order(items)
        },
        queries::subtypes(idx, file, canonical, name) is Err ==> targets::module_in(idx, file, canonical) is Err || (
        targets::module_in(idx, file, canonical) matches Ok(module) && targets::class_target(module, name) is Err),
{
    lemma_opened(idx, file, canonical);
    if let Ok(module) = targets::module_in(idx, file, canonical) {
        law_classes_are_picked_by_name(module, name);
        if let Ok(class) = targets::class_target(module, name) {
            lemma_items(idx, module.name, class.name);
            assert(showing::heirs(idx, module.name, class.name) == render::listed_subtypes(
                idx,
                module.name,
                class.name,
            ));
        }
    }
}

proof fn lemma_items(idx: IndexView, module: Text, class: Text)
    ensures
        ({
            let listed = showing::heirs(idx, module, class);
            let items = sorting::sorted(
                queries::subtype_items(idx, render::listed_classes(idx, listed)),
                |item: HierarchyItemView| queries::item_key(item),
            );
            &&& items.len() == showing::heirs_at_hand(idx, listed)
            &&& lists_heirs(idx, listed, items)
            &&& lists_only_heirs(idx, listed, items)
            &&& is_in_file_order(items)
        }),
{
    let listed = showing::heirs(idx, module, class);
    let found = render::listed_classes(idx, listed);
    let made = queries::subtype_items(idx, found);
    let key = |item: HierarchyItemView| queries::item_key(item);
    let items = sorting::sorted(made, key);
    showing::lemma_listed(idx, listed);
    sorting::law_sorted_is_an_ordered_rearrangement(made, key);
    assert(lists_heirs(idx, listed, items)) by {
        reveal(lists_heirs);
        assert forall|h: int| 0 <= h < listed.len() && showing::is_heir(idx, #[trigger] listed[h]) implies exists|k: int|
            0 <= k < items.len() && is_item_of(idx, #[trigger] items[k], listed[h]) by {
            let x = (listed[h].0, idx.workspace[listed[h].0].class_named(listed[h].1)->0);
            let m = found.index_of(x);
            assert(found.contains(x));
            assert(made.contains(made[m]));
            sorting::lemma_sorted_contains(made, key, made[m]);
            let k = items.index_of(made[m]);
            assert(items[k] == made[m]);
        }
    }
    assert(lists_only_heirs(idx, listed, items)) by {
        reveal(lists_only_heirs);
        assert forall|k: int| 0 <= k < items.len() implies exists|h: int|
            0 <= h < listed.len() && showing::is_heir(idx, #[trigger] listed[h]) && is_item_of(
                idx,
                #[trigger] items[k],
                listed[h],
            ) by {
            assert(items.contains(items[k]));
            sorting::lemma_sorted_contains(made, key, items[k]);
            let m = made.index_of(items[k]);
            assert(found.contains(found[m]));
            let heir = (found[m].0, found[m].1.name);
            let h = listed.index_of(heir);
            assert(listed[h] == heir);
            lemma_listed_class(idx, listed, m);
        }
    }
    assert(is_in_file_order(items)) by {
        reveal(is_in_file_order);
        assert forall|k: int, l: int| 0 <= k <= l < items.len() implies in_file_order(
            ((#[trigger] items[k]).path, items[k].line, items[k].col),
            ((#[trigger] items[l]).path, items[l].line, items[l].col),
        ) by {
            assert(sorting::key_le(key(items[k]), key(items[l])));
            lemma_file_order(
                (items[k].path, items[k].line, items[k].col),
                (items[l].path, items[l].line, items[l].col),
            );
        }
    }
}

proof fn lemma_listed_class(idx: IndexView, listed: Seq<(Text, Text)>, m: int)
    requires
        0 <= m < render::listed_classes(idx, listed).len(),
    ensures
        ({
            let (module, class) = render::listed_classes(idx, listed)[m];
            idx.workspace.contains_key(module) && idx.workspace[module].class_named(class.name) == Some(class)
        }),
    decreases listed.len(),
{
    if listed.len() > 0 {
        let front = listed.drop_last();
        let last = listed.last();
        if m < render::listed_classes(idx, front).len() {
            lemma_listed_class(idx, front, m);
        } else {
            model::lemma_class_slot(idx.workspace[last.0].classes, last.1);
        }
    }
}

/// The list of the calls of a function holds each edge listed for it, no others, and in the order of
/// their places.
pub proof fn law_calls_are_all_listed(idx: IndexView, file: Text, canonical: Option<Text>, name: Text, line: Option<usize>, col: Option<usize>, incoming: bool)
    requires
        idx.wf(),
    ensures
        queries::calls(idx, file, canonical, name, line, col, incoming) matches Ok(edges) ==> exists|
            module: OpenedView,
            i: int,
        | {
            let key = #[trigger] model::callable_key_of(module.name, module.info.functions[i]);
            let listed = tracing::edges_listed(idx, key, incoming);
            &&& targets::module_in(idx, file, canonical) == Ok::<OpenedView, QueryErrorView>(module)
            &&& is_pointed_at(module.info.functions, name, line, col, i)
            &&& edges.len() == listed.len()
            &&& forall|e: int| 0 <= e < listed.len() ==> edges.contains((#[trigger] listed[e]).1)
            &&& forall|edge: EdgeView| #[trigger]
                edges.contains(edge) ==> exists|e: int| 0 <= e < listed.len() && (#[trigger] listed[e]).1 == edge
            &&& forall|k: int, l: int|
                0 <= k <= l < edges.len() ==> in_file_order(
                    ((#[trigger] edges[k]).item.path, edges[k].item.line, edges[k].item.col),
                    ((#[trigger] edges[l]).item.path, edges[l].item.line, edges[l].item.col),
                )
        },
        queries::calls(idx, file, canonical, name, line, col, incoming) is Err ==> targets::module_in(
            idx,
            file,
            canonical,
        ) is Err || (targets::module_in(idx, file, canonical) matches Ok(module) && targets::function_target(
            module,
            name,
            line,
            col,
        ) is Err),
{
    if let Ok(module) = targets::module_in(idx, file, canonical) {
        law_functions_are_picked_by_position(module, name, line, col);
        if let Ok(function) = targets::function_target(module, name, line, col) {
            let i = choose|i: int|
                is_pointed_at(module.info.functions, name, line, col, i) && function
                    == #[trigger] module.info.functions[i];
            lemma_edges(idx, model::callable_key_of(module.name, module.info.functions[i]), incoming);
        }
    }
}

proof fn lemma_edges(idx: IndexView, key: Text, incoming: bool)
    ensures
        ({
            let listed = tracing::edges_listed(idx, key, incoming);
            let edges = calltree::listed_edges(idx, key, incoming);
            &&& edges.len() == listed.len()
            &&& forall|e: int| 0 <= e < listed.len() ==> edges.contains((#[trigger] listed[e]).1)
            &&& forall|edge: EdgeView| #[trigger]
                edges.contains(edge) ==> exists|e: int| 0 <= e < listed.len() && (#[trigger] listed[e]).1 == edge
            &&& forall|k: int, l: int|
                0 <= k <= l < edges.len() ==> in_file_order(
                    ((#[trigger] edges[k]).item.path, edges[k].item.line, edges[k].item.col),
                    ((#[trigger] edges[l]).item.path, edges[l].item.line, edges[l].item.col),
                )
        }),
{
    let listed = tracing::edges_listed(idx, key, incoming);
    let bare = listed.map_values(|edge: (Text, EdgeView)| edge.1);
    let order = |edge: EdgeView| calltree::edge_key(edge);
    let edges = calltree::listed_edges(idx, key, incoming);
    assert(bare =~= calltree::edges_for(idx, key, incoming));
    sorting::law_sorted_is_an_ordered_rearrangement(bare, order);
    assert forall|e: int| 0 <= e < listed.len() implies edges.contains((#[trigger] listed[e]).1) by {
        assert(bare[e] == listed[e].1);
        assert(bare.contains(bare[e]));
        sorting::lemma_sorted_contains(bare, order, bare[e]);
    }
    assert forall|edge: EdgeView| #[trigger] edges.contains(edge) implies exists|e: int|
        0 <= e < listed.len() && (#[trigger] listed[e]).1 == edge by {
        sorting::lemma_sorted_contains(bare, order, edge);
        let e = bare.index_of(edge);
        assert(listed[e].1 == edge);
    }
    assert forall|k: int, l: int| 0 <= k <= l < edges.len() implies in_file_order(
        ((#[trigger] edges[k]).item.path, edges[k].item.line, edges[k].item.col),
        ((#[trigger] edges[l]).item.path, edges[l].item.line, edges[l].item.col),
    ) by {
        assert(sorting::key_le(order(edges[k]), order(edges[l])));
        lemma_file_order(
            (edges[k].item.path, edges[k].item.line, edges[k].item.col),
            (edges[l].item.path, edges[l].item.line, edges[l].item.col),
        );
    }
}

/// The members asked for are those of the class in the file, all of them.
pub proof fn law_members_are_those_of_the_class(idx: IndexView, file: Text, canonical: Option<Text>, name: Text)
    ensures
        queries::class_members(idx, file, canonical, name) matches Ok(members) ==> exists|module: OpenedView, class: ClassView|
            targets::module_in(idx, file, canonical) == Ok::<OpenedView, QueryErrorView>(module) && #[trigger] is_asked_for(
                module.info,
                name,
                class,
            ) && members.file == module.info.path && members.class_name == class.name && members.methods
                == class.methods && members.fields == class.fields,
        queries::class_members(idx, file, canonical, name) is Err ==> targets::module_in(idx, file, canonical) is Err || (
        targets::module_in(idx, file, canonical) matches Ok(module) && targets::class_target(module, name) is Err),
{
    if let Ok(module) = targets::module_in(idx, file, canonical) {
        law_classes_are_picked_by_name(module, name);
    }
}

/// The members asked for by a type, as it is written in a file, are those of the class that the type
/// stands for, and there are some exactly where it stands for a class at hand.
pub proof fn law_types_are_resolved_to_members(idx: IndexView, file: Text, canonical: Option<Text>, raw: Text)
    requires
        !raw.contains('='),
    ensures
        targets::module_in(idx, file, canonical) matches Ok(module) ==> match showing::class_behind(
            idx,
            module.info,
            raw,
        ) {
            Some((at, name)) => showing::class_there(idx, at, name) matches Some((info, class))
                && queries::resolved_class_fields(idx, file, canonical, raw) matches Ok(members) && members.file
                == info.path && members.class_name == class.name && members.methods == class.methods && members.fields
                == class.fields,
            None => queries::resolved_class_fields(idx, file, canonical, raw) is Err,
        },
{
}

/// Whether a position lies in a stretch of a source, both ends among it.
pub open spec fn lies_in(range: SourceRange, line: usize, col: usize) -> bool {
    &&& range.start.line < line || (range.start.line == line && range.start.col <= col)
    &&& line < range.end.line || (line == range.end.line && col <= range.end.col)
}

/// How many lines a stretch starts away from a line.
pub open spec fn lines_away(range: SourceRange, line: usize) -> int {
    if range.start.line <= line {
        line - range.start.line
    } else {
        range.start.line - line
    }
}

/// How many columns a stretch is wide.
pub open spec fn columns_wide(range: SourceRange) -> int {
    if range.start.col <= range.end.col {
        range.end.col - range.start.col
    } else {
        0
    }
}

/// Whether a call at the cursor leads to a function.
pub open spec fn is_under_cursor(idx: IndexView, info: ModuleView, function: FunctionView, call: CallView, line: usize, col: usize) -> bool {
    lies_in(call.range, line, col) && callables::callable_in(idx, info, function, call.raw_target) matches Ok(Some(_))
}

/// Whether a reference is to the function that a call leads to.
pub open spec fn is_to_target(idx: IndexView, info: ModuleView, function: FunctionView, call: CallView, reference: ReferenceView) -> bool {
    callables::callable_in(idx, info, function, call.raw_target) matches Ok(Some(callable)) && {
        &&& reference.name == callable.item.name
        &&& reference.path == callable.item.path
        &&& reference.line == callable.item.line
        &&& reference.col == callable.item.col
        &&& reference.kind == callable.item.kind
        &&& reference.external == callable.item.external
    }
}

/// The reference under the cursor is to the function that a call at the cursor leads to, one that
/// starts as few lines away as any other there, and is as narrow as any other that does. There is none
/// only where no call at the cursor leads to a function.
pub proof fn law_the_reference_under_the_cursor(idx: IndexView, file: Text, canonical: Option<Text>, line: usize, col: usize)
    ensures
        queries::callable_reference(idx, file, canonical, line, col) matches Ok(reference) ==> exists|
            module: OpenedView,
            f: int,
            i: int,
        | {
            let functions = module.info.functions;
            let call = #[trigger] module.info.functions[f].calls[i];
            &&& targets::module_in(idx, file, canonical) == Ok::<OpenedView, QueryErrorView>(module)
            &&& 0 <= f < functions.len() && 0 <= i < functions[f].calls.len()
            &&& is_under_cursor(idx, module.info, functions[f], call, line, col)
            &&& is_to_target(idx, module.info, functions[f], call, reference)
            &&& forall|g: int, j: int|
                0 <= g < functions.len() && 0 <= j < functions[g].calls.len() && is_under_cursor(
                    idx,
                    module.info,
                    functions[g],
                    #[trigger] functions[g].calls[j],
                    line,
                    col,
                ) ==> {
                    let other = functions[g].calls[j].range;
                    ||| lines_away(call.range, line) < lines_away(other, line)
                    ||| lines_away(call.range, line) == lines_away(other, line) && columns_wide(call.range)
                        <= columns_wide(other)
                }
        },
        queries::callable_reference(idx, file, canonical, line, col) == Err::<ReferenceView, QueryErrorView>(
            QueryErrorView::NoReference,
        ) && targets::module_in(idx, file, canonical) is Ok ==> {
            let info = (targets::module_in(idx, file, canonical)->Ok_0).info;
            forall|g: int, j: int|
                0 <= g < info.functions.len() && 0 <= j < info.functions[g].calls.len() ==> !is_under_cursor(
                    idx,
                    info,
                    info.functions[g],
                    #[trigger] info.functions[g].calls[j],
                    line,
                    col,
                )
        },
{
    if let Ok(module) = targets::module_in(idx, file, canonical) {
        let info = module.info;
        let functions = info.functions;
        queries::law_the_closest_reference_is_taken(idx, info, functions, line, col);
        if let Ok(found) = queries::best_reference(idx, info, functions, line, col) {
            if let Some(best) = found {
                let (f, i) = choose|f: int, i: int|
                    0 <= f < functions.len() && 0 <= i < functions[f].calls.len() && found == queries::offered(
                        idx,
                        info,
                        functions[f],
                        #[trigger] functions[f].calls[i],
                        line,
                        col,
                    );
                let call = functions[f].calls[i];
                assert(module.info.functions[f].calls[i] == call);
                assert forall|g: int, j: int|
                    0 <= g < functions.len() && 0 <= j < functions[g].calls.len() && is_under_cursor(
                        idx,
                        info,
                        functions[g],
                        #[trigger] functions[g].calls[j],
                        line,
                        col,
                    ) implies {
                    let other = functions[g].calls[j].range;
                    ||| lines_away(call.range, line) < lines_away(other, line)
                    ||| lines_away(call.range, line) == lines_away(other, line) && columns_wide(call.range)
                        <= columns_wide(other)
                } by {
                    assert(queries::offered(idx, info, functions[g], functions[g].calls[j], line, col) is Some);
                }
            } else {
                assert forall|g: int, j: int|
                    0 <= g < functions.len() && 0 <= j < functions[g].calls.len() implies !is_under_cursor(
                    idx,
                    info,
                    functions[g],
                    #[trigger] functions[g].calls[j],
                    line,
                    col,
                ) by {
                    assert(queries::offered(idx, info, functions[g], functions[g].calls[j], line, col) is None);
                }
            }
        }
    }
}

} // verus!
