//! Answers stay what they are when more modules come to hand: an answer that did not ask for a
//! module does not depend on the modules that had not been looked for. And asking again comes to an
//! end: a module that has been looked for is not asked for again.
use vstd::prelude::*;

use crate::callables;
use crate::callables::CallableView;
use crate::errors::FaultView;
use crate::errors::QueryErrorView;
use crate::hierarchy;
use crate::index;
use crate::index::IndexView;
use crate::index::Lookup;
use crate::model::BaseView;
use crate::model::BindingView;
use crate::model::CallView;
use crate::model::ClassView;
use crate::model::FieldView;
use crate::model::FunctionView;
use crate::model::ModuleView;
use crate::relations;
use crate::render;
use crate::resolve;
use crate::resolve::Found;
use crate::text;
use crate::text::Text;
use crate::workspace;

verus! {

/// Whether what one index knows, another one knows too: each module that is at hand or absent.
pub open spec fn extends(a: IndexView, b: IndexView) -> bool {
    &&& a.wf()
    &&& b.wf()
    &&& forall|name: Text| #[trigger] a.lookup(name) !is Unknown ==> b.lookup(name) == a.lookup(name)
}

/// Whether a module is asked for in place of an answer.
pub open spec fn asks<T>(answer: Result<T, FaultView>) -> bool {
    answer matches Err(fault) && fault is NeedsModule
}

/// Whether a module is asked for in place of an answer to a query.
pub open spec fn query_asks<T>(answer: Result<T, QueryErrorView>) -> bool {
    match answer {
        Err(QueryErrorView::Unfollowed(fault)) => fault is NeedsModule,
        _ => false,
    }
}

/// Whether a module that is asked for in place of an answer is one that has not been looked for.
pub open spec fn asks_for_unknown<T>(idx: IndexView, answer: Result<T, FaultView>) -> bool {
    answer matches Err(FaultView::NeedsModule(name)) ==> idx.lookup(name) is Unknown
}

/// Whether a module that is asked for in place of an answer to a query is one that has not been
/// looked for.
pub open spec fn query_asks_for_unknown<T>(idx: IndexView, answer: Result<T, QueryErrorView>) -> bool {
    answer matches Err(QueryErrorView::Unfollowed(FaultView::NeedsModule(name))) ==> idx.lookup(name) is Unknown
}

/// Handing an index a module that had not been looked for extends it, inside the workspace or
/// outside it; and so does noting that the module is absent.
pub proof fn law_supplying_a_module_extends_the_index(idx: IndexView, name: Text, inside: Option<ModuleView>, outside: Option<ModuleView>)
    requires
        idx.wf(),
        idx.lookup(name) is Unknown,
        inside matches Some(module) ==> module.module_name == name && module.imports.dom().finite(),
        outside matches Some(module) ==> module.module_name == name && module.imports.dom().finite(),
    ensures
        extends(idx, workspace::supplied(idx, name, inside, outside)),
{
}

proof fn lemma_find_name(a: IndexView, b: IndexView, module: Text, name: Text, seen: Set<Text>)
    requires
        extends(a, b),
    ensures
        asks(resolve::find_name(a, module, name, seen)) || resolve::find_name(a, module, name, seen)
            == resolve::find_name(b, module, name, seen),
        asks_for_unknown(a, resolve::find_name(a, module, name, seen)),
    decreases resolve::unseen(a, seen), 0nat, 0nat,
{
    index::lemma_lookup(a, module);
    if !seen.contains(module) {
        if let Lookup::Known { module: info, external } = a.lookup(module) {
            if !info.has_class(name) && !info.imports.contains_key(name) {
                resolve::lemma_unseen(a, seen, module);
                lemma_find_in_stars(a, b, info.star_imports, name, seen.insert(module));
            }
        }
    }
}

proof fn lemma_find_in_stars(a: IndexView, b: IndexView, modules: Seq<Text>, name: Text, seen: Set<Text>)
    requires
        extends(a, b),
    ensures
        asks(resolve::find_in_stars(a, modules, name, seen)) || resolve::find_in_stars(
            a,
            modules,
            name,
            seen,
        ) == resolve::find_in_stars(b, modules, name, seen),
        asks_for_unknown(a, resolve::find_in_stars(a, modules, name, seen)),
    decreases resolve::unseen(a, seen), 1nat, modules.len(),
{
    if modules.len() > 0 {
        lemma_find_name(a, b, modules[0], name, seen);
        lemma_find_in_stars(a, b, modules.drop_first(), name, seen);
    }
}

proof fn lemma_follow(a: IndexView, b: IndexView, binding: BindingView, display: Text, followed: Set<(Text, Text)>)
    requires
        extends(a, b),
    ensures
        asks(resolve::follow(a, binding, display, followed)) || resolve::follow(
            a,
            binding,
            display,
            followed,
        ) == resolve::follow(b, binding, display, followed),
        asks_for_unknown(a, resolve::follow(a, binding, display, followed)),
    decreases resolve::unfollowed(a, followed), 1nat,
{
    match binding {
        BindingView::Module { module } => {
            if let Some((package, name)) = text::split_at_last(module, '.') {
                lemma_member(a, b, package, name, display, followed);
            }
        },
        BindingView::ImportedName { module, name } => {
            lemma_find_name(a, b, module, name, Set::empty());
            resolve::lemma_found_site(a, module, name, Set::empty());
            match resolve::find_name(a, module, name, Set::empty()) {
                Ok(Some(Found::Bound { module: at, binding: next })) => {
                    if !followed.contains((at, name)) {
                        resolve::lemma_unfollowed(a, followed, (at, name));
                        lemma_follow(a, b, next, display, followed.insert((at, name)));
                    }
                },
                Ok(None) => {
                    if let Some((package, last)) = text::split_at_last(module + "."@ + name, '.') {
                        lemma_member(a, b, package, last, display, followed);
                    }
                },
                _ => {},
            }
        },
    }
}

proof fn lemma_member(a: IndexView, b: IndexView, module: Text, name: Text, display: Text, followed: Set<(Text, Text)>)
    requires
        extends(a, b),
    ensures
        asks(resolve::member(a, module, name, display, followed)) || resolve::member(
            a,
            module,
            name,
            display,
            followed,
        ) == resolve::member(b, module, name, display, followed),
        asks_for_unknown(a, resolve::member(a, module, name, display, followed)),
    decreases resolve::unfollowed(a, followed), 0nat,
{
    lemma_find_name(a, b, module, name, Set::empty());
    resolve::lemma_found_site(a, module, name, Set::empty());
    if let Ok(Some(Found::Bound { module: at, binding })) = resolve::find_name(
        a,
        module,
        name,
        Set::empty(),
    ) {
        if !followed.contains((at, name)) {
            resolve::lemma_unfollowed(a, followed, (at, name));
            lemma_follow(a, b, binding, display, followed.insert((at, name)));
        }
    }
}

proof fn lemma_named_class(a: IndexView, b: IndexView, module: Text, name: Text, display: Text)
    requires
        extends(a, b),
    ensures
        asks(resolve::named_class(a, module, name, display)) || resolve::named_class(
            a,
            module,
            name,
            display,
        ) == resolve::named_class(b, module, name, display),
        asks_for_unknown(a, resolve::named_class(a, module, name, display)),
{
    lemma_find_name(a, b, module, name, Set::empty());
    if let Ok(Some(Found::Bound { module: at, binding })) = resolve::find_name(
        a,
        module,
        name,
        Set::empty(),
    ) {
        lemma_follow(a, b, binding, display, set![(at, name)]);
    }
}

/// The class that a base stands for does not depend on modules that were not asked for; and no module
/// is asked for that has been looked for.
pub proof fn law_bases_are_stable(a: IndexView, b: IndexView, info: ModuleView, raw: Text)
    requires
        extends(a, b),
    ensures
        asks(resolve::base_in(a, info, raw)) || resolve::base_in(a, info, raw) == resolve::base_in(
            b,
            info,
            raw,
        ),
        asks_for_unknown(a, resolve::base_in(a, info, raw)),
{
    let parts = text::split(crate::annotations::type_head(raw), Some('.'));
    let head = parts[0];
    lemma_follow(a, b, info.imports[head], raw, Set::empty());
    lemma_named_class(a, b, info.module_name, head, raw);
    lemma_named_class(a, b, "builtins"@, head, raw);
    let (module, name) = resolve::path_target(
        resolve::bound_module(info.imports[head]),
        parts.drop_first(),
    );
    lemma_member(a, b, module, name, raw, Set::empty());
}

proof fn lemma_named_callable(a: IndexView, b: IndexView, module: Text, name: Text, seen: Set<Text>, followed: Set<(Text, Text)>)
    requires
        extends(a, b),
    ensures
        asks(callables::named_callable(a, module, name, seen, followed))
            || callables::named_callable(a, module, name, seen, followed)
            == callables::named_callable(b, module, name, seen, followed),
        asks_for_unknown(a, callables::named_callable(a, module, name, seen, followed)),
    decreases resolve::unfollowed(a, followed), 0nat, resolve::unseen(a, seen), 0nat, 0nat,
{
    index::lemma_lookup(a, module);
    if !seen.contains(module) {
        if let Lookup::Known { module: info, external } = a.lookup(module) {
            if callables::function_in(module, info, external, None, name) is None {
                if info.imports.contains_key(name) {
                    if !followed.contains((module, name)) {
                        resolve::lemma_unfollowed(a, followed, (module, name));
                        lemma_bound_callable(
                            a,
                            b,
                            info.imports[name],
                            followed.insert((module, name)),
                        );
                    }
                } else {
                    resolve::lemma_unseen(a, seen, module);
                    lemma_callable_in_stars(
                        a,
                        b,
                        info.star_imports,
                        name,
                        seen.insert(module),
                        followed,
                    );
                }
            }
        }
    }
}

proof fn lemma_callable_in_stars(a: IndexView, b: IndexView, modules: Seq<Text>, name: Text, seen: Set<Text>, followed: Set<(Text, Text)>)
    requires
        extends(a, b),
    ensures
        asks(callables::callable_in_stars(a, modules, name, seen, followed))
            || callables::callable_in_stars(a, modules, name, seen, followed)
            == callables::callable_in_stars(b, modules, name, seen, followed),
        asks_for_unknown(a, callables::callable_in_stars(a, modules, name, seen, followed)),
    decreases
        resolve::unfollowed(a, followed),
        0nat,
        resolve::unseen(a, seen),
        1nat,
        modules.len(),
{
    if modules.len() > 0 {
        lemma_named_callable(a, b, modules[0], name, seen, followed);
        lemma_callable_in_stars(a, b, modules.drop_first(), name, seen, followed);
    }
}

proof fn lemma_bound_callable(a: IndexView, b: IndexView, binding: BindingView, followed: Set<(Text, Text)>)
    requires
        extends(a, b),
    ensures
        asks(callables::bound_callable(a, binding, followed)) || callables::bound_callable(
            a,
            binding,
            followed,
        ) == callables::bound_callable(b, binding, followed),
        asks_for_unknown(a, callables::bound_callable(a, binding, followed)),
    decreases resolve::unfollowed(a, followed), 1nat, 0nat, 0nat, 0nat,
{
    match binding {
        BindingView::Module { module } => {
            lemma_last_function(a, b, module);
        },
        BindingView::ImportedName { module, name } => {
            lemma_named_callable(a, b, module, name, Set::empty(), followed);
            lemma_last_function(a, b, module + "."@ + name);
        },
    }
}

proof fn lemma_last_function(a: IndexView, b: IndexView, path: Text)
    requires
        extends(a, b),
    ensures
        asks(callables::last_function(a, path)) || callables::last_function(a, path)
            == callables::last_function(b, path),
        asks_for_unknown(a, callables::last_function(a, path)),
{
    if let Some((module, name)) = text::split_at_last(path, '.') {
        assert(a.lookup(module) is Unknown || b.lookup(module) == a.lookup(module));
    }
}

proof fn lemma_method_of(a: IndexView, b: IndexView, module: Text, class: Text, name: Text, path: Set<(Text, Text)>)
    requires
        extends(a, b),
    ensures
        asks(callables::method_of(a, module, class, name, path)) || callables::method_of(
            a,
            module,
            class,
            name,
            path,
        ) == callables::method_of(b, module, class, name, path),
        asks_for_unknown(a, callables::method_of(a, module, class, name, path)),
    decreases callables::unvisited(a, path), 0nat, 0nat,
{
    index::lemma_lookup(a, module);
    if !path.contains((module, class)) {
        if let Lookup::Known { module: info, external } = a.lookup(module) {
            if let Some(found) = info.class_named(class) {
                callables::lemma_unvisited(a, path, (module, class));
                lemma_method_of_bases(
                    a,
                    b,
                    info,
                    found.bases,
                    name,
                    path.insert((module, class)),
                );
            }
        }
    }
}

proof fn lemma_method_of_bases(a: IndexView, b: IndexView, info: ModuleView, bases: Seq<Text>, name: Text, path: Set<(Text, Text)>)
    requires
        extends(a, b),
    ensures
        asks(callables::method_of_bases(a, info, bases, name, path)) || callables::method_of_bases(
            a,
            info,
            bases,
            name,
            path,
        ) == callables::method_of_bases(b, info, bases, name, path),
        asks_for_unknown(a, callables::method_of_bases(a, info, bases, name, path)),
    decreases callables::unvisited(a, path), 1nat, bases.len(),
{
    if bases.len() > 0 {
        law_bases_are_stable(a, b, info, bases[0]);
        match resolve::base_in(a, info, bases[0]) {
            Ok(BaseView::Workspace { module, class_name, .. }) => {
                lemma_method_of(a, b, module, class_name, name, path);
            },
            Ok(BaseView::External { module, class_name, .. }) => {
                lemma_method_of(a, b, module, class_name, name, path);
            },
            _ => {},
        }
        lemma_method_of_bases(a, b, info, bases.drop_first(), name, path);
    }
}

proof fn lemma_callable_at(a: IndexView, b: IndexView, module: Text, tail: Seq<Text>)
    requires
        extends(a, b),
    ensures
        asks(callables::callable_at(a, module, tail)) || callables::callable_at(a, module, tail)
            == callables::callable_at(b, module, tail),
        asks_for_unknown(a, callables::callable_at(a, module, tail)),
{
    assert(a.lookup(module) is Unknown || b.lookup(module) == a.lookup(module));
    if tail.len() == 2 {
        lemma_method_of(a, b, module, tail[0], tail[1], Set::empty());
    }
}

/// The function that a call leads to does not depend on modules that were not asked for; and no
/// module is asked for that has been looked for.
pub proof fn law_callables_are_stable(a: IndexView, b: IndexView, info: ModuleView, function: FunctionView, raw: Text)
    requires
        extends(a, b),
    ensures
        asks(callables::callable_in(a, info, function, raw)) || callables::callable_in(
            a,
            info,
            function,
            raw,
        ) == callables::callable_in(b, info, function, raw),
        asks_for_unknown(a, callables::callable_in(a, info, function, raw)),
{
    let parts = text::split(raw, Some('.'));
    let head = parts[0];
    let tail = parts.drop_first();
    lemma_bound_callable(a, b, info.imports[head], Set::empty());
    lemma_named_callable(a, b, info.module_name, head, Set::empty(), Set::empty());
    if tail.len() == 1 {
        lemma_method_of(a, b, info.module_name, head, tail[0], Set::empty());
        if let Some(class) = function.class_name {
            lemma_method_of(a, b, info.module_name, class, tail[0], Set::empty());
        }
    }
    lemma_callable_at(a, b, resolve::bound_module(info.imports[head]), tail);
    lemma_callable_at(a, b, head, tail);
}

/// The tree above a class does not depend on modules that were not asked for; and no module is asked
/// for that has been looked for.
pub proof fn law_hierarchies_are_stable(a: IndexView, b: IndexView, module: Text, class: Text, display: Text, path: Set<Text>, failed: Set<Text>)
    requires
        extends(a, b),
    ensures
        query_asks(hierarchy::class_node(a, module, class, display, path, failed).0)
            || hierarchy::class_node(a, module, class, display, path, failed)
            == hierarchy::class_node(b, module, class, display, path, failed),
        query_asks_for_unknown(a, hierarchy::class_node(a, module, class, display, path, failed).0),
    decreases hierarchy::off_path(a, path), 0nat, 0nat,
{
    let key = crate::model::class_key_of(module, class);
    index::lemma_lookup(a, module);
    if !path.contains(key) && !failed.contains(key) {
        if let Lookup::Known { module: info, external } = a.lookup(module) {
            if let Some(found) = info.class_named(class) {
                hierarchy::lemma_off_path(a, path, module, class);
                lemma_base_nodes(a, b, info, found.bases, path.insert(key), failed);
                let (nodes, after) = hierarchy::base_nodes(
                    a,
                    info,
                    found.bases,
                    path.insert(key),
                    failed,
                );
                law_hierarchies_are_stable(
                    a,
                    b,
                    "builtins"@,
                    "object"@,
                    "object"@,
                    path.insert(key),
                    after,
                );
            }
        }
    }
}

proof fn lemma_base_nodes(a: IndexView, b: IndexView, info: ModuleView, bases: Seq<Text>, path: Set<Text>, failed: Set<Text>)
    requires
        extends(a, b),
    ensures
        query_asks(hierarchy::base_nodes(a, info, bases, path, failed).0) || hierarchy::base_nodes(
            a,
            info,
            bases,
            path,
            failed,
        ) == hierarchy::base_nodes(b, info, bases, path, failed),
        query_asks_for_unknown(a, hierarchy::base_nodes(a, info, bases, path, failed).0),
    decreases hierarchy::off_path(a, path), 1nat, bases.len(),
{
    if bases.len() > 0 {
        lemma_base_nodes(a, b, info, bases.drop_last(), path, failed);
        let (before, held) = hierarchy::base_nodes(a, info, bases.drop_last(), path, failed);
        law_bases_are_stable(a, b, info, bases.last());
        match resolve::base_in(a, info, bases.last()) {
            Ok(BaseView::Workspace { module, class_name, display }) => {
                law_hierarchies_are_stable(a, b, module, class_name, display, path, held);
            },
            Ok(BaseView::External { module, class_name, display }) => {
                law_hierarchies_are_stable(a, b, module, class_name, display, path, held);
            },
            _ => {},
        }
    }
}

proof fn lemma_field_rows(a: IndexView, b: IndexView, info: ModuleView, fields: Seq<FieldView>)
    requires
        extends(a, b),
    ensures
        asks(render::field_rows(a, info, fields)) || render::field_rows(a, info, fields)
            == render::field_rows(b, info, fields),
        asks_for_unknown(a, render::field_rows(a, info, fields)),
    decreases fields.len(),
{
    if fields.len() > 0 {
        lemma_field_rows(a, b, info, fields.drop_last());
        if let Some(type_ref) = fields.last().type_ref {
            law_bases_are_stable(a, b, info, type_ref);
            match resolve::base_in(a, info, type_ref) {
                Ok(BaseView::Workspace { module, class_name, .. }) => {
                    assert(a.lookup(module) is Unknown || b.lookup(module) == a.lookup(module));
                },
                Ok(BaseView::External { module, class_name, .. }) => {
                    assert(a.lookup(module) is Unknown || b.lookup(module) == a.lookup(module));
                },
                _ => {},
            }
        }
    }
}

/// The rows above a class do not depend on modules that were not asked for; and no module is asked
/// for that has been looked for.
pub proof fn law_supertype_rows_are_stable(a: IndexView, b: IndexView, module: Text, class: Text, path: Set<Text>)
    requires
        extends(a, b),
    ensures
        query_asks(render::super_row(a, module, class, path)) || render::super_row(
            a,
            module,
            class,
            path,
        ) == render::super_row(b, module, class, path),
        query_asks_for_unknown(a, render::super_row(a, module, class, path)),
    decreases hierarchy::off_path(a, path), 0nat, 0nat,
{
    let key = crate::model::class_key_of(module, class);
    index::lemma_lookup(a, module);
    if let Lookup::Known { module: info, external } = a.lookup(module) {
        if let Some(found) = info.class_named(class) {
            if !path.contains(key) {
                hierarchy::lemma_off_path(a, path, module, class);
                lemma_field_rows(a, b, info, found.fields);
                lemma_super_rows(a, b, info, found.bases, path.insert(key));
                law_supertype_rows_are_stable(a, b, "builtins"@, "object"@, path.insert(key));
            }
        }
    }
}

proof fn lemma_super_rows(a: IndexView, b: IndexView, info: ModuleView, bases: Seq<Text>, path: Set<Text>)
    requires
        extends(a, b),
    ensures
        query_asks(render::super_rows(a, info, bases, path)) || render::super_rows(
            a,
            info,
            bases,
            path,
        ) == render::super_rows(b, info, bases, path),
        query_asks_for_unknown(a, render::super_rows(a, info, bases, path)),
    decreases hierarchy::off_path(a, path), 1nat, bases.len(),
{
    if bases.len() > 0 {
        lemma_super_rows(a, b, info, bases.drop_last(), path);
        law_bases_are_stable(a, b, info, bases.last());
        match resolve::base_in(a, info, bases.last()) {
            Ok(BaseView::Workspace { module, class_name, .. }) => {
                law_supertype_rows_are_stable(a, b, module, class_name, path);
            },
            Ok(BaseView::External { module, class_name, .. }) => {
                law_supertype_rows_are_stable(a, b, module, class_name, path);
            },
            _ => {},
        }
    }
}

proof fn lemma_listed_classes(a: IndexView, b: IndexView, pairs: Seq<(Text, Text)>)
    requires
        a.workspace == b.workspace,
    ensures
        render::listed_classes(a, pairs) == render::listed_classes(b, pairs),
    decreases pairs.len(),
{
    if pairs.len() > 0 {
        lemma_listed_classes(a, b, pairs.drop_last());
    }
}

/// The rows below a class do not depend on modules that were not asked for; and no module is asked
/// for that has been looked for.
pub proof fn law_subtype_rows_are_stable(a: IndexView, b: IndexView, module: Text, class: Text, path: Set<Text>, depth: Option<usize>, member_depth: Option<usize>)
    requires
        extends(a, b),
        a.workspace == b.workspace,
        a.subtypes == b.subtypes,
    ensures
        query_asks(render::sub_row(a, module, class, path, depth, member_depth)) || render::sub_row(
            a,
            module,
            class,
            path,
            depth,
            member_depth,
        ) == render::sub_row(b, module, class, path, depth, member_depth),
        query_asks_for_unknown(a, render::sub_row(a, module, class, path, depth, member_depth)),
    decreases hierarchy::off_path(a, path), 0nat, 0nat,
{
    let key = crate::model::class_key_of(module, class);
    index::lemma_lookup(a, module);
    if let Lookup::Known { module: info, external } = a.lookup(module) {
        if let Some(found) = info.class_named(class) {
            if !path.contains(key) {
                hierarchy::lemma_off_path(a, path, module, class);
                lemma_field_rows(a, b, info, found.fields);
                lemma_listed_classes(a, b, render::listed_subtypes(a, module, class));
                lemma_sub_rows(
                    a,
                    b,
                    render::direct_subtypes(a, module, class),
                    path.insert(key),
                    render::less_deep(depth),
                    render::less_deep(member_depth),
                );
            }
        }
    }
}

proof fn lemma_sub_rows(a: IndexView, b: IndexView, below: Seq<(Text, ClassView)>, path: Set<Text>, depth: Option<usize>, member_depth: Option<usize>)
    requires
        extends(a, b),
        a.workspace == b.workspace,
        a.subtypes == b.subtypes,
    ensures
        query_asks(render::sub_rows(a, below, path, depth, member_depth)) || render::sub_rows(
            a,
            below,
            path,
            depth,
            member_depth,
        ) == render::sub_rows(b, below, path, depth, member_depth),
        query_asks_for_unknown(a, render::sub_rows(a, below, path, depth, member_depth)),
    decreases hierarchy::off_path(a, path), 1nat, below.len(),
{
    if below.len() > 0 {
        lemma_sub_rows(a, b, below.drop_last(), path, depth, member_depth);
        let (module, class) = below.last();
        law_subtype_rows_are_stable(a, b, module, class.name, path, depth, member_depth);
    }
}

/// Whether no module is asked for.
pub open spec fn none_asked(faults: Seq<FaultView>) -> bool {
    forall|i: int| 0 <= i < faults.len() ==> !((#[trigger] faults[i]) is NeedsModule)
}

/// Whether the modules that are asked for are ones that have not been looked for.
pub open spec fn all_unknown(idx: IndexView, faults: Seq<FaultView>) -> bool {
    forall|i: int|
        0 <= i < faults.len() ==> ((#[trigger] faults[i]) matches FaultView::NeedsModule(name)
            ==> idx.lookup(name) is Unknown)
}

proof fn lemma_none_asked(front: Seq<FaultView>, tail: Seq<FaultView>)
    requires
        none_asked(front + tail),
    ensures
        none_asked(front),
        none_asked(tail),
{
    assert forall|i: int| 0 <= i < front.len() implies !((#[trigger] front[i]) is NeedsModule) by {
        assert((front + tail)[i] == front[i]);
    }
    assert forall|i: int| 0 <= i < tail.len() implies !((#[trigger] tail[i]) is NeedsModule) by {
        assert((front + tail)[front.len() + i] == tail[i]);
    }
}

proof fn lemma_base_keys(a: IndexView, b: IndexView, info: ModuleView, bases: Seq<Text>)
    requires
        extends(a, b),
    ensures
        none_asked(relations::base_keys(a, info, bases).faults) ==> relations::base_keys(a, info, bases)
            == relations::base_keys(b, info, bases),
        all_unknown(a, relations::base_keys(a, info, bases).faults),
    decreases bases.len(),
{
    if bases.len() > 0 {
        let before = relations::base_keys(a, info, bases.drop_last());
        let faults = relations::base_keys(a, info, bases).faults;
        law_bases_are_stable(a, b, info, bases.last());
        lemma_base_keys(a, b, info, bases.drop_last());
        if let Err(fault) = resolve::base_in(a, info, bases.last()) {
            assert(faults =~= before.faults + seq![fault]);
            assert(faults[before.faults.len() as int] == fault);
            if none_asked(faults) {
                lemma_none_asked(before.faults, seq![fault]);
            }
        }
    }
}

proof fn lemma_classes_subtypes(a: IndexView, b: IndexView, name: Text, info: ModuleView, classes: Seq<ClassView>)
    requires
        extends(a, b),
    ensures
        none_asked(relations::classes_subtypes(a, name, info, classes).faults)
            ==> relations::classes_subtypes(a, name, info, classes) == relations::classes_subtypes(
            b,
            name,
            info,
            classes,
        ),
        all_unknown(a, relations::classes_subtypes(a, name, info, classes).faults),
    decreases classes.len(),
{
    if classes.len() > 0 {
        lemma_classes_subtypes(a, b, name, info, classes.drop_last());
        lemma_base_keys(a, b, info, classes.last().bases);
        if none_asked(relations::classes_subtypes(a, name, info, classes).faults) {
            lemma_none_asked(
                relations::classes_subtypes(a, name, info, classes.drop_last()).faults,
                relations::class_subtypes(a, name, info, classes.last()).faults,
            );
        }
    }
}

proof fn lemma_workspace_subtypes(a: IndexView, b: IndexView, modules: Seq<Text>)
    requires
        extends(a, b),
        a.workspace == b.workspace,
    ensures
        none_asked(relations::workspace_subtypes(a, modules).faults) ==> relations::workspace_subtypes(
            a,
            modules,
        ) == relations::workspace_subtypes(b, modules),
        all_unknown(a, relations::workspace_subtypes(a, modules).faults),
    decreases modules.len(),
{
    if modules.len() > 0 {
        let name = modules.last();
        let info = a.workspace[name];
        lemma_workspace_subtypes(a, b, modules.drop_last());
        lemma_classes_subtypes(a, b, name, info, info.classes);
        if none_asked(relations::workspace_subtypes(a, modules).faults) {
            lemma_none_asked(
                relations::workspace_subtypes(a, modules.drop_last()).faults,
                relations::classes_subtypes(a, name, info, info.classes).faults,
            );
        }
    }
}

proof fn lemma_call_links(a: IndexView, b: IndexView, info: ModuleView, function: FunctionView, caller: CallableView, calls: Seq<CallView>)
    requires
        extends(a, b),
    ensures
        none_asked(relations::call_links(a, info, function, caller, calls).faults)
            ==> relations::call_links(a, info, function, caller, calls) == relations::call_links(
            b,
            info,
            function,
            caller,
            calls,
        ),
        all_unknown(a, relations::call_links(a, info, function, caller, calls).faults),
    decreases calls.len(),
{
    if calls.len() > 0 {
        let before = relations::call_links(a, info, function, caller, calls.drop_last());
        let faults = relations::call_links(a, info, function, caller, calls).faults;
        law_callables_are_stable(a, b, info, function, calls.last().raw_target);
        lemma_call_links(a, b, info, function, caller, calls.drop_last());
        if let Err(fault) = callables::callable_in(a, info, function, calls.last().raw_target) {
            assert(faults =~= before.faults + seq![fault]);
            assert(faults[before.faults.len() as int] == fault);
            if none_asked(faults) {
                lemma_none_asked(before.faults, seq![fault]);
            }
        }
    }
}

proof fn lemma_function_links(a: IndexView, b: IndexView, info: ModuleView, functions: Seq<FunctionView>)
    requires
        extends(a, b),
    ensures
        none_asked(relations::function_links(a, info, functions).faults)
            ==> relations::function_links(a, info, functions) == relations::function_links(
            b,
            info,
            functions,
        ),
        all_unknown(a, relations::function_links(a, info, functions).faults),
    decreases functions.len(),
{
    if functions.len() > 0 {
        let function = functions.last();
        let caller = relations::caller_of(info, function);
        lemma_function_links(a, b, info, functions.drop_last());
        lemma_call_links(a, b, info, function, caller, function.calls);
        if none_asked(relations::function_links(a, info, functions).faults) {
            lemma_none_asked(
                relations::function_links(a, info, functions.drop_last()).faults,
                relations::call_links(a, info, function, caller, function.calls).faults,
            );
        }
    }
}

proof fn lemma_workspace_links(a: IndexView, b: IndexView, modules: Seq<Text>)
    requires
        extends(a, b),
        a.workspace == b.workspace,
    ensures
        none_asked(relations::workspace_links(a, modules).faults) ==> relations::workspace_links(
            a,
            modules,
        ) == relations::workspace_links(b, modules),
        all_unknown(a, relations::workspace_links(a, modules).faults),
    decreases modules.len(),
{
    if modules.len() > 0 {
        let info = a.workspace[modules.last()];
        lemma_workspace_links(a, b, modules.drop_last());
        lemma_function_links(a, b, info, info.functions);
        if none_asked(relations::workspace_links(a, modules).faults) {
            lemma_none_asked(
                relations::workspace_links(a, modules.drop_last()).faults,
                relations::function_links(a, info, info.functions).faults,
            );
        }
    }
}

/// Who inherits from whom and who calls whom in a workspace does not depend on modules that were
/// not asked for; and no module is asked for that has been looked for.
pub proof fn law_links_are_stable(a: IndexView, b: IndexView)
    requires
        extends(a, b),
        a.workspace == b.workspace,
        a.order == b.order,
    ensures
        none_asked(relations::link_faults(a)) ==> relations::link_faults(a) == relations::link_faults(b)
            && relations::linked(a).subtypes == relations::linked(b).subtypes
            && relations::linked(a).outgoing == relations::linked(b).outgoing
            && relations::linked(a).incoming == relations::linked(b).incoming,
        all_unknown(a, relations::link_faults(a)),
{
    lemma_workspace_subtypes(a, b, a.order);
    lemma_workspace_links(a, b, a.order);
    if none_asked(relations::link_faults(a)) {
        lemma_none_asked(
            relations::workspace_subtypes(a, a.order).faults,
            relations::workspace_links(a, a.order).faults,
        );
    }
}

} // verus!
